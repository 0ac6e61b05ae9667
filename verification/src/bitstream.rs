//! Fixed-width indices and single bits, packed least significant bit first.
use vstd::prelude::*;
use vstd::arithmetic::power2::pow2;
use crate::text::outcome;
use crate::words::{bit8, byte_of, lemma_byte_ext, lemma_byte_of, lemma_set_bit8};

verus! {

/// Division rounded up.
pub open spec fn ceil_div(value: nat, divisor: nat) -> nat {
    if value == 0 {
        0
    } else {
        (((value - 1) / divisor as int) + 1) as nat
    }
}

/// Divides, rounding up.
pub fn ceil_div_u64(value: u64, divisor: u64) -> (q: u64)
    requires
        divisor > 0 || value == 0,
    ensures
        q == ceil_div(value as nat, divisor as nat),
{
    if value == 0 {
        return 0;
    }
    assert((value - 1) / divisor as int <= value - 1) by (nonlinear_arith)
        requires
            value > 0,
            divisor > 0,
    ;
    ((value - 1) / divisor) + 1
}

/// The number of binary digits of `m`.
pub open spec fn bit_len(m: nat) -> nat
    decreases m,
{
    if m == 0 {
        0
    } else {
        1 + bit_len(m / 2)
    }
}

/// The number of bits an index below `n` needs.
pub open spec fn index_width(n: nat) -> nat {
    if n <= 1 {
        0
    } else {
        bit_len((n - 1) as nat)
    }
}

/// `m` has at most `k` binary digits exactly when it is below `2^k`.
pub proof fn lemma_bit_len(m: nat, k: nat)
    ensures
        bit_len(m) <= k <==> m < pow2(k),
    decreases k,
{
    vstd::arithmetic::power2::lemma2_to64();
    if k == 0 {
    } else {
        vstd::arithmetic::power2::lemma_pow2_unfold(k);
        lemma_bit_len(m / 2, (k - 1) as nat);
        vstd::arithmetic::power2::lemma_pow2_pos((k - 1) as nat);
    }
}

/// The number of bits per index for an alphabet of the given size.
pub fn bit_width_for_cardinality(cardinality: usize) -> (w: u8)
    ensures
        w == index_width(cardinality as nat),
        w <= 64,
{
    if cardinality <= 1 {
        return 0;
    }
    let mut m: usize = cardinality - 1;
    let mut w: u8 = 0;
    proof {
        vstd::arithmetic::power2::lemma2_to64_rest();
        lemma_bit_len(m as nat, 64);
    }
    while m != 0
        invariant
            w + bit_len(m as nat) == bit_len((cardinality - 1) as nat),
            bit_len((cardinality - 1) as nat) <= 64,
        decreases m,
    {
        m = m / 2;
        w = w + 1;
    }
    w
}

/// Bit `p` of a byte stream.
pub open spec fn stream_bit(bytes: Seq<u8>, p: int) -> bool {
    bit8(bytes[p / 8], p % 8)
}

/// The bytes that hold the given bits, the last byte padded with zeros.
pub open spec fn packed_bits(bits: Seq<bool>) -> Seq<u8> {
    Seq::new(
        ceil_div(bits.len(), 8),
        |k: int| byte_of(|j: int| 8 * k + j < bits.len() && bits[8 * k + j]),
    )
}

/// The low `width` bits of every index, one after the other.
pub open spec fn index_bits(indices: Seq<u8>, width: nat) -> Seq<bool>
    decreases indices.len(),
{
    if indices.len() == 0 {
        Seq::empty()
    } else {
        index_bits(indices.drop_last(), width) + Seq::new(width, |j: int| bit8(indices.last(), j))
    }
}

/// The index whose low `width` bits stand at bit `at` of the stream.
pub open spec fn index_at(packed: Seq<u8>, width: int, at: int) -> u8 {
    byte_of(|j: int| j < width && stream_bit(packed, at + j))
}

/// What unpacking `count` indices of `width` bits gives.
pub open spec fn unpacked_indices(packed: Seq<u8>, width: int, count: int) -> Result<
    Seq<u8>,
    Seq<char>,
> {
    if count == 0 {
        Ok(Seq::empty())
    } else if width > 8 && packed.len() > 1 {
        Err("packed breadcrumb width exceeds one byte"@)
    } else if width * count > 8 * packed.len() {
        Err("packed breadcrumb stream is truncated"@)
    } else {
        Ok(Seq::new(count as nat, |i: int| index_at(packed, width, width * i)))
    }
}

/// Bytes being filled bit by bit.
#[derive(Clone, Debug, Default)]
pub struct BitSink {
    bytes: Vec<u8>,
    room: u8,
}

impl BitSink {
    /// The bits written so far.
    pub closed spec fn bits(&self) -> Seq<bool> {
        Seq::new((8 * self.bytes@.len() - self.room) as nat, |p: int| stream_bit(self.bytes@, p))
    }

    pub closed spec fn wf(&self) -> bool {
        &&& self.room < 8
        &&& self.bytes@.len() == 0 ==> self.room == 0
        &&& forall|p: int|
            8 * self.bytes@.len() - self.room <= p < 8 * self.bytes@.len() ==> !#[trigger] stream_bit(
                self.bytes@,
                p,
            )
    }

    /// The bytes are the bits packed.
    proof fn lemma_bytes(self)
        requires
            self.wf(),
        ensures
            self.bytes@ == packed_bits(self.bits()),
    {
        let bits = self.bits();
        assert forall|k: int| 0 <= k < self.bytes@.len() implies self.bytes@[k] == packed_bits(
            bits,
        )[k] by {
            let f = |j: int| 8 * k + j < bits.len() && bits[8 * k + j];
            assert forall|j: int| 0 <= j < 8 implies bit8(self.bytes@[k], j) == bit8(
                byte_of(f),
                j,
            ) by {
                lemma_byte_of(f, j);
                let p = 8 * k + j;
                assert(p / 8 == k && p % 8 == j);
                assert(stream_bit(self.bytes@, p) == bit8(self.bytes@[k], j));
            }
            lemma_byte_ext(self.bytes@[k], byte_of(f));
        }
        assert(self.bytes@ =~= packed_bits(bits));
    }

    pub fn new() -> (sink: Self)
        ensures
            sink.wf(),
            sink.bits() == Seq::<bool>::empty(),
    {
        BitSink { bytes: Vec::new(), room: 0 }
    }

    /// Appends one bit.
    pub fn push(&mut self, bit: bool)
        requires
            old(self).wf(),
        ensures
            final(self).wf(),
            final(self).bits() == old(self).bits().push(bit),
    {
        let ghost before = self.bits();
        if self.room == 0 {
            let ghost prev = self.bytes@;
            self.bytes.push(0u8);
            self.room = 8;
            proof {
                let n = prev.len() as int;
                assert forall|p: int| 0 <= p < 8 * n implies stream_bit(self.bytes@, p)
                    == stream_bit(prev, p) by {
                    assert(self.bytes@[p / 8] == prev[p / 8]);
                }
                assert forall|p: int| 8 * n <= p < 8 * n + 8 implies !#[trigger] stream_bit(
                    self.bytes@,
                    p,
                ) by {
                    lemma_set_bit8(0, 0, (p % 8) as u8);
                    assert(p / 8 == n);
                }
            }
        }
        let ghost wide = self.bytes@;
        let last: usize = self.bytes.len() - 1;
        let at: u8 = 8 - self.room;
        let ghost pos = 8 * last + at;
        if bit {
            let byte: u8 = self.bytes[last] | (1u8 << at);
            self.bytes.set(last, byte);
        }
        self.room = self.room - 1;
        proof {
            assert forall|p: int| 0 <= p < 8 * wide.len() implies stream_bit(self.bytes@, p) == (if p
                == pos {
                bit
            } else {
                stream_bit(wide, p)
            }) by {
                if p / 8 == last {
                    lemma_set_bit8(wide[last as int], at, (p % 8) as u8);
                }
            }
            assert(self.bits() =~= before.push(bit));
        }
    }

    /// Bit `i` of those written.
    pub fn get(&self, i: usize) -> (bit: bool)
        requires
            self.wf(),
            i < self.bits().len(),
        ensures
            bit == self.bits()[i as int],
    {
        let at: u8 = (i % 8) as u8;
        (self.bytes[i / 8] >> at) & 1 == 1
    }

    /// The bytes written, the last one padded with zeros.
    pub fn to_bytes(&self) -> (bytes: Vec<u8>)
        requires
            self.wf(),
        ensures
            bytes@ == packed_bits(self.bits()),
    {
        proof {
            self.lemma_bytes();
        }
        vstd::slice::slice_to_vec(self.bytes.as_slice())
    }

    /// The bytes written, the last one padded with zeros.
    pub fn finish(self) -> (bytes: Vec<u8>)
        requires
            self.wf(),
        ensures
            bytes@ == packed_bits(self.bits()),
    {
        proof {
            self.lemma_bytes();
        }
        self.bytes
    }
}

/// A bit of packed bits is the bit that was packed, and padding is zero.
pub proof fn lemma_packed_bit(bits: Seq<bool>, p: int)
    requires
        0 <= p < 8 * packed_bits(bits).len(),
    ensures
        stream_bit(packed_bits(bits), p) == (p < bits.len() && bits[p]),
{
    let k = p / 8;
    let f = |j: int| 8 * k + j < bits.len() && bits[8 * k + j];
    lemma_byte_of(f, p % 8);
    assert(packed_bits(bits)[k] == byte_of(f));
}

/// Packs the low `bit_width` bits of every index.
pub fn pack_indices(indices: &[u8], bit_width: u8) -> (out: Vec<u8>)
    requires
        bit_width <= 8 || indices@.len() == 0,
    ensures
        out@ == packed_bits(index_bits(indices@, bit_width as nat)),
{
    let mut sink = BitSink::new();
    let n: usize = indices.len();
    for i in 0..n
        invariant
            n == indices@.len(),
            bit_width <= 8 || n == 0,
            sink.wf(),
            sink.bits() == index_bits(indices@.take(i as int), bit_width as nat),
    {
        let value: u8 = indices[i];
        let ghost before = sink.bits();
        for j in 0..bit_width
            invariant
                bit_width <= 8,
                sink.wf(),
                sink.bits() == before + Seq::new(j as nat, |k: int| bit8(value, k)),
        {
            sink.push((value >> j) & 1 == 1);
            assert(Seq::new((j + 1) as nat, |k: int| bit8(value, k)) =~= Seq::new(
                j as nat,
                |k: int| bit8(value, k),
            ).push(bit8(value, j as int)));
        }
        assert(indices@.take(i + 1).drop_last() =~= indices@.take(i as int));
    }
    assert(indices@.take(n as int) =~= indices@);
    sink.finish()
}

/// Unpacks `count` indices of `bit_width` bits each.
///
/// A one-byte index holds at most eight bits, so wider fields are refused.
pub fn unpack_indices(packed: &[u8], bit_width: u8, count: usize) -> (r: Result<Vec<u8>, String>)
    ensures
        outcome(r) == unpacked_indices(packed@, bit_width as int, count as int),
{
    if count == 0 {
        return Ok(Vec::new());
    }
    if bit_width > 8 && packed.len() > 1 {
        return Err("packed breadcrumb width exceeds one byte".to_string());
    }
    assert(bit_width * count <= 255 * count) by (nonlinear_arith)
        requires
            bit_width <= 255,
    ;
    if bit_width as u128 * count as u128 > packed.len() as u128 * 8 {
        return Err("packed breadcrumb stream is truncated".to_string());
    }
    assert(bit_width <= 8) by (nonlinear_arith)
        requires
            count >= 1,
            bit_width * count <= 8 * packed@.len(),
            bit_width > 8 ==> packed@.len() <= 1,
    ;
    let mut out: Vec<u8> = Vec::new();
    let mut byte: usize = 0;
    let mut bit: u8 = 0;
    for i in 0..count
        invariant
            bit_width <= 8,
            bit < 8,
            bit_width * count <= 8 * packed@.len(),
            8 * byte + bit == bit_width * i,
            out@ =~= Seq::new(i as nat, |k: int| index_at(packed@, bit_width as int, bit_width * k)),
    {
        let mut value: u8 = 0;
        proof {
            assert(bit_width * i + bit_width <= bit_width * count) by (nonlinear_arith)
                requires
                    i < count,
            ;
            assert forall|k: int| 0 <= k < 8 implies !#[trigger] bit8(0, k) by {
                lemma_set_bit8(0, 0, k as u8);
            }
        }
        for j in 0..bit_width
            invariant
                bit_width <= 8,
                bit < 8,
                bit_width * i + bit_width <= 8 * packed.len(),
                8 * byte + bit == bit_width * i + j,
                forall|k: int|
                    0 <= k < 8 ==> bit8(value, k) == (k < j && stream_bit(
                        packed@,
                        bit_width * i + k,
                    )),
        {
            let ghost prev = value;
            let set: bool = (packed[byte] >> bit) & 1 == 1;
            if set {
                value = value | (1u8 << j);
            }
            proof {
                let p = bit_width * i + j;
                assert(p / 8 == byte && p % 8 == bit);
                assert(stream_bit(packed@, p) == set);
                assert forall|k: int| 0 <= k < 8 implies bit8(value, k) == (k < j + 1 && stream_bit(
                    packed@,
                    bit_width * i + k,
                )) by {
                    lemma_set_bit8(prev, j, k as u8);
                }
            }
            if bit == 7 {
                bit = 0;
                byte = byte + 1;
            } else {
                bit = bit + 1;
            }
        }
        proof {
            let f = |j: int| j < bit_width && stream_bit(packed@, bit_width * i + j);
            assert forall|k: int| 0 <= k < 8 implies bit8(value, k) == bit8(byte_of(f), k) by {
                lemma_byte_of(f, k);
            }
            lemma_byte_ext(value, byte_of(f));
            assert(bit_width * i + bit_width == bit_width * (i + 1)) by (nonlinear_arith);
        }
        out.push(value);
    }
    Ok(out)
}

/// The bits of the indices, position by position.
pub proof fn lemma_index_bits(indices: Seq<u8>, width: nat)
    requires
        width <= 8,
    ensures
        index_bits(indices, width).len() == width * indices.len(),
        forall|i: int, j: int|
            0 <= i < indices.len() && 0 <= j < width ==> index_bits(indices, width)[width * i + j]
                == #[trigger] bit8(indices[i], j),
    decreases indices.len(),
{
    if indices.len() > 0 {
        let front = indices.drop_last();
        let n = front.len() as int;
        lemma_index_bits(front, width);
        assert(width * n + width == width * (n + 1)) by (nonlinear_arith);
        assert forall|i: int, j: int| 0 <= i < indices.len() && 0 <= j < width implies index_bits(
            indices,
            width,
        )[width * i + j] == #[trigger] bit8(indices[i], j) by {
            if i < n {
                assert(width * i + width <= width * n) by (nonlinear_arith)
                    requires
                        i < n,
                ;
                assert(front[i] == indices[i]);
                assert(0 <= width * i) by (nonlinear_arith)
                    requires
                        0 <= i,
                ;
                assert(bit8(front[i], j) == bit8(indices[i], j));
            }
        }
    } else {
        assert(width * 0 == 0);
    }
}

/// Unpacking gives back the indices that were packed, as long as each fits
/// in the chosen width.
pub proof fn law_pack_unpack(indices: Seq<u8>, width: nat)
    requires
        width <= 8,
        forall|i: int| 0 <= i < indices.len() ==> (#[trigger] indices[i] as nat) < pow2(width),
    ensures
        unpacked_indices(
            packed_bits(index_bits(indices, width)),
            width as int,
            indices.len() as int,
        ) == Ok::<Seq<u8>, Seq<char>>(indices),
{
    let bits = index_bits(indices, width);
    let packed = packed_bits(bits);
    lemma_index_bits(indices, width);
    assert(width * indices.len() >= 0) by (nonlinear_arith);
    if indices.len() > 0 {
        let got = Seq::new(indices.len(), |i: int| index_at(packed, width as int, width * i));
        assert forall|i: int| 0 <= i < indices.len() implies got[i] == indices[i] by {
            let f = |j: int| j < width && stream_bit(packed, width * i + j);
            assert(0 <= width * i && width * i + width <= width * indices.len()) by (nonlinear_arith)
                requires
                    0 <= i < indices.len(),
            ;
            assert forall|j: int| 0 <= j < 8 implies bit8(byte_of(f), j) == bit8(indices[i], j) by {
                lemma_byte_of(f, j);
                if j < width {
                    lemma_packed_bit(bits, width * i + j);
                } else {
                    lemma_high_bits(indices[i], width, j);
                }
            }
            lemma_byte_ext(byte_of(f), indices[i]);
        }
        assert(got =~= indices);
    } else {
        assert(indices =~= Seq::empty());
    }
}

/// A byte below `2^width` has no bit at or above `width`.
proof fn lemma_high_bits(x: u8, width: nat, j: int)
    requires
        x < pow2(width),
        width <= j < 8,
    ensures
        !bit8(x, j),
{
    vstd::arithmetic::power2::lemma2_to64();
    if width < j {
        vstd::arithmetic::power2::lemma_pow2_strictly_increases(width, j as nat);
    }
    vstd::bits::lemma_u8_shr_is_div(x, j as u8);
    let p = pow2(j as nat);
    assert(x as int / p as int == 0) by {
        vstd::arithmetic::div_mod::lemma_basic_div(x as int, p as int);
    }
    assert(0u8 & 1u8 == 0u8) by (bit_vector);
}

/// An index below `n` takes as few bits as tell all of them apart: up to `k`
/// bits exactly where there are no more than `2^k`.
pub proof fn law_index_width_is_least(n: nat, k: nat)
    ensures
        index_width(n) <= k <==> n <= pow2(k),
{
    vstd::arithmetic::power2::lemma_pow2_pos(k);
    if n > 1 {
        lemma_bit_len((n - 1) as nat, k);
    }
}

} // verus!
