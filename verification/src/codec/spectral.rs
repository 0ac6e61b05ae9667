//! Blocks predicted by a spectral program.
use vstd::prelude::*;
use vstd::arithmetic::power2::is_pow2;
use crate::bitstream::{packed_bits, stream_bit, BitSink};
use crate::kernel::budget::{law_block_policy, mvp_policy, policy_verdict, BitBudget, CompressionPolicy};
use crate::kernel::compile::{compile_spectral_key, compiled_spectral, program_for};
use crate::kernel::key::{key_word, program_fault, program_of, MagicKey, SpectralPlan};
use crate::kernel::spectral::{expansion, predicted_bits, synthesise_spectral_bits};
use crate::kernel::topology::{analyze_topology, signature, topology, TopologySignature};
use crate::model::{produced, BlockEncoding, BlockView, SpectralBlock, SpectralView};
use crate::text::outcome;
use crate::varint::{
    ascending, decode_uleb128, encode_uleb128, gap, gap_bytes, lemma_gap_split, lemma_uleb_shape,
    law_uleb_roundtrip, uleb, uleb_at,
};
use crate::words::{bit8, is_power_of_two, le_bytes, lemma_byte_ext};

verus! {

/// The bytes a spectral key predicts.
pub open spec fn predictor_of(raw: u64) -> Result<Seq<u8>, Seq<char>> {
    match program_of(raw) {
        Err(e) => Err(e),
        Ok(p) => Ok(packed_bits(predicted_bits(p))),
    }
}

/// A valid program always expands.
proof fn lemma_valid_program_expands(p: SpectralPlan)
    requires
        program_fault(p) is None,
    ensures
        expansion(p) is Ok,
        p.peaks.len() <= 3,
{
    crate::kernel::key::lemma_sound_peaks(p.peaks, p.bit_len);
}

/// Expands a spectral key into bytes.
pub fn synthesise_spectral_bytes(key: MagicKey) -> (r: Result<Vec<u8>, String>)
    ensures
        outcome(r) == predictor_of(key@),
{
    let program = match key.spectral_program() {
        Ok(p) => p,
        Err(e) => return Err(e),
    };
    proof {
        lemma_valid_program_expands(program@);
    }
    let bits = match synthesise_spectral_bits(&program) {
        Ok(b) => b,
        Err(e) => return Err(e),
    };
    let mut sink = BitSink::new();
    let n: usize = bits.len();
    let ghost want = predicted_bits(program@);
    for i in 0..n
        invariant
            n == bits@.len(),
            want.len() == n,
            forall|k: int|
                0 <= k < n ==> #[trigger] bits@[k] == if want[k] {
                    1u8
                } else {
                    0u8
                },
            sink.wf(),
            sink.bits() =~= want.take(i as int),
    {
        sink.push(bits[i] == 1);
    }
    assert(want.take(n as int) =~= want);
    Ok(sink.finish())
}

/// The positions below `n` at which two byte strings differ.
pub open spec fn differences(a: Seq<u8>, b: Seq<u8>, n: nat) -> Seq<usize>
    decreases n,
{
    if n == 0 {
        Seq::empty()
    } else {
        let front = differences(a, b, (n - 1) as nat);
        if stream_bit(a, n - 1) != stream_bit(b, n - 1) {
            front.push((n - 1) as usize)
        } else {
            front
        }
    }
}

/// The bitwise difference of two byte strings.
pub open spec fn difference_mask(a: Seq<u8>, b: Seq<u8>) -> Seq<u8> {
    Seq::new(a.len(), |k: int| a[k] ^ b[k])
}

/// How `actual` is told from `predictor`: by the gaps between the differing
/// bits or, where that is shorter, by a zero and the difference itself.
pub open spec fn residual_of(actual: Seq<u8>, predictor: Seq<u8>) -> Result<Seq<u8>, Seq<char>> {
    if actual.len() != predictor.len() {
        Err("spectral predictor length does not match the block"@)
    } else {
        let sparse = gap_bytes(differences(actual, predictor, 8 * actual.len()));
        if 1 + actual.len() < sparse.len() {
            Ok(seq![0u8] + difference_mask(actual, predictor))
        } else {
            Ok(sparse)
        }
    }
}

/// The bytes with bit `i` flipped.
pub open spec fn flipped(bytes: Seq<u8>, i: int) -> Seq<u8> {
    bytes.update(i / 8, bytes[i / 8] ^ (1u8 << ((i % 8) as u8)))
}

/// The bytes after the flips told from `at` on, `last` being the bit flipped
/// before.
pub open spec fn flipped_from(
    residual: Seq<u8>,
    at: int,
    last: int,
    bytes: Seq<u8>,
    bit_len: int,
) -> Result<Seq<u8>, Seq<char>>
    decreases residual.len() - at,
{
    if at >= residual.len() {
        Ok(bytes)
    } else {
        match uleb_at(residual, at) {
            Err(e) => Err(e),
            Ok((delta, next)) => if delta == 0 {
                Err("spectral exception delta must be positive"@)
            } else if last + delta >= bit_len {
                Err("spectral exception index is outside the block"@)
            } else {
                flipped_from(residual, next, last + delta, flipped(bytes, last + delta), bit_len)
            },
        }
    }
}

/// What correcting a prediction gives.
pub open spec fn corrected(predictor: Seq<u8>, residual: Seq<u8>, bit_len: int) -> Result<
    Seq<u8>,
    Seq<char>,
> {
    if residual.len() > 0 && residual[0] == 0 {
        if residual.len() - 1 != predictor.len() {
            Err("dense spectral exception bitmap has non-canonical length"@)
        } else {
            Ok(difference_mask(predictor, residual.skip(1)))
        }
    } else {
        flipped_from(residual, 0, -1, predictor, bit_len)
    }
}

pub proof fn lemma_differences(a: Seq<u8>, b: Seq<u8>, n: nat)
    requires
        n <= usize::MAX,
    ensures
        ascending(differences(a, b, n)),
        forall|i: int|
            0 <= i < differences(a, b, n).len() ==> #[trigger] differences(a, b, n)[i] < n,
        forall|p: int|
            0 <= p < n ==> (stream_bit(a, p) != #[trigger] stream_bit(b, p) <==> differences(
                a,
                b,
                n,
            ).contains(p as usize)),
    decreases n,
{
    if n > 0 {
        let m = (n - 1) as nat;
        lemma_differences(a, b, m);
        let front = differences(a, b, m);
        let all = differences(a, b, n);
        assert forall|p: int| 0 <= p < n implies (stream_bit(a, p) != #[trigger] stream_bit(b, p)
            <==> all.contains(p as usize)) by {
            if all.contains(p as usize) {
                let k = choose|k: int| 0 <= k < all.len() && all[k] == p as usize;
                if k < front.len() {
                    assert(front[k] == p as usize);
                }
            }
            if front.contains(p as usize) {
                let k = choose|k: int| 0 <= k < front.len() && front[k] == p as usize;
                assert(all[k] == p as usize);
            }
            if p == m && stream_bit(a, p) != stream_bit(b, p) {
                assert(all[front.len() as int] == p as usize);
            }
        }
    }
}

/// Writes down how `actual` differs from `predictor`.
pub fn encode_spectral_exceptions(actual: &[u8], predictor: &[u8]) -> (r: Result<Vec<u8>, String>)
    requires
        8 * actual@.len() < usize::MAX,
    ensures
        outcome(r) == residual_of(actual@, predictor@),
{
    if actual.len() != predictor.len() {
        return Err("spectral predictor length does not match the block".to_string());
    }
    let n: usize = actual.len();
    let mut sparse: Vec<u8> = Vec::new();
    let mut dense: Vec<u8> = Vec::new();
    let mut known: bool = false;
    let mut last: usize = 0;
    let ghost mut seen: Seq<usize> = Seq::empty();
    for i in 0..n
        invariant
            n == actual@.len() == predictor@.len(),
            8 * n < usize::MAX,
            seen == differences(actual@, predictor@, (8 * i) as nat),
            known == (seen.len() > 0),
            known ==> last == seen.last(),
            known ==> last < 8 * i,
            sparse@ == gap_bytes(seen),
            dense@ =~= difference_mask(actual@, predictor@).take(i as int),
    {
        for j in 0..8usize
            invariant
                n == actual@.len() == predictor@.len(),
                i < n,
                8 * n < usize::MAX,
                seen == differences(actual@, predictor@, (8 * i + j) as nat),
                known == (seen.len() > 0),
                known ==> last == seen.last(),
                known ==> last < 8 * i + j,
                sparse@ == gap_bytes(seen),
        {
            let p: usize = 8 * i + j;
            let x: bool = (actual[i] >> (j as u8)) & 1 == 1;
            let y: bool = (predictor[i] >> (j as u8)) & 1 == 1;
            assert(p / 8 == i && p % 8 == j);
            assert(stream_bit(actual@, p as int) == x);
            assert(stream_bit(predictor@, p as int) == y);
            if x != y {
                let delta: usize = if known {
                    p - last
                } else {
                    p + 1
                };
                encode_uleb128(delta as u64, &mut sparse);
                proof {
                    let next = seen.push(p);
                    assert(next.drop_last() =~= seen);
                    assert(gap(next, seen.len() as int) == delta);
                    seen = next;
                }
                known = true;
                last = p;
            }
        }
        dense.push(actual[i] ^ predictor[i]);
    }
    assert(dense@ =~= difference_mask(actual@, predictor@));
    if n + 1 < sparse.len() {
        let mut out: Vec<u8> = Vec::new();
        out.push(0);
        out.extend_from_slice(dense.as_slice());
        assert(out@ =~= seq![0u8] + difference_mask(actual@, predictor@));
        Ok(out)
    } else {
        Ok(sparse)
    }
}

/// Corrects a prediction.
pub fn apply_spectral_exceptions(predictor: &[u8], residual: &[u8], bit_len: usize) -> (r: Result<
    Vec<u8>,
    String,
>)
    requires
        bit_len <= 8 * predictor@.len(),
    ensures
        outcome(r) == corrected(predictor@, residual@, bit_len as int),
        r matches Ok(out) ==> out@.len() == predictor@.len(),
{
    let n: usize = predictor.len();
    if residual.len() > 0 && residual[0] == 0 {
        if residual.len() - 1 != n {
            return Err("dense spectral exception bitmap has non-canonical length".to_string());
        }
        let mut out: Vec<u8> = Vec::new();
        let ghost want = difference_mask(predictor@, residual@.skip(1));
        for i in 0..n
            invariant
                n == predictor@.len(),
                residual@.len() == n + 1,
                want == difference_mask(predictor@, residual@.skip(1)),
                out@ =~= want.take(i as int),
        {
            out.push(predictor[i] ^ residual[i + 1]);
        }
        assert(want.take(n as int) =~= want);
        return Ok(out);
    }
    let mut out: Vec<u8> = vstd::slice::slice_to_vec(predictor);
    let mut at: usize = 0;
    let mut known: bool = false;
    let mut last: usize = 0;
    while at < residual.len()
        invariant
            at <= residual@.len(),
            out@.len() == predictor@.len(),
            bit_len <= 8 * predictor@.len(),
            corrected(predictor@, residual@, bit_len as int) == flipped_from(
                residual@,
                at as int,
                if known {
                    last as int
                } else {
                    -1
                },
                out@,
                bit_len as int,
            ),
        decreases residual@.len() - at,
    {
        let (delta, next) = match decode_uleb128(residual, at) {
            Ok(p) => p,
            Err(e) => return Err(e),
        };
        if delta == 0 {
            return Err("spectral exception delta must be positive".to_string());
        }
        let index: u128 = if known {
            last as u128 + delta as u128
        } else {
            delta as u128 - 1
        };
        if index >= bit_len as u128 {
            return Err("spectral exception index is outside the block".to_string());
        }
        let i: usize = index as usize;
        let byte: u8 = out[i / 8] ^ (1u8 << ((i % 8) as u8));
        out.set(i / 8, byte);
        known = true;
        last = i;
        at = next;
    }
    Ok(out)
}

/// Flipping a bit changes that bit and no other.
proof fn lemma_flip(bytes: Seq<u8>, i: int, p: int)
    requires
        0 <= i < 8 * bytes.len(),
        0 <= p < 8 * bytes.len(),
    ensures
        stream_bit(flipped(bytes, i), p) == (stream_bit(bytes, p) != (p == i)),
{
    if p / 8 == i / 8 {
        let x = bytes[i / 8];
        let b = (i % 8) as u8;
        let j = (p % 8) as u8;
        assert((((x ^ (1u8 << b)) >> j) & 1u8 == 1u8) == (((x >> j) & 1u8 == 1u8) != (j == b)))
            by (bit_vector)
            requires
                b < 8,
                j < 8,
        ;
    }
}

/// The bytes with the first `k` of the given bits flipped.
spec fn flipped_first(bytes: Seq<u8>, positions: Seq<usize>, k: nat) -> Seq<u8>
    decreases k,
{
    if k == 0 {
        bytes
    } else {
        flipped(flipped_first(bytes, positions, (k - 1) as nat), positions[k - 1] as int)
    }
}

proof fn lemma_flipped_first(bytes: Seq<u8>, positions: Seq<usize>, k: nat, p: int)
    requires
        k <= positions.len(),
        ascending(positions),
        forall|i: int| 0 <= i < positions.len() ==> #[trigger] positions[i] < 8 * bytes.len(),
        0 <= p < 8 * bytes.len() <= usize::MAX,
    ensures
        flipped_first(bytes, positions, k).len() == bytes.len(),
        stream_bit(flipped_first(bytes, positions, k), p) == (stream_bit(bytes, p)
            != positions.take(k as int).contains(p as usize)),
    decreases k,
{
    if k == 0 {
        assert(positions.take(0) =~= Seq::empty());
    } else {
        let m = (k - 1) as nat;
        lemma_flipped_first(bytes, positions, m, p);
        lemma_flip(flipped_first(bytes, positions, m), positions[m as int] as int, p);
        let (a, b) = (positions.take(m as int), positions.take(k as int));
        assert(b =~= a.push(positions[m as int]));
        if a.contains(p as usize) {
            let i = choose|i: int| 0 <= i < a.len() && a[i] == p as usize;
            assert(b[i] == p as usize);
            assert(positions[i] < positions[m as int]);
        }
        if b.contains(p as usize) {
            let i = choose|i: int| 0 <= i < b.len() && b[i] == p as usize;
            if i < m {
                assert(a[i] == p as usize);
            }
        }
        if p == positions[m as int] {
            assert(b[m as int] == p as usize);
        }
    }
}

proof fn lemma_flipped_from(bytes: Seq<u8>, positions: Seq<usize>, bit_len: int, k: int)
    requires
        ascending(positions),
        0 <= k <= positions.len(),
        bit_len < usize::MAX,
        forall|i: int| 0 <= i < positions.len() ==> #[trigger] positions[i] < bit_len,
    ensures
        flipped_from(
            gap_bytes(positions),
            gap_bytes(positions.take(k)).len() as int,
            if k == 0 {
                -1
            } else {
                positions[k - 1] as int
            },
            flipped_first(bytes, positions, k as nat),
            bit_len,
        ) == Ok::<Seq<u8>, Seq<char>>(flipped_first(bytes, positions, positions.len())),
    decreases positions.len() - k,
{
    if k == positions.len() {
        assert(positions.take(k) =~= positions);
    } else {
        let next = positions.take(k + 1);
        assert(next.drop_last() =~= positions.take(k));
        let delta = gap(next, k);
        if k > 0 {
            assert(positions[k - 1] < positions[k]);
        }
        let before = gap_bytes(positions.take(k));
        let tail = lemma_gap_split(positions, k + 1);
        assert(gap_bytes(positions) =~= before + uleb(delta as nat) + tail);
        law_uleb_roundtrip(delta as u64, before, tail);
        lemma_uleb_shape(delta as nat);
        lemma_flipped_from(bytes, positions, bit_len, k + 1);
    }
}

/// Correcting the prediction gives back what the residual was made from.
pub proof fn law_residual_roundtrip(actual: Seq<u8>, predictor: Seq<u8>)
    requires
        actual.len() == predictor.len(),
        8 * actual.len() < usize::MAX,
    ensures
        residual_of(actual, predictor) is Ok,
        corrected(predictor, residual_of(actual, predictor)->Ok_0, 8 * actual.len() as int) == Ok::<
            Seq<u8>,
            Seq<char>,
        >(actual),
{
    let n = 8 * actual.len();
    let d = differences(actual, predictor, n);
    let sparse = gap_bytes(d);
    lemma_differences(actual, predictor, n);
    if 1 + actual.len() < sparse.len() {
        let mask = difference_mask(actual, predictor);
        let residual = seq![0u8] + mask;
        assert(residual.skip(1) =~= mask);
        let back = difference_mask(predictor, mask);
        assert forall|k: int| 0 <= k < actual.len() implies back[k] == actual[k] by {
            let (x, y) = (actual[k], predictor[k]);
            assert(y ^ (x ^ y) == x) by (bit_vector);
        }
        assert(back =~= actual);
    } else {
        lemma_flipped_from(predictor, d, n as int, 0);
        assert(d.take(0) =~= Seq::empty());
        if sparse.len() > 0 {
            // a positive gap never begins with a zero byte
            if d.len() == 0 {
                assert(false);
            }
            let tail = lemma_gap_split(d, 1);
            let first = d.take(1);
            assert(first.drop_last() =~= Seq::empty());
            assert(gap_bytes(first) =~= uleb(gap(first, 0) as nat));
            let v = gap(first, 0) as nat;
            lemma_uleb_shape(v);
            assert(sparse[0] == uleb(v)[0]);
            if uleb(v).len() == 1 {
                assert(uleb(v)[0] == uleb(v).last());
            }
        }
        let out = flipped_first(predictor, d, d.len());
        assert(d.take(d.len() as int) =~= d);
        if actual.len() > 0 {
            lemma_flipped_first(predictor, d, d.len(), 0);
        }
        assert(out.len() == actual.len()) by {
            if actual.len() == 0 {
                assert(d.len() == 0);
            }
        }
        assert forall|k: int| 0 <= k < actual.len() implies out[k] == actual[k] by {
            assert forall|j: int| 0 <= j < 8 implies bit8(out[k], j) == bit8(actual[k], j) by {
                let p = 8 * k + j;
                assert(p / 8 == k && p % 8 == j);
                lemma_flipped_first(predictor, d, d.len(), p);
                assert(stream_bit(out, p) == bit8(out[k], j));
                assert(stream_bit(actual, p) == bit8(actual[k], j));
                assert(stream_bit(actual, p) != stream_bit(predictor, p) <==> d.contains(
                    p as usize,
                ));
            }
            lemma_byte_ext(out[k], actual[k]);
        }
        assert(out =~= actual);
    }
}

/// What decoding a spectral block gives.
pub open spec fn decoded_spectral(b: SpectralView) -> Result<Seq<u8>, Seq<char>> {
    match key_word(b.key) {
        Err(e) => Err(e),
        Ok(raw) => match program_of(raw) {
            Err(e) => Err(e),
            Ok(p) => if p.bit_len != 8 * b.original_len {
                Err("spectral K block size does not match the record"@)
            } else {
                let predictor = packed_bits(predicted_bits(p));
                match corrected(predictor, b.residual, p.bit_len as int) {
                    Err(e) => Err(e),
                    Ok(out) => if residual_of(out, predictor) != Ok::<Seq<u8>, Seq<char>>(
                        b.residual,
                    ) {
                        Err("spectral residual encoding is not canonical"@)
                    } else {
                        Ok(out)
                    },
                }
            },
        },
    }
}

/// Compares byte strings.
pub(crate) fn same_bytes(a: &[u8], b: &[u8]) -> (r: bool)
    ensures
        r == (a@ == b@),
{
    if a.len() != b.len() {
        return false;
    }
    let n: usize = a.len();
    for i in 0..n
        invariant
            n == a@.len() == b@.len(),
            forall|k: int| 0 <= k < i ==> a@[k] == b@[k],
    {
        if a[i] != b[i] {
            return false;
        }
    }
    assert(a@ =~= b@);
    true
}

/// Decodes a spectral block.
pub fn decode_spectral_block(block: &SpectralBlock) -> (r: Result<Vec<u8>, String>)
    ensures
        outcome(r) == decoded_spectral(block@),
{
    let key = match MagicKey::parse(block.key.as_slice()) {
        Ok(k) => k,
        Err(e) => return Err(e),
    };
    let program = match key.spectral_program() {
        Ok(p) => p,
        Err(e) => return Err(e),
    };
    if program.bit_len as u64 != block.original_len as u64 * 8 {
        return Err("spectral K block size does not match the record".to_string());
    }
    let predictor = match synthesise_spectral_bytes(key) {
        Ok(p) => p,
        Err(e) => return Err(e),
    };
    let out = match apply_spectral_exceptions(
        predictor.as_slice(),
        block.residual.as_slice(),
        program.bit_len,
    ) {
        Ok(o) => o,
        Err(e) => return Err(e),
    };
    match encode_spectral_exceptions(out.as_slice(), predictor.as_slice()) {
        Ok(again) => {
            if same_bytes(again.as_slice(), block.residual.as_slice()) {
                Ok(out)
            } else {
                Err("spectral residual encoding is not canonical".to_string())
            }
        },
        Err(e) => Err(e),
    }
}

/// A spectral block is tried on blocks of 64 to 8192 bits, a power of two.
pub open spec fn spectral_applies(block: Seq<u8>) -> bool {
    64 <= 8 * block.len() <= 8192 && is_pow2(8 * block.len() as int)
}

/// The spectral block of a block to which it applies.
pub open spec fn spectral_view(block: Seq<u8>) -> SpectralView {
    let t = signature(block);
    SpectralView {
        original_len: block.len() as u32,
        key: le_bytes(compiled_spectral(t)->Ok_0 as nat, 8),
        residual: residual_of(block, packed_bits(predicted_bits(program_for(t))))->Ok_0,
    }
}

/// What a spectral block costs.
pub open spec fn spectral_budget(block: Seq<u8>, residual_len: nat) -> BitBudget {
    BitBudget {
        source_bits: (8 * block.len()) as u64,
        key_bits: 64,
        crumb_bits: (8 * residual_len) as u64,
        overhead_bits: 88,
    }
}

/// The spectral block, where it applies and pays.
pub open spec fn spectral_block(block: Seq<u8>) -> Option<SpectralView> {
    let view = spectral_view(block);
    if spectral_applies(block) && policy_verdict(
        mvp_policy(),
        spectral_budget(block, view.residual.len()),
    ) == Ok::<bool, Seq<char>>(true) {
        Some(view)
    } else {
        None
    }
}

/// A power of two of at least eight bytes is made of whole words.
pub proof fn lemma_whole_words(n: nat)
    requires
        is_pow2(8 * n as int),
        n >= 8,
    ensures
        n % 8 == 0,
{
    let m = 8 * n as int;
    reveal(is_pow2);
    assert(is_pow2(m / 2) && m / 2 == 4 * n);
    assert(is_pow2(m / 2 / 2) && m / 2 / 2 == 2 * n);
    assert(is_pow2(2 * n as int / 2) && 2 * n as int / 2 == n);
    assert(is_pow2(n as int / 2) && n % 2 == 0);
    assert(is_pow2(n as int / 2 / 2) && (n / 2) % 2 == 0);
    assert(is_pow2(n as int / 2 / 2 / 2) && (n / 2 / 2) % 2 == 0);
}

/// The facts behind a spectral block that applies.
proof fn lemma_spectral_facts(block: Seq<u8>)
    requires
        spectral_applies(block),
    ensures
        topology(block) == Ok::<crate::kernel::topology::Topology, Seq<char>>(signature(block)),
        compiled_spectral(signature(block)) is Ok,
        program_of(compiled_spectral(signature(block))->Ok_0) == Ok::<SpectralPlan, Seq<char>>(
            program_for(signature(block)),
        ),
        packed_bits(predicted_bits(program_for(signature(block)))).len() == block.len(),
        residual_of(block, packed_bits(predicted_bits(program_for(signature(block))))) is Ok,
        spectral_view(block).residual.len() <= block.len() + 1,
{
    lemma_whole_words(block.len());
    crate::kernel::compile::law_block_spectral_key(block);
    let p = program_for(signature(block));
    assert(p.bit_len == 8 * block.len());
    assert(predicted_bits(p).len() == 8 * block.len());
    law_residual_roundtrip(block, packed_bits(predicted_bits(p)));
}

/// The parts of the budget add up to the block as it is written.
pub proof fn law_spectral_budget_is_complete(block: Seq<u8>)
    requires
        spectral_applies(block),
    ensures
        spectral_budget(block, spectral_view(block).residual.len()).spent() == 8
            * crate::codec::wire::block_wire(BlockView::Spectral(spectral_view(block))).len(),
{
    lemma_spectral_facts(block);
    crate::words::lemma_le_bytes_len(compiled_spectral(signature(block))->Ok_0 as nat, 8);
    crate::codec::wire::law_block_size(BlockView::Spectral(spectral_view(block)));
}

/// Encodes a block by a spectral program. A signature that is passed in must
/// be the block's own.
pub fn try_encode_spectral_block(block: &[u8], cached_topology: Option<&TopologySignature>) -> (r:
    Result<Option<BlockEncoding>, String>)
    requires
        cached_topology matches Some(s) ==> s@ == signature(block@),
        8 * block@.len() <= i64::MAX,
    ensures
        produced(
            r,
            match spectral_block(block@) {
                Some(b) => Some(BlockView::Spectral(b)),
                None => None,
            },
        ),
{
    let n: usize = block.len();
    if n < 8 || n > 1024 || !is_power_of_two(n * 8) {
        return Ok(None);
    }
    proof {
        lemma_spectral_facts(block@);
    }
    let compiled = match cached_topology {
        Some(s) => compile_spectral_key(s),
        None => match analyze_topology(block) {
            Ok(s) => compile_spectral_key(&s),
            Err(e) => return Err(e),
        },
    };
    let key = match compiled {
        Ok(k) => k,
        Err(e) => return Err(e),
    };
    let predictor = match synthesise_spectral_bytes(key) {
        Ok(p) => p,
        Err(e) => return Err(e),
    };
    let residual = match encode_spectral_exceptions(block, predictor.as_slice()) {
        Ok(x) => x,
        Err(e) => return Err(e),
    };
    let budget = BitBudget {
        source_bits: (n * 8) as u64,
        key_bits: 64,
        crumb_bits: (residual.len() * 8) as u64,
        overhead_bits: 88,
    };
    match CompressionPolicy::mvp().accepts(budget) {
        Err(e) => Err(e),
        Ok(accepted) => {
            if accepted {
                let bytes = key.serialize();
                let key_bytes = vstd::slice::slice_to_vec(bytes.as_slice());
                Ok(
                    Some(
                        BlockEncoding::Spectral(
                            SpectralBlock { original_len: n as u32, key: key_bytes, residual },
                        ),
                    ),
                )
            } else {
                Ok(None)
            }
        },
    }
}

/// Decoding a spectral block gives back the block it was made from.
pub proof fn law_spectral_roundtrip(block: Seq<u8>)
    requires
        spectral_block(block) is Some,
    ensures
        decoded_spectral(spectral_block(block)->Some_0) == Ok::<Seq<u8>, Seq<char>>(block),
{
    lemma_spectral_facts(block);
    let t = signature(block);
    let p = program_for(t);
    crate::kernel::key::law_key_bytes_roundtrip(compiled_spectral(t)->Ok_0);
    law_residual_roundtrip(block, packed_bits(predicted_bits(p)));
}

/// The residual is the shorter of two: the gaps between the bits that differ
/// from the prediction, or a zero and the difference itself. It is empty exactly
/// where the prediction is right.
pub proof fn law_residual_is_shorter(actual: Seq<u8>, predictor: Seq<u8>)
    requires
        actual.len() == predictor.len(),
        8 * actual.len() < usize::MAX,
    ensures
        ({
            let r = residual_of(actual, predictor)->Ok_0;
            let sparse = gap_bytes(differences(actual, predictor, 8 * actual.len()));
            &&& r.len() <= sparse.len()
            &&& r.len() <= 1 + actual.len()
            &&& r.len() == sparse.len() || r.len() == 1 + actual.len()
            &&& r.len() == 0 <==> actual == predictor
        }),
{
    let n = 8 * actual.len();
    let d = differences(actual, predictor, n);
    lemma_differences(actual, predictor, n);
    if d.len() == 0 {
        assert forall|i: int| 0 <= i < actual.len() implies actual[i] == predictor[i] by {
            assert forall|j: int| 0 <= j < 8 implies bit8(actual[i], j) == bit8(
                predictor[i],
                j,
            ) by {
                assert((8 * i + j) / 8 == i && (8 * i + j) % 8 == j);
                assert(stream_bit(actual, 8 * i + j) == stream_bit(predictor, 8 * i + j));
            }
            lemma_byte_ext(actual[i], predictor[i]);
        }
        assert(actual =~= predictor);
    } else {
        lemma_uleb_shape(gap(d, d.len() - 1) as nat);
        assert(gap_bytes(d).len() > 0);
        if actual == predictor {
            assert(d.contains(d[0]));
            assert(stream_bit(actual, d[0] as int) == stream_bit(predictor, d[0] as int));
        }
    }
}

/// A block has a spectral form exactly where it is of 64 to 8192 bits, a power
/// of two, and at least 256, and the form as it is written is at least a tenth
/// shorter.
pub proof fn law_spectral_form(block: Seq<u8>)
    ensures
        spectral_block(block) is Some <==> {
            &&& 32 <= block.len() <= 1024
            &&& is_pow2(8 * block.len() as int)
            &&& 10 * crate::codec::wire::block_wire(
                BlockView::Spectral(spectral_view(block)),
            ).len() <= 9 * block.len()
        },
        spectral_block(block) matches Some(b) ==> b == spectral_view(block),
{
    if spectral_applies(block) {
        let residual = spectral_view(block).residual.len();
        lemma_spectral_facts(block);
        law_spectral_budget_is_complete(block);
        law_block_policy(spectral_budget(block, residual));
    }
}

} // verus!
