//! The adaptive window encoder.
//!
//! The window starts at 64 bits and doubles up to 4096 bits until the constant
//! and the corrections take less room than the window itself.
use vstd::prelude::*;
use vstd::arithmetic::power2::{is_pow2, lemma2_to64, pow2};
use crate::kernel::operator::{count_set, set_count};
use crate::metagenerator::{derive_meta_k, log2_field, meta_k, unpacked_peak, MetaK};
use crate::varint::{encode_uleb128, law_uleb_roundtrip, uleb, uleb_at};
use crate::words::{
    bits_number, le_bytes, le_value, low_bits, push_le, push_u64, read_le, to_words, words_of,
};

verus! {

/// The smallest window in bits.
pub const MIN_WINDOW_BITS: usize = 64;

/// The largest window in bits.
pub const MAX_WINDOW_BITS: usize = 4096;

/// The bytes of a block besides its corrections: a tag, the constant, and the
/// length of the corrections.
pub const ADAPTIVE_FRAME_BYTES: usize = 13;

/// An encoded window.
#[derive(Clone, Debug, Eq, PartialEq)]
pub struct AdaptiveBlock {
    pub window_bits: usize,
    pub k: MetaK,
    pub v: Vec<u8>,
    pub wire: Vec<u8>,
}

/// An encoded window as mathematical values.
#[verifier::ext_equal]
pub struct WindowView {
    pub window_bits: nat,
    pub raw: u64,
    pub v: Seq<u8>,
    pub wire: Seq<u8>,
}

impl View for AdaptiveBlock {
    type V = WindowView;

    open spec fn view(&self) -> WindowView {
        WindowView {
            window_bits: self.window_bits as nat,
            raw: self.k.raw,
            v: self.v@,
            wire: self.wire@,
        }
    }
}

/// The word whose bits are set where more than half of the words have them
/// set.
pub open spec fn majority(words: Seq<u64>) -> u64 {
    bits_number(Seq::new(64, |b: int| set_count(words, b) > words.len() / 2)) as u64
}

fn majority_word(words: &[u64]) -> (m: u64)
    ensures
        m == majority(words@),
{
    let ghost bits = Seq::new(64, |b: int| set_count(words@, b) > words@.len() / 2);
    let half: usize = words.len() / 2;
    let mut m: u64 = 0;
    let mut b: u64 = 64;
    assert(bits.skip(64) =~= Seq::empty());
    while b > 0
        invariant
            b <= 64,
            half == words@.len() / 2,
            bits == Seq::new(64, |b: int| set_count(words@, b) > words@.len() / 2),
            m == bits_number(bits.skip(b as int)),
        decreases b,
    {
        let ghost tail = bits.skip(b - 1);
        proof {
            assert(tail.skip(1) =~= bits.skip(b as int));
            assert(tail[0] == bits[b - 1]);
            crate::words::lemma_bits_number(tail);
            vstd::arithmetic::power2::lemma2_to64_rest();
            if tail.len() < 64 {
                vstd::arithmetic::power2::lemma_pow2_strictly_increases(tail.len(), 64);
            }
        }
        let set: bool = count_set(words, b - 1) > half;
        m = 2 * m + if set {
            1
        } else {
            0
        };
        b = b - 1;
    }
    assert(bits.skip(0) =~= bits);
    m
}

/// A residual as it is written: eight bytes, with one bit of the last flipped
/// at the pivot.
pub open spec fn residual_bytes(residual: u64, pivot: u64) -> Seq<u8> {
    let plain = le_bytes(residual as nat, 8);
    plain.update(7, plain[7] ^ (1u8 << ((pivot % 8) as u8)))
}

/// Where the last of the first `n` words that differ from the prediction
/// stands, counted from one; zero where there is none.
pub open spec fn last_difference(words: Seq<u64>, predicted: u64, n: nat) -> nat
    decreases n,
{
    if n == 0 {
        0
    } else if words[n - 1] != predicted {
        n
    } else {
        last_difference(words, predicted, (n - 1) as nat)
    }
}

/// The corrections of the first `n` words: for each that differs from the
/// prediction, how far it stands from the one before, and in which bits it
/// differs.
pub open spec fn corrections(words: Seq<u64>, predicted: u64, pivot: u64, n: nat) -> Seq<u8>
    decreases n,
{
    if n == 0 {
        Seq::empty()
    } else {
        let front = corrections(words, predicted, pivot, (n - 1) as nat);
        if words[n - 1] != predicted {
            front + uleb(
                (n - last_difference(words, predicted, (n - 1) as nat)) as nat,
            ) + residual_bytes(words[n - 1] ^ predicted, pivot)
        } else {
            front
        }
    }
}

/// Two words differ exactly where their difference is not zero.
proof fn lemma_difference(a: u64, b: u64)
    ensures
        (a ^ b == 0) == (a == b),
{
    assert((a ^ b == 0) == (a == b)) by (bit_vector);
}

fn build_v(words: &[u64], pivot: u64) -> (out: Vec<u8>)
    ensures
        out@ == corrections(words@, majority(words@), pivot, words@.len()),
{
    let predicted: u64 = majority_word(words);
    let n: usize = words.len();
    let mut out: Vec<u8> = Vec::new();
    let mut last: usize = 0;
    let at: u8 = (pivot % 8) as u8;
    for i in 0..n
        invariant
            n == words@.len(),
            at == pivot % 8,
            last <= i,
            last == last_difference(words@, predicted, i as nat),
            out@ == corrections(words@, predicted, pivot, i as nat),
    {
        let residual: u64 = words[i] ^ predicted;
        proof {
            lemma_difference(words@[i as int], predicted);
        }
        if residual != 0 {
            let ghost front = out@;
            encode_uleb128((i + 1 - last) as u64, &mut out);
            let ghost middle = out@;
            push_u64(&mut out, residual);
            proof {
                crate::words::lemma_le_bytes_len(residual as nat, 8);
            }
            let end: usize = out.len() - 1;
            let byte: u8 = out[end] ^ (1u8 << at);
            out.set(end, byte);
            assert(out@ =~= middle + residual_bytes(residual, pivot));
            last = i + 1;
        }
    }
    out
}

/// A window as it is written.
pub open spec fn window_wire(raw: u64, v: Seq<u8>) -> Seq<u8> {
    seq![0xADu8] + le_bytes(raw as nat, 8) + le_bytes(v.len(), 4) + v
}

fn serialise(k: MetaK, v: &Vec<u8>) -> (out: Vec<u8>)
    ensures
        out@ == window_wire(k.raw, v@),
{
    let mut out: Vec<u8> = Vec::new();
    out.push(0xAD);
    push_u64(&mut out, k.raw);
    push_le(&mut out, v.len() as u64, 4);
    out.extend_from_slice(v.as_slice());
    assert(out@ =~= window_wire(k.raw, v@));
    out
}

/// The pivot of a constant.
pub open spec fn pivot_of(raw: u64, word_count: nat) -> u64 {
    (unpacked_peak(raw, 0).index as int % (64 * word_count) as int) as u64
}

/// The encoded window of a block of `2^log2` bits, if it is shorter than the
/// block.
pub open spec fn window_block(block: Seq<u8>, log2: u8) -> Option<WindowView> {
    let words = words_of(block);
    let raw = meta_k(words, log2);
    let v = corrections(words, majority(words), pivot_of(raw, words.len()), words.len());
    if 13 + v.len() < block.len() {
        Some(WindowView { window_bits: 8 * block.len(), raw, v, wire: window_wire(raw, v) })
    } else {
        None
    }
}

/// Tries one window.
fn try_window(block: &[u8], log2: u8) -> (r: Option<AdaptiveBlock>)
    requires
        6 <= log2 <= 12,
        8 * block@.len() == pow2(log2 as nat),
    ensures
        match r {
            Some(b) => window_block(block@, log2) == Some(b@),
            None => window_block(block@, log2) is None,
        },
{
    proof {
        lemma_window(log2, block@.len());
    }
    let words = to_words(block);
    let k = match derive_meta_k(words.as_slice(), log2) {
        Some(k) => k,
        None => return None,
    };
    let live_bits: u64 = words.len() as u64 * 64;
    let pivot: u64 = (k.primary_walsh_index() as u64) % live_bits;
    let v = build_v(words.as_slice(), pivot);
    if v.len() >= block.len() || ADAPTIVE_FRAME_BYTES >= block.len() - v.len() {
        return None;
    }
    let wire = serialise(k, &v);
    Some(AdaptiveBlock { window_bits: 8 * block.len(), k, v, wire })
}

/// The sizes of a window.
proof fn lemma_window(log2: u8, len: nat)
    requires
        6 <= log2 <= 12,
        8 * len == pow2(log2 as nat),
    ensures
        8 <= len <= 512,
        len % 8 == 0,
        is_pow2((len / 8) as int),
{
    lemma2_to64();
    assert(log2 == 6 || log2 == 7 || log2 == 8 || log2 == 9 || log2 == 10 || log2 == 11 || log2
        == 12);
    reveal(is_pow2);
    assert(is_pow2(1));
    assert(is_pow2(2));
    assert(is_pow2(4));
    assert(is_pow2(8));
    assert(is_pow2(16));
    assert(is_pow2(32));
    assert(is_pow2(64));
}

/// The first window from `2^log2` bits up that is shorter than what it stands
/// for.
pub open spec fn adaptive_from(input: Seq<u8>, log2: u8) -> Option<WindowView>
    decreases 13 - log2,
{
    let bytes = pow2(log2 as nat) / 8;
    if log2 > 12 || input.len() < bytes {
        None
    } else {
        match window_block(input.take(bytes as int), log2) {
            Some(b) => Some(b),
            None => adaptive_from(input, (log2 + 1) as u8),
        }
    }
}

/// Encodes the front of the input with the first window that pays.
pub fn try_encode_adaptive(input: &[u8]) -> (r: Option<AdaptiveBlock>)
    ensures
        match r {
            Some(b) => adaptive_from(input@, 6) == Some(b@),
            None => adaptive_from(input@, 6) is None,
        },
{
    let mut window_bits: usize = MIN_WINDOW_BITS;
    let mut log2: u8 = 6;
    proof {
        lemma2_to64();
    }
    while log2 <= 12
        invariant
            6 <= log2 <= 13,
            window_bits == pow2(log2 as nat),
            adaptive_from(input@, 6) == adaptive_from(input@, log2),
            log2 <= 12 ==> window_bits <= MAX_WINDOW_BITS,
        decreases 13 - log2,
    {
        let window_bytes: usize = window_bits / 8;
        proof {
            lemma2_to64();
            assert(log2 == 6 || log2 == 7 || log2 == 8 || log2 == 9 || log2 == 10 || log2 == 11
                || log2 == 12);
        }
        if input.len() < window_bytes {
            return None;
        }
        let block = vstd::slice::slice_subrange(input, 0, window_bytes);
        assert(block@ =~= input@.take(window_bytes as int));
        match try_window(block, log2) {
            Some(b) => return Some(b),
            None => {},
        }
        window_bits = window_bits * 2;
        log2 = log2 + 1;
    }
    None
}

/// The window that stands at the front of the bytes, and how many bytes it
/// takes.
pub open spec fn window_read(wire: Seq<u8>) -> Result<(WindowView, nat), Seq<char>> {
    if wire.len() < 13 {
        Err("adaptive block: wire too short for frame"@)
    } else if wire[0] != 0xAD {
        Err("adaptive block: bad tag"@)
    } else {
        let raw = le_value(wire.subrange(1, 9)) as u64;
        let end = 13 + le_value(wire.subrange(9, 13));
        if wire.len() < end {
            Err("adaptive block: wire truncated before end of V"@)
        } else {
            Ok(
                (
                    WindowView {
                        window_bits: pow2(log2_field(raw) as nat),
                        raw,
                        v: wire.subrange(13, end as int),
                        wire: wire.take(end as int),
                    },
                    end,
                ),
            )
        }
    }
}

/// Reads an encoded window.
pub fn decode_adaptive(wire: &[u8]) -> (r: Result<(AdaptiveBlock, usize), String>)
    ensures
        match r {
            Ok((b, used)) => window_read(wire@) == Ok::<(WindowView, nat), Seq<char>>(
                (b@, used as nat),
            ),
            Err(e) => window_read(wire@) == Err::<(WindowView, nat), Seq<char>>(e@),
        },
{
    if wire.len() < ADAPTIVE_FRAME_BYTES {
        return Err("adaptive block: wire too short for frame".to_string());
    }
    if wire[0] != 0xAD {
        return Err("adaptive block: bad tag".to_string());
    }
    let k = MetaK { raw: read_le(wire, 1, 8) };
    let v_len: u64 = read_le(wire, 9, 4);
    let room: u64 = (wire.len() - ADAPTIVE_FRAME_BYTES) as u64;
    if room < v_len {
        return Err("adaptive block: wire truncated before end of V".to_string());
    }
    let end: usize = ADAPTIVE_FRAME_BYTES + v_len as usize;
    let v = vstd::slice::slice_to_vec(
        vstd::slice::slice_subrange(wire, ADAPTIVE_FRAME_BYTES, end),
    );
    let own = vstd::slice::slice_to_vec(vstd::slice::slice_subrange(wire, 0, end));
    assert(own@ =~= wire@.take(end as int));
    let window_bits: usize = k.window_bits();
    Ok((AdaptiveBlock { window_bits, k, v, wire: own }, end))
}

/// Reading a written window gives its constant and its corrections back, and
/// uses exactly its bytes, whatever stands behind them.
pub proof fn law_window_wire_roundtrip(raw: u64, v: Seq<u8>, rest: Seq<u8>)
    requires
        v.len() <= u32::MAX,
    ensures
        window_read(window_wire(raw, v) + rest) == Ok::<(WindowView, nat), Seq<char>>(
            (
                WindowView {
                    window_bits: pow2(log2_field(raw) as nat),
                    raw,
                    v,
                    wire: window_wire(raw, v),
                },
                window_wire(raw, v).len(),
            ),
        ),
{
    let own = window_wire(raw, v);
    let all = own + rest;
    lemma2_to64();
    vstd::arithmetic::power2::lemma2_to64_rest();
    crate::words::lemma_le_bytes_len(raw as nat, 8);
    crate::words::lemma_le_bytes_len(v.len(), 4);
    crate::words::lemma_le_roundtrip(raw as nat, 8);
    crate::words::lemma_le_roundtrip(v.len(), 4);
    assert(all.subrange(1, 9) =~= le_bytes(raw as nat, 8));
    assert(all.subrange(9, 13) =~= le_bytes(v.len(), 4));
    assert(all.subrange(13, 13 + v.len() as int) =~= v);
    assert(all.take(own.len() as int) =~= own);
}

/// An encoded window stands for the front of the input, is shorter than what
/// it stands for, and is read back as it was written.
pub proof fn law_window_pays(input: Seq<u8>, log2: u8, rest: Seq<u8>)
    requires
        6 <= log2 <= 13,
        adaptive_from(input, log2) is Some,
    ensures
        ({
            let b = adaptive_from(input, log2)->Some_0;
            &&& b.window_bits <= 8 * input.len()
            &&& b.window_bits <= 4096
            &&& 8 * b.wire.len() < b.window_bits
            &&& b.wire == window_wire(b.raw, b.v)
            &&& window_read(b.wire + rest) == Ok::<(WindowView, nat), Seq<char>>((b, b.wire.len()))
        }),
    decreases 13 - log2,
{
    lemma2_to64();
    assert(log2 == 6 || log2 == 7 || log2 == 8 || log2 == 9 || log2 == 10 || log2 == 11 || log2 == 12
        || log2 == 13);
    let bytes = pow2(log2 as nat) / 8;
    let block = input.take(bytes as int);
    match window_block(block, log2) {
        Some(b) => {
            crate::words::lemma_le_bytes_len(b.raw as nat, 8);
            crate::words::lemma_le_bytes_len(b.v.len(), 4);
            law_window_wire_roundtrip(b.raw, b.v, rest);
            lemma_window(log2, block.len());
            lemma_meta_log2(words_of(block), log2);
        },
        None => {
            law_window_pays(input, (log2 + 1) as u8, rest);
        },
    }
}

/// The constant knows its window.
proof fn lemma_meta_log2(words: Seq<u64>, log2: u8)
    requires
        log2 < 16,
        is_pow2(words.len() as int),
    ensures
        log2_field(meta_k(words, log2)) == log2,
{
    let counts = crate::metagenerator::bit_counts(words);
    crate::fwht::lemma_wht_len(counts);
    let peaks = crate::metagenerator::peaks_of(crate::fwht::wht(counts));
    reveal(is_pow2);
    crate::metagenerator::law_pack_roundtrip(peaks, log2);
}

/// A bit of the majority word is set exactly where more than half of the words
/// have it set.
pub proof fn law_majority(words: Seq<u64>, b: int)
    requires
        0 <= b < 64,
    ensures
        low_bits(majority(words) as nat, 64)[b] == (2 * set_count(words, b) > words.len()),
{
    let bits = Seq::new(64, |b: int| set_count(words, b) > words.len() / 2);
    crate::words::lemma_bits_number(bits);
    vstd::arithmetic::power2::lemma2_to64_rest();
}

/// The words that corrections tell from `at` on, behind those already known:
/// each correction is a number, which tells how many words further on the next
/// one differs from the prediction, and eight bytes, which tell in which bits;
/// one bit of the last byte is turned around by the pivot. All other words are
/// as predicted.
pub open spec fn told_words(
    v: Seq<u8>,
    at: int,
    predicted: u64,
    pivot: u64,
    n: nat,
    known: Seq<u64>,
) -> Option<Seq<u64>>
    decreases v.len() - at,
{
    if at >= v.len() {
        if known.len() > n {
            None
        } else {
            Some(known + Seq::new((n - known.len()) as nat, |k: int| predicted))
        }
    } else {
        match uleb_at(v, at) {
            Err(_) => None,
            Ok((gap, next)) => if gap == 0 || next <= at || next + 8 > v.len() {
                None
            } else {
                let bytes = v.subrange(next, next + 8);
                let plain = bytes.update(7, bytes[7] ^ (1u8 << ((pivot % 8) as u8)));
                let word = (le_value(plain) as u64) ^ predicted;
                told_words(
                    v,
                    next + 8,
                    predicted,
                    pivot,
                    n,
                    known + Seq::new((gap - 1) as nat, |k: int| predicted) + seq![word],
                )
            },
        }
    }
}

/// How many of the first `n` words differ from the prediction.
pub open spec fn differences(words: Seq<u64>, predicted: u64, n: nat) -> nat
    decreases n,
{
    if n == 0 {
        0
    } else {
        differences(words, predicted, (n - 1) as nat) + if words[n - 1] != predicted {
            1nat
        } else {
            0
        }
    }
}

proof fn lemma_last_difference(words: Seq<u64>, predicted: u64, n: nat)
    requires
        n <= words.len(),
    ensures
        last_difference(words, predicted, n) <= n,
        forall|i: int|
            last_difference(words, predicted, n) <= i < n ==> #[trigger] words[i] == predicted,
    decreases n,
{
    if n > 0 {
        lemma_last_difference(words, predicted, (n - 1) as nat);
    }
}

proof fn lemma_corrections_grow(words: Seq<u64>, predicted: u64, pivot: u64, k: nat, n: nat)
    requires
        k <= n <= words.len(),
    ensures
        ({
            let (a, b) = (
                corrections(words, predicted, pivot, k),
                corrections(words, predicted, pivot, n),
            );
            &&& a.len() <= b.len()
            &&& a == b.take(a.len() as int)
        }),
    decreases n - k,
{
    let a = corrections(words, predicted, pivot, k);
    let b = corrections(words, predicted, pivot, n);
    if k == n {
        assert(a =~= b.take(a.len() as int));
    } else {
        let m = (n - 1) as nat;
        lemma_corrections_grow(words, predicted, pivot, k, m);
        let c = corrections(words, predicted, pivot, m);
        assert(c =~= b.take(c.len() as int));
        assert(a =~= b.take(a.len() as int));
    }
}

/// A residual is read back from the bytes it is written as.
proof fn lemma_residual_told(word: u64, predicted: u64, pivot: u64)
    ensures
        ({
            let bytes = residual_bytes(word ^ predicted, pivot);
            let plain = bytes.update(7, bytes[7] ^ (1u8 << ((pivot % 8) as u8)));
            &&& bytes.len() == 8
            &&& (le_value(plain) as u64) ^ predicted == word
        }),
{
    let residual = word ^ predicted;
    let written = le_bytes(residual as nat, 8);
    crate::words::lemma_le_bytes_len(residual as nat, 8);
    vstd::arithmetic::power2::lemma2_to64_rest();
    crate::words::lemma_le_roundtrip(residual as nat, 8);
    let bytes = residual_bytes(residual, pivot);
    let (a, b) = (written[7], 1u8 << ((pivot % 8) as u8));
    assert((a ^ b) ^ b == a && (word ^ predicted) ^ predicted == word) by (bit_vector);
    assert(bytes.update(7, bytes[7] ^ b) =~= written);
}

proof fn lemma_told_from(words: Seq<u64>, predicted: u64, pivot: u64, k: nat)
    requires
        k <= words.len(),
        words.len() <= u64::MAX,
    ensures
        told_words(
            corrections(words, predicted, pivot, words.len()),
            corrections(words, predicted, pivot, k).len() as int,
            predicted,
            pivot,
            words.len(),
            words.take(last_difference(words, predicted, k) as int),
        ) == Some(words),
    decreases words.len() - k,
{
    let n = words.len();
    let v = corrections(words, predicted, pivot, n);
    let front = corrections(words, predicted, pivot, k);
    let last = last_difference(words, predicted, k);
    lemma_last_difference(words, predicted, k);
    if k == n {
        assert(words.take(last as int) + Seq::new((n - last) as nat, |i: int| predicted)
            =~= words);
    } else {
        lemma_told_from(words, predicted, pivot, k + 1);
        if words[k as int] != predicted {
            let word = words[k as int];
            let gap = (k + 1 - last) as u64;
            let digits = uleb(gap as nat);
            let bytes = residual_bytes(word ^ predicted, pivot);
            lemma_residual_told(word, predicted, pivot);
            lemma_corrections_grow(words, predicted, pivot, k + 1, n);
            let here = corrections(words, predicted, pivot, k + 1);
            assert(here == front + digits + bytes);
            let rest = v.skip(here.len() as int);
            assert(v =~= v.take(here.len() as int) + rest);
            assert(v =~= front + digits + (bytes + rest));
            law_uleb_roundtrip(gap, front, bytes + rest);
            crate::varint::lemma_uleb_shape(gap as nat);
            let next = (front.len() + digits.len()) as int;
            assert(v.subrange(next, next + 8) =~= bytes);
            assert(words.take(last as int) + Seq::new((gap - 1) as nat, |i: int| predicted) + seq![
                word,
            ] =~= words.take(k as int + 1));
        }
    }
}

/// The corrections tell the words: with the prediction and the pivot they are
/// read back, every one of them.
pub proof fn law_corrections_tell_words(words: Seq<u64>, predicted: u64, pivot: u64)
    requires
        words.len() <= u64::MAX,
    ensures
        told_words(
            corrections(words, predicted, pivot, words.len()),
            0,
            predicted,
            pivot,
            words.len(),
            Seq::empty(),
        ) == Some(words),
{
    lemma_told_from(words, predicted, pivot, 0);
    assert(words.take(0) =~= Seq::empty());
}

/// The corrections of a window take nine bytes for every word that differs
/// from the prediction, and nothing else.
pub proof fn law_corrections_size(words: Seq<u64>, predicted: u64, pivot: u64, n: nat)
    requires
        n <= words.len(),
        n < 128,
    ensures
        corrections(words, predicted, pivot, n).len() == 9 * differences(words, predicted, n),
    decreases n,
{
    if n > 0 {
        law_corrections_size(words, predicted, pivot, (n - 1) as nat);
        lemma_last_difference(words, predicted, (n - 1) as nat);
        crate::words::lemma_le_bytes_len((words[n - 1] ^ predicted) as nat, 8);
    }
}

/// The front of the input that a window of `2^log2` bits takes in, as words.
pub open spec fn front_words(input: Seq<u8>, log2: nat) -> Seq<u64> {
    words_of(input.take(pow2(log2) as int / 8))
}

/// A window of `2^log2` bits pays: 13 bytes and nine for each word that differs
/// from the majority are fewer than the bytes of the window.
pub open spec fn window_saves(input: Seq<u8>, log2: nat) -> bool {
    let words = front_words(input, log2);
    13 + 9 * differences(words, majority(words), words.len()) < pow2(log2) / 8
}

proof fn lemma_window_saves(input: Seq<u8>, log2: u8)
    requires
        6 <= log2 <= 12,
        pow2(log2 as nat) / 8 <= input.len(),
    ensures
        window_block(input.take(pow2(log2 as nat) as int / 8), log2) is Some <==> window_saves(
            input,
            log2 as nat,
        ),
{
    lemma2_to64();
    assert(log2 == 6 || log2 == 7 || log2 == 8 || log2 == 9 || log2 == 10 || log2 == 11 || log2
        == 12);
    let block = input.take(pow2(log2 as nat) as int / 8);
    let words = words_of(block);
    lemma_window(log2, block.len());
    law_corrections_size(
        words,
        majority(words),
        pivot_of(meta_k(words, log2), words.len()),
        words.len(),
    );
}

/// The window is the first that pays, from `2^from` bits up; there is none
/// exactly where none that the input fills pays. It holds the constant of its
/// words, and its corrections tell the words of the input, given their majority
/// and the place of the strongest peak.
proof fn lemma_first_window(input: Seq<u8>, from: u8)
    requires
        6 <= from <= 13,
    ensures
        match adaptive_from(input, from) {
            None => forall|l: nat|
                from <= l <= 12 && pow2(l) / 8 <= input.len() ==> !#[trigger] window_saves(
                    input,
                    l,
                ),
            Some(b) => exists|log2: nat|
                {
                    &&& from <= log2 <= 12
                    &&& #[trigger] is_window(input, b, log2)
                    &&& forall|l: nat|
                        from <= l < log2 ==> !#[trigger] window_saves(input, l)
                },
        },
    decreases 13 - from,
{
    lemma2_to64();
    if from <= 12 {
        let log2 = from as nat;
        assert(log2 == 6 || log2 == 7 || log2 == 8 || log2 == 9 || log2 == 10 || log2 == 11 || log2
            == 12);
        let bytes = pow2(log2) / 8;
        if input.len() < bytes {
            assert forall|l: nat| from <= l <= 12 && pow2(l) / 8 <= input.len() implies
                !#[trigger] window_saves(input, l) by {
                assert(l == 6 || l == 7 || l == 8 || l == 9 || l == 10 || l == 11 || l == 12);
            }
        } else {
            let block = input.take(bytes as int);
            let words = words_of(block);
            lemma_window_saves(input, from);
            lemma_window(from, block.len());
            match window_block(block, from) {
                Some(b) => {
                    law_corrections_tell_words(
                        words,
                        majority(words),
                        pivot_of(meta_k(words, from), words.len()),
                    );
                    law_corrections_size(
                        words,
                        majority(words),
                        pivot_of(meta_k(words, from), words.len()),
                        words.len(),
                    );
                    assert(is_window(input, b, log2));
                },
                None => {
                    let next = (from + 1) as u8;
                    lemma_first_window(input, next);
                    match adaptive_from(input, next) {
                        Some(b) => {
                            let found = choose|log2: nat|
                                {
                                    &&& next <= log2 <= 12
                                    &&& #[trigger] is_window(input, b, log2)
                                    &&& forall|l: nat|
                                        next <= l < log2 ==> !#[trigger] window_saves(input, l)
                                };
                            assert(is_window(input, b, found));
                            assert forall|l: nat| from <= l < found implies
                                !#[trigger] window_saves(input, l) by {
                                if l > from {
                                    assert(next <= l);
                                }
                            }
                        },
                        None => {
                            assert forall|l: nat|
                                from <= l <= 12 && pow2(l) / 8 <= input.len() implies
                                !#[trigger] window_saves(input, l) by {
                                if l > from {
                                    assert(next <= l);
                                }
                            }
                        },
                    }
                },
            }
        }
    }
}

/// The encoded window stands for the first `2^log2` bits of the input and pays:
/// it holds the constant of their words, and its corrections tell the words,
/// given their majority and the place of the strongest peak.
pub open spec fn is_window(input: Seq<u8>, b: WindowView, log2: nat) -> bool {
    let words = front_words(input, log2);
    let pivot = (unpacked_peak(b.raw, 0).index as int % (64 * words.len()) as int) as u64;
    &&& 6 <= log2 <= 12
    &&& pow2(log2) / 8 <= input.len()
    &&& window_saves(input, log2)
    &&& b.window_bits == pow2(log2)
    &&& words.len() == pow2(log2) / 64
    &&& b.raw == meta_k(words, log2 as u8)
    &&& told_words(b.v, 0, majority(words), pivot, words.len(), Seq::empty()) == Some(words)
    &&& b.v.len() == 9 * differences(words, majority(words), words.len())
    &&& b.wire == window_wire(b.raw, b.v)
}

/// An input is encoded by the first window from 64 to 4096 bits that it fills
/// and that pays, and not at all exactly where none does. The corrections of
/// the encoded window tell all words of the window.
pub proof fn law_first_paying_window(input: Seq<u8>)
    ensures
        match adaptive_from(input, 6) {
            None => forall|l: nat|
                6 <= l <= 12 && pow2(l) / 8 <= input.len() ==> !#[trigger] window_saves(input, l),
            Some(b) => exists|log2: nat|
                {
                    &&& #[trigger] is_window(input, b, log2)
                    &&& forall|l: nat| 6 <= l < log2 ==> !#[trigger] window_saves(input, l)
                },
        },
{
    lemma_first_window(input, 6);
}

} // verus!
