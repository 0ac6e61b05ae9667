//! Topology analysis: what a block looks like through its Walsh spectrum, its
//! shifts, its bit density and the parities of its words.
use vstd::prelude::*;
use vstd::arithmetic::power2::is_pow2;
use crate::bitstream::{ceil_div, stream_bit};
use crate::fwht::{
    distance, fwht_inplace, ints, law_ranking_of_spectrum, law_wht_is_walsh_sum, lemma_wht_bound,
    rank_spectrum, strongest, walsh_sum, wht,
};
use crate::kernel::invert::{law_odd_product_is_undone, law_shift_right_is_undone};
use crate::kernel::operator::{binary_peaks, set_count, strongest_binary_word_peaks};
use crate::order::{rank, ranked};
use crate::text::outcome;
use crate::words::{bit8, count_ones, is_power_of_two, le_value, ones, read_le};

verus! {

/// A coefficient of the Walsh spectrum.
#[derive(Clone, Copy, Debug, Eq, PartialEq)]
pub struct WalshPeak {
    pub index: usize,
    pub coefficient: i32,
}

/// How many bits agree with the bits a shift away.
#[derive(Clone, Copy, Debug, Eq, PartialEq)]
pub struct ShiftScore {
    pub shift: usize,
    pub matching_bits: usize,
}

/// A mask whose parity is nearly the same on all words.
#[derive(Clone, Copy, Debug, Eq, PartialEq)]
pub struct WordParityFeature {
    pub mask: u64,
    pub bias: bool,
    pub matching_words: usize,
}

/// Everything the key compilers know about a block.
#[derive(Clone, Debug, Eq, PartialEq)]
pub struct TopologySignature {
    pub bit_len: usize,
    pub walsh_peaks: Vec<WalshPeak>,
    pub shift_scores: Vec<ShiftScore>,
    pub derivative: Vec<u8>,
    pub popcnt_profile: Vec<u8>,
    pub word_parity: WordParityFeature,
    pub fingerprint: u64,
}

/// A signature as mathematical values.
#[verifier::ext_equal]
pub struct Topology {
    pub bit_len: nat,
    pub walsh_peaks: Seq<WalshPeak>,
    pub shift_scores: Seq<ShiftScore>,
    pub derivative: Seq<u8>,
    pub popcnt_profile: Seq<u8>,
    pub word_parity: WordParityFeature,
    pub fingerprint: u64,
}

impl View for TopologySignature {
    type V = Topology;

    open spec fn view(&self) -> Topology {
        Topology {
            bit_len: self.bit_len as nat,
            walsh_peaks: self.walsh_peaks@,
            shift_scores: self.shift_scores@,
            derivative: self.derivative@,
            popcnt_profile: self.popcnt_profile@,
            word_parity: self.word_parity,
            fingerprint: self.fingerprint,
        }
    }
}

/// The bits of a byte string, least significant bit of each byte first.
pub open spec fn lsb_bits(bytes: Seq<u8>) -> Seq<u8> {
    Seq::new(
        8 * bytes.len(),
        |p: int|
            if stream_bit(bytes, p) {
                1u8
            } else {
                0u8
            },
    )
}

/// Spreads bytes into bits.
pub fn bytes_to_bits(bytes: &[u8]) -> (bits: Vec<u8>)
    ensures
        bits@ == lsb_bits(bytes@),
{
    let mut bits: Vec<u8> = Vec::new();
    let n: usize = bytes.len();
    for i in 0..n
        invariant
            n == bytes@.len(),
            bits@ =~= lsb_bits(bytes@).take(8 * i),
    {
        for b in 0..8u8
            invariant
                i < n,
                n == bytes@.len(),
                bits@ =~= lsb_bits(bytes@).take(8 * i + b),
        {
            assert((8 * i + b) / 8 == i && (8 * i + b) % 8 == b);
            bits.push(
                if (bytes[i] >> b) & 1 == 1 {
                    1
                } else {
                    0
                },
            );
        }
    }
    assert(lsb_bits(bytes@).take(8 * n) =~= lsb_bits(bytes@));
    bits
}

/// A mixing permutation of words.
pub open spec fn avalanche(value: u64) -> u64 {
    let a = (value ^ (value >> 30)).wrapping_mul(0xBF58_476D_1CE4_E5B9);
    let b = (a ^ (a >> 27)).wrapping_mul(0x94D0_49BB_1331_11EB);
    b ^ (b >> 31)
}

pub(crate) fn avalanche_word(value: u64) -> (out: u64)
    ensures
        out == avalanche(value),
{
    let a: u64 = (value ^ (value >> 30)).wrapping_mul(0xBF58_476D_1CE4_E5B9);
    let b: u64 = (a ^ (a >> 27)).wrapping_mul(0x94D0_49BB_1331_11EB);
    b ^ (b >> 31)
}

/// Chunk `k` of a byte string cut into pieces of `size` bytes.
pub open spec fn chunk(bytes: Seq<u8>, size: nat, k: int) -> Seq<u8> {
    let lo = k * size;
    let hi = if lo + size <= bytes.len() {
        lo + size
    } else {
        bytes.len() as int
    };
    bytes.subrange(lo, hi)
}

/// The fingerprint state after `k` words.
pub open spec fn fingerprint_state(bytes: Seq<u8>, k: nat) -> u64
    decreases k,
{
    if k == 0 {
        0x6A09_E667_F3BC_C909
    } else {
        let i = (k - 1) as nat;
        let word = (le_value(chunk(bytes, 8, i as int)) as u64) ^ (i as u64).wrapping_mul(
            0x9E37_79B9_7F4A_7C15,
        );
        avalanche(fingerprint_state(bytes, i) ^ avalanche(word))
    }
}

/// The fingerprint of a block.
pub open spec fn fingerprint(bytes: Seq<u8>) -> Result<u64, Seq<char>> {
    if bytes.len() == 0 {
        Err("block fingerprint requires non-empty input"@)
    } else {
        Ok(avalanche(fingerprint_state(bytes, ceil_div(bytes.len(), 8)) ^ (bytes.len() as u64)))
    }
}

/// Digests a block into one word.
pub fn block_fingerprint(bytes: &[u8]) -> (r: Result<u64, String>)
    ensures
        outcome(r) == fingerprint(bytes@),
{
    let n: usize = bytes.len();
    if n == 0 {
        return Err("block fingerprint requires non-empty input".to_string());
    }
    let mut state: u64 = 0x6A09_E667_F3BC_C909;
    let mut at: usize = 0;
    let mut index: u64 = 0;
    while at < n
        invariant
            n == bytes.len(),
            at <= n,
            at == n || at == 8 * index,
            at == n ==> index == ceil_div(n as nat, 8),
            8 * index <= n + 7,
            state == fingerprint_state(bytes@, index as nat),
        decreases n - at,
    {
        let left: usize = n - at;
        let take: usize = if left < 8 {
            left
        } else {
            8
        };
        proof {
            assert(chunk(bytes@, 8, index as int) =~= bytes@.subrange(at as int, at + take));
        }
        let word: u64 = read_le(bytes, at, take) ^ index.wrapping_mul(0x9E37_79B9_7F4A_7C15);
        state = avalanche_word(state ^ avalanche_word(word));
        at = at + take;
        index = index + 1;
    }
    Ok(avalanche_word(state ^ (n as u64)))
}

/// Nothing but zeros and ones.
pub open spec fn are_bits(bits: Seq<u8>) -> bool {
    forall|i: int| 0 <= i < bits.len() ==> #[trigger] bits[i] <= 1
}

fn validate_bits(bits: &[u8]) -> (r: Result<(), String>)
    ensures
        match r {
            Ok(_) => are_bits(bits@),
            Err(e) => !are_bits(bits@) && e@
                == "bit vector contains values other than zero or one"@,
        },
{
    let n: usize = bits.len();
    for i in 0..n
        invariant
            n == bits@.len(),
            forall|k: int| 0 <= k < i ==> #[trigger] bits@[k] <= 1,
    {
        if bits[i] > 1 {
            assert(bits@[i as int] > 1);
            return Err("bit vector contains values other than zero or one".to_string());
        }
    }
    Ok(())
}

/// The derivative of a circular bit vector.
pub open spec fn derivative(bits: Seq<u8>, shift: nat) -> Result<Seq<u8>, Seq<char>> {
    if !are_bits(bits) {
        Err("bit vector contains values other than zero or one"@)
    } else if shift == 0 || shift >= bits.len() {
        Err("derivative shift must be inside the bit vector"@)
    } else {
        Ok(Seq::new(bits.len(), |i: int| bits[i] ^ bits[(i + shift) % bits.len() as int]))
    }
}

/// The place `shift` further on in a ring of `n`.
fn ring_step(i: usize, shift: usize, n: usize) -> (j: usize)
    requires
        i < n,
        shift < n,
    ensures
        j == (i + shift) % n as int,
        j < n,
{
    if i >= n - shift {
        proof {
            vstd::arithmetic::div_mod::lemma_fundamental_div_mod_converse(
                i + shift,
                n as int,
                1,
                i + shift - n,
            );
        }
        i - (n - shift)
    } else {
        proof {
            vstd::arithmetic::div_mod::lemma_small_mod((i + shift) as nat, n as nat);
        }
        i + shift
    }
}

/// Adds, over GF(2), to every bit the bit `shift` places on.
pub fn circular_bit_derivative(bits: &[u8], shift: usize) -> (r: Result<Vec<u8>, String>)
    ensures
        outcome(r) == derivative(bits@, shift as nat),
{
    match validate_bits(bits) {
        Err(e) => return Err(e),
        Ok(_) => {},
    }
    let n: usize = bits.len();
    if n == 0 || shift == 0 || shift >= n {
        return Err("derivative shift must be inside the bit vector".to_string());
    }
    let mut out: Vec<u8> = Vec::new();
    for i in 0..n
        invariant
            n == bits@.len(),
            0 < shift < n,
            out@ =~= Seq::new(i as nat, |k: int| bits@[k] ^ bits@[(k + shift) % n as int]),
    {
        let j: usize = ring_step(i, shift, n);
        out.push(bits[i] ^ bits[j]);
    }
    Ok(out)
}

/// How many of the first `count` bits agree with the bit `shift` places on.
pub open spec fn agreeing(bits: Seq<u8>, shift: nat, count: nat) -> nat
    decreases count,
{
    if count == 0 {
        0
    } else {
        let i = count - 1;
        agreeing(bits, shift, i as nat) + if bits[i] == bits[(i + shift) % bits.len() as int] {
            1nat
        } else {
            0
        }
    }
}

/// The correlation of a circular bit vector with its own shift.
pub open spec fn correlation(bits: Seq<u8>, shift: nat) -> Result<ShiftScore, Seq<char>> {
    if !are_bits(bits) {
        Err("bit vector contains values other than zero or one"@)
    } else if shift == 0 || shift >= bits.len() {
        Err("correlation shift must be inside the bit vector"@)
    } else {
        Ok(
            ShiftScore {
                shift: shift as usize,
                matching_bits: agreeing(bits, shift, bits.len()) as usize,
            },
        )
    }
}

fn count_agreeing(bits: &[u8], shift: usize) -> (count: usize)
    requires
        0 < shift < bits@.len(),
    ensures
        count == agreeing(bits@, shift as nat, bits@.len()),
        count <= bits@.len(),
{
    let n: usize = bits.len();
    let mut count: usize = 0;
    for i in 0..n
        invariant
            n == bits@.len(),
            0 < shift < n,
            count == agreeing(bits@, shift as nat, i as nat),
            count <= i,
    {
        let j: usize = ring_step(i, shift, n);
        if bits[i] == bits[j] {
            count = count + 1;
        }
    }
    count
}

/// Counts the bits that agree with the bit `shift` places on.
pub fn shift_correlation(bits: &[u8], shift: usize) -> (r: Result<ShiftScore, String>)
    ensures
        match r {
            Ok(s) => correlation(bits@, shift as nat) == Ok::<ShiftScore, Seq<char>>(s),
            Err(e) => correlation(bits@, shift as nat) == Err::<ShiftScore, Seq<char>>(e@),
        },
{
    match validate_bits(bits) {
        Err(e) => return Err(e),
        Ok(_) => {},
    }
    let n: usize = bits.len();
    if n == 0 || shift == 0 || shift >= n {
        return Err("correlation shift must be inside the bit vector".to_string());
    }
    Ok(ShiftScore { shift, matching_bits: count_agreeing(bits, shift) })
}

/// The one bits of a byte string.
pub open spec fn byte_ones(bytes: Seq<u8>) -> nat
    decreases bytes.len(),
{
    if bytes.len() == 0 {
        0
    } else {
        byte_ones(bytes.drop_last()) + ones(bytes.last() as nat)
    }
}

/// The density of every window of a byte string.
pub open spec fn density_profile(bytes: Seq<u8>, window: nat) -> Result<Seq<u8>, Seq<char>> {
    if window == 0 {
        Err("popcnt window must be non-zero"@)
    } else if exists|k: int|
        0 <= k < ceil_div(bytes.len(), window) && byte_ones(#[trigger] chunk(bytes, window, k))
            > 255 {
        Err("popcnt window exceeds u8 profile range"@)
    } else {
        Ok(
            Seq::new(
                ceil_div(bytes.len(), window),
                |k: int| byte_ones(chunk(bytes, window, k)) as u8,
            ),
        )
    }
}

proof fn lemma_byte_ones_bound(bytes: Seq<u8>)
    ensures
        byte_ones(bytes) <= 8 * bytes.len(),
    decreases bytes.len(),
{
    if bytes.len() > 0 {
        lemma_byte_ones_bound(bytes.drop_last());
        vstd::arithmetic::power2::lemma2_to64();
        crate::words::lemma_ones_bound(bytes.last() as nat, 8);
    }
}

fn count_byte_ones(bytes: &[u8], at: usize, take: usize) -> (count: u128)
    requires
        at + take <= bytes@.len(),
    ensures
        count == byte_ones(bytes@.subrange(at as int, at + take)),
{
    let mut count: u128 = 0;
    assert(bytes@.subrange(at as int, at as int) =~= Seq::<u8>::empty());
    for i in 0..take
        invariant
            at + take <= bytes.len(),
            count == byte_ones(bytes@.subrange(at as int, at + i)),
            count <= 64 * i,
    {
        let ghost s = bytes@.subrange(at as int, at + i + 1);
        assert(s.drop_last() =~= bytes@.subrange(at as int, at + i));
        count = count + count_ones(bytes[at + i] as u64) as u128;
    }
    count
}

/// Counts the one bits of every window.
pub fn popcnt_profile(bytes: &[u8], window_bytes: usize) -> (r: Result<Vec<u8>, String>)
    ensures
        outcome(r) == density_profile(bytes@, window_bytes as nat),
{
    if window_bytes == 0 {
        return Err("popcnt window must be non-zero".to_string());
    }
    let n: usize = bytes.len();
    let mut out: Vec<u8> = Vec::new();
    let mut at: usize = 0;
    let ghost w = window_bytes as nat;
    let ghost total = ceil_div(n as nat, w);
    assert(0 * w == 0);
    while at < n
        invariant
            n == bytes.len(),
            window_bytes > 0,
            w == window_bytes,
            total == ceil_div(n as nat, w),
            at <= n,
            at < n ==> at == out@.len() * w,
            at == n ==> out@.len() == total,
            out@.len() <= total,
            forall|k: int|
                0 <= k < out@.len() ==> byte_ones(#[trigger] chunk(bytes@, w, k)) <= 255,
            forall|k: int|
                0 <= k < out@.len() ==> #[trigger] out@[k] == byte_ones(chunk(bytes@, w, k)),
        decreases n - at,
    {
        let left: usize = n - at;
        let take: usize = if left < window_bytes {
            left
        } else {
            window_bytes
        };
        let ghost k = out@.len() as int;
        let count: u128 = count_byte_ones(bytes, at, take);
        proof {
            assert(chunk(bytes@, w, k) =~= bytes@.subrange(at as int, at + take));
            lemma_last_chunk(n as nat, w, k as nat);
        }
        if count > 255 {
            return Err("popcnt window exceeds u8 profile range".to_string());
        }
        out.push(count as u8);
        at = at + take;
        assert((k + 1) * w == k * w + w) by (nonlinear_arith);
    }
    proof {
        if n == 0 {
            assert(total == 0);
        }
        assert(out@ =~= Seq::new(total, |k: int| byte_ones(chunk(bytes@, w, k)) as u8));
    }
    Ok(out)
}

/// A chunk that starts inside the string is one of its chunks, and the last
/// one if it reaches the end.
pub proof fn lemma_last_chunk(len: nat, size: nat, k: nat)
    requires
        size > 0,
        k * size < len,
    ensures
        k < ceil_div(len, size),
        k * size + size >= len ==> ceil_div(len, size) == k + 1,
        k * size + size < len ==> k + 1 < ceil_div(len, size),
{
    let q = (len - 1) / size as int;
    let r = (len - 1) % size as int;
    vstd::arithmetic::div_mod::lemma_fundamental_div_mod(len - 1, size as int);
    assert(k <= q) by (nonlinear_arith)
        requires
            k * size <= len - 1,
            len - 1 == size * q + r,
            0 <= r < size,
    ;
    if k * size + size >= len {
        assert(q <= k) by (nonlinear_arith)
            requires
                k * size + size > len - 1,
                len - 1 == size * q + r,
                0 <= r,
        ;
    } else {
        assert(k + 1 <= q) by (nonlinear_arith)
            requires
                k * size + size <= len - 1,
                len - 1 == size * q + r,
                0 <= r < size,
        ;
    }
}

/// How many words have odd parity under a mask.
pub open spec fn odd_words(words: Seq<u64>, mask: u64) -> nat
    decreases words.len(),
{
    if words.len() == 0 {
        0
    } else {
        odd_words(words.drop_last(), mask) + ones((words.last() & mask) as nat) % 2
    }
}

/// The parity feature of a mask.
pub open spec fn parity_feature(words: Seq<u64>, mask: u64) -> WordParityFeature {
    let odd = odd_words(words, mask);
    let even = words.len() - odd;
    WordParityFeature {
        mask,
        bias: odd > even,
        matching_words: (if odd > even {
            odd as int
        } else {
            even
        }) as usize,
    }
}

/// The positions below `n` at which the Walsh row `index` is negative, as a
/// mask.
pub open spec fn row_mask(index: u8, n: nat) -> u64
    decreases n,
{
    if n == 0 {
        0
    } else {
        let position = (n - 1) as u64;
        let odd = (ones((position & (index as u64)) as nat) % 2) as u64;
        row_mask(index, (n - 1) as nat) | (odd << position)
    }
}

/// The masks that are tried: single bits, byte columns, and the Walsh rows of
/// the most biased bits.
pub open spec fn candidate_masks(words: Seq<u64>) -> Seq<u64> {
    Seq::new(64, |bit: int| 1u64 << (bit as u64)) + Seq::new(
        8,
        |bit: int| 0x0101_0101_0101_0101u64 << (bit as u64),
    ) + Seq::new(8, |p: int| row_mask(binary_peaks(words)[p].bit, 64))
}

/// Feature `a` tells more than feature `b`: it matches more words, or has more
/// bits, or is the smaller mask.
pub open spec fn tells_more(a: WordParityFeature, b: WordParityFeature) -> bool {
    ||| a.matching_words > b.matching_words
    ||| a.matching_words == b.matching_words && ones(a.mask as nat) > ones(b.mask as nat)
    ||| a.matching_words == b.matching_words && ones(a.mask as nat) == ones(b.mask as nat) && a.mask
        < b.mask
}

/// No candidate tells more than `f`.
pub open spec fn tells_most(f: WordParityFeature, words: Seq<u64>) -> bool {
    &&& candidate_masks(words).contains(f.mask)
    &&& f.mask != 0
    &&& f == parity_feature(words, f.mask)
    &&& forall|m: u64|
        candidate_masks(words).contains(m) && m != 0 ==> !tells_more(
            #[trigger] parity_feature(words, m),
            f,
        )
}

/// The feature that tells most.
pub open spec fn best_parity(words: Seq<u64>) -> WordParityFeature {
    choose|f: WordParityFeature| tells_most(f, words)
}

fn count_odd(words: &Vec<u64>, mask: u64) -> (count: usize)
    ensures
        count == odd_words(words@, mask),
        count <= words@.len(),
{
    let n: usize = words.len();
    let mut count: usize = 0;
    for i in 0..n
        invariant
            n == words@.len(),
            count == odd_words(words@.take(i as int), mask),
            count <= i,
    {
        assert(words@.take(i + 1).drop_last() =~= words@.take(i as int));
        if count_ones(words[i] & mask) % 2 == 1 {
            count = count + 1;
        }
    }
    assert(words@.take(n as int) =~= words@);
    count
}

fn measure_parity(words: &Vec<u64>, mask: u64) -> (f: WordParityFeature)
    ensures
        f == parity_feature(words@, mask),
{
    let odd: usize = count_odd(words, mask);
    let even: usize = words.len() - odd;
    WordParityFeature {
        mask,
        bias: odd > even,
        matching_words: if odd > even {
            odd
        } else {
            even
        },
    }
}

fn walsh_row_mask(index: u8) -> (mask: u64)
    ensures
        mask == row_mask(index, 64),
{
    let mut mask: u64 = 0;
    for position in 0..64u64
        invariant
            mask == row_mask(index, position as nat),
    {
        let parity: u64 = (count_ones(position & (index as u64)) % 2) as u64;
        mask = mask | (parity << position);
    }
    mask
}

fn collect_masks(words: &Vec<u64>) -> (masks: Vec<u64>)
    requires
        words@.len() > 0,
    ensures
        masks@ == candidate_masks(words@),
{
    let mut masks: Vec<u64> = Vec::new();
    let ghost want = candidate_masks(words@);
    for bit in 0..64u64
        invariant
            want == candidate_masks(words@),
            masks@ =~= want.take(bit as int),
    {
        masks.push(1u64 << bit);
    }
    for bit in 0..8u64
        invariant
            want == candidate_masks(words@),
            masks@ =~= want.take(64 + bit),
    {
        masks.push(0x0101_0101_0101_0101u64 << bit);
    }
    proof {
        crate::order::lemma_ranked(crate::kernel::operator::bit_biases(words@));
    }
    match strongest_binary_word_peaks(words.as_slice(), 8) {
        Err(_) => {},
        Ok(peaks) => {
            for p in 0..8usize
                invariant
                    want == candidate_masks(words@),
                    peaks@.len() == 8,
                    binary_peaks(words@).len() == 64,
                    peaks@ == binary_peaks(words@).take(8),
                    masks@ =~= want.take(72 + p),
            {
                masks.push(walsh_row_mask(peaks[p].bit));
            }
        },
    }
    assert(want.take(80) =~= want);
    masks
}

fn outranks(a: &WordParityFeature, b: &WordParityFeature) -> (r: bool)
    ensures
        r == tells_more(*a, *b),
{
    if a.matching_words != b.matching_words {
        return a.matching_words > b.matching_words;
    }
    let x: u32 = count_ones(a.mask);
    let y: u32 = count_ones(b.mask);
    if x != y {
        return x > y;
    }
    a.mask < b.mask
}

/// Among the candidates there is exactly one feature that tells most.
proof fn lemma_best_parity(f: WordParityFeature, words: Seq<u64>)
    requires
        tells_most(f, words),
    ensures
        f == best_parity(words),
{
    let g = best_parity(words);
    assert(tells_most(g, words));
    assert(!tells_more(parity_feature(words, f.mask), g));
    assert(!tells_more(parity_feature(words, g.mask), f));
}

proof fn lemma_parity_witness(words: Seq<u64>, k: int) -> (f: WordParityFeature)
    requires
        1 <= k <= candidate_masks(words).len(),
    ensures
        candidate_masks(words).contains(f.mask),
        f.mask != 0,
        f == parity_feature(words, f.mask),
        forall|i: int|
            0 <= i < k && candidate_masks(words)[i] != 0 ==> !tells_more(
                parity_feature(words, #[trigger] candidate_masks(words)[i]),
                f,
            ),
    decreases k,
{
    let masks = candidate_masks(words);
    if k == 1 {
        vstd::arithmetic::power2::lemma2_to64();
        vstd::bits::lemma_u64_shl_is_mul(1, 0);
        assert(masks[0] == 1u64 << 0);
        parity_feature(words, masks[0])
    } else {
        let g = lemma_parity_witness(words, k - 1);
        let h = parity_feature(words, masks[k - 1]);
        if masks[k - 1] != 0 && tells_more(h, g) {
            h
        } else {
            g
        }
    }
}

/// Some candidate tells most.
pub proof fn lemma_best_parity_exists(words: Seq<u64>)
    ensures
        tells_most(best_parity(words), words),
{
    let masks = candidate_masks(words);
    let f = lemma_parity_witness(words, masks.len() as int);
    assert forall|m: u64| masks.contains(m) && m != 0 implies !tells_more(
        #[trigger] parity_feature(words, m),
        f,
    ) by {
        let k = choose|k: int| 0 <= k < masks.len() && masks[k] == m;
        assert(masks[k] == m);
    }
    assert(tells_most(f, words));
}

fn strongest_parity(words: &Vec<u64>) -> (f: WordParityFeature)
    requires
        words@.len() > 0,
    ensures
        f == best_parity(words@),
        tells_most(f, words@),
{
    let masks = collect_masks(words);
    proof {
        vstd::arithmetic::power2::lemma2_to64();
        vstd::bits::lemma_u64_shl_is_mul(1, 0);
    }
    assert(masks@[0] == 1u64 << 0);
    let mut best = measure_parity(words, masks[0]);
    let n: usize = masks.len();
    for i in 1..n
        invariant
            n == masks@.len(),
            masks@ == candidate_masks(words@),
            masks@.contains(best.mask),
            best.mask != 0,
            best == parity_feature(words@, best.mask),
            forall|k: int|
                0 <= k < i && masks@[k] != 0 ==> !tells_more(
                    parity_feature(words@, #[trigger] masks@[k]),
                    best,
                ),
    {
        if masks[i] != 0 {
            let f = measure_parity(words, masks[i]);
            if outranks(&f, &best) {
                best = f;
            }
        }
    }
    proof {
        assert forall|m: u64| candidate_masks(words@).contains(m) && m != 0 implies !tells_more(
            #[trigger] parity_feature(words@, m),
            best,
        ) by {
            let k = choose|k: int| 0 <= k < masks@.len() && masks@[k] == m;
            assert(masks@[k] == m);
        }
        lemma_best_parity(best, words@);
    }
    best
}

/// What asking for the strongest parity feature of a block gives.
pub open spec fn word_parity(bytes: Seq<u8>) -> Result<WordParityFeature, Seq<char>> {
    if bytes.len() == 0 || bytes.len() % 8 != 0 {
        Err("word parity analysis requires complete 64-bit words"@)
    } else {
        Ok(best_parity(crate::words::words_of(bytes)))
    }
}

fn strongest_word_parity_feature(bytes: &[u8]) -> (r: Result<WordParityFeature, String>)
    ensures
        match r {
            Ok(f) => word_parity(bytes@) == Ok::<WordParityFeature, Seq<char>>(f) && f.mask != 0,
            Err(e) => word_parity(bytes@) == Err::<WordParityFeature, Seq<char>>(e@),
        },
{
    if bytes.len() == 0 || bytes.len() % 8 != 0 {
        return Err("word parity analysis requires complete 64-bit words".to_string());
    }
    let words = crate::words::to_words(bytes);
    Ok(strongest_parity(&words))
}

/// The bits of a block as signs.
pub open spec fn signs(bytes: Seq<u8>) -> Seq<int> {
    Seq::new(
        8 * bytes.len(),
        |p: int|
            if stream_bit(bytes, p) {
                1int
            } else {
                -1int
            },
    )
}

/// The nearest 32-bit number.
pub open spec fn clamp32(c: i64) -> i32 {
    if c > i32::MAX {
        i32::MAX
    } else if c < i32::MIN {
        i32::MIN
    } else {
        c as i32
    }
}

fn clamp_coefficient(c: i64) -> (r: i32)
    ensures
        r == clamp32(c),
{
    if c > i32::MAX as i64 {
        i32::MAX
    } else if c < i32::MIN as i64 {
        i32::MIN
    } else {
        c as i32
    }
}

/// The four strongest coefficients of a block. A coefficient that does not
/// fit in 32 bits, which takes a block of 2^31 bits, is held at the limit.
pub open spec fn top_walsh(bytes: Seq<u8>) -> Seq<WalshPeak> {
    let all = strongest(wht(signs(bytes)));
    Seq::new(
        4,
        |p: int| WalshPeak { index: all[p].0, coefficient: clamp32(all[p].1) },
    )
}

fn sign_vector(bits: &Vec<u8>, Ghost(bytes): Ghost<Seq<u8>>) -> (signal: Vec<i64>)
    requires
        bits@ == lsb_bits(bytes),
    ensures
        ints(signal@) == signs(bytes),
        signal@.len() == bits@.len(),
{
    let mut signal: Vec<i64> = Vec::new();
    let n: usize = bits.len();
    for i in 0..n
        invariant
            n == bits@.len(),
            bits@ == lsb_bits(bytes),
            signal@.len() == i,
            forall|k: int| 0 <= k < i ==> #[trigger] signal@[k] == signs(bytes)[k],
    {
        signal.push(
            if bits[i] == 0 {
                -1
            } else {
                1
            },
        );
    }
    assert(ints(signal@) =~= signs(bytes));
    signal
}

fn strongest_integer_walsh_peaks(bits: &Vec<u8>, Ghost(bytes): Ghost<Seq<u8>>) -> (peaks: Vec<
    WalshPeak,
>)
    requires
        bits@ == lsb_bits(bytes),
        is_pow2(bits@.len() as int),
        8 <= bits@.len() <= i64::MAX,
    ensures
        peaks@ == top_walsh(bytes),
{
    let mut signal = sign_vector(bits, Ghost(bytes));
    proof {
        lemma_wht_bound(signs(bytes), 1);
        crate::fwht::lemma_wht_len(signs(bytes));
    }
    fwht_inplace(&mut signal);
    let all = rank_spectrum(&signal);
    let mut peaks: Vec<WalshPeak> = Vec::new();
    for p in 0..4usize
        invariant
            all@.len() >= 8,
            all@ == strongest(wht(signs(bytes))),
            peaks@ =~= top_walsh(bytes).take(p as int),
    {
        peaks.push(WalshPeak { index: all[p].0, coefficient: clamp_coefficient(all[p].1) });
    }
    assert(top_walsh(bytes).take(4) =~= top_walsh(bytes));
    peaks
}

/// How many shifts are tried on a block of `bit_len` bits.
pub open spec fn shift_count(bit_len: nat) -> nat {
    if bit_len > 32 {
        32
    } else {
        (bit_len - 1) as nat
    }
}

/// The matches of every shift, from one on.
pub open spec fn shift_weights(bits: Seq<u8>) -> Seq<u64> {
    Seq::new(
        shift_count(bits.len()),
        |k: int| agreeing(bits, (k + 1) as nat, bits.len()) as u64,
    )
}

/// The three shifts that match best.
pub open spec fn top_shifts(bits: Seq<u8>) -> Seq<ShiftScore> {
    let order = ranked(shift_weights(bits));
    Seq::new(
        3,
        |p: int|
            ShiftScore {
                shift: (order[p] + 1) as usize,
                matching_bits: agreeing(bits, (order[p] + 1) as nat, bits.len()) as usize,
            },
    )
}

fn best_shifts(bits: &Vec<u8>) -> (scores: Vec<ShiftScore>)
    requires
        bits@.len() >= 8,
    ensures
        scores@ == top_shifts(bits@),
{
    let n: usize = bits.len();
    let count: usize = if n > 32 {
        32
    } else {
        n - 1
    };
    let mut weights: Vec<u64> = Vec::new();
    for k in 0..count
        invariant
            n == bits@.len(),
            n >= 8,
            count == shift_count(n as nat),
            weights@ =~= shift_weights(bits@).take(k as int),
    {
        weights.push(count_agreeing(bits.as_slice(), k + 1) as u64);
    }
    assert(weights@ =~= shift_weights(bits@));
    let order = rank(&weights);
    let mut scores: Vec<ShiftScore> = Vec::new();
    for p in 0..3usize
        invariant
            n == bits@.len(),
            n >= 8,
            count == shift_count(n as nat),
            weights@ == shift_weights(bits@),
            order@.len() == count,
            forall|k: int| 0 <= k < count ==> #[trigger] order@[k] == ranked(weights@)[k],
            forall|k: int| 0 <= k < count ==> #[trigger] order@[k] < count,
            scores@ =~= top_shifts(bits@).take(p as int),
    {
        let k: usize = order[p];
        scores.push(ShiftScore { shift: k + 1, matching_bits: count_agreeing(bits.as_slice(), k + 1) });
    }
    assert(top_shifts(bits@).take(3) =~= top_shifts(bits@));
    scores
}

/// The signature of a block that can be analysed.
pub open spec fn signature(bytes: Seq<u8>) -> Topology {
    let bits = lsb_bits(bytes);
    Topology {
        bit_len: 8 * bytes.len(),
        walsh_peaks: top_walsh(bytes),
        shift_scores: top_shifts(bits),
        derivative: derivative(bits, 1)->Ok_0,
        popcnt_profile: density_profile(bytes, 8)->Ok_0,
        word_parity: best_parity(crate::words::words_of(bytes)),
        fingerprint: fingerprint(bytes)->Ok_0,
    }
}

/// What analysing a block gives.
pub open spec fn topology(bytes: Seq<u8>) -> Result<Topology, Seq<char>> {
    if !is_pow2(8 * bytes.len() as int) {
        Err("topology analyzer requires a power-of-two bit block"@)
    } else if bytes.len() % 8 != 0 {
        Err("word parity analysis requires complete 64-bit words"@)
    } else {
        Ok(signature(bytes))
    }
}

/// Windows of eight bytes never hold more ones than a byte can count.
pub proof fn lemma_word_densities(bytes: Seq<u8>)
    ensures
        density_profile(bytes, 8) is Ok,
        density_profile(bytes, 8)->Ok_0.len() == ceil_div(bytes.len(), 8),
{
    assert forall|k: int| 0 <= k < ceil_div(bytes.len(), 8) implies byte_ones(
        #[trigger] chunk(bytes, 8, k),
    ) <= 255 by {
        lemma_byte_ones_bound(chunk(bytes, 8, k));
    }
}

/// Analyses a block.
pub fn analyze_topology(bytes: &[u8]) -> (r: Result<TopologySignature, String>)
    requires
        8 * bytes@.len() <= i64::MAX,
    ensures
        outcome(r) == topology(bytes@),
{
    let bits = bytes_to_bits(bytes);
    if bits.len() == 0 || !is_power_of_two(bits.len()) {
        proof {
            reveal(is_pow2);
        }
        return Err("topology analyzer requires a power-of-two bit block".to_string());
    }
    let word_parity = match strongest_word_parity_feature(bytes) {
        Ok(f) => f,
        Err(e) => return Err(e),
    };
    proof {
        lemma_word_densities(bytes@);
        assert(are_bits(bits@));
    }
    let walsh_peaks = strongest_integer_walsh_peaks(&bits, Ghost(bytes@));
    let shift_scores = best_shifts(&bits);
    let derivative = match circular_bit_derivative(bits.as_slice(), 1) {
        Ok(d) => d,
        Err(e) => return Err(e),
    };
    let popcnt_profile = match popcnt_profile(bytes, 8) {
        Ok(p) => p,
        Err(e) => return Err(e),
    };
    let fingerprint = match block_fingerprint(bytes) {
        Ok(f) => f,
        Err(e) => return Err(e),
    };
    Ok(
        TopologySignature {
            bit_len: bits.len(),
            walsh_peaks,
            shift_scores,
            derivative,
            popcnt_profile,
            word_parity,
            fingerprint,
        },
    )
}

/// The bits of a byte string spell its bytes.
pub proof fn law_bits_spell_bytes(bytes: Seq<u8>, i: int)
    requires
        0 <= i < bytes.len(),
    ensures
        ({
            let b = lsb_bits(bytes);
            &&& b.len() == 8 * bytes.len()
            &&& bytes[i] == b[8 * i] + 2 * b[8 * i + 1] + 4 * b[8 * i + 2] + 8 * b[8 * i + 3] + 16
                * b[8 * i + 4] + 32 * b[8 * i + 5] + 64 * b[8 * i + 6] + 128 * b[8 * i + 7]
        }),
{
    crate::words::lemma_byte_bits(bytes[i]);
}

/// How many ones a bit vector holds.
pub open spec fn bit_total(bits: Seq<u8>) -> nat
    decreases bits.len(),
{
    if bits.len() == 0 {
        0
    } else {
        bit_total(bits.drop_last()) + if bits.last() == 1 {
            1nat
        } else {
            0
        }
    }
}

proof fn lemma_bit_total_tail(bits: Seq<u8>, k: int)
    requires
        0 <= k <= bits.len(),
    ensures
        bit_total(bits) == bit_total(bits.take(k)) + bit_total(bits.skip(k)),
    decreases bits.len(),
{
    if k < bits.len() {
        lemma_bit_total_tail(bits.drop_last(), k);
        assert(bits.drop_last().take(k) =~= bits.take(k));
        assert(bits.drop_last().skip(k) =~= bits.skip(k).drop_last());
    } else {
        assert(bits.take(k) =~= bits);
        assert(bits.skip(k) =~= Seq::empty());
    }
}

proof fn lemma_ones_are_bits(bytes: Seq<u8>)
    ensures
        byte_ones(bytes) == bit_total(lsb_bits(bytes)),
    decreases bytes.len(),
{
    let bits = lsb_bits(bytes);
    if bytes.len() > 0 {
        let front = bytes.drop_last();
        let n = 8 * front.len() as int;
        lemma_ones_are_bits(front);
        assert(bits.take(n) =~= lsb_bits(front));
        lemma_bit_total_tail(bits, n);
        let last = bits.skip(n);
        crate::words::lemma_byte_bits(bytes.last());
        lemma_bit_total_step(last, 0);
        lemma_bit_total_step(last, 1);
        lemma_bit_total_step(last, 2);
        lemma_bit_total_step(last, 3);
        lemma_bit_total_step(last, 4);
        lemma_bit_total_step(last, 5);
        lemma_bit_total_step(last, 6);
        lemma_bit_total_step(last, 7);
        assert(last.take(0) =~= Seq::empty());
        assert(last.take(8) =~= last);
        assert forall|j: int| 0 <= j < 8 implies #[trigger] last[j] == (if bit8(bytes.last(), j) {
            1u8
        } else {
            0u8
        }) by {
            assert((n + j) / 8 == front.len() && (n + j) % 8 == j);
        }
    }
}

proof fn lemma_bit_total_step(bits: Seq<u8>, k: int)
    requires
        0 <= k < bits.len(),
    ensures
        bit_total(bits.take(k + 1)) == bit_total(bits.take(k)) + if bits[k] == 1 {
            1nat
        } else {
            0
        },
{
    assert(bits.take(k + 1).drop_last() =~= bits.take(k));
}

/// Every entry of a profile counts the ones among the bits of its window, and
/// the windows follow one another up to the end of the bytes.
pub proof fn law_profile_counts_bits(bytes: Seq<u8>, window: nat, k: int)
    requires
        density_profile(bytes, window) is Ok,
        0 <= k * window < bytes.len(),
        k >= 0,
    ensures
        ({
            let profile = density_profile(bytes, window)->Ok_0;
            let from = 8 * (k * window);
            let to = if from + 8 * window < 8 * bytes.len() {
                from + 8 * window
            } else {
                8 * bytes.len() as int
            };
            &&& k < profile.len()
            &&& profile.len() == k + 1 <==> to == 8 * bytes.len()
            &&& profile[k] == bit_total(lsb_bits(bytes).subrange(from, to))
        }),
{
    lemma_last_chunk(bytes.len(), window, k as nat);
    let c = chunk(bytes, window, k);
    lemma_ones_are_bits(c);
    let from = 8 * (k * window);
    let to = if from + 8 * window < 8 * bytes.len() {
        from + 8 * window
    } else {
        8 * bytes.len() as int
    };
    let lo = k * window;
    assert(lsb_bits(c) =~= lsb_bits(bytes).subrange(from, to)) by {
        assert forall|p: int| 0 <= p < lsb_bits(c).len() implies #[trigger] lsb_bits(c)[p]
            == lsb_bits(bytes)[from + p] by {
            assert((8 * lo + p) / 8 == lo + p / 8 && (8 * lo + p) % 8 == p % 8);
        }
    }
    assert(byte_ones(c) <= 255);
}

/// The derivative is one exactly where a bit and the bit `shift` places on
/// differ, so its zeros are the bits that the correlation counts.
pub proof fn law_derivative_marks_changes(bits: Seq<u8>, shift: nat)
    requires
        are_bits(bits),
        0 < shift < bits.len(),
        bits.len() <= usize::MAX,
    ensures
        ({
            let d = derivative(bits, shift)->Ok_0;
            let n = bits.len() as int;
            &&& d.len() == n
            &&& forall|i: int|
                0 <= i < n ==> (#[trigger] d[i] == if bits[(i + shift) % n] == bits[i] {
                    0u8
                } else {
                    1u8
                })
            &&& bit_total(d) + correlation(bits, shift)->Ok_0.matching_bits == n
            &&& correlation(bits, shift)->Ok_0.shift == shift
        }),
{
    let d = derivative(bits, shift)->Ok_0;
    let n = bits.len() as int;
    assert forall|i: int| 0 <= i < n implies (#[trigger] d[i] == if bits[(i + shift) % n]
        == bits[i] {
        0u8
    } else {
        1u8
    }) by {
        let j = (i + shift) % n;
        vstd::arithmetic::div_mod::lemma_mod_bound(i + shift, n);
        crate::words::lemma_xor(bits[i] as u64, bits[j] as u64);
        assert(bits[i] <= 1 && bits[j] <= 1);
        assert((bits[i] ^ bits[j]) as u64 == (bits[i] as u64) ^ (bits[j] as u64));
    }
    lemma_zeros_agree(bits, shift, bits.len());
    assert(d.take(n) =~= d);
}

proof fn lemma_zeros_agree(bits: Seq<u8>, shift: nat, c: nat)
    requires
        are_bits(bits),
        0 < shift < bits.len(),
        c <= bits.len(),
        forall|i: int|
            0 <= i < bits.len() ==> (#[trigger] derivative(bits, shift)->Ok_0[i]
                == if bits[(i + shift) % bits.len() as int] == bits[i] {
                0u8
            } else {
                1u8
            }),
    ensures
        bit_total(derivative(bits, shift)->Ok_0.take(c as int)) + agreeing(bits, shift, c) == c,
    decreases c,
{
    let d = derivative(bits, shift)->Ok_0;
    if c > 0 {
        lemma_zeros_agree(bits, shift, (c - 1) as nat);
        assert(d.take(c as int).drop_last() =~= d.take(c - 1));
        assert(d.take(c as int).last() == d[c - 1]);
    }
}

/// The shift is among the scores.
pub open spec fn has_shift(scores: Seq<ShiftScore>, shift: int) -> bool {
    exists|p: int| 0 <= p < scores.len() && (#[trigger] scores[p]).shift == shift
}

/// The scores are those of the three shifts from one to 32, and less than the
/// length, under which most bits agree: the best first, the smaller shift first
/// among equals, and no other shift is better than the last of them.
pub proof fn law_best_shifts(bits: Seq<u8>)
    requires
        are_bits(bits),
        8 <= bits.len() <= usize::MAX,
    ensures
        ({
            let s = top_shifts(bits);
            &&& s.len() == 3
            &&& forall|p: int|
                0 <= p < 3 ==> 1 <= (#[trigger] s[p]).shift <= 32 && s[p].shift < bits.len()
                    && correlation(bits, s[p].shift as nat) == Ok::<ShiftScore, Seq<char>>(s[p])
            &&& forall|p: int, q: int|
                0 <= p < q < 3 ==> (#[trigger] s[p]).matching_bits > (
                #[trigger] s[q]).matching_bits || (s[p].matching_bits == s[q].matching_bits
                    && s[p].shift < s[q].shift)
            &&& forall|t: nat|
                1 <= t <= 32 && t < bits.len() && !has_shift(s, t as int) ==> {
                    let m = (#[trigger] correlation(bits, t))->Ok_0.matching_bits;
                    m < s[2].matching_bits || (m == s[2].matching_bits && t > s[2].shift)
                }
        }),
{
    let weights = shift_weights(bits);
    let order = ranked(weights);
    let s = top_shifts(bits);
    crate::order::lemma_ranked(weights);
    assert forall|p: int| 0 <= p < order.len() implies 0 <= #[trigger] order[p]
        < weights.len() by {
        assert(order.contains(order[p]));
    }
    assert forall|k: nat| 1 <= k < bits.len() implies #[trigger] agreeing(bits, k, bits.len())
        <= bits.len() by {
        lemma_zeros_agree_bound(bits, k, bits.len());
    }
    assert forall|p: int, q: int| 0 <= p < q < 3 implies (#[trigger] s[p]).matching_bits > (
    #[trigger] s[q]).matching_bits || (s[p].matching_bits == s[q].matching_bits && s[p].shift
        < s[q].shift) by {
        assert(crate::order::ranks_before(weights, order[p], order[q]));
    }
    assert forall|t: nat| 1 <= t <= 32 && t < bits.len() && !has_shift(s, t as int) implies {
        let m = (#[trigger] correlation(bits, t))->Ok_0.matching_bits;
        m < s[2].matching_bits || (m == s[2].matching_bits && t > s[2].shift)
    } by {
        assert(order.contains(t - 1));
        let q = choose|q: int| 0 <= q < order.len() && order[q] == t - 1;
        if q < 3 {
            assert(s[q].shift == t);
        }
        assert(crate::order::ranks_before(weights, order[2], order[q]));
    }
}

proof fn lemma_zeros_agree_bound(bits: Seq<u8>, shift: nat, c: nat)
    ensures
        agreeing(bits, shift, c) <= c,
    decreases c,
{
    if c > 0 {
        lemma_zeros_agree_bound(bits, shift, (c - 1) as nat);
    }
}

/// The place is among the peaks.
pub open spec fn has_place(peaks: Seq<WalshPeak>, i: int) -> bool {
    exists|p: int| 0 <= p < peaks.len() && (#[trigger] peaks[p]).index == i
}

/// The peaks of a block are its four Walsh sums of the greatest absolute value,
/// the greatest first, the lower place first among equals.
pub proof fn law_walsh_peaks(bytes: Seq<u8>)
    requires
        is_pow2(8 * bytes.len() as int),
        8 * bytes.len() <= i64::MAX,
        bytes.len() <= usize::MAX / 8,
    ensures
        ({
            let n = 8 * bytes.len();
            let t = top_walsh(bytes);
            let sum = |i: int| walsh_sum(signs(bytes), i as nat, n);
            &&& t.len() == 4
            &&& forall|p: int|
                0 <= p < 4 ==> (#[trigger] t[p]).index < n && t[p].coefficient == clamp32(
                    sum(t[p].index as int) as i64,
                )
            &&& forall|p: int, q: int|
                0 <= p < q < 4 ==> {
                    let (a, b) = ((#[trigger] t[p]).index as int, (#[trigger] t[q]).index as int);
                    distance(sum(a)) > distance(sum(b)) || (distance(sum(a)) == distance(sum(b))
                        && a < b)
                }
            &&& forall|i: nat|
                i < n && !#[trigger] has_place(t, i as int) ==> {
                    let a = t[3].index as int;
                    let b = i as int;
                    distance(sum(a)) > distance(sum(b)) || (distance(sum(a)) == distance(sum(b))
                        && a < b)
                }
        }),
{
    let x = signs(bytes);
    let n = 8 * bytes.len();
    let spectrum = wht(x);
    let all = strongest(spectrum);
    let t = top_walsh(bytes);
    let sum = |i: int| walsh_sum(x, i as nat, n);
    reveal(is_pow2);
    crate::fwht::lemma_wht_len(x);
    lemma_wht_bound(x, 1);
    assert forall|i: int| 0 <= i < n implies i64::MIN <= #[trigger] spectrum[i] <= i64::MAX by {}
    law_ranking_of_spectrum(spectrum);
    assert forall|i: nat| i < n implies spectrum[i as int] == #[trigger] walsh_sum(x, i, n) by {
        law_wht_is_walsh_sum(x, i);
    }
    assert forall|p: int| 0 <= p < 4 implies (#[trigger] t[p]).index < n && t[p].coefficient
        == clamp32(sum(t[p].index as int) as i64) by {
        assert(all[p].0 < n);
        assert(spectrum[all[p].0 as int] == walsh_sum(x, all[p].0 as nat, n));
    }
    assert forall|p: int, q: int| 0 <= p < q < 4 implies {
        let (a, b) = ((#[trigger] t[p]).index as int, (#[trigger] t[q]).index as int);
        distance(sum(a)) > distance(sum(b)) || (distance(sum(a)) == distance(sum(b)) && a < b)
    } by {
        assert(all[p].0 < n && all[q].0 < n);
        assert(spectrum[all[p].0 as int] == walsh_sum(x, all[p].0 as nat, n));
        assert(spectrum[all[q].0 as int] == walsh_sum(x, all[q].0 as nat, n));
    }
    assert forall|i: nat| i < n && !#[trigger] has_place(t, i as int) implies {
        let a = t[3].index as int;
        let b = i as int;
        distance(sum(a)) > distance(sum(b)) || (distance(sum(a)) == distance(sum(b)) && a < b)
    } by {
        assert(crate::fwht::is_listed(all, i as int));
        let q = choose|q: int| 0 <= q < all.len() && (#[trigger] all[q]).0 == i;
        if q < 4 {
            assert(t[q].index == i);
        }
        assert(all[3].0 < n && all[q].0 < n);
        assert(spectrum[all[3].0 as int] == walsh_sum(x, all[3].0 as nat, n));
        assert(spectrum[all[q].0 as int] == walsh_sum(x, all[q].0 as nat, n));
    }
}

/// How many words have the given parity under a mask.
pub open spec fn words_of_parity(words: Seq<u64>, mask: u64, odd: bool) -> nat
    decreases words.len(),
{
    if words.len() == 0 {
        0
    } else {
        words_of_parity(words.drop_last(), mask, odd) + if (ones((words.last() & mask) as nat) % 2
            == 1) == odd {
            1nat
        } else {
            0
        }
    }
}

proof fn lemma_parities(words: Seq<u64>, mask: u64)
    ensures
        words_of_parity(words, mask, true) == odd_words(words, mask),
        words_of_parity(words, mask, false) + odd_words(words, mask) == words.len(),
    decreases words.len(),
{
    if words.len() > 0 {
        lemma_parities(words.drop_last(), mask);
    }
}

proof fn lemma_ones_of_pow2(k: nat)
    ensures
        ones(vstd::arithmetic::power2::pow2(k)) == 1,
    decreases k,
{
    if k == 0 {
        vstd::arithmetic::power2::lemma2_to64();
        assert(ones(0) == 0);
    } else {
        vstd::arithmetic::power2::lemma_pow2_unfold(k);
        vstd::arithmetic::power2::lemma_pow2_pos((k - 1) as nat);
        lemma_ones_of_pow2((k - 1) as nat);
    }
}

proof fn lemma_single_bit(words: Seq<u64>, b: u64)
    requires
        b < 64,
    ensures
        words_of_parity(words, 1u64 << b, true) == set_count(words, b as int),
        1u64 << b != 0,
    decreases words.len(),
{
    vstd::bits::lemma_u64_pow2_no_overflow(b as nat);
    vstd::bits::lemma_u64_shl_is_mul(1, b);
    vstd::arithmetic::power2::lemma_pow2_pos(b as nat);
    lemma_ones_of_pow2(b as nat);
    if words.len() > 0 {
        lemma_single_bit(words.drop_last(), b);
        let w = words.last();
        assert(w & (1u64 << b) == (if (w >> b) & 1u64 == 1 {
            1u64 << b
        } else {
            0u64
        })) by (bit_vector)
            requires
                b < 64,
        ;
        assert(ones(0) == 0);
    }
}

/// The parity feature of some words counts those whose parity under its mask is
/// its bias. That is at least half of them, and no single bit has the same value
/// in more words.
pub proof fn law_parity_feature(words: Seq<u64>)
    requires
        words.len() <= usize::MAX,
    ensures
        ({
            let f = best_parity(words);
            &&& f.mask != 0
            &&& f.matching_words == words_of_parity(words, f.mask, f.bias)
            &&& 2 * f.matching_words >= words.len()
            &&& f.bias ==> 2 * f.matching_words > words.len()
            &&& forall|b: int|
                0 <= b < 64 ==> #[trigger] set_count(words, b) <= f.matching_words && words.len()
                    - set_count(words, b) <= f.matching_words
        }),
{
    let f = best_parity(words);
    lemma_best_parity_exists(words);
    lemma_parities(words, f.mask);
    assert forall|b: int| 0 <= b < 64 implies #[trigger] set_count(words, b) <= f.matching_words
        && words.len() - set_count(words, b) <= f.matching_words by {
        let mask = 1u64 << (b as u64);
        lemma_single_bit(words, b as u64);
        lemma_parities(words, mask);
        assert(candidate_masks(words)[b] == mask);
        assert(!tells_more(parity_feature(words, mask), f));
    }
}

/// Different words are mixed to different words.
pub proof fn law_avalanche_tells_words(a: u64, b: u64)
    requires
        avalanche(a) == avalanche(b),
    ensures
        a == b,
{
    let (p, q) = (0xBF58_476D_1CE4_E5B9u64, 0x94D0_49BB_1331_11EBu64);
    let (a1, b1) = (a ^ (a >> 30), b ^ (b >> 30));
    let (a2, b2) = (a1.wrapping_mul(p), b1.wrapping_mul(p));
    let (a3, b3) = (a2 ^ (a2 >> 27), b2 ^ (b2 >> 27));
    let (a4, b4) = (a3.wrapping_mul(q), b3.wrapping_mul(q));
    law_shift_right_is_undone(a4, 31);
    law_shift_right_is_undone(b4, 31);
    law_odd_product_is_undone(a3, q);
    law_odd_product_is_undone(b3, q);
    law_shift_right_is_undone(a2, 27);
    law_shift_right_is_undone(b2, 27);
    law_odd_product_is_undone(a1, p);
    law_odd_product_is_undone(b1, p);
    law_shift_right_is_undone(a, 30);
    law_shift_right_is_undone(b, 30);
}

/// Adding different words, bit by bit, to the same one gives different words.
pub proof fn lemma_xor_injective(a: u64, b: u64, c: u64)
    requires
        a ^ c == b ^ c || c ^ a == c ^ b,
    ensures
        a == b,
{
    crate::words::lemma_xor(a, c);
    crate::words::lemma_xor(b, c);
}

proof fn lemma_fingerprint_state(left: Seq<u8>, right: Seq<u8>, k: nat, n: nat)
    requires
        left.len() == right.len(),
        k < n <= ceil_div(left.len(), 8),
        chunk(left, 8, k as int) != chunk(right, 8, k as int),
        forall|i: int|
            0 <= i < left.len() && i / 8 != k ==> #[trigger] left[i] == right[i],
    ensures
        fingerprint_state(left, n) != fingerprint_state(right, n),
        fingerprint_state(left, k) == fingerprint_state(right, k),
    decreases n,
{
    let i = (n - 1) as nat;
    let (x, y) = (chunk(left, 8, i as int), chunk(right, 8, i as int));
    let salt = (i as u64).wrapping_mul(0x9E37_79B9_7F4A_7C15);
    let (a, b) = (le_value(x) as u64, le_value(y) as u64);
    let (s, t) = (fingerprint_state(left, i), fingerprint_state(right, i));
    if i == k {
        lemma_same_states(left, right, k);
        vstd::arithmetic::power2::lemma2_to64();
        vstd::arithmetic::power2::lemma2_to64_rest();
        crate::words::lemma_le_value(x);
        crate::words::lemma_le_value(y);
        lemma_small_chunk(x);
        lemma_small_chunk(y);
        if fingerprint_state(left, n) == fingerprint_state(right, n) {
            law_avalanche_tells_words(s ^ avalanche(a ^ salt), t ^ avalanche(b ^ salt));
            lemma_xor_injective(avalanche(a ^ salt), avalanche(b ^ salt), s);
            law_avalanche_tells_words(a ^ salt, b ^ salt);
            lemma_xor_injective(a, b, salt);
        }
    } else {
        lemma_fingerprint_state(left, right, k, i);
        assert(x =~= y) by {
            assert forall|j: int| 0 <= j < x.len() implies x[j] == y[j] by {
                assert((8 * i + j) / 8 == i);
                assert(left[8 * i + j] == right[8 * i + j]);
            }
        }
        if fingerprint_state(left, n) == fingerprint_state(right, n) {
            law_avalanche_tells_words(s ^ avalanche(a ^ salt), t ^ avalanche(b ^ salt));
            lemma_xor_injective(s, t, avalanche(a ^ salt));
        }
    }
}

proof fn lemma_small_chunk(s: Seq<u8>)
    requires
        s.len() <= 8,
    ensures
        le_value(s) <= u64::MAX,
{
    crate::words::lemma_le_value(s);
    vstd::arithmetic::power2::lemma2_to64_rest();
    if s.len() < 8 {
        vstd::arithmetic::power2::lemma_pow2_strictly_increases(8 * s.len(), 64);
    }
}

proof fn lemma_same_states(left: Seq<u8>, right: Seq<u8>, k: nat)
    requires
        left.len() == right.len(),
        8 * k <= left.len(),
        forall|i: int| 0 <= i < 8 * k ==> #[trigger] left[i] == right[i],
    ensures
        fingerprint_state(left, k) == fingerprint_state(right, k),
    decreases k,
{
    if k > 0 {
        lemma_same_states(left, right, (k - 1) as nat);
        assert(chunk(left, 8, k - 1) =~= chunk(right, 8, k - 1));
    }
}

/// Two blocks of the same length that differ in one word only, in any of its
/// bytes, have different fingerprints.
pub proof fn law_fingerprint_tells_words(left: Seq<u8>, right: Seq<u8>, k: nat)
    requires
        left.len() == right.len(),
        left != right,
        forall|i: int|
            0 <= i < left.len() && i / 8 != k ==> #[trigger] left[i] == right[i],
    ensures
        fingerprint(left) is Ok,
        fingerprint(left) != fingerprint(right),
{
    let n = ceil_div(left.len(), 8);
    let i = choose|i: int| 0 <= i < left.len() && left[i] != right[i];
    assert(exists|i: int| 0 <= i < left.len() && left[i] != right[i]) by {
        if forall|i: int| 0 <= i < left.len() ==> left[i] == right[i] {
            assert(left =~= right);
        }
    }
    lemma_last_chunk(left.len(), 8, k);
    assert(chunk(left, 8, k as int)[i - 8 * k] == left[i]);
    assert(chunk(right, 8, k as int)[i - 8 * k] == right[i]);
    lemma_fingerprint_state(left, right, k, n);
    let (s, t) = (fingerprint_state(left, n), fingerprint_state(right, n));
    let len = left.len() as u64;
    if avalanche(s ^ len) == avalanche(t ^ len) {
        law_avalanche_tells_words(s ^ len, t ^ len);
        lemma_xor_injective(s, t, len);
    }
}

proof fn lemma_eighth(n: nat)
    requires
        is_pow2(8 * n as int),
        n % 8 == 0,
        n > 0,
    ensures
        is_pow2(n as int),
{
    reveal(is_pow2);
    let m = 8 * n as int;
    assert(is_pow2(m / 2) && m / 2 == 4 * n);
    assert(is_pow2(m / 2 / 2) && m / 2 / 2 == 2 * n);
    assert(is_pow2(2 * n as int / 2));
}

/// A block can be analysed exactly where it is a power of two of bytes, eight or
/// more. Its signature holds what is measured of it one by one: the four
/// strongest coefficients, the three best shifts, the derivative by one place,
/// the density of every word, the parity feature and the fingerprint.
pub proof fn law_signature_of_block(bytes: Seq<u8>)
    ensures
        topology(bytes) is Ok <==> bytes.len() >= 8 && is_pow2(bytes.len() as int),
        topology(bytes) matches Ok(t) ==> {
            &&& t.bit_len == 8 * bytes.len()
            &&& t.walsh_peaks == top_walsh(bytes)
            &&& t.shift_scores == top_shifts(lsb_bits(bytes))
            &&& derivative(lsb_bits(bytes), 1) == Ok::<Seq<u8>, Seq<char>>(t.derivative)
            &&& density_profile(bytes, 8) == Ok::<Seq<u8>, Seq<char>>(t.popcnt_profile)
            &&& word_parity(bytes) == Ok::<WordParityFeature, Seq<char>>(t.word_parity)
            &&& fingerprint(bytes) == Ok::<u64, Seq<char>>(t.fingerprint)
        },
{
    let n = bytes.len();
    reveal(is_pow2);
    lemma_word_densities(bytes);
    assert(are_bits(lsb_bits(bytes)));
    if topology(bytes) is Ok {
        lemma_eighth(n);
    }
    if n >= 8 && is_pow2(n as int) {
        assert(is_pow2(2 * n as int));
        assert(is_pow2(4 * n as int));
        assert(is_pow2(8 * n as int));
        assert(is_pow2(n as int / 2) && n % 2 == 0);
        assert(is_pow2(n as int / 2 / 2) && (n / 2) % 2 == 0);
        assert(is_pow2(n as int / 2 / 2 / 2) && (n / 2 / 2) % 2 == 0);
    }
}

} // verus!
