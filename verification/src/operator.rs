//! The block operator `U = F⁻¹ · H · D · H · F`.
//!
//! `F` mixes the words, `H` is the binary butterfly over all bits of the
//! window, and `D` flips the bits at the peaks of the key. `D` writes every
//! bit it flips into the branch log, so the log is as long as there are peaks
//! and rounds, whatever the size of the block. Each part can be undone, and
//! `U` undoes itself.
//!
//! `H` has the shape of the fast Walsh-Hadamard transform, but works on single
//! bits: sums are taken modulo two. The transform over the integers would not
//! do here. Its coefficients do not fit the bits of the window, and rounding
//! them back by their signs takes different blocks to the same words: a weak
//! peak is lost without a trace, and a strong one cannot be restored. Over
//! single bits `H` is exactly its own inverse, every flip changes the words,
//! and every block is given back. The spectrum over the integers serves the
//! choice of the peaks alone.
use vstd::prelude::*;
use vstd::arithmetic::power2::{is_pow2, pow2};
use crate::branch::{BranchBit, BranchVector};
use crate::fold::{fold_inplace, folded, law_folded_self_inverse, lemma_folded_len};
use crate::keygen::{key_bits, KeyView, MagicKey};
use crate::words::{bits_number, low_bits, to_words, word_bytes, words_of};

verus! {

/// The round function of the mixer.
pub open spec fn stirred(r: u64, k: KeyView) -> u64 {
    let a = (r << ((k.s0 % 64) as u64)) ^ r;
    ((a >> ((k.s1 % 64) as u64)) ^ a).wrapping_mul(k.odd_mul).wrapping_add(k.add_c)
}

/// The words after the mixer: the halves change places, and the old left half
/// is covered by a function of the right.
pub open spec fn mixed(words: Seq<u64>, k: KeyView) -> Seq<u64> {
    let half = words.len() as int / 2;
    Seq::new(
        words.len(),
        |i: int|
            if i < half {
                words[i + half]
            } else if i < 2 * half {
                words[i - half] ^ stirred(words[i], k)
            } else {
                words[i]
            },
    )
}

/// The words before the mixer.
pub open spec fn unmixed(words: Seq<u64>, k: KeyView) -> Seq<u64> {
    let half = words.len() as int / 2;
    Seq::new(
        words.len(),
        |i: int|
            if i < half {
                words[i + half] ^ stirred(words[i], k)
            } else if i < 2 * half {
                words[i - half]
            } else {
                words[i]
            },
    )
}

/// The mixer and its inverse undo each other.
pub proof fn law_mixer_is_undone(words: Seq<u64>, k: KeyView)
    ensures
        unmixed(mixed(words, k), k) == words,
        mixed(unmixed(words, k), k) == words,
{
    let half = words.len() as int / 2;
    let (m, u) = (mixed(words, k), unmixed(words, k));
    assert forall|i: int| 0 <= i < words.len() implies unmixed(m, k)[i] == words[i] && mixed(
        u,
        k,
    )[i] == words[i] by {
        if i < half {
            let (l, g) = (words[i], stirred(words[i + half], k));
            crate::words::lemma_xor(l, g);
            assert(m[i + half] == l ^ g);
        } else if i < 2 * half {
            let (l, g) = (words[i], stirred(words[i - half], k));
            crate::words::lemma_xor(l, g);
            assert(u[i - half] == l ^ g);
        }
    }
    assert(unmixed(m, k) =~= words);
    assert(mixed(u, k) =~= words);
}

fn stir(r: u64, key: &MagicKey) -> (g: u64)
    ensures
        g == stirred(r, key@),
{
    let left: u64 = (key.feistel_s0 % 64) as u64;
    let right: u64 = (key.feistel_s1 % 64) as u64;
    let a: u64 = (r << left) ^ r;
    ((a >> right) ^ a).wrapping_mul(key.feistel_odd_mul).wrapping_add(key.feistel_add)
}

fn mix_words(words: &Vec<u64>, key: &MagicKey) -> (out: Vec<u64>)
    ensures
        out@ == mixed(words@, key@),
{
    let n: usize = words.len();
    let half: usize = n / 2;
    let mut out: Vec<u64> = Vec::new();
    for i in 0..n
        invariant
            n == words@.len(),
            half == n / 2,
            out@ == mixed(words@, key@).take(i as int),
    {
        let w: u64 = if i < half {
            words[i + half]
        } else if i < 2 * half {
            words[i - half] ^ stir(words[i], key)
        } else {
            words[i]
        };
        out.push(w);
        assert(out@ =~= mixed(words@, key@).take(i + 1));
    }
    assert(out@ =~= mixed(words@, key@));
    out
}

fn unmix_words(words: &Vec<u64>, key: &MagicKey) -> (out: Vec<u64>)
    ensures
        out@ == unmixed(words@, key@),
{
    let n: usize = words.len();
    let half: usize = n / 2;
    let mut out: Vec<u64> = Vec::new();
    for i in 0..n
        invariant
            n == words@.len(),
            half == n / 2,
            out@ == unmixed(words@, key@).take(i as int),
    {
        let w: u64 = if i < half {
            words[i + half] ^ stir(words[i], key)
        } else if i < 2 * half {
            words[i - half]
        } else {
            words[i]
        };
        out.push(w);
        assert(out@ =~= unmixed(words@, key@).take(i + 1));
    }
    assert(out@ =~= unmixed(words@, key@));
    out
}

/// The bits of words, the highest bit of each word first.
pub open spec fn word_bits(words: Seq<u64>) -> Seq<bool> {
    Seq::new(64 * words.len(), |p: int| low_bits(words[p / 64] as nat, 64)[63 - p % 64])
}

/// The bits of word `k`, the lowest first.
pub open spec fn bits_of_word(bits: Seq<bool>, k: int) -> Seq<bool> {
    Seq::new(64, |j: int| bits[64 * k + 63 - j])
}

/// The words that bits make up, the highest bit of each word first.
pub open spec fn bits_words(bits: Seq<bool>) -> Seq<u64> {
    Seq::new(bits.len() / 64, |k: int| bits_number(bits_of_word(bits, k)) as u64)
}

/// Taking words apart and putting them together undo each other.
proof fn lemma_bits_words(words: Seq<u64>, bits: Seq<bool>)
    requires
        bits.len() % 64 == 0,
    ensures
        bits_words(word_bits(words)) == words,
        word_bits(bits_words(bits)) == bits,
{
    vstd::arithmetic::power2::lemma2_to64_rest();
    let b = word_bits(words);
    let back = bits_words(b);
    assert forall|k: int| 0 <= k < words.len() implies back[k] == words[k] by {
        let w = words[k] as nat;
        crate::words::lemma_low_bits(w, 64);
        let own = bits_of_word(b, k);
        assert forall|j: int| 0 <= j < 64 implies own[j] == low_bits(w, 64)[j] by {
            let p = 64 * k + 63 - j;
            assert(p / 64 == k && p % 64 == 63 - j);
        }
        assert(own =~= low_bits(w, 64));
        vstd::arithmetic::div_mod::lemma_small_mod(w, pow2(64));
    }
    assert(back =~= words);
    let ws = bits_words(bits);
    let again = word_bits(ws);
    assert forall|p: int| 0 <= p < bits.len() implies again[p] == bits[p] by {
        let k = p / 64;
        let own = bits_of_word(bits, k);
        crate::words::lemma_bits_number(own);
        assert(ws[k] == bits_number(own));
        assert(own[63 - p % 64] == bits[p]);
    }
    assert(again =~= bits);
}

fn split_words(words: &Vec<u64>) -> (bits: Vec<bool>)
    ensures
        bits@ == word_bits(words@),
{
    let n: usize = words.len();
    let mut bits: Vec<bool> = Vec::new();
    for k in 0..n
        invariant
            n == words@.len(),
            bits@ == word_bits(words@).take(64 * k),
    {
        let own = split_word(words[k]);
        let ghost before = bits@;
        let mut j: usize = 64;
        while j > 0
            invariant
                j <= 64,
                own@ == low_bits(words@[k as int] as nat, 64),
                own@.len() == 64,
                bits@ == before + Seq::new((64 - j) as nat, |q: int| own@[63 - q]),
            decreases j,
        {
            bits.push(own[j - 1]);
            j = j - 1;
            assert(bits@ =~= before + Seq::new((64 - j) as nat, |q: int| own@[63 - q]));
        }
        let ghost want = word_bits(words@).take(64 * (k + 1));
        assert forall|p: int| 0 <= p < 64 * (k + 1) implies bits@[p] == want[p] by {
            if p >= 64 * k {
                assert(p / 64 == k && p % 64 == p - 64 * k);
            }
        }
        assert(bits@ =~= want);
    }
    assert(bits@ =~= word_bits(words@));
    bits
}

fn split_word(word: u64) -> (bits: Vec<bool>)
    ensures
        bits@ == low_bits(word as nat, 64),
        bits@.len() == 64,
{
    let mut bits: Vec<bool> = Vec::new();
    let mut rest: u64 = word;
    let ghost want = low_bits(word as nat, 64);
    assert(want =~= bits@ + low_bits(rest as nat, 64));
    for j in 0..64usize
        invariant
            want == bits@ + low_bits(rest as nat, (64 - j) as nat),
    {
        let ghost before = bits@;
        let ghost tail = low_bits((rest / 2) as nat, (63 - j) as nat);
        let bit: bool = rest % 2 == 1;
        bits.push(bit);
        assert(before + (seq![bit] + tail) =~= bits@ + tail);
        rest = rest / 2;
    }
    assert(want =~= bits@);
    proof {
        crate::words::lemma_low_bits(word as nat, 64);
    }
    bits
}

fn join_bits(bits: &Vec<bool>) -> (words: Vec<u64>)
    requires
        bits@.len() % 64 == 0,
    ensures
        words@ == bits_words(bits@),
{
    let n: usize = bits.len() / 64;
    let mut words: Vec<u64> = Vec::new();
    for k in 0..n
        invariant
            n == bits.len() / 64,
            bits@.len() % 64 == 0,
            words@ == bits_words(bits@).take(k as int),
    {
        let ghost own = bits_of_word(bits@, k as int);
        let mut v: u64 = 0;
        let mut j: usize = 64;
        assert(own.skip(64) =~= Seq::empty());
        while j > 0
            invariant
                j <= 64,
                k < n,
                n == bits.len() / 64,
                bits@.len() % 64 == 0,
                own == bits_of_word(bits@, k as int),
                v == bits_number(own.skip(j as int)),
            decreases j,
        {
            let bit: bool = bits[64 * k + 64 - j];
            let ghost tail = own.skip(j - 1);
            proof {
                assert(tail.skip(1) =~= own.skip(j as int));
                assert(tail[0] == own[j - 1]);
                crate::words::lemma_bits_number(tail);
                vstd::arithmetic::power2::lemma2_to64_rest();
                if tail.len() < 64 {
                    vstd::arithmetic::power2::lemma_pow2_strictly_increases(tail.len(), 64);
                }
            }
            v = 2 * v + if bit {
                1
            } else {
                0
            };
            j = j - 1;
        }
        assert(own.skip(0) =~= own);
        words.push(v);
        assert(words@ =~= bits_words(bits@).take(k + 1));
    }
    assert(words@ =~= bits_words(bits@));
    words
}

/// The bits with those at the peaks flipped one after the other, and what
/// they were before.
pub open spec fn marked(bits: Seq<bool>, peaks: Seq<usize>) -> (Seq<bool>, Seq<bool>)
    decreases peaks.len(),
{
    if peaks.len() == 0 {
        (bits, Seq::empty())
    } else {
        let (b, log) = marked(bits, peaks.drop_last());
        let i = peaks.last() as int;
        if i < b.len() {
            (b.update(i, !b[i]), log.push(b[i]))
        } else {
            (b, log)
        }
    }
}

/// The bits with those at the peaks set, from the last peak to the first, to
/// what the log holds from `base` on.
pub open spec fn restored(
    bits: Seq<bool>,
    peaks: Seq<usize>,
    log: Seq<bool>,
    base: int,
) -> Seq<bool>
    decreases peaks.len(),
{
    if peaks.len() == 0 {
        bits
    } else {
        let i = peaks.last() as int;
        let b = if i < bits.len() {
            bits.update(i, log[base + peaks.len() - 1])
        } else {
            bits
        };
        restored(b, peaks.drop_last(), log, base)
    }
}

/// How many of the peaks lie within `n` bits.
pub open spec fn peaks_within(peaks: Seq<usize>, n: nat) -> nat
    decreases peaks.len(),
{
    if peaks.len() == 0 {
        0
    } else {
        peaks_within(peaks.drop_last(), n) + if peaks.last() < n {
            1nat
        } else {
            0
        }
    }
}

proof fn lemma_marked_len(bits: Seq<bool>, peaks: Seq<usize>)
    ensures
        marked(bits, peaks).0.len() == bits.len(),
        marked(bits, peaks).1.len() == peaks_within(peaks, bits.len()),
        peaks_within(peaks, bits.len()) <= peaks.len(),
        (forall|j: int| 0 <= j < peaks.len() ==> (#[trigger] peaks[j]) < bits.len()) ==> marked(
            bits,
            peaks,
        ).1.len() == peaks.len(),
    decreases peaks.len(),
{
    if peaks.len() > 0 {
        let front = peaks.drop_last();
        lemma_marked_len(bits, front);
        if forall|j: int| 0 <= j < peaks.len() ==> (#[trigger] peaks[j]) < bits.len() {
            assert forall|j: int| 0 <= j < front.len() implies (#[trigger] front[j]) < bits.len() by {
                assert(front[j] == peaks[j]);
            }
            assert(peaks[peaks.len() - 1] < bits.len());
        }
    }
}

/// Setting the bits to what the log holds undoes the flips.
proof fn lemma_restored(bits: Seq<bool>, peaks: Seq<usize>, log: Seq<bool>, base: int)
    requires
        forall|j: int| 0 <= j < peaks.len() ==> (#[trigger] peaks[j]) < bits.len(),
        forall|j: int|
            0 <= j < peaks.len() ==> log[base + j] == #[trigger] marked(bits, peaks).1[j],
    ensures
        restored(marked(bits, peaks).0, peaks, log, base) == bits,
    decreases peaks.len(),
{
    if peaks.len() > 0 {
        let front = peaks.drop_last();
        let n = front.len() as int;
        let (b, before) = marked(bits, front);
        let i = peaks.last() as int;
        assert forall|j: int| 0 <= j < front.len() implies (#[trigger] front[j]) < bits.len() by {
            assert(front[j] == peaks[j]);
        }
        assert(peaks[n] < bits.len());
        lemma_marked_len(bits, front);
        lemma_marked_len(bits, peaks);
        let (all, after) = marked(bits, peaks);
        assert(after == before.push(b[i]));
        assert(log[base + n] == after[n]);
        assert(all.update(i, log[base + n]) =~= b);
        assert forall|j: int| 0 <= j < front.len() implies log[base + j]
            == #[trigger] before[j] by {
            assert(after[j] == before[j]);
        }
        lemma_restored(bits, front, log, base);
    }
}

/// Place `i` is flipped an odd number of times.
pub open spec fn flips(peaks: Seq<usize>, i: int) -> bool
    decreases peaks.len(),
{
    if peaks.len() == 0 {
        false
    } else {
        flips(peaks.drop_last(), i) != (peaks.last() == i)
    }
}

proof fn lemma_flips(bits: Seq<bool>, peaks: Seq<usize>)
    ensures
        marked(bits, peaks).0.len() == bits.len(),
        forall|i: int|
            0 <= i < bits.len() ==> #[trigger] marked(bits, peaks).0[i] == (bits[i] != flips(
                peaks,
                i,
            )),
    decreases peaks.len(),
{
    if peaks.len() > 0 {
        lemma_flips(bits, peaks.drop_last());
    }
}

/// One round: the words, and what it logs.
pub open spec fn round_of(words: Seq<u64>, k: KeyView) -> (Seq<u64>, Seq<bool>) {
    let (b, log) = marked(folded(word_bits(mixed(words, k))), k.peaks);
    (unmixed(bits_words(folded(b)), k), log)
}

/// The words before a round whose log stands at `base`.
pub open spec fn unround(words: Seq<u64>, k: KeyView, log: Seq<bool>, base: int) -> Seq<u64> {
    let b = restored(folded(word_bits(mixed(words, k))), k.peaks, log, base);
    unmixed(bits_words(folded(b)), k)
}

/// The words after some rounds, and what they log.
pub open spec fn rounds_of(words: Seq<u64>, k: KeyView, rounds: nat) -> (Seq<u64>, Seq<bool>)
    decreases rounds,
{
    if rounds == 0 {
        (words, Seq::empty())
    } else {
        let (w, log) = rounds_of(words, k, (rounds - 1) as nat);
        let (next, more) = round_of(w, k);
        (next, log + more)
    }
}

/// The words before some rounds.
pub open spec fn unrounds(words: Seq<u64>, k: KeyView, log: Seq<bool>, rounds: nat) -> Seq<u64>
    decreases rounds,
{
    if rounds == 0 {
        words
    } else {
        unrounds(
            unround(words, k, log, (rounds - 1) * k.peaks.len()),
            k,
            log,
            (rounds - 1) as nat,
        )
    }
}

/// The parts of a round fit together.
proof fn lemma_round_shape(words: Seq<u64>, k: KeyView)
    requires
        is_pow2(words.len() as int),
    ensures
        is_pow2(64 * words.len() as int),
        folded(word_bits(mixed(words, k))).len() == 64 * words.len(),
        marked(folded(word_bits(mixed(words, k))), k.peaks).0.len() == 64 * words.len(),
        round_of(words, k).0.len() == words.len(),
        round_of(words, k).1.len() == peaks_within(k.peaks, 64 * words.len()),
{
    lemma_times_64(words.len());
    let bits = word_bits(mixed(words, k));
    lemma_folded_len(bits);
    lemma_marked_len(folded(bits), k.peaks);
    lemma_folded_len(marked(folded(bits), k.peaks).0);
}

proof fn lemma_times_64(n: nat)
    requires
        is_pow2(n as int),
    ensures
        is_pow2(64 * n as int),
{
    reveal(is_pow2);
    assert(is_pow2(2 * n as int));
    assert(is_pow2(4 * n as int));
    assert(is_pow2(8 * n as int));
    assert(is_pow2(16 * n as int));
    assert(is_pow2(32 * n as int));
}

/// With its log a round can be undone.
proof fn lemma_round_undone(words: Seq<u64>, k: KeyView, log: Seq<bool>, base: int)
    requires
        is_pow2(words.len() as int),
        forall|j: int| 0 <= j < k.peaks.len() ==> (#[trigger] k.peaks[j]) < 64 * words.len(),
        forall|j: int|
            0 <= j < k.peaks.len() ==> log[base + j] == #[trigger] round_of(words, k).1[j],
    ensures
        unround(round_of(words, k).0, k, log, base) == words,
{
    lemma_round_shape(words, k);
    let bits = word_bits(mixed(words, k));
    let f = folded(bits);
    let (b, own) = marked(f, k.peaks);
    let out = bits_words(folded(b));
    lemma_folded_len(b);
    law_mixer_is_undone(out, k);
    lemma_bits_words(words, folded(b));
    law_folded_self_inverse(b);
    assert forall|j: int| 0 <= j < k.peaks.len() implies log[base + j] == #[trigger] own[j] by {
        assert(round_of(words, k).1[j] == own[j]);
    }
    lemma_restored(f, k.peaks, log, base);
    law_folded_self_inverse(bits);
    lemma_bits_words(mixed(words, k), bits);
    law_mixer_is_undone(words, k);
}

/// The operator undoes itself: two rounds give the words back.
pub proof fn law_operator_is_an_involution(words: Seq<u64>, k: KeyView)
    requires
        is_pow2(words.len() as int),
    ensures
        round_of(round_of(words, k).0, k).0 == words,
{
    lemma_round_shape(words, k);
    let bits = word_bits(mixed(words, k));
    let f = folded(bits);
    let b = marked(f, k.peaks).0;
    let out = bits_words(folded(b));
    lemma_folded_len(b);
    law_mixer_is_undone(out, k);
    lemma_bits_words(words, folded(b));
    law_folded_self_inverse(b);
    lemma_flips(f, k.peaks);
    lemma_flips(b, k.peaks);
    assert(marked(b, k.peaks).0 =~= f);
    law_folded_self_inverse(bits);
    lemma_bits_words(mixed(words, k), bits);
    law_mixer_is_undone(words, k);
}

/// A place that occurs once is flipped, one that does not occur is not.
proof fn lemma_distinct_flips(peaks: Seq<usize>, i: usize)
    requires
        peaks.no_duplicates(),
    ensures
        flips(peaks, i as int) == peaks.contains(i),
    decreases peaks.len(),
{
    if peaks.len() > 0 {
        let front = peaks.drop_last();
        let n = front.len() as int;
        assert forall|a: int, b: int| 0 <= a < b < front.len() implies front[a] != front[b] by {
            assert(front[a] == peaks[a] && front[b] == peaks[b]);
        }
        lemma_distinct_flips(front, i);
        if front.contains(i) {
            let j = choose|j: int| 0 <= j < front.len() && front[j] == i;
            assert(peaks[j] == i);
            assert(peaks[j] != peaks[n]);
        }
        if peaks.contains(i) {
            let j = choose|j: int| 0 <= j < peaks.len() && peaks[j] == i;
            if j < n {
                assert(front[j] == i);
            }
        }
        if peaks.last() == i {
            assert(peaks[n] == i);
        }
    }
}

/// A round with a peak in the window changes the words, whatever the block and
/// however weak the peak; and so does every odd number of rounds.
pub proof fn law_odd_rounds_change_words(words: Seq<u64>, k: KeyView, rounds: nat, j: int)
    requires
        is_pow2(words.len() as int),
        k.peaks.no_duplicates(),
        0 <= j < k.peaks.len(),
        k.peaks[j] < 64 * words.len(),
        rounds % 2 == 1,
    ensures
        rounds_of(words, k, rounds).0 == round_of(words, k).0,
        rounds_of(words, k, rounds).0 != words,
    decreases rounds,
{
    if rounds == 1 {
        reveal_with_fuel(rounds_of, 2);
        lemma_round_shape(words, k);
        let bits = word_bits(mixed(words, k));
        let f = folded(bits);
        let b = marked(f, k.peaks).0;
        let i = k.peaks[j];
        lemma_flips(f, k.peaks);
        lemma_distinct_flips(k.peaks, i);
        assert(b[i as int] != f[i as int]);
        if round_of(words, k).0 == words {
            lemma_folded_len(b);
            law_mixer_is_undone(bits_words(folded(b)), k);
            lemma_bits_words(words, folded(b));
            law_folded_self_inverse(b);
            law_folded_self_inverse(bits);
            assert(folded(b) == bits);
        }
    } else {
        let w = rounds_of(words, k, (rounds - 2) as nat).0;
        law_odd_rounds_change_words(words, k, (rounds - 2) as nat, j);
        reveal_with_fuel(rounds_of, 3);
        law_operator_is_an_involution(words, k);
        assert(w == round_of(words, k).0);
        assert(rounds_of(words, k, (rounds - 1) as nat).0 == words);
    }
}

/// How long the log is: one bit for every peak within the window and every
/// round, whatever the block.
pub proof fn law_log_length(words: Seq<u64>, k: KeyView, rounds: nat)
    requires
        is_pow2(words.len() as int),
    ensures
        rounds_of(words, k, rounds).0.len() == words.len(),
        rounds_of(words, k, rounds).1.len() == rounds * peaks_within(k.peaks, 64 * words.len()),
        (forall|j: int| 0 <= j < k.peaks.len() ==> (#[trigger] k.peaks[j]) < 64 * words.len())
            ==> rounds_of(words, k, rounds).1.len() == rounds * k.peaks.len(),
        peaks_within(k.peaks, 64 * words.len()) <= k.peaks.len(),
    decreases rounds,
{
    let p = peaks_within(k.peaks, 64 * words.len());
    let some: Seq<bool> = Seq::new(64 * words.len(), |i: int| true);
    lemma_marked_len(some, k.peaks);
    if rounds == 0 {
        assert(0 * p == 0);
    } else {
        law_log_length(words, k, (rounds - 1) as nat);
        lemma_round_shape(rounds_of(words, k, (rounds - 1) as nat).0, k);
        assert(rounds * p == (rounds - 1) * p + p) by (nonlinear_arith);
    }
}

proof fn lemma_rounds_undone(words: Seq<u64>, k: KeyView, rounds: nat, log: Seq<bool>)
    requires
        is_pow2(words.len() as int),
        forall|j: int| 0 <= j < k.peaks.len() ==> (#[trigger] k.peaks[j]) < 64 * words.len(),
        rounds_of(words, k, rounds).1.len() <= log.len(),
        forall|i: int|
            0 <= i < rounds_of(words, k, rounds).1.len() ==> log[i] == #[trigger] rounds_of(
                words,
                k,
                rounds,
            ).1[i],
    ensures
        unrounds(rounds_of(words, k, rounds).0, k, log, rounds) == words,
    decreases rounds,
{
    if rounds > 0 {
        let m = (rounds - 1) as nat;
        let (w, before) = rounds_of(words, k, m);
        let (next, more) = round_of(w, k);
        let all = before + more;
        law_log_length(words, k, m);
        law_log_length(words, k, rounds);
        lemma_round_shape(w, k);
        lemma_marked_len(folded(word_bits(mixed(w, k))), k.peaks);
        let base = m * k.peaks.len();
        assert(before.len() == base);
        assert forall|j: int| 0 <= j < k.peaks.len() implies log[base + j] == #[trigger] round_of(
            w,
            k,
        ).1[j] by {
            assert(all[base + j] == more[j]);
            assert(rounds_of(words, k, rounds).1[base + j] == all[base + j]);
        }
        lemma_round_undone(w, k, log, base as int);
        assert forall|i: int| 0 <= i < before.len() implies log[i] == #[trigger] before[i] by {
            assert(all[i] == before[i]);
            assert(rounds_of(words, k, rounds).1[i] == all[i]);
        }
        lemma_rounds_undone(words, k, m, log);
    }
}

/// The block cut or filled with zeros to `n` words.
pub open spec fn window_bytes(block: Seq<u8>, n: nat) -> Seq<u8> {
    Seq::new(
        8 * n,
        |i: int|
            if i < block.len() {
                block[i]
            } else {
                0
            },
    )
}

/// The words cut or filled with zeros to `n` words.
pub open spec fn window_words(words: Seq<u64>, n: nat) -> Seq<u64> {
    Seq::new(
        n,
        |i: int|
            if i < words.len() {
                words[i]
            } else {
                0
            },
    )
}

fn run_round(words: &mut Vec<u64>, key: &MagicKey, branch: &mut BranchVector)
    requires
        is_pow2(old(words)@.len() as int),
        64 * old(words).len() <= usize::MAX,
        old(branch).wf(),
        old(branch)@.len() + key.peak_indices.len() <= usize::MAX,
    ensures
        final(words)@ == round_of(old(words)@, key@).0,
        final(branch).wf(),
        final(branch)@ == old(branch)@ + round_of(old(words)@, key@).1,
{
    let ghost w = words@;
    let ghost log = branch@;
    proof {
        lemma_round_shape(w, key@);
    }
    let stirred_words = mix_words(words, key);
    let mut bits = split_words(&stirred_words);
    fold_inplace(&mut bits);
    let ghost f = bits@;
    let n: usize = key.peak_indices.len();
    let ghost all = key.peak_indices@;
    assert(all.take(0) =~= Seq::empty());
    assert(branch@ =~= log + marked(f, all.take(0)).1);
    for j in 0..n
        invariant
            all == key.peak_indices@,
            n == key.peak_indices.len(),
            branch.wf(),
            log.len() + n <= usize::MAX,
            bits@ == marked(f, all.take(j as int)).0,
            branch@ == log + marked(f, all.take(j as int)).1,
    {
        assert(all.take(j + 1).drop_last() =~= all.take(j as int));
        proof {
            lemma_marked_len(f, all.take(j as int));
        }
        let i: usize = key.peak_indices[j];
        if i < bits.len() {
            let bit: bool = bits[i];
            branch.push(if bit { BranchBit::Odd } else { BranchBit::Even });
            bits.set(i, !bit);
            assert(branch@ =~= log + marked(f, all.take(j + 1)).1);
        }
    }
    assert(all.take(n as int) =~= all);
    proof {
        lemma_marked_len(f, all);
        lemma_folded_len(bits@);
    }
    fold_inplace(&mut bits);
    let joined = join_bits(&bits);
    *words = unmix_words(&joined, key);
}

/// Encodes a block: some rounds of the operator, and the log of their
/// decisions.
pub fn encode_block(block: &[u8], key: &MagicKey, rounds: usize) -> (r: (Vec<u64>, BranchVector))
    requires
        is_pow2(key.window_bits as int / 64),
        rounds * key.peak_indices@.len() <= usize::MAX,
    ensures
        r.1.wf(),
        (r.0@, r.1@) == rounds_of(
            words_of(window_bytes(block@, (key.window_bits / 64) as nat)),
            key@,
            rounds as nat,
        ),
{
    let n: usize = key.window_bits / 64;
    let mut bytes: Vec<u8> = Vec::new();
    let total: usize = 8 * n;
    for i in 0..total
        invariant
            total == 8 * n,
            bytes@ == window_bytes(block@, n as nat).take(i as int),
    {
        bytes.push(
            if i < block.len() {
                block[i]
            } else {
                0
            },
        );
        assert(bytes@ =~= window_bytes(block@, n as nat).take(i + 1));
    }
    assert(bytes@ =~= window_bytes(block@, n as nat));
    let mut words = to_words(bytes.as_slice());
    let ghost start = words@;
    let mut branch = BranchVector::new();
    let peaks: usize = key.peak_indices.len();
    for k in 0..rounds
        invariant
            n == key.window_bits / 64,
            is_pow2(n as int),
            start.len() == n,
            words@.len() == n,
            words.len() == n,
            peaks == key.peak_indices@.len(),
            rounds * peaks <= usize::MAX,
            branch.wf(),
            (words@, branch@) == rounds_of(start, key@, k as nat),
    {
        proof {
            law_log_length(start, key@, k as nat);
            let within = peaks_within(key@.peaks, 64 * start.len());
            assert(k * within + peaks <= rounds * peaks) by (nonlinear_arith)
                requires
                    0 <= within <= peaks,
                    k + 1 <= rounds,
            ;
            law_log_length(start, key@, (k + 1) as nat);
        }
        run_round(&mut words, key, &mut branch);
    }
    (words, branch)
}

fn undo_round(words: &Vec<u64>, key: &MagicKey, branch: &BranchVector, base: usize) -> (out: Vec<
    u64,
>)
    requires
        is_pow2(words@.len() as int),
        64 * words.len() <= usize::MAX,
        branch.wf(),
        base + key.peak_indices@.len() <= usize::MAX,
        forall|j: int|
            0 <= j < key.peak_indices@.len() && (#[trigger] key.peak_indices@[j]) < 64
                * words@.len() ==> base + j < branch@.len(),
    ensures
        out@ == unround(words@, key@, branch@, base as int),
        out@.len() == words@.len(),
{
    proof {
        lemma_round_shape(words@, key@);
    }
    let stirred_words = mix_words(words, key);
    let mut bits = split_words(&stirred_words);
    fold_inplace(&mut bits);
    let ghost f = bits@;
    let ghost all = key.peak_indices@;
    let mut j: usize = key.peak_indices.len();
    assert(all.take(j as int) =~= all);
    while j > 0
        invariant
            all == key.peak_indices@,
            j <= key.peak_indices.len(),
            branch.wf(),
            bits@.len() == 64 * words@.len(),
            base + key.peak_indices@.len() <= usize::MAX,
            forall|i: int|
                0 <= i < key.peak_indices@.len() && (#[trigger] key.peak_indices@[i]) < 64
                    * words@.len() ==> base + i < branch@.len(),
            restored(f, all, branch@, base as int) == restored(
                bits@,
                all.take(j as int),
                branch@,
                base as int,
            ),
        decreases j,
    {
        assert(all.take(j as int).drop_last() =~= all.take(j - 1));
        let i: usize = key.peak_indices[j - 1];
        if i < bits.len() {
            assert(base + (j - 1) < branch@.len());
            let bit: bool = branch.get(base + (j - 1)) == BranchBit::Odd;
            bits.set(i, bit);
        }
        j = j - 1;
    }
    assert(restored(bits@, all.take(0), branch@, base as int) == bits@);
    proof {
        lemma_folded_len(bits@);
    }
    fold_inplace(&mut bits);
    let joined = join_bits(&bits);
    unmix_words(&joined, key)
}

/// Decodes a block: the rounds are undone from the last to the first, each
/// with its part of the log.
pub fn decode_block(
    encoded_words: &[u64],
    key: &MagicKey,
    branch: &BranchVector,
    rounds: usize,
) -> (out: Vec<u8>)
    requires
        is_pow2(key.window_bits as int / 64),
        branch.wf(),
        rounds * key.peak_indices@.len() <= usize::MAX,
        forall|t: int, j: int|
            0 <= t < rounds && 0 <= j < key.peak_indices@.len() && (
            #[trigger] key.peak_indices@[j]) < 64 * (key.window_bits / 64)
                ==> #[trigger] (t * key.peak_indices@.len()) + j < branch@.len(),
    ensures
        out@ == word_bytes(
            unrounds(
                window_words(encoded_words@, (key.window_bits / 64) as nat),
                key@,
                branch@,
                rounds as nat,
            ),
        ),
{
    let n: usize = key.window_bits / 64;
    let mut words: Vec<u64> = Vec::new();
    for i in 0..n
        invariant
            words@ == window_words(encoded_words@, n as nat).take(i as int),
    {
        words.push(
            if i < encoded_words.len() {
                encoded_words[i]
            } else {
                0
            },
        );
        assert(words@ =~= window_words(encoded_words@, n as nat).take(i + 1));
    }
    assert(words@ =~= window_words(encoded_words@, n as nat));
    let ghost start = words@;
    let peaks: usize = key.peak_indices.len();
    let mut k: usize = rounds;
    while k > 0
        invariant
            k <= rounds,
            n == key.window_bits / 64,
            is_pow2(n as int),
            words@.len() == n,
            words.len() == n,
            peaks == key.peak_indices@.len(),
            rounds * peaks <= usize::MAX,
            branch.wf(),
            forall|t: int, j: int|
                0 <= t < rounds && 0 <= j < key.peak_indices@.len() && (
                #[trigger] key.peak_indices@[j]) < 64 * (key.window_bits / 64)
                    ==> #[trigger] (t * key.peak_indices@.len()) + j < branch@.len(),
            unrounds(start, key@, branch@, rounds as nat) == unrounds(
                words@,
                key@,
                branch@,
                k as nat,
            ),
        decreases k,
    {
        assert(0 <= (k - 1) * peaks && (k - 1) * peaks + peaks <= rounds * peaks)
            by (nonlinear_arith)
            requires
                1 <= k <= rounds,
                0 <= peaks,
        ;
        let base: usize = (k - 1) * peaks;
        assert forall|j: int|
            0 <= j < key.peak_indices@.len() && (#[trigger] key.peak_indices@[j]) < 64
                * words@.len() implies base + j < branch@.len() by {
            let t = k - 1;
            assert((t * key.peak_indices@.len()) + j < branch@.len());
        }
        words = undo_round(&words, key, branch, base);
        k = k - 1;
    }
    crate::codec::trajectory::words_to_bytes(&words)
}

/// Decoding an encoded block gives back the block, cut or filled with zeros
/// to the window.
pub proof fn law_block_roundtrip(block: Seq<u8>, k: KeyView, rounds: nat)
    requires
        is_pow2(k.window_bits as int / 64),
        forall|j: int|
            0 <= j < k.peaks.len() ==> (#[trigger] k.peaks[j]) < 64 * (k.window_bits / 64),
    ensures
        ({
            let n = k.window_bits / 64;
            let (words, log) = rounds_of(words_of(window_bytes(block, n)), k, rounds);
            &&& log.len() == rounds * k.peaks.len()
            &&& word_bytes(unrounds(window_words(words, n), k, log, rounds)) == window_bytes(
                block,
                n,
            )
        }),
        block.len() == 8 * (k.window_bits / 64) ==> window_bytes(block, k.window_bits / 64)
            == block,
{
    let n = k.window_bits / 64;
    let bytes = window_bytes(block, n);
    let start = words_of(bytes);
    let (words, log) = rounds_of(start, k, rounds);
    law_log_length(start, k, rounds);
    assert(window_words(words, n) =~= words);
    lemma_rounds_undone(start, k, rounds, log);
    crate::words::lemma_words_roundtrip(bytes);
    if block.len() == 8 * n {
        assert(bytes =~= block);
    }
}

/// Key, log and overhead are together shorter than the window.
pub fn audit(key: &MagicKey, branch: &BranchVector, overhead_bits: usize) -> (r: bool)
    requires
        key.window_bits > 0,
        branch.wf(),
    ensures
        r == (key_bits(key@) + branch@.len() + overhead_bits < key.window_bits),
{
    crate::keygen::is_profitable(key, branch.len(), overhead_bits)
}

/// The mixer swaps the halves. What was the left half is covered by a function of
/// the right half alone: words with the same right half keep the difference of
/// their left halves. A word that belongs to no half stays.
pub proof fn law_mixer_swaps_halves(left: Seq<u64>, right: Seq<u64>, k: KeyView, i: int)
    requires
        left.len() == right.len(),
        0 <= i < left.len() / 2,
    ensures
        ({
            let half = left.len() as int / 2;
            let (a, b) = (mixed(left, k), mixed(right, k));
            &&& a.len() == left.len()
            &&& a[i] == left[i + half]
            &&& left[i + half] == right[i + half] ==> a[i + half] ^ b[i + half] == left[i]
                ^ right[i]
            &&& left.len() % 2 == 1 ==> a.last() == left.last()
        }),
{
    let half = left.len() as int / 2;
    let g = stirred(left[i + half], k);
    crate::words::lemma_xor_regroup(left[i], g, right[i], g);
    crate::words::lemma_xor(g, g);
    crate::words::lemma_xor(left[i] ^ right[i], 0);
}

/// Different words are stirred differently, where the shifts are from 1 to 63 and
/// the multiplier is odd.
pub proof fn law_stirring_tells_words(a: u64, b: u64, k: KeyView)
    requires
        1 <= k.s0 <= 63,
        1 <= k.s1 <= 63,
        k.odd_mul % 2 == 1,
        stirred(a, k) == stirred(b, k),
    ensures
        a == b,
{
    let (s, t) = (k.s0 as u64, k.s1 as u64);
    let (a1, b1) = ((a << s) ^ a, (b << s) ^ b);
    let (a2, b2) = ((a1 >> t) ^ a1, (b1 >> t) ^ b1);
    crate::words::lemma_xor(a << s, a);
    crate::words::lemma_xor(b << s, b);
    crate::words::lemma_xor(a1 >> t, a1);
    crate::words::lemma_xor(b1 >> t, b1);
    assert(k.s0 % 64 == k.s0 && k.s1 % 64 == k.s1);
    crate::kernel::invert::law_odd_product_is_undone(a2, k.odd_mul);
    crate::kernel::invert::law_odd_product_is_undone(b2, k.odd_mul);
    crate::kernel::invert::law_shift_right_is_undone(a1, t as nat);
    crate::kernel::invert::law_shift_right_is_undone(b1, t as nat);
    crate::kernel::invert::law_shift_left_is_undone(a, s as nat);
    crate::kernel::invert::law_shift_left_is_undone(b, s as nat);
}

/// A round turns around just the bits at the peaks, of the mixed words as the
/// binary butterfly shows them, and logs what these bits were.
pub proof fn law_round_turns_peaks(words: Seq<u64>, k: KeyView, i: usize, j: int)
    requires
        is_pow2(words.len() as int),
        k.peaks.no_duplicates(),
        forall|j: int| 0 <= j < k.peaks.len() ==> (#[trigger] k.peaks[j]) < 64 * words.len(),
        i < 64 * words.len(),
        0 <= j < k.peaks.len(),
    ensures
        ({
            let before = folded(word_bits(mixed(words, k)));
            let (out, log) = round_of(words, k);
            let after = folded(word_bits(mixed(out, k)));
            &&& after.len() == before.len() == 64 * words.len()
            &&& (after[i as int] != before[i as int]) == k.peaks.contains(i)
            &&& log.len() == k.peaks.len()
            &&& log[j] == before[k.peaks[j] as int]
        }),
{
    lemma_round_shape(words, k);
    let bits = word_bits(mixed(words, k));
    let f = folded(bits);
    let b = marked(f, k.peaks).0;
    let out = bits_words(folded(b));
    lemma_folded_len(b);
    law_mixer_is_undone(out, k);
    lemma_bits_words(words, folded(b));
    law_folded_self_inverse(b);
    lemma_flips(f, k.peaks);
    lemma_distinct_flips(k.peaks, i);
    lemma_marked_len(f, k.peaks);
    lemma_logged(f, k.peaks, j);
}

proof fn lemma_logged(bits: Seq<bool>, peaks: Seq<usize>, j: int)
    requires
        peaks.no_duplicates(),
        forall|j: int| 0 <= j < peaks.len() ==> (#[trigger] peaks[j]) < bits.len(),
        0 <= j < peaks.len(),
    ensures
        marked(bits, peaks).1.len() == peaks.len(),
        marked(bits, peaks).1[j] == bits[peaks[j] as int],
    decreases peaks.len(),
{
    let front = peaks.drop_last();
    let n = front.len() as int;
    assert forall|a: int, b: int| 0 <= a < b < front.len() implies front[a] != front[b] by {
        assert(front[a] == peaks[a] && front[b] == peaks[b]);
    }
    assert forall|j: int| 0 <= j < front.len() implies (#[trigger] front[j]) < bits.len() by {
        assert(front[j] == peaks[j]);
    }
    lemma_marked_len(bits, front);
    lemma_marked_len(bits, peaks);
    if j < n {
        lemma_logged(bits, front, j);
        assert(front[j] == peaks[j]);
    } else {
        lemma_flips(bits, front);
        lemma_distinct_flips(front, peaks[n]);
        if front.contains(peaks[n]) {
            let i = choose|i: int| 0 <= i < front.len() && front[i] == peaks[n];
            assert(peaks[i] == peaks[n]);
        }
        assert(peaks[n] < bits.len());
    }
}

} // verus!
