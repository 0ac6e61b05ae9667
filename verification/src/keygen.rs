//! A greedy audit of the spectrum of a block.
//!
//! Each peak costs its index in `K` and saves branch bits in `V`; it is taken
//! only where it saves more than it costs, and no peak is kept where the key
//! with its indices does not pay as a whole.
use vstd::prelude::*;
use vstd::arithmetic::power2::{is_pow2, pow2};
use crate::bitstream::bit_len;
use crate::fwht::{
    block_peaks, block_spectrum, distance, goes_before, is_listed, law_ranking_of_spectrum,
    magnitude, strongest,
};

verus! {

/// The key of one block: which peaks were taken, and the parameters of the
/// word mixer.
#[derive(Debug, Clone)]
pub struct MagicKey {
    pub window_bits: usize,
    pub peak_indices: Vec<usize>,
    pub feistel_s0: u8,
    pub feistel_s1: u8,
    pub feistel_odd_mul: u64,
    pub feistel_add: u64,
}

/// A key as mathematical values.
#[verifier::ext_equal]
pub struct KeyView {
    pub window_bits: nat,
    pub peaks: Seq<usize>,
    pub s0: u8,
    pub s1: u8,
    pub odd_mul: u64,
    pub add_c: u64,
}

impl View for MagicKey {
    type V = KeyView;

    open spec fn view(&self) -> KeyView {
        KeyView {
            window_bits: self.window_bits as nat,
            peaks: self.peak_indices@,
            s0: self.feistel_s0,
            s1: self.feistel_s1,
            odd_mul: self.feistel_odd_mul,
            add_c: self.feistel_add,
        }
    }
}

/// The bits of one peak index: the binary logarithm of the window.
pub open spec fn index_bits(window_bits: nat) -> nat {
    (bit_len(window_bits) - 1) as nat
}

/// The length of a key in bits.
pub open spec fn key_bits(k: KeyView) -> nat {
    32 + k.peaks.len() * index_bits(k.window_bits) + 144
}

/// The number of bits of a peak index for a window.
pub fn index_bits_for(window_bits: usize) -> (bits: usize)
    requires
        window_bits > 0,
    ensures
        bits == index_bits(window_bits as nat),
        bits < 64,
{
    let mut rest: usize = window_bits / 2;
    let mut bits: usize = 0;
    proof {
        crate::bitstream::lemma_bit_len(window_bits as nat, 64);
        vstd::arithmetic::power2::lemma2_to64_rest();
    }
    while rest > 0
        invariant
            bits + bit_len(rest as nat) == index_bits(window_bits as nat),
            index_bits(window_bits as nat) < 64,
        decreases rest,
    {
        rest = rest / 2;
        bits = bits + 1;
    }
    bits
}

impl MagicKey {
    /// The length of the key in bits.
    pub fn bit_len(&self) -> (bits: usize)
        requires
            self.window_bits > 0,
            key_bits(self@) <= usize::MAX,
        ensures
            bits == key_bits(self@),
    {
        let per_index: usize = index_bits_for(self.window_bits);
        32 + self.peak_indices.len() * per_index + 144
    }

    /// The length of the key in bytes.
    pub fn byte_len(&self) -> (bytes: usize)
        requires
            self.window_bits > 0,
            key_bits(self@) + 7 <= usize::MAX,
        ensures
            bytes == (key_bits(self@) + 7) / 8,
    {
        (self.bit_len() + 7) / 8
    }
}

/// How many of the remaining branch bits a peak saves: its share of the
/// window.
pub open spec fn gain_of(amplitude: int, window_bits: nat, remaining: nat) -> nat {
    let strength = (if amplitude < 0 {
        -amplitude
    } else {
        amplitude
    }) as nat;
    strength * remaining / window_bits
}

fn estimated_gain(amplitude: i64, window_bits: usize, current_v_bits: usize) -> (gain: u128)
    requires
        window_bits > 0,
    ensures
        gain == gain_of(amplitude as int, window_bits as nat, current_v_bits as nat),
{
    let strength: u64 = magnitude(amplitude);
    assert(strength * current_v_bits <= u64::MAX * u64::MAX) by (nonlinear_arith)
        requires
            strength <= u64::MAX,
            current_v_bits <= u64::MAX,
    ;
    strength as u128 * current_v_bits as u128 / window_bits as u128
}

/// The peaks that are taken from `at` on, and the branch bits that remain,
/// where some were taken already.
pub open spec fn audited(
    peaks: Seq<(usize, i64)>,
    window_bits: nat,
    at: int,
    taken: Seq<usize>,
    remaining: nat,
) -> (Seq<usize>, nat)
    decreases peaks.len() - at,
{
    if !(0 <= at < peaks.len()) {
        (taken, remaining)
    } else if peaks[at].0 == 0 {
        audited(peaks, window_bits, at + 1, taken, remaining)
    } else {
        let gain = gain_of(peaks[at].1 as int, window_bits, remaining);
        let cost = index_bits(window_bits);
        if gain > cost {
            audited(
                peaks,
                window_bits,
                at + 1,
                taken.push(peaks[at].0),
                if gain < remaining {
                    (remaining - gain) as nat
                } else {
                    0
                },
            )
        } else if taken.len() * cost + 176 + remaining + 64 >= window_bits {
            (taken, remaining)
        } else {
            audited(peaks, window_bits, at + 1, taken, remaining)
        }
    }
}

/// The peaks of the spectrum that are kept, and the branch bits that remain:
/// what the audit leaves, or no peak at all where the key would not pay.
pub open spec fn accepted(peaks: Seq<(usize, i64)>, window_bits: nat) -> (Seq<usize>, nat) {
    let (taken, remaining) = audited(peaks, window_bits, 0, Seq::empty(), window_bits);
    if 176 + taken.len() * index_bits(window_bits) + remaining >= window_bits {
        (Seq::empty(), window_bits)
    } else {
        (taken, remaining)
    }
}

/// A word folded into eight bits.
pub open spec fn fold8(v: u64) -> u64 {
    let a = v ^ (v >> 32);
    let b = a ^ (a >> 16);
    let c = b ^ (b >> 8);
    c & 0xFF
}

fn fold_word(v: u64) -> (f: u64)
    ensures
        f == fold8(v),
{
    let a: u64 = v ^ (v >> 32);
    let b: u64 = a ^ (a >> 16);
    let c: u64 = b ^ (b >> 8);
    c & 0xFF
}

/// The strength of peak `i`, one where there is none.
pub open spec fn peak_strength(peaks: Seq<(usize, i64)>, i: int) -> u64 {
    if i < peaks.len() {
        (if peaks[i].1 < 0 {
            -peaks[i].1
        } else {
            peaks[i].1 as int
        }) as u64
    } else {
        1
    }
}

/// The key of a block.
pub open spec fn synthesized(block: Seq<u8>, window_bits: nat) -> KeyView {
    let peaks = strongest(block_spectrum(block, window_bits));
    let a0 = peak_strength(peaks, 0);
    let a1 = peak_strength(peaks, 1);
    KeyView {
        window_bits,
        peaks: accepted(peaks, window_bits).0,
        s0: (fold8(a0) % 63 + 1) as u8,
        s1: (fold8(a1) % 63 + 1) as u8,
        odd_mul: a0.wrapping_mul(6364136223846793005) | 1,
        add_c: a1.wrapping_mul(1442695040888963407),
    }
}

/// The branch bits that the audit of a block leaves.
pub open spec fn expected_branches(block: Seq<u8>, window_bits: nat) -> nat {
    accepted(strongest(block_spectrum(block, window_bits)), window_bits).1
}

fn audit_peaks(peaks: &Vec<(usize, i64)>, window_bits: usize) -> (r: (Vec<usize>, usize))
    requires
        window_bits > 0,
    ensures
        (r.0@, r.1 as nat) == accepted(peaks@, window_bits as nat),
{
    let cost: usize = index_bits_for(window_bits);
    let mut taken: Vec<usize> = Vec::new();
    let mut remaining: usize = window_bits;
    let n: usize = peaks.len();
    let ghost want = audited(peaks@, window_bits as nat, 0, Seq::empty(), window_bits as nat);
    let mut at: usize = 0;
    while at < n
        invariant_except_break
            at <= n,
            want == audited(
                peaks@,
                window_bits as nat,
                at as int,
                taken@,
                remaining as nat,
            ),
        invariant
            n == peaks@.len(),
            window_bits > 0,
            cost == index_bits(window_bits as nat),
            cost < 64,
        ensures
            want == (taken@, remaining as nat),
        decreases n - at,
    {
        let (index, amplitude) = peaks[at];
        if index != 0 {
            let gain: u128 = estimated_gain(amplitude, window_bits, remaining);
            if gain > cost as u128 {
                taken.push(index);
                remaining = if gain < remaining as u128 {
                    remaining - gain as usize
                } else {
                    0
                };
            } else {
                let count: usize = taken.len();
                assert(0 <= count * cost <= 64 * count) by (nonlinear_arith)
                    requires
                        0 <= cost < 64,
                        0 <= count,
                ;
                let spent: u128 = count as u128 * cost as u128 + 176 + remaining as u128 + 64;
                if spent >= window_bits as u128 {
                    break;
                }
            }
        }
        at = at + 1;
    }
    let count: usize = taken.len();
    assert(0 <= count * cost <= 64 * count) by (nonlinear_arith)
        requires
            0 <= cost < 64,
            0 <= count,
    ;
    let spent: u128 = 176 + count as u128 * cost as u128 + remaining as u128;
    if spent >= window_bits as u128 {
        let none: Vec<usize> = Vec::new();
        assert(none@ =~= Seq::empty());
        return (none, window_bits);
    }
    (taken, remaining)
}

fn strength_at(peaks: &Vec<(usize, i64)>, i: usize) -> (s: u64)
    ensures
        s == peak_strength(peaks@, i as int),
{
    if i < peaks.len() {
        magnitude(peaks[i].1)
    } else {
        1
    }
}

/// Synthesises the key of a block, and estimates its branch bits.
pub fn synthesize_k(block: &[u8], window_bits: usize) -> (r: (MagicKey, usize))
    requires
        is_pow2(window_bits as int),
        window_bits <= i64::MAX,
    ensures
        r.0@ == synthesized(block@, window_bits as nat),
        r.1 == expected_branches(block@, window_bits as nat),
{
    proof {
        reveal(is_pow2);
    }
    let peaks = block_peaks(block, window_bits);
    let (peak_indices, remaining) = audit_peaks(&peaks, window_bits);
    let a0: u64 = strength_at(&peaks, 0);
    let a1: u64 = strength_at(&peaks, 1);
    let key = MagicKey {
        window_bits,
        peak_indices,
        feistel_s0: (fold_word(a0) % 63 + 1) as u8,
        feistel_s1: (fold_word(a1) % 63 + 1) as u8,
        feistel_odd_mul: a0.wrapping_mul(6364136223846793005) | 1,
        feistel_add: a1.wrapping_mul(1442695040888963407),
    };
    (key, remaining)
}

/// Key, branch bits and overhead are together shorter than the window.
pub open spec fn pays(k: KeyView, v_bits: nat, overhead_bits: nat) -> bool {
    key_bits(k) + v_bits + overhead_bits < k.window_bits
}

/// Whether a key pays.
pub fn is_profitable(key: &MagicKey, estimated_v_bits: usize, overhead_bits: usize) -> (r: bool)
    requires
        key.window_bits > 0,
    ensures
        r == pays(key@, estimated_v_bits as nat, overhead_bits as nat),
{
    let per_index: usize = index_bits_for(key.window_bits);
    let count: usize = key.peak_indices.len();
    assert(0 <= count * per_index <= 64 * count) by (nonlinear_arith)
        requires
            0 <= per_index < 64,
            0 <= count,
    ;
    let bits: u128 = 32 + count as u128 * per_index as u128 + 144;
    let spent: u128 = bits + estimated_v_bits as u128 + overhead_bits as u128;
    spent < key.window_bits as u128
}

proof fn lemma_audit(
    peaks: Seq<(usize, i64)>,
    window_bits: nat,
    at: int,
    taken: Seq<usize>,
    remaining: nat,
)
    requires
        window_bits > 0,
        forall|i: int|
            0 <= i < peaks.len() ==> -window_bits <= (#[trigger] peaks[i]).1 <= window_bits,
        taken.len() * index_bits(window_bits) + taken.len() + remaining <= window_bits,
    ensures
        ({
            let (all, left) = audited(peaks, window_bits, at, taken, remaining);
            all.len() * index_bits(window_bits) + all.len() + left <= window_bits
        }),
    decreases peaks.len() - at,
{
    if 0 <= at < peaks.len() {
        let gain = gain_of(peaks[at].1 as int, window_bits, remaining);
        let cost = index_bits(window_bits);
        if peaks[at].0 != 0 && gain > cost {
            let strength = (if peaks[at].1 < 0 {
                -peaks[at].1
            } else {
                peaks[at].1 as int
            });
            assert(strength * remaining <= remaining * window_bits) by (nonlinear_arith)
                requires
                    0 <= strength <= window_bits,
                    0 <= remaining,
            ;
            vstd::arithmetic::div_mod::lemma_div_is_ordered(
                strength * remaining,
                (remaining * window_bits) as int,
                window_bits as int,
            );
            vstd::arithmetic::div_mod::lemma_div_multiples_vanish(
                remaining as int,
                window_bits as int,
            );
            vstd::arithmetic::mul::lemma_mul_is_commutative(
                window_bits as int,
                remaining as int,
            );
            assert(gain <= remaining);
            assert((taken.len() + 1) * cost == taken.len() * cost + cost) by (nonlinear_arith);
            lemma_audit(
                peaks,
                window_bits,
                at + 1,
                taken.push(peaks[at].0),
                (remaining - gain) as nat,
            );
        } else {
            lemma_audit(peaks, window_bits, at + 1, taken, remaining);
        }
    }
}

/// Every peak that is taken pays for itself: the indices and the branch bits
/// that remain are together shorter than the window by at least one bit for
/// each peak.
pub proof fn law_taken_peaks_pay(block: Seq<u8>, window_bits: nat)
    requires
        is_pow2(window_bits as int),
        window_bits <= i64::MAX,
    ensures
        ({
            let count = synthesized(block, window_bits).peaks.len();
            count * index_bits(window_bits) + count + expected_branches(block, window_bits)
                <= window_bits
        }),
        expected_branches(block, window_bits) <= window_bits,
{
    let x = crate::fwht::bipolar(block, window_bits);
    let spectrum = block_spectrum(block, window_bits);
    let peaks = strongest(spectrum);
    crate::fwht::lemma_wht_bound(x, 1);
    crate::fwht::lemma_wht_len(x);
    crate::order::lemma_ranked(crate::fwht::magnitudes(spectrum));
    assert(is_pow2(window_bits as int) ==> window_bits > 0) by {
        reveal(is_pow2);
    }
    assert forall|i: int| 0 <= i < peaks.len() implies -window_bits <= (#[trigger] peaks[i]).1
        <= window_bits by {
        let order = crate::order::ranked(crate::fwht::magnitudes(spectrum));
        let k = order[i];
        assert(order.contains(k));
        assert(-(1 * x.len()) <= spectrum[k] <= 1 * x.len());
    }
    let none = Seq::<usize>::empty();
    assert(none.len() == 0 && 0 * index_bits(window_bits) == 0);
    lemma_audit(peaks, window_bits, 0, none, window_bits);
}

/// Where peaks are accepted, the whole key and the branch bits that remain are
/// together shorter than the window.
pub proof fn law_accepted_peaks_pay(block: Seq<u8>, window_bits: nat)
    requires
        is_pow2(window_bits as int),
        window_bits <= i64::MAX,
    ensures
        synthesized(block, window_bits).peaks.len() > 0 ==> key_bits(
            synthesized(block, window_bits),
        ) + expected_branches(block, window_bits) < window_bits,
{
}

/// The multiplier of the mixer is odd, and its shifts are proper shifts of a
/// word.
pub proof fn law_mixer_parameters(block: Seq<u8>, window_bits: nat)
    ensures
        synthesized(block, window_bits).odd_mul % 2 == 1,
        1 <= synthesized(block, window_bits).s0 <= 63,
        1 <= synthesized(block, window_bits).s1 <= 63,
{
    let peaks = strongest(block_spectrum(block, window_bits));
    let m = peak_strength(peaks, 0).wrapping_mul(6364136223846793005);
    assert((m | 1) % 2 == 1) by (bit_vector);
}

proof fn lemma_taken_distinct(
    peaks: Seq<(usize, i64)>,
    window_bits: nat,
    at: int,
    taken: Seq<usize>,
    remaining: nat,
)
    requires
        0 <= at <= peaks.len(),
        forall|i: int, j: int|
            0 <= i < j < peaks.len() ==> (#[trigger] peaks[i]).0 != (#[trigger] peaks[j]).0,
        forall|i: int| 0 <= i < peaks.len() ==> (#[trigger] peaks[i]).0 < window_bits,
        forall|k: int|
            0 <= k < taken.len() ==> exists|i: int|
                0 <= i < at && (#[trigger] peaks[i]).0 == #[trigger] taken[k],
        forall|k: int| 0 <= k < taken.len() ==> #[trigger] taken[k] != 0,
        taken.no_duplicates(),
    ensures
        audited(peaks, window_bits, at, taken, remaining).0.no_duplicates(),
        forall|k: int|
            0 <= k < audited(peaks, window_bits, at, taken, remaining).0.len() ==> 0 < (
            #[trigger] audited(peaks, window_bits, at, taken, remaining).0[k]) < window_bits,
    decreases peaks.len() - at,
{
    if at < peaks.len() {
        let gain = gain_of(peaks[at].1 as int, window_bits, remaining);
        let cost = index_bits(window_bits);
        assert forall|k: int| 0 <= k < taken.len() implies exists|i: int|
            0 <= i < at + 1 && (#[trigger] peaks[i]).0 == #[trigger] taken[k] by {
            let i = choose|i: int| 0 <= i < at && (#[trigger] peaks[i]).0 == taken[k];
            assert(peaks[i].0 == taken[k]);
        }
        if peaks[at].0 != 0 && gain > cost {
            let more = taken.push(peaks[at].0);
            assert forall|k: int| 0 <= k < more.len() implies exists|i: int|
                0 <= i < at + 1 && (#[trigger] peaks[i]).0 == #[trigger] more[k] by {
                if k < taken.len() {
                    let i = choose|i: int| 0 <= i < at && (#[trigger] peaks[i]).0 == taken[k];
                    assert(peaks[i].0 == more[k]);
                } else {
                    assert(peaks[at].0 == more[k]);
                }
            }
            assert forall|a: int, b: int| 0 <= a < b < more.len() implies more[a] != more[b] by {
                if b == taken.len() {
                    let i = choose|i: int| 0 <= i < at && (#[trigger] peaks[i]).0 == taken[a];
                    assert(peaks[i].0 == taken[a]);
                }
            }
            lemma_taken_distinct(
                peaks,
                window_bits,
                at + 1,
                more,
                if gain < remaining {
                    (remaining - gain) as nat
                } else {
                    0
                },
            );
        } else {
            lemma_taken_distinct(peaks, window_bits, at + 1, taken, remaining);
        }
    }
    if !(at < peaks.len()) || audited(peaks, window_bits, at, taken, remaining).0 == taken {
        assert forall|k: int| 0 <= k < taken.len() implies (#[trigger] taken[k]) < window_bits by {
            let i = choose|i: int| 0 <= i < at && (#[trigger] peaks[i]).0 == taken[k];
            assert(peaks[i].0 == taken[k]);
        }
    }
}

/// The peaks of a key are places of the window, none of them the first, and
/// none occurs twice.
pub proof fn law_taken_peaks_are_distinct(block: Seq<u8>, window_bits: nat)
    requires
        is_pow2(window_bits as int),
        window_bits <= i64::MAX,
        window_bits <= usize::MAX,
    ensures
        synthesized(block, window_bits).peaks.no_duplicates(),
        forall|k: int|
            0 <= k < synthesized(block, window_bits).peaks.len() ==> 0 < (#[trigger] synthesized(
                block,
                window_bits,
            ).peaks[k]) < window_bits,
{
    let x = crate::fwht::bipolar(block, window_bits);
    let spectrum = block_spectrum(block, window_bits);
    let peaks = strongest(spectrum);
    crate::fwht::lemma_wht_len(x);
    crate::order::lemma_ranked(crate::fwht::magnitudes(spectrum));
    let order = crate::order::ranked(crate::fwht::magnitudes(spectrum));
    assert forall|i: int, j: int| 0 <= i < j < peaks.len() implies (#[trigger] peaks[i]).0 != (
    #[trigger] peaks[j]).0 by {
        assert(crate::order::ranks_before(
            crate::fwht::magnitudes(spectrum),
            order[i],
            order[j],
        ));
        assert(order.contains(order[i]) && order.contains(order[j]));
    }
    assert forall|i: int| 0 <= i < peaks.len() implies (#[trigger] peaks[i]).0 < window_bits by {
        assert(order.contains(order[i]));
    }
    lemma_taken_distinct(peaks, window_bits, 0, Seq::empty(), window_bits);
}

/// The branch bits that are left before peak `at`, where just the peaks at the
/// given places are kept: each saves its share of those left before it.
pub open spec fn branches_left(
    peaks: Seq<(usize, i64)>,
    window_bits: nat,
    kept: Seq<usize>,
    at: int,
) -> int
    decreases at,
{
    if at <= 0 {
        window_bits as int
    } else {
        let left = branches_left(peaks, window_bits, kept, at - 1);
        let (place, amplitude) = peaks[at - 1];
        if kept.contains(place) {
            left - distance(amplitude as int) * left / window_bits as int
        } else {
            left
        }
    }
}

/// Peak `at` saves more branch bits than its index costs, which is as many bits
/// as the window has binary places; the first coefficient is no peak.
pub open spec fn earns(
    peaks: Seq<(usize, i64)>,
    log2: nat,
    kept: Seq<usize>,
    at: int,
) -> bool {
    let window_bits = pow2(log2);
    &&& peaks[at].0 != 0
    &&& distance(peaks[at].1 as int) * branches_left(peaks, window_bits, kept, at)
        / window_bits as int > log2
}

/// Just the peaks that earn their place are kept.
pub open spec fn is_audit(peaks: Seq<(usize, i64)>, log2: nat, kept: Seq<usize>) -> bool {
    forall|at: int|
        0 <= at < peaks.len() ==> kept.contains((#[trigger] peaks[at]).0) == earns(
            peaks,
            log2,
            kept,
            at,
        )
}

/// What is left before a peak rests on the peaks before it alone.
proof fn lemma_left_agrees(
    peaks: Seq<(usize, i64)>,
    window_bits: nat,
    a: Seq<usize>,
    b: Seq<usize>,
    at: int,
)
    requires
        0 <= at <= peaks.len(),
        forall|i: int|
            0 <= i < at ==> a.contains((#[trigger] peaks[i]).0) == b.contains(peaks[i].0),
    ensures
        branches_left(peaks, window_bits, a, at) == branches_left(peaks, window_bits, b, at),
    decreases at,
{
    if at > 0 {
        lemma_left_agrees(peaks, window_bits, a, b, at - 1);
        assert(a.contains(peaks[at - 1].0) == b.contains(peaks[at - 1].0));
    }
}

/// Nothing is saved where nothing is kept.
proof fn lemma_left_stays(
    peaks: Seq<(usize, i64)>,
    window_bits: nat,
    kept: Seq<usize>,
    from: int,
    at: int,
)
    requires
        0 <= from <= at <= peaks.len(),
        forall|i: int| from <= i < at ==> !kept.contains((#[trigger] peaks[i]).0),
    ensures
        branches_left(peaks, window_bits, kept, at) == branches_left(
            peaks,
            window_bits,
            kept,
            from,
        ),
    decreases at - from,
{
    if from < at {
        lemma_left_stays(peaks, window_bits, kept, from, at - 1);
        assert(!kept.contains(peaks[at - 1].0));
    }
}

/// The places of a ranking differ, its coefficients do not exceed the window,
/// and they fall.
pub open spec fn is_ranking_of(peaks: Seq<(usize, i64)>, window_bits: nat) -> bool {
    &&& forall|i: int, j: int|
        0 <= i < j < peaks.len() ==> (#[trigger] peaks[i]).0 != (#[trigger] peaks[j]).0
            && distance(peaks[i].1 as int) >= distance(peaks[j].1 as int)
    &&& forall|i: int|
        0 <= i < peaks.len() ==> distance((#[trigger] peaks[i]).1 as int) <= window_bits
}

/// What the audit takes from `at` on makes up an audit of all peaks.
proof fn lemma_audited_is_audit(
    peaks: Seq<(usize, i64)>,
    log2: nat,
    at: int,
    taken: Seq<usize>,
    remaining: nat,
)
    requires
        is_ranking_of(peaks, pow2(log2)),
        index_bits(pow2(log2)) == log2,
        pow2(log2) > 0,
        0 <= at <= peaks.len(),
        remaining == branches_left(peaks, pow2(log2), taken, at),
        forall|i: int|
            0 <= i < at ==> taken.contains((#[trigger] peaks[i]).0) == earns(
                peaks,
                log2,
                taken,
                i,
            ),
        forall|i: int| at <= i < peaks.len() ==> !taken.contains((#[trigger] peaks[i]).0),
    ensures
        ({
            let (all, left) = audited(peaks, pow2(log2), at, taken, remaining);
            &&& is_audit(peaks, log2, all)
            &&& left == branches_left(peaks, pow2(log2), all, peaks.len() as int)
        }),
    decreases peaks.len() - at,
{
    let window_bits = pow2(log2);
    if at < peaks.len() {
        let (place, amplitude) = peaks[at];
        let gain = gain_of(amplitude as int, window_bits, remaining);
        assert(distance(amplitude as int) * remaining / window_bits as int == gain);
        if place != 0 && gain > log2 {
            let more = taken.push(place);
            assert forall|i: int| 0 <= i < peaks.len() && i != at implies more.contains(
                (#[trigger] peaks[i]).0,
            ) == taken.contains(peaks[i].0) by {
                let x = peaks[i].0;
                if i < at {
                    assert(peaks[i].0 != peaks[at].0);
                } else {
                    assert(peaks[at].0 != peaks[i].0);
                }
                if taken.contains(x) {
                    let k = choose|k: int| 0 <= k < taken.len() && taken[k] == x;
                    assert(more[k] == x);
                }
                if more.contains(x) {
                    let k = choose|k: int| 0 <= k < more.len() && more[k] == x;
                    assert(taken[k] == x);
                }
            }
            assert(more[taken.len() as int] == place);
            assert(more.contains(place));
            lemma_left_agrees(peaks, window_bits, more, taken, at);
            assert forall|i: int| 0 <= i < at + 1 implies more.contains((#[trigger] peaks[i]).0)
                == earns(peaks, log2, more, i) by {
                lemma_left_agrees(peaks, window_bits, more, taken, i);
            }
            let strength = distance(amplitude as int);
            assert(strength * remaining <= remaining * window_bits) by (nonlinear_arith)
                requires
                    0 <= strength <= window_bits,
                    0 <= remaining,
            ;
            vstd::arithmetic::div_mod::lemma_div_is_ordered(
                strength * remaining,
                (remaining * window_bits) as int,
                window_bits as int,
            );
            vstd::arithmetic::div_mod::lemma_div_multiples_vanish(
                remaining as int,
                window_bits as int,
            );
            vstd::arithmetic::mul::lemma_mul_is_commutative(window_bits as int, remaining as int);
            assert(gain <= remaining);
            lemma_audited_is_audit(peaks, log2, at + 1, more, (remaining - gain) as nat);
        } else if place != 0 && taken.len() * log2 + 176 + remaining + 64 >= window_bits {
            lemma_left_stays(peaks, window_bits, taken, at, peaks.len() as int);
            assert forall|i: int| at <= i < peaks.len() implies !earns(
                peaks,
                log2,
                taken,
                i,
            ) && !taken.contains((#[trigger] peaks[i]).0) by {
                lemma_left_stays(peaks, window_bits, taken, at, i);
                let (weak, strong) = (distance(peaks[i].1 as int), distance(amplitude as int));
                assert(weak <= strong) by {
                    if at < i {
                        assert(peaks[at].0 != peaks[i].0);
                    }
                }
                assert(weak * remaining <= strong * remaining) by (nonlinear_arith)
                    requires
                        weak <= strong,
                        0 <= remaining,
                ;
                vstd::arithmetic::div_mod::lemma_div_is_ordered(
                    weak * remaining,
                    strong * remaining,
                    window_bits as int,
                );
            }
        } else {
            assert(!earns(peaks, log2, taken, at));
            lemma_audited_is_audit(peaks, log2, at + 1, taken, remaining);
        }
    }
}

/// There is only one audit.
proof fn lemma_audit_unique(
    peaks: Seq<(usize, i64)>,
    log2: nat,
    a: Seq<usize>,
    b: Seq<usize>,
    at: int,
)
    requires
        is_audit(peaks, log2, a),
        is_audit(peaks, log2, b),
        0 <= at <= peaks.len(),
    ensures
        forall|i: int|
            0 <= i < at ==> a.contains((#[trigger] peaks[i]).0) == b.contains(peaks[i].0),
    decreases at,
{
    if at > 0 {
        lemma_audit_unique(peaks, log2, a, b, at - 1);
        lemma_left_agrees(peaks, pow2(log2), a, b, at - 1);
        assert(a.contains(peaks[at - 1].0) == earns(peaks, log2, a, at - 1));
        assert(b.contains(peaks[at - 1].0) == earns(peaks, log2, b, at - 1));
    }
}

pub proof fn lemma_pow2_is_pow2(log2: nat)
    ensures
        is_pow2(pow2(log2) as int),
    decreases log2,
{
    reveal(is_pow2);
    vstd::arithmetic::power2::lemma2_to64();
    if log2 > 0 {
        lemma_pow2_is_pow2((log2 - 1) as nat);
        vstd::arithmetic::power2::lemma_pow2_unfold(log2);
        vstd::arithmetic::power2::lemma_pow2_pos((log2 - 1) as nat);
    }
}

/// An index costs as many bits as the window has binary places.
pub proof fn law_index_bits(log2: nat)
    ensures
        index_bits(pow2(log2)) == log2,
{
    crate::bitstream::lemma_bit_len(pow2(log2), log2);
    crate::bitstream::lemma_bit_len(pow2(log2), log2 + 1);
    vstd::arithmetic::power2::lemma_pow2_strictly_increases(log2, log2 + 1);
}

/// The peaks of a block make up a ranking.
proof fn lemma_block_ranking(block: Seq<u8>, log2: nat)
    requires
        pow2(log2) <= i64::MAX,
        pow2(log2) <= usize::MAX,
    ensures
        ({
            let spectrum = block_spectrum(block, pow2(log2));
            let peaks = strongest(spectrum);
            &&& is_pow2(pow2(log2) as int)
            &&& pow2(log2) > 0
            &&& index_bits(pow2(log2)) == log2
            &&& spectrum.len() == pow2(log2)
            &&& peaks.len() == pow2(log2)
            &&& is_ranking_of(peaks, pow2(log2))
            &&& forall|i: int|
                0 <= i < spectrum.len() ==> i64::MIN <= #[trigger] spectrum[i] <= i64::MAX
        }),
{
    let window_bits = pow2(log2);
    vstd::arithmetic::power2::lemma_pow2_pos(log2);
    lemma_pow2_is_pow2(log2);
    law_index_bits(log2);
    let x = crate::fwht::bipolar(block, window_bits);
    let spectrum = block_spectrum(block, window_bits);
    let peaks = strongest(spectrum);
    crate::fwht::lemma_wht_len(x);
    crate::fwht::lemma_wht_bound(x, 1);
    assert forall|i: int| 0 <= i < spectrum.len() implies i64::MIN <= #[trigger] spectrum[i]
        <= i64::MAX && distance(spectrum[i]) <= window_bits by {
        assert(-(1 * x.len()) <= spectrum[i] <= 1 * x.len());
    }
    law_ranking_of_spectrum(spectrum);
    assert forall|i: int| 0 <= i < peaks.len() implies distance((#[trigger] peaks[i]).1 as int)
        <= window_bits by {
        assert(peaks[i].1 == spectrum[peaks[i].0 as int]);
    }
    assert forall|i: int, j: int| 0 <= i < j < peaks.len() implies (#[trigger] peaks[i]).0 != (
    #[trigger] peaks[j]).0 && distance(peaks[i].1 as int) >= distance(peaks[j].1 as int) by {
        assert(peaks[i].1 == spectrum[peaks[i].0 as int]);
        assert(peaks[j].1 == spectrum[peaks[j].0 as int]);
    }
}

/// Where peaks are kept, they are the outcome of the whole audit: going through
/// the spectrum from the strongest coefficient on, just the peaks are kept that
/// save more of the branch bits then left than their index costs, and the
/// estimate is what is left in the end. Where no peak is kept, nothing is
/// saved.
pub proof fn law_audit_is_complete(block: Seq<u8>, log2: nat)
    requires
        pow2(log2) <= i64::MAX,
        pow2(log2) <= usize::MAX,
    ensures
        ({
            let window_bits = pow2(log2);
            let peaks = strongest(block_spectrum(block, window_bits));
            let kept = synthesized(block, window_bits).peaks;
            &&& kept.len() > 0 ==> is_audit(peaks, log2, kept) && expected_branches(
                block,
                window_bits,
            ) == branches_left(peaks, window_bits, kept, peaks.len() as int)
            &&& kept.len() == 0 ==> expected_branches(block, window_bits) == window_bits
        }),
{
    let window_bits = pow2(log2);
    let peaks = strongest(block_spectrum(block, window_bits));
    lemma_block_ranking(block, log2);
    let none = Seq::<usize>::empty();
    lemma_audited_is_audit(peaks, log2, 0, none, window_bits);
    let all = audited(peaks, window_bits, 0, none, window_bits).0;
    if all.len() == 0 {
        lemma_left_stays(peaks, window_bits, all, 0, peaks.len() as int);
        assert(0 * index_bits(window_bits) == 0);
    }
}

/// An audit that pays is not dropped: whatever peaks an audit of the spectrum
/// keeps, if the key with their indices and the branch bits that are left are
/// together shorter than the window, then just these peaks are in the key.
pub proof fn law_paying_audit_is_kept(block: Seq<u8>, log2: nat, audit: Seq<usize>)
    requires
        pow2(log2) <= i64::MAX,
        pow2(log2) <= usize::MAX,
        audit.no_duplicates(),
        forall|k: int| 0 <= k < audit.len() ==> (#[trigger] audit[k]) < pow2(log2),
        is_audit(strongest(block_spectrum(block, pow2(log2))), log2, audit),
        176 + audit.len() * log2 + branches_left(
            strongest(block_spectrum(block, pow2(log2))),
            pow2(log2),
            audit,
            pow2(log2) as int,
        ) < pow2(log2),
    ensures
        synthesized(block, pow2(log2)).peaks.to_set() == audit.to_set(),
        synthesized(block, pow2(log2)).peaks.len() == audit.len(),
{
    let window_bits = pow2(log2);
    let spectrum = block_spectrum(block, window_bits);
    let peaks = strongest(spectrum);
    lemma_block_ranking(block, log2);
    law_ranking_of_spectrum(spectrum);
    let none = Seq::<usize>::empty();
    lemma_audited_is_audit(peaks, log2, 0, none, window_bits);
    let (all, left) = audited(peaks, window_bits, 0, none, window_bits);
    lemma_audit_unique(peaks, log2, all, audit, peaks.len() as int);
    lemma_left_agrees(peaks, window_bits, all, audit, peaks.len() as int);
    lemma_taken_distinct(peaks, window_bits, 0, none, window_bits);
    assert forall|x: usize| all.contains(x) == audit.contains(x) by {
        if x < window_bits {
            assert(is_listed(peaks, x as int));
            let p = choose|p: int| 0 <= p < peaks.len() && (#[trigger] peaks[p]).0 == x;
            assert(all.contains(peaks[p].0) == audit.contains(peaks[p].0));
        }
    }
    assert(all.to_set() =~= audit.to_set());
    all.unique_seq_to_set();
    audit.unique_seq_to_set();
}

proof fn lemma_taken_order(
    spectrum: Seq<int>,
    window_bits: nat,
    at: int,
    taken: Seq<usize>,
    remaining: nat,
)
    requires
        spectrum.len() <= usize::MAX,
        forall|i: int|
            0 <= i < spectrum.len() ==> i64::MIN <= #[trigger] spectrum[i] <= i64::MAX,
        0 <= at <= spectrum.len(),
        forall|k: int|
            0 <= k < taken.len() ==> exists|i: int|
                0 <= i < at && (#[trigger] strongest(spectrum)[i]).0 == #[trigger] taken[k],
        forall|k: int, l: int|
            0 <= k < l < taken.len() ==> goes_before(
                spectrum[#[trigger] taken[k] as int],
                taken[k] as int,
                spectrum[#[trigger] taken[l] as int],
                taken[l] as int,
            ),
    ensures
        ({
            let all = audited(strongest(spectrum), window_bits, at, taken, remaining).0;
            forall|k: int, l: int|
                0 <= k < l < all.len() ==> goes_before(
                    spectrum[#[trigger] all[k] as int],
                    all[k] as int,
                    spectrum[#[trigger] all[l] as int],
                    all[l] as int,
                )
        }),
    decreases spectrum.len() - at,
{
    law_ranking_of_spectrum(spectrum);
    let peaks = strongest(spectrum);
    if at < spectrum.len() {
        assert forall|k: int| 0 <= k < taken.len() implies exists|i: int|
            0 <= i < at + 1 && (#[trigger] peaks[i]).0 == #[trigger] taken[k] by {
            let i = choose|i: int| 0 <= i < at && (#[trigger] peaks[i]).0 == taken[k];
            assert(peaks[i].0 == taken[k]);
        }
        let gain = gain_of(peaks[at].1 as int, window_bits, remaining);
        let more = taken.push(peaks[at].0);
        assert forall|k: int| 0 <= k < more.len() implies exists|i: int|
            0 <= i < at + 1 && (#[trigger] peaks[i]).0 == #[trigger] more[k] by {
            if k < taken.len() {
                let i = choose|i: int| 0 <= i < at && (#[trigger] peaks[i]).0 == taken[k];
                assert(peaks[i].0 == more[k]);
            } else {
                assert(peaks[at].0 == more[k]);
            }
        }
        assert forall|k: int, l: int| 0 <= k < l < more.len() implies goes_before(
            spectrum[#[trigger] more[k] as int],
            more[k] as int,
            spectrum[#[trigger] more[l] as int],
            more[l] as int,
        ) by {
            if l == taken.len() {
                let i = choose|i: int| 0 <= i < at && (#[trigger] peaks[i]).0 == taken[k];
                let (a, b) = (peaks[i], peaks[at]);
                assert(a.1 == spectrum[a.0 as int] && b.1 == spectrum[b.0 as int]);
            } else {
                assert(more[k] == taken[k] && more[l] == taken[l]);
            }
        }
        lemma_taken_order(
            spectrum,
            window_bits,
            at + 1,
            more,
            if gain < remaining {
                (remaining - gain) as nat
            } else {
                0
            },
        );
        lemma_taken_order(spectrum, window_bits, at + 1, taken, remaining);
        let left = if gain < remaining {
            (remaining - gain) as nat
        } else {
            0
        };
        let all = audited(peaks, window_bits, at, taken, remaining).0;
        assert(all == taken || all == audited(peaks, window_bits, at + 1, more, left).0 || all
            == audited(peaks, window_bits, at + 1, taken, remaining).0);
    }
}

/// The peaks of a key stand in the order of their strength.
pub proof fn law_kept_peaks_fall(block: Seq<u8>, log2: nat, k: int, l: int)
    requires
        pow2(log2) <= i64::MAX,
        pow2(log2) <= usize::MAX,
        0 <= k < l < synthesized(block, pow2(log2)).peaks.len(),
    ensures
        ({
            let spectrum = block_spectrum(block, pow2(log2));
            let kept = synthesized(block, pow2(log2)).peaks;
            goes_before(
                spectrum[kept[k] as int],
                kept[k] as int,
                spectrum[kept[l] as int],
                kept[l] as int,
            )
        }),
{
    lemma_block_ranking(block, log2);
    lemma_taken_order(
        block_spectrum(block, pow2(log2)),
        pow2(log2),
        0,
        Seq::empty(),
        pow2(log2),
    );
}

/// A key pays exactly where its 176 bits, its indices, the branch bits and the
/// overhead take fewer bits than the window.
pub proof fn law_profitable_key(k: KeyView, log2: nat, v_bits: nat, overhead_bits: nat)
    requires
        k.window_bits == pow2(log2),
    ensures
        pays(k, v_bits, overhead_bits) <==> 176 + k.peaks.len() * log2 + v_bits + overhead_bits
            < pow2(log2),
{
    law_index_bits(log2);
}

/// All bytes of a word added without carry.
pub open spec fn bytes_added(v: u64) -> u64 {
    let b = |i: u64| (v >> (8 * i) as u64) & 0xFF;
    b(0) ^ b(1) ^ b(2) ^ b(3) ^ b(4) ^ b(5) ^ b(6) ^ b(7)
}

/// The mixer of a key follows the two strongest coefficients of the block: the
/// shifts are their bytes, added without carry, in the range from 1 to 63, and
/// the multiplier and the summand are multiples of them.
pub proof fn law_mixer_follows_peaks(block: Seq<u8>, window_bits: nat)
    requires
        window_bits >= 2,
        window_bits <= i64::MAX,
        window_bits <= usize::MAX,
        is_pow2(window_bits as int),
    ensures
        ({
            let k = synthesized(block, window_bits);
            let peaks = strongest(block_spectrum(block, window_bits));
            let (a, b) = (distance(peaks[0].1 as int) as u64, distance(peaks[1].1 as int) as u64);
            let product = a.wrapping_mul(6364136223846793005);
            &&& k.window_bits == window_bits
            &&& k.s0 == bytes_added(a) % 63 + 1
            &&& k.s1 == bytes_added(b) % 63 + 1
            &&& k.odd_mul % 2 == 1
            &&& k.odd_mul == product || k.odd_mul == product + 1
            &&& k.add_c == b.wrapping_mul(1442695040888963407)
        }),
{
    let peaks = strongest(block_spectrum(block, window_bits));
    let a = peak_strength(peaks, 0);
    let b = peak_strength(peaks, 1);
    crate::fwht::lemma_wht_len(crate::fwht::bipolar(block, window_bits));
    crate::order::lemma_ranked(crate::fwht::magnitudes(block_spectrum(block, window_bits)));
    assert(peaks.len() == window_bits);
    lemma_fold8(a);
    lemma_fold8(b);
    law_mixer_parameters(block, window_bits);
    let p = a.wrapping_mul(6364136223846793005);
    assert(p | 1 == p || p | 1 == p + 1) by (bit_vector);
}

proof fn lemma_fold8(v: u64)
    ensures
        fold8(v) == bytes_added(v),
        fold8(v) < 256,
{
    let a = v ^ (v >> 32);
    let b = a ^ (a >> 16);
    let c = b ^ (b >> 8);
    assert(c & 0xFF == ((v >> 0) & 0xFF) ^ ((v >> 8) & 0xFF) ^ ((v >> 16) & 0xFF) ^ ((v >> 24)
        & 0xFF) ^ ((v >> 32) & 0xFF) ^ ((v >> 40) & 0xFF) ^ ((v >> 48) & 0xFF) ^ ((v >> 56) & 0xFF)
        && c & 0xFF < 256) by (bit_vector)
        requires
            a == v ^ (v >> 32),
            b == a ^ (a >> 16),
            c == b ^ (b >> 8),
    ;
}

} // verus!
