//! Key compilers: from the topology of a block to the constants that describe
//! it.
use vstd::prelude::*;
use vstd::arithmetic::power2::{is_pow2, pow2};
use crate::bitstream::ceil_div;
use crate::kernel::key::{
    packed_blueprint, packed_layout, packed_program, ConstantFamily, ConstantLayout, MagicKey,
    MagicKeyKind, OperatorBlueprint, PackedConstantK, RoutingKind, SpectralPeakCode, SpectralPlan,
    SpectralProgram, MAX_SPECTRAL_PEAKS,
};
use crate::kernel::topology::{
    topology, Topology, TopologySignature, WalshPeak, WordParityFeature,
};
use crate::text::outcome;
use crate::words::{count_ones, is_power_of_two, le_value, ones, rotate_left, rotate_right, rotl, rotr};

verus! {

/// A dominance of at least this many 1024ths means that one Walsh peak holds
/// more than two thirds of the strongest coefficients together.
pub const DOMINANCE_THRESHOLD: u64 = 700;

/// A derivative density of at most this many 1024ths means that the bits
/// change slowly.
pub const DENSITY_THRESHOLD: u64 = 512;

/// A shift coherence of at least this many 1024ths means a strong period.
pub const COHERENCE_THRESHOLD: u64 = 700;

/// From this many 1024ths of shift coherence on, words are reordered.
pub const ROUTING_COHERENCE_PIVOT: u64 = 600;

/// The strength of a coefficient.
pub open spec fn strength(peak: WalshPeak) -> nat {
    (if peak.coefficient < 0 {
        -peak.coefficient
    } else {
        peak.coefficient as int
    }) as nat
}

pub(crate) fn strength_of(peak: &WalshPeak) -> (s: u64)
    ensures
        s == strength(*peak),
        s <= 0x8000_0000,
{
    let c: i64 = peak.coefficient as i64;
    if c < 0 {
        (-c) as u64
    } else {
        c as u64
    }
}

/// The strengths of all peaks together.
pub open spec fn total_strength(peaks: Seq<WalshPeak>) -> nat
    decreases peaks.len(),
{
    if peaks.len() == 0 {
        0
    } else {
        total_strength(peaks.drop_last()) + strength(peaks.last())
    }
}

pub(crate) fn sum_strengths(peaks: &Vec<WalshPeak>) -> (total: u128)
    ensures
        total == total_strength(peaks@),
        total <= 0x8000_0000 * peaks@.len(),
{
    let mut total: u128 = 0;
    let n: usize = peaks.len();
    for i in 0..n
        invariant
            n == peaks@.len(),
            total == total_strength(peaks@.take(i as int)),
            total <= 0x8000_0000 * i,
    {
        assert(peaks@.take(i + 1).drop_last() =~= peaks@.take(i as int));
        total = total + strength_of(&peaks[i]) as u128;
    }
    assert(peaks@.take(n as int) =~= peaks@);
    total
}

/// How many entries are one.
pub open spec fn count_of_ones(s: Seq<u8>) -> nat
    decreases s.len(),
{
    if s.len() == 0 {
        0
    } else {
        count_of_ones(s.drop_last()) + if s.last() == 1 {
            1nat
        } else {
            0
        }
    }
}

pub(crate) fn count_entries_of_one(s: &Vec<u8>, from: usize, to: usize) -> (count: usize)
    requires
        from <= to <= s@.len(),
    ensures
        count == count_of_ones(s@.subrange(from as int, to as int)),
        count <= to - from,
{
    let mut count: usize = 0;
    assert(s@.subrange(from as int, from as int) =~= Seq::<u8>::empty());
    for i in from..to
        invariant
            from <= to <= s@.len(),
            count == count_of_ones(s@.subrange(from as int, i as int)),
            count <= i - from,
    {
        let ghost t = s@.subrange(from as int, i + 1);
        assert(t.drop_last() =~= s@.subrange(from as int, i as int));
        if s[i] == 1 {
            count = count + 1;
        }
    }
    count
}

/// The sum of the entries.
pub open spec fn sum_of(s: Seq<u8>) -> nat
    decreases s.len(),
{
    if s.len() == 0 {
        0
    } else {
        sum_of(s.drop_last()) + s.last() as nat
    }
}

pub(crate) fn sum_entries(s: &Vec<u8>) -> (sum: u128)
    ensures
        sum == sum_of(s@),
        sum <= 255 * s@.len(),
{
    let mut sum: u128 = 0;
    let n: usize = s.len();
    for i in 0..n
        invariant
            n == s@.len(),
            sum == sum_of(s@.take(i as int)),
            sum <= 255 * i,
    {
        assert(s@.take(i + 1).drop_last() =~= s@.take(i as int));
        sum = sum + s[i] as u128;
    }
    assert(s@.take(n as int) =~= s@);
    sum
}

/// A ratio in 1024ths.
pub open spec fn per_1024(part: nat, whole: nat) -> nat {
    (part * 1024) / if whole == 0 {
        1
    } else {
        whole
    }
}

pub(crate) fn ratio_1024(part: u128, whole: u128) -> (r: u128)
    requires
        part <= 0x1_0000_0000_0000_0000_0000_0000,
    ensures
        r == per_1024(part as nat, whole as nat),
{
    (part * 1024) / (if whole == 0 {
        1
    } else {
        whole
    })
}

/// How much of the strongest coefficients the first one holds.
pub open spec fn dominance(t: Topology) -> nat {
    per_1024(strength(t.walsh_peaks[0]), total_strength(t.walsh_peaks))
}

/// How often neighbouring bits differ.
pub open spec fn change_density(t: Topology) -> nat {
    per_1024(count_of_ones(t.derivative), t.derivative.len())
}

/// How many bits agree at the best shift.
pub open spec fn coherence(t: Topology) -> nat {
    per_1024(t.shift_scores[0].matching_bits as nat, t.bit_len)
}

/// The cost in bits of taking `rounds` parities out of every word.
pub open spec fn rounds_cost(word_count: nat, anomalies: nat, rounds: nat) -> nat {
    let dense = 8 + ceil_div(word_count * rounds, 8) * 8;
    let sparse = 8 + anomalies * rounds * 8;
    (word_count * (64 - rounds) + if dense < sparse {
        dense
    } else {
        sparse
    }) as nat
}

/// The cheapest number of rounds up to `max`, the lowest among equals.
pub open spec fn cheapest_rounds(word_count: nat, anomalies: nat, max: nat) -> nat
    decreases max,
{
    if max <= 1 {
        1
    } else {
        let best = cheapest_rounds(word_count, anomalies, (max - 1) as nat);
        if rounds_cost(word_count, anomalies, max) < rounds_cost(word_count, anomalies, best) {
            max
        } else {
            best
        }
    }
}

/// The most rounds a mask allows.
pub open spec fn max_rounds(mask: u64) -> nat {
    let bits = ones(mask as nat);
    if bits < 1 {
        1
    } else if bits > 16 {
        16
    } else {
        bits
    }
}

/// The rounds chosen for a feature.
pub open spec fn chosen_rounds(word_count: nat, feature: WordParityFeature) -> nat {
    let anomalies = if word_count > feature.matching_words {
        (word_count - feature.matching_words) as nat
    } else {
        0
    };
    cheapest_rounds(word_count, anomalies, max_rounds(feature.mask))
}

fn price_rounds(word_count: usize, anomalies: usize, rounds: u8) -> (cost: u128)
    requires
        1 <= rounds <= 16,
        anomalies <= word_count,
    ensures
        cost == rounds_cost(word_count as nat, anomalies as nat, rounds as nat),
{
    let (w, a, r): (u128, u128, u128) = (word_count as u128, anomalies as u128, rounds as u128);
    assert(0 <= w * r <= 16 * w && 0 <= a * r <= 16 * a && 0 <= w * (64 - r) <= 64 * w)
        by (nonlinear_arith)
        requires
            1 <= r <= 16,
            0 <= w,
            0 <= a,
    ;
    let product: u128 = w * r;
    let dense: u128 = 8 + (if product == 0 {
        0
    } else {
        (product - 1) / 8 + 1
    }) * 8;
    let sparse: u128 = 8 + a * r * 8;
    w * (64 - r) + (if dense < sparse {
        dense
    } else {
        sparse
    })
}

/// Chooses the number of branch rounds by what they cost.
pub fn select_branch_rounds(word_count: usize, feature: WordParityFeature) -> (rounds: u8)
    ensures
        rounds == chosen_rounds(word_count as nat, feature),
        1 <= rounds <= max_rounds(feature.mask),
{
    let bits: u32 = count_ones(feature.mask);
    let max: u8 = if bits < 1 {
        1
    } else if bits > 16 {
        16
    } else {
        bits as u8
    };
    let anomalies: usize = if word_count > feature.matching_words {
        word_count - feature.matching_words
    } else {
        0
    };
    let mut best: u8 = 1;
    let mut best_cost: u128 = price_rounds(word_count, anomalies, 1);
    for extra in 1..max
        invariant
            1 <= max <= 16,
            anomalies <= word_count,
            1 <= best <= extra,
            best == cheapest_rounds(word_count as nat, anomalies as nat, extra as nat),
            best_cost == rounds_cost(word_count as nat, anomalies as nat, best as nat),
    {
        let rounds: u8 = extra + 1;
        let cost: u128 = price_rounds(word_count, anomalies, rounds);
        if cost < best_cost {
            best = rounds;
            best_cost = cost;
        }
    }
    best
}

/// A word made of the density profile, stirred with a seed.
pub open spec fn density_pattern(profile: Seq<u8>, seed: u64) -> u64 {
    if profile.len() == 0 {
        0
    } else {
        le_value(
            Seq::new(
                8,
                |i: int|
                    profile[i % profile.len() as int].wrapping_add(
                        ((i as u64).wrapping_mul(seed) & 0xFF) as u8,
                    ),
            ),
        ) as u64
    }
}

fn repeat_popcnt_pattern(profile: &Vec<u8>, seed: u64) -> (word: u64)
    ensures
        word == density_pattern(profile@, seed),
{
    let n: usize = profile.len();
    if n == 0 {
        return 0;
    }
    let mut bytes: Vec<u8> = Vec::new();
    let ghost want = Seq::new(
        8,
        |i: int|
            profile@[i % profile@.len() as int].wrapping_add(
                ((i as u64).wrapping_mul(seed) & 0xFF) as u8,
            ),
    );
    for i in 0..8usize
        invariant
            n == profile@.len(),
            n > 0,
            want == Seq::new(
                8,
                |i: int|
                    profile@[i % profile@.len() as int].wrapping_add(
                        ((i as u64).wrapping_mul(seed) & 0xFF) as u8,
                    ),
            ),
            bytes@ =~= want.take(i as int),
    {
        bytes.push(profile[i % n].wrapping_add(((i as u64).wrapping_mul(seed) & 0xFF) as u8));
    }
    assert(bytes@ =~= want);
    assert(bytes@.subrange(0, 8) =~= want);
    crate::words::read_le(bytes.as_slice(), 0, 8)
}

/// The phase contribution of the first `n` peaks.
pub open spec fn phase_fold(peaks: Seq<WalshPeak>, n: nat) -> u64
    decreases n,
{
    if n == 0 {
        0
    } else {
        let slot = (n - 1) as nat;
        let shift = ((peaks[slot as int].index + slot * 13) % 64) as u64;
        let low = strength(peaks[slot as int]) % 16;
        let nibble = if low == 0 {
            1u64
        } else {
            low as u64
        };
        phase_fold(peaks, slot) ^ (nibble << shift)
    }
}

pub open spec fn first_three(peaks: Seq<WalshPeak>) -> nat {
    if peaks.len() < 3 {
        peaks.len()
    } else {
        3
    }
}

/// The phase mask of a block.
pub open spec fn phase_mask(t: Topology) -> u64 {
    phase_fold(t.walsh_peaks, first_three(t.walsh_peaks)) ^ density_pattern(
        t.popcnt_profile,
        0xC4CE_B9FE_1A85_EC53,
    )
}

/// Builds the phase mask.
pub fn phase_mask_from_signature(signature: &TopologySignature) -> (mask: u64)
    ensures
        mask == phase_mask(signature@),
{
    let n: usize = if signature.walsh_peaks.len() < 3 {
        signature.walsh_peaks.len()
    } else {
        3
    };
    let mut mask: u64 = 0;
    for slot in 0..n
        invariant
            n <= 3,
            n <= signature.walsh_peaks@.len(),
            mask == phase_fold(signature.walsh_peaks@, slot as nat),
    {
        let peak = &signature.walsh_peaks[slot];
        let shift: u64 = ((peak.index as u128 + slot as u128 * 13) % 64) as u64;
        let low: u64 = strength_of(peak) % 16;
        let nibble: u64 = if low == 0 {
            1
        } else {
            low
        };
        mask = mask ^ (nibble << shift);
    }
    mask ^ repeat_popcnt_pattern(&signature.popcnt_profile, 0xC4CE_B9FE_1A85_EC53)
}

/// Entries `64 * k` up to the next multiple of 64.
pub open spec fn lane(s: Seq<u8>, k: int) -> Seq<u8> {
    s.subrange(
        64 * k,
        if 64 * k + 64 <= s.len() {
            64 * k + 64
        } else {
            s.len() as int
        },
    )
}

/// The parities of the first `k` lanes of the derivative, as a mask.
pub open spec fn lane_parities(s: Seq<u8>, k: nat) -> u64
    decreases k,
{
    if k == 0 {
        0
    } else {
        let i = (k - 1) as nat;
        let odd = (count_of_ones(lane(s, i as int)) % 2) as u64;
        lane_parities(s, i) | (odd << ((i % 64) as u64))
    }
}

/// The affine mask of a block.
pub open spec fn affine_mask(t: Topology) -> u64 {
    rotl(
        lane_parities(t.derivative, ceil_div(t.derivative.len(), 64)),
        t.shift_scores[0].shift as int,
    ) ^ rotr(density_pattern(t.popcnt_profile, 0xA3B1_7F2D_9E04_C865), 11)
}

/// Builds the affine mask.
pub fn affine_mask_from_signature(signature: &TopologySignature) -> (mask: u64)
    requires
        signature.shift_scores@.len() > 0,
    ensures
        mask == affine_mask(signature@),
{
    let n: usize = signature.derivative.len();
    let mut mask: u64 = 0;
    let mut at: usize = 0;
    let mut index: u64 = 0;
    while at < n
        invariant
            n == signature.derivative.len(),
            at <= n,
            at == n || at == 64 * index,
            at == n ==> index == ceil_div(n as nat, 64),
            64 * index <= n + 63,
            mask == lane_parities(signature.derivative@, index as nat),
        decreases n - at,
    {
        let left: usize = n - at;
        let take: usize = if left < 64 {
            left
        } else {
            64
        };
        assert(lane(signature.derivative@, index as int) =~= signature.derivative@.subrange(
            at as int,
            at + take,
        ));
        let odd: u64 = (count_entries_of_one(&signature.derivative, at, at + take) % 2) as u64;
        mask = mask | (odd << (index % 64));
        at = at + take;
        index = index + 1;
    }
    let shift: u32 = (signature.shift_scores[0].shift % 64) as u32;
    rotate_left(mask, shift) ^ rotate_right(
        repeat_popcnt_pattern(&signature.popcnt_profile, 0xA3B1_7F2D_9E04_C865),
        11,
    )
}

/// The multiplier contribution of the first `n` peaks.
pub open spec fn multiplier_fold(peaks: Seq<WalshPeak>, n: nat) -> u64
    decreases n,
{
    if n == 0 {
        0x9E37_79B9_7F4A_7C15
    } else {
        let slot = (n - 1) as nat;
        rotl(multiplier_fold(peaks, slot), peaks[slot as int].index + slot * 11) ^ (strength(
            peaks[slot as int],
        ) as u64).wrapping_mul(0x1000_0000_01B3)
    }
}

/// The odd multiplier of a block.
pub open spec fn odd_multiplier(t: Topology) -> u64 {
    multiplier_fold(t.walsh_peaks, first_three(t.walsh_peaks)) | 1
}

fn odd_multiplier_from_signature(signature: &TopologySignature) -> (m: u64)
    ensures
        m == odd_multiplier(signature@),
{
    let n: usize = if signature.walsh_peaks.len() < 3 {
        signature.walsh_peaks.len()
    } else {
        3
    };
    let mut acc: u64 = 0x9E37_79B9_7F4A_7C15;
    for slot in 0..n
        invariant
            n <= 3,
            n <= signature.walsh_peaks@.len(),
            acc == multiplier_fold(signature.walsh_peaks@, slot as nat),
    {
        let peak = &signature.walsh_peaks[slot];
        let turn: u32 = ((peak.index as u128 + slot as u128 * 11) % 64) as u32;
        acc = rotate_left(acc, turn) ^ strength_of(peak).wrapping_mul(0x1000_0000_01B3);
    }
    acc | 1
}

/// The family that suits a block.
pub open spec fn family_for(t: Topology) -> ConstantFamily {
    if dominance(t) >= DOMINANCE_THRESHOLD && change_density(t) <= DENSITY_THRESHOLD {
        ConstantFamily::PhaseXor
    } else if coherence(t) >= COHERENCE_THRESHOLD {
        ConstantFamily::OddAffine
    } else {
        ConstantFamily::Hybrid
    }
}

/// The routing that suits a block.
pub open spec fn routing_for(t: Topology) -> RoutingKind {
    if coherence(t) >= ROUTING_COHERENCE_PIVOT {
        if dominance(t) >= DOMINANCE_THRESHOLD {
            RoutingKind::Butterfly
        } else {
            RoutingKind::ReverseWords
        }
    } else if dominance(t) >= DOMINANCE_THRESHOLD {
        RoutingKind::RotateWords
    } else {
        RoutingKind::Identity
    }
}

pub open spec fn at_least_one(n: nat) -> nat {
    if n == 0 {
        1
    } else {
        n
    }
}

/// The place of the second peak, or a stand-in for it.
pub open spec fn second_index(t: Topology) -> usize {
    if t.walsh_peaks.len() > 1 {
        t.walsh_peaks[1].index
    } else {
        t.walsh_peaks[0].index ^ t.shift_scores[0].shift
    }
}

/// The layout that suits a block.
pub open spec fn layout_for(t: Topology) -> ConstantLayout {
    let p0 = t.walsh_peaks[0].index;
    let p1 = second_index(t);
    let shift = t.shift_scores[0].shift;
    let shift0 = at_least_one(shift as nat);
    let gap = at_least_one(
        (if p0 < p1 {
            p1 - p0
        } else {
            p0 - p1
        }) as nat,
    );
    let word_count = at_least_one(t.bit_len / 64);
    ConstantLayout {
        family: family_for(t),
        routing: routing_for(t),
        branch_rounds: chosen_rounds(word_count, t.word_parity) as u8,
        rotate_left: (p0 % 63 + 1) as u8,
        rotate_right: (p1 % 63 + 1) as u8,
        gf2_shift: (if shift0 < 63 {
            shift0
        } else {
            63
        }) as u8,
        lane_rotate: ((shift as nat % word_count) % 256) as u8,
        pivot_seed: ((p0 ^ p1 ^ (t.popcnt_profile[0] as usize)) & 0xFF) as u8,
        branch_stride: (gap % 31 + 1) as u8,
        branch_span: ((t.popcnt_profile.len() + shift0) % 31 + 1) as u8,
        phase_mask: phase_mask(t),
        odd_multiplier: odd_multiplier(t),
        dominant_walsh_mask: t.word_parity.mask,
        dominant_walsh_bias: t.word_parity.bias,
        affine_mask: if family_for(t) == ConstantFamily::PhaseXor {
            None
        } else {
            Some(affine_mask(t))
        },
    }
}

/// The signature fits the window and has the features the compilers need.
pub open spec fn feature_fault(t: Topology, window_bits: nat) -> Option<Seq<char>> {
    if t.bit_len != window_bits {
        Some("signature bit length does not match the selected window"@)
    } else if t.walsh_peaks.len() == 0 || t.shift_scores.len() == 0 {
        Some("signature lacks required topology features"@)
    } else {
        None
    }
}

pub(crate) fn check_features(signature: &TopologySignature, window_bits: usize) -> (r: Result<
    (),
    String,
>)
    ensures
        match r {
            Ok(_) => feature_fault(signature@, window_bits as nat) is None,
            Err(e) => feature_fault(signature@, window_bits as nat) == Some(e@),
        },
{
    if signature.bit_len != window_bits {
        return Err("signature bit length does not match the selected window".to_string());
    }
    if signature.walsh_peaks.len() == 0 || signature.shift_scores.len() == 0 {
        return Err("signature lacks required topology features".to_string());
    }
    Ok(())
}

/// What compiling a signature for a window gives.
pub open spec fn compiled_constant(t: Topology, window_bits: nat) -> Result<Seq<u8>, Seq<char>> {
    match feature_fault(t, window_bits) {
        Some(e) => Err(e),
        None => packed_layout(layout_for(t)),
    }
}

pub(crate) fn measure_dominance(signature: &TopologySignature) -> (d: u128)
    requires
        signature.walsh_peaks@.len() > 0,
    ensures
        d == dominance(signature@),
{
    ratio_1024(strength_of(&signature.walsh_peaks[0]) as u128, sum_strengths(&signature.walsh_peaks))
}

pub(crate) fn measure_change_density(signature: &TopologySignature) -> (d: u128)
    ensures
        d == change_density(signature@),
{
    let n: usize = signature.derivative.len();
    assert(signature.derivative@.subrange(0, n as int) =~= signature.derivative@);
    ratio_1024(count_entries_of_one(&signature.derivative, 0, n) as u128, n as u128)
}

pub(crate) fn measure_coherence(signature: &TopologySignature) -> (d: u128)
    requires
        signature.shift_scores@.len() > 0,
    ensures
        d == coherence(signature@),
{
    ratio_1024(signature.shift_scores[0].matching_bits as u128, signature.bit_len as u128)
}

/// Compiles a signature into a constant of variable length.
pub fn compile_topology_to_constant(signature: &TopologySignature, window_bits: usize) -> (r: Result<
    PackedConstantK,
    String,
>)
    requires
        feature_fault(signature@, window_bits as nat) is None ==> signature.popcnt_profile@.len()
            > 0,
    ensures
        outcome(r) == compiled_constant(signature@, window_bits as nat),
{
    match check_features(signature, window_bits) {
        Err(e) => return Err(e),
        Ok(_) => {},
    }
    let dominance: u128 = measure_dominance(signature);
    let change: u128 = measure_change_density(signature);
    let coherence: u128 = measure_coherence(signature);
    let family = if dominance >= DOMINANCE_THRESHOLD as u128 && change
        <= DENSITY_THRESHOLD as u128 {
        ConstantFamily::PhaseXor
    } else if coherence >= COHERENCE_THRESHOLD as u128 {
        ConstantFamily::OddAffine
    } else {
        ConstantFamily::Hybrid
    };
    let routing = if coherence >= ROUTING_COHERENCE_PIVOT as u128 {
        if dominance >= DOMINANCE_THRESHOLD as u128 {
            RoutingKind::Butterfly
        } else {
            RoutingKind::ReverseWords
        }
    } else if dominance >= DOMINANCE_THRESHOLD as u128 {
        RoutingKind::RotateWords
    } else {
        RoutingKind::Identity
    };
    let shift: usize = signature.shift_scores[0].shift;
    let p0: usize = signature.walsh_peaks[0].index;
    let p1: usize = if signature.walsh_peaks.len() > 1 {
        signature.walsh_peaks[1].index
    } else {
        p0 ^ shift
    };
    let shift0: usize = if shift == 0 {
        1
    } else {
        shift
    };
    let distance: usize = if p0 < p1 {
        p1 - p0
    } else {
        p0 - p1
    };
    let gap: usize = if distance == 0 {
        1
    } else {
        distance
    };
    let whole: usize = window_bits / 64;
    let word_count: usize = if whole == 0 {
        1
    } else {
        whole
    };
    let affine_mask: Option<u64> = if family == ConstantFamily::PhaseXor {
        None
    } else {
        Some(affine_mask_from_signature(signature))
    };
    let layout = ConstantLayout {
        family,
        routing,
        branch_rounds: select_branch_rounds(word_count, signature.word_parity),
        rotate_left: (p0 % 63 + 1) as u8,
        rotate_right: (p1 % 63 + 1) as u8,
        gf2_shift: (if shift0 < 63 {
            shift0
        } else {
            63
        }) as u8,
        lane_rotate: ((shift % word_count) % 256) as u8,
        pivot_seed: ((p0 ^ p1 ^ (signature.popcnt_profile[0] as usize)) & 0xFF) as u8,
        branch_stride: (gap % 31 + 1) as u8,
        branch_span: ((signature.popcnt_profile.len() as u128 + shift0 as u128) % 31 + 1) as u8,
        phase_mask: phase_mask_from_signature(signature),
        odd_multiplier: odd_multiplier_from_signature(signature),
        dominant_walsh_mask: signature.word_parity.mask,
        dominant_walsh_bias: signature.word_parity.bias,
        affine_mask,
    };
    assert(layout == layout_for(signature@));
    PackedConstantK::from_layout(&layout)
}

/// The largest strength among the peaks, at least one.
pub open spec fn top_strength(peaks: Seq<WalshPeak>) -> nat
    decreases peaks.len(),
{
    if peaks.len() == 0 {
        1
    } else {
        let front = top_strength(peaks.drop_last());
        if strength(peaks.last()) > front {
            strength(peaks.last())
        } else {
            front
        }
    }
}

/// A peak as a spectral program holds it, its amplitude scaled to 31.
pub open spec fn peak_code(peak: WalshPeak, top: nat) -> SpectralPeakCode {
    SpectralPeakCode {
        index: peak.index,
        positive: peak.coefficient >= 0,
        amplitude: at_least_one((strength(peak) * 31 + top / 2) / top) as u8,
    }
}

/// The first three peaks that are not zero.
pub open spec fn peak_codes(peaks: Seq<WalshPeak>, top: nat) -> Seq<SpectralPeakCode>
    decreases peaks.len(),
{
    if peaks.len() == 0 {
        Seq::empty()
    } else {
        let front = peak_codes(peaks.drop_last(), top);
        if peaks.last().coefficient != 0 && front.len() < MAX_SPECTRAL_PEAKS {
            front.push(peak_code(peaks.last(), top))
        } else {
            front
        }
    }
}

/// The spectral program that suits a block.
pub open spec fn program_for(t: Topology) -> SpectralPlan {
    SpectralPlan {
        bit_len: t.bit_len,
        peaks: peak_codes(t.walsh_peaks, top_strength(t.walsh_peaks)),
        tie_bit: (count_of_ones(t.derivative) + sum_of(t.popcnt_profile)) % 2 == 1,
    }
}

/// What compiling a signature into a spectral key gives.
pub open spec fn compiled_spectral(t: Topology) -> Result<u64, Seq<char>> {
    if !is_pow2(t.bit_len as int) {
        Err("signature bit length must be a power of two"@)
    } else {
        packed_program(program_for(t))
    }
}

proof fn lemma_top_strength(peaks: Seq<WalshPeak>, i: int)
    ensures
        1 <= top_strength(peaks) <= 0x8000_0000,
        0 <= i < peaks.len() ==> strength(peaks[i]) <= top_strength(peaks),
    decreases peaks.len(),
{
    if peaks.len() > 0 {
        lemma_top_strength(peaks.drop_last(), i);
        if 0 <= i < peaks.len() - 1 {
            assert(peaks.drop_last()[i] == peaks[i]);
        }
    }
}

/// A scaled amplitude is at most 31.
proof fn lemma_scaled_amplitude(s: nat, top: nat)
    requires
        s <= top,
        1 <= top,
    ensures
        1 <= at_least_one((s * 31 + top / 2) / top) <= 31,
{
    let n = s * 31 + top / 2;
    assert(n < 32 * top) by (nonlinear_arith)
        requires
            n == s * 31 + top / 2,
            s <= top,
            1 <= top,
    ;
    assert(n / top < 32) by (nonlinear_arith)
        requires
            n < 32 * top,
            1 <= top,
    ;
}

/// Compiles a signature into a spectral key.
pub fn compile_spectral_key(signature: &TopologySignature) -> (r: Result<MagicKey, String>)
    ensures
        outcome(r) == compiled_spectral(signature@),
        r matches Ok(key) ==> key.purpose() == Some(MagicKeyKind::Spectral),
{
    if signature.bit_len == 0 || !is_power_of_two(signature.bit_len) {
        proof {
            reveal(is_pow2);
        }
        return Err("signature bit length must be a power of two".to_string());
    }
    let n: usize = signature.walsh_peaks.len();
    let ghost all = signature.walsh_peaks@;
    let mut top: u64 = 1;
    for i in 0..n
        invariant
            all == signature.walsh_peaks@,
            n == all.len(),
            top == top_strength(all.take(i as int)),
            1 <= top <= 0x8000_0000,
    {
        assert(all.take(i + 1).drop_last() =~= all.take(i as int));
        let s: u64 = strength_of(&signature.walsh_peaks[i]);
        if s > top {
            top = s;
        }
    }
    assert(all.take(n as int) =~= all);
    let mut peaks: Vec<SpectralPeakCode> = Vec::new();
    for i in 0..n
        invariant
            all == signature.walsh_peaks@,
            n == all.len(),
            top == top_strength(all),
            1 <= top <= 0x8000_0000,
            peaks@ == peak_codes(all.take(i as int), top as nat),
    {
        assert(all.take(i + 1).drop_last() =~= all.take(i as int));
        let peak = &signature.walsh_peaks[i];
        if peak.coefficient != 0 && peaks.len() < MAX_SPECTRAL_PEAKS {
            let s: u64 = strength_of(peak);
            proof {
                lemma_top_strength(all, i as int);
                lemma_scaled_amplitude(s as nat, top as nat);
            }
            let scaled: u64 = (s * 31 + top / 2) / top;
            peaks.push(
                SpectralPeakCode {
                    index: peak.index,
                    positive: peak.coefficient >= 0,
                    amplitude: if scaled == 0 {
                        1
                    } else {
                        scaled as u8
                    },
                },
            );
        }
    }
    let d: usize = signature.derivative.len();
    assert(signature.derivative@.subrange(0, d as int) =~= signature.derivative@);
    let ones: usize = count_entries_of_one(&signature.derivative, 0, d);
    let sum: u128 = sum_entries(&signature.popcnt_profile);
    let program = SpectralProgram {
        bit_len: signature.bit_len,
        peaks,
        tie_bit: (ones as u128 % 2 + sum % 2) % 2 == 1,
    };
    assert(program@ =~= program_for(signature@));
    MagicKey::from_spectral_program(&program)
}

/// A ratio scaled to `bits` bits and rounded.
pub open spec fn quantized(part: nat, whole: nat, bits: nat) -> nat {
    if whole == 0 {
        0
    } else {
        ((part * (pow2(bits) - 1) + whole / 2) / whole as int) as nat
    }
}

/// Scales a ratio to at most 16 bits.
pub fn quantize_ratio(part: u128, whole: u128, bits: u8) -> (q: u128)
    requires
        bits <= 16,
        part <= 0x100_0000_0000_0000_0000_0000,
    ensures
        q == quantized(part as nat, whole as nat, bits as nat),
{
    if whole == 0 {
        return 0;
    }
    proof {
        vstd::arithmetic::power2::lemma2_to64();
        vstd::bits::lemma_u64_shl_is_mul(1, bits as u64);
        if bits < 16 {
            vstd::arithmetic::power2::lemma_pow2_strictly_increases(bits as nat, 16);
        }
    }
    let max: u128 = ((1u64 << (bits as u64)) - 1) as u128;
    assert(0 <= part * max <= 0xFFFF * part) by (nonlinear_arith)
        requires
            0 <= max <= 0xFFFF,
            0 <= part,
    ;
    (part * max + whole / 2) / whole
}

/// The distance from one index to another, less one, in a ring of 32.
pub open spec fn ring_delta(from: int, to: int) -> u8 {
    ((to - from - 1) % 32) as u8
}

/// Peak `i`, or the first where there are fewer.
pub open spec fn peak_or_first(peaks: Seq<WalshPeak>, i: int) -> WalshPeak {
    if i < peaks.len() {
        peaks[i]
    } else {
        peaks[0]
    }
}

/// The word operator that suits a block.
pub open spec fn blueprint_for(t: Topology) -> OperatorBlueprint {
    let dominant = t.walsh_peaks[0];
    let shift = t.shift_scores[0].shift;
    OperatorBlueprint {
        dominant_index: (dominant.index % 8192) as u16,
        dominant_positive: dominant.coefficient >= 0,
        primary_shift: (if shift < 1 {
            1
        } else if shift > 31 {
            31
        } else {
            shift as int
        }) as u8,
        shift_match: (quantized(t.shift_scores[0].matching_bits as nat, t.bit_len, 9) % 512) as u16,
        derivative_density: (quantized(count_of_ones(t.derivative), t.derivative.len(), 8)
            % 256) as u8,
        popcnt_density: (quantized(sum_of(t.popcnt_profile), t.bit_len, 8) % 256) as u8,
        secondary_delta: ring_delta(
            dominant.index as int,
            peak_or_first(t.walsh_peaks, 1).index as int,
        ),
        tertiary_delta: ring_delta(
            dominant.index as int,
            peak_or_first(t.walsh_peaks, 2).index as int,
        ),
        fingerprint_bias: (t.fingerprint % 32) as u8,
    }
}

/// What compiling a signature into an operator key gives.
pub open spec fn compiled_operator(t: Topology) -> Result<u64, Seq<char>> {
    if t.walsh_peaks.len() == 0 || t.shift_scores.len() == 0 {
        Err("signature lacks required topology features"@)
    } else {
        packed_blueprint(blueprint_for(t))
    }
}

fn delta_of(from: usize, to: usize) -> (d: u8)
    ensures
        d == ring_delta(from as int, to as int),
{
    let d: u8 = ((to % 32) as u8 + 63 - (from % 32) as u8) % 32;
    assert(d == (to - from - 1) % 32);
    d
}

/// Compiles a signature into the key of a word operator.
pub fn compile_topology_to_key(signature: &TopologySignature) -> (r: Result<MagicKey, String>)
    ensures
        outcome(r) == compiled_operator(signature@),
        r matches Ok(key) ==> key.purpose() == Some(MagicKeyKind::Operator),
{
    if signature.walsh_peaks.len() == 0 || signature.shift_scores.len() == 0 {
        return Err("signature lacks required topology features".to_string());
    }
    let dominant = &signature.walsh_peaks[0];
    let second: usize = if signature.walsh_peaks.len() > 1 {
        signature.walsh_peaks[1].index
    } else {
        dominant.index
    };
    let third: usize = if signature.walsh_peaks.len() > 2 {
        signature.walsh_peaks[2].index
    } else {
        dominant.index
    };
    let shift: usize = signature.shift_scores[0].shift;
    let d: usize = signature.derivative.len();
    assert(signature.derivative@.subrange(0, d as int) =~= signature.derivative@);
    let changes: usize = count_entries_of_one(&signature.derivative, 0, d);
    let sum: u128 = sum_entries(&signature.popcnt_profile);
    assert(sum <= 255 * signature.popcnt_profile.len());
    let blueprint = OperatorBlueprint {
        dominant_index: (dominant.index % 8192) as u16,
        dominant_positive: dominant.coefficient >= 0,
        primary_shift: (if shift < 1 {
            1
        } else if shift > 31 {
            31
        } else {
            shift
        }) as u8,
        shift_match: (quantize_ratio(
            signature.shift_scores[0].matching_bits as u128,
            signature.bit_len as u128,
            9,
        ) % 512) as u16,
        derivative_density: (quantize_ratio(changes as u128, d as u128, 8) % 256) as u8,
        popcnt_density: (quantize_ratio(sum, signature.bit_len as u128, 8) % 256) as u8,
        secondary_delta: delta_of(dominant.index, second),
        tertiary_delta: delta_of(dominant.index, third),
        fingerprint_bias: (signature.fingerprint % 32) as u8,
    };
    assert(blueprint == blueprint_for(signature@));
    MagicKey::from_operator_blueprint(&blueprint)
}

/// The operator key of any signature with features can be packed.
pub proof fn lemma_blueprint_fits(t: Topology)
    ensures
        crate::kernel::key::blueprint_fits(blueprint_for(t)),
{
}

proof fn lemma_cheapest_rounds(word_count: nat, anomalies: nat, max: nat)
    ensures
        1 <= cheapest_rounds(word_count, anomalies, max),
        max >= 1 ==> cheapest_rounds(word_count, anomalies, max) <= max,
    decreases max,
{
    if max > 1 {
        lemma_cheapest_rounds(word_count, anomalies, (max - 1) as nat);
    }
}

/// The chosen number of rounds is a cheapest one, and the lowest of those.
pub proof fn law_rounds_are_cheapest(word_count: nat, anomalies: nat, max: nat, other: nat)
    requires
        1 <= other <= max,
    ensures
        rounds_cost(word_count, anomalies, cheapest_rounds(word_count, anomalies, max))
            <= rounds_cost(word_count, anomalies, other),
        other < cheapest_rounds(word_count, anomalies, max) ==> rounds_cost(
            word_count,
            anomalies,
            cheapest_rounds(word_count, anomalies, max),
        ) < rounds_cost(word_count, anomalies, other),
    decreases max,
{
    lemma_cheapest_rounds(word_count, anomalies, max);
    if max > 1 {
        lemma_cheapest_rounds(word_count, anomalies, (max - 1) as nat);
        if other < max {
            law_rounds_are_cheapest(word_count, anomalies, (max - 1) as nat, other);
        } else {
            let best = cheapest_rounds(word_count, anomalies, (max - 1) as nat);
            law_rounds_are_cheapest(word_count, anomalies, (max - 1) as nat, best);
        }
    }
}

proof fn lemma_ones_positive(x: nat)
    requires
        x > 0,
    ensures
        ones(x) >= 1,
    decreases x,
{
    if x % 2 == 0 {
        lemma_ones_positive(x / 2);
    }
}

/// The shifts of an analysed block lie between one and the number tried.
proof fn lemma_shift_range(bits: Seq<u8>)
    requires
        bits.len() >= 8,
    ensures
        1 <= crate::kernel::topology::top_shifts(bits)[0].shift <= 32,
{
    let w = crate::kernel::topology::shift_weights(bits);
    crate::order::lemma_ranked(w);
    let order = crate::order::ranked(w);
    assert(order.contains(order[0]));
}

/// Every block that can be analysed compiles to a constant, and the constant
/// is read back as the layout it was made from.
pub proof fn law_block_constant_is_valid(bytes: Seq<u8>)
    requires
        topology(bytes) is Ok,
    ensures
        compiled_constant(topology(bytes)->Ok_0, 8 * bytes.len()) is Ok,
        crate::kernel::key::layout_of(
            compiled_constant(topology(bytes)->Ok_0, 8 * bytes.len())->Ok_0,
        ) == Ok::<ConstantLayout, Seq<char>>(layout_for(topology(bytes)->Ok_0)),
{
    let t = topology(bytes)->Ok_0;
    let l = layout_for(t);
    let words = crate::words::words_of(bytes);
    reveal(is_pow2);
    crate::kernel::topology::lemma_best_parity_exists(words);
    lemma_ones_positive(t.word_parity.mask as nat);
    let word_count = at_least_one(t.bit_len / 64);
    let anomalies = if word_count > t.word_parity.matching_words {
        (word_count - t.word_parity.matching_words) as nat
    } else {
        0
    };
    lemma_cheapest_rounds(word_count, anomalies, max_rounds(t.word_parity.mask));
    lemma_shift_range(crate::kernel::topology::lsb_bits(bytes));
    let m = multiplier_fold(t.walsh_peaks, first_three(t.walsh_peaks));
    assert((m | 1) % 2 == 1) by (bit_vector);
    assert(crate::kernel::key::layout_fault(l) is None);
    crate::kernel::key::law_layout_roundtrip(l);
}

proof fn lemma_peak_codes(peaks: Seq<WalshPeak>, top: nat, bit_len: nat)
    requires
        1 <= top,
        forall|i: int| 0 <= i < peaks.len() ==> strength(#[trigger] peaks[i]) <= top,
        forall|i: int| 0 <= i < peaks.len() ==> (#[trigger] peaks[i]).index < bit_len,
    ensures
        peak_codes(peaks, top).len() <= 3,
        peaks.len() > 0 && peaks[0].coefficient != 0 ==> peak_codes(peaks, top).len() > 0,
        forall|i: int|
            0 <= i < peak_codes(peaks, top).len() ==> (#[trigger] peak_codes(peaks, top)[i]).index
                < bit_len && 1 <= peak_codes(peaks, top)[i].amplitude <= 31,
    decreases peaks.len(),
{
    if peaks.len() > 0 {
        let front = peaks.drop_last();
        assert forall|i: int| 0 <= i < front.len() implies strength(#[trigger] front[i]) <= top
            && front[i].index < bit_len by {
            assert(peaks[i] == front[i]);
        }
        lemma_peak_codes(front, top, bit_len);
        lemma_scaled_amplitude(strength(peaks.last()), top);
        assert(peaks.last() == peaks[peaks.len() - 1]);
        if front.len() > 0 {
            assert(front[0] == peaks[0]);
        }
    }
}

/// The strongest coefficients of an analysed block lie inside it, and the
/// first is not zero.
proof fn lemma_top_walsh(bytes: Seq<u8>)
    requires
        topology(bytes) is Ok,
        8 * bytes.len() <= i64::MAX,
    ensures
        crate::kernel::topology::top_walsh(bytes).len() == 4,
        crate::kernel::topology::top_walsh(bytes)[0].coefficient != 0,
        forall|p: int|
            0 <= p < 4 ==> (#[trigger] crate::kernel::topology::top_walsh(bytes)[p]).index < 8
                * bytes.len(),
{
    reveal(is_pow2);
    let n = 8 * bytes.len();
    let x = crate::kernel::topology::signs(bytes);
    let y = crate::fwht::wht(x);
    let w = crate::fwht::magnitudes(y);
    let order = crate::order::ranked(w);
    crate::fwht::lemma_wht_len(x);
    crate::fwht::lemma_wht_bound(x, 1);
    crate::fwht::lemma_wht_nonzero(x, 0);
    crate::order::lemma_ranked(w);
    let k = choose|k: int| 0 <= k < x.len() && #[trigger] y[k] != 0;
    assert(order.contains(k));
    let p = choose|p: int| 0 <= p < order.len() && order[p] == k;
    if p > 0 {
        assert(crate::order::ranks_before(w, order[0], order[p]));
    }
    assert forall|q: int| 0 <= q < order.len() implies 0 <= #[trigger] order[q] < n by {
        assert(order.contains(order[q]));
    }
    let o = order[0];
    assert(w[o] >= w[k]);
    assert(-(1 * n) <= y[o] <= 1 * n);
    assert(-(1 * n) <= y[k] <= 1 * n);
    assert(w[k] > 0);
    assert(y[o] != 0);
}

/// Every analysed block of up to 8192 bits has a spectral key, and the key is
/// read back as the program it was made from.
pub proof fn law_block_spectral_key(bytes: Seq<u8>)
    requires
        topology(bytes) is Ok,
        8 * bytes.len() <= 8192,
    ensures
        compiled_spectral(topology(bytes)->Ok_0) is Ok,
        crate::kernel::key::program_of(compiled_spectral(topology(bytes)->Ok_0)->Ok_0) == Ok::<
            SpectralPlan,
            Seq<char>,
        >(program_for(topology(bytes)->Ok_0)),
{
    let t = topology(bytes)->Ok_0;
    let p = program_for(t);
    reveal(is_pow2);
    lemma_top_walsh(bytes);
    let top = top_strength(t.walsh_peaks);
    assert forall|i: int| 0 <= i < t.walsh_peaks.len() implies strength(#[trigger] t.walsh_peaks[i])
        <= top by {
        lemma_top_strength(t.walsh_peaks, i);
    }
    lemma_top_strength(t.walsh_peaks, 0);
    lemma_peak_codes(t.walsh_peaks, top, t.bit_len);
    crate::kernel::key::lemma_faultless_peaks(p.peaks, p.bit_len);
    crate::kernel::key::law_program_roundtrip(p);
}

/// A scaled ratio is the nearest whole number: no other is nearer to the ratio
/// of the part to the whole, scaled so that the whole is all ones.
pub proof fn law_quantized_is_nearest(part: nat, whole: nat, bits: nat)
    requires
        whole > 0,
    ensures
        ({
            let q = quantized(part, whole, bits) as int;
            let exact = part * (pow2(bits) - 1);
            &&& 2 * (q * whole) <= 2 * exact + whole
            &&& 2 * exact < 2 * (q * whole) + whole + 1
        }),
        quantized(whole, whole, bits) == pow2(bits) - 1,
        quantized(0, whole, bits) == 0,
{
    vstd::arithmetic::power2::lemma_pow2_pos(bits);
    let max = pow2(bits) - 1;
    let w = whole as int;
    let n = part * max + w / 2;
    assert(part * max >= 0 && 0 * max == 0) by (nonlinear_arith)
        requires
            max >= 0,
    ;
    vstd::arithmetic::div_mod::lemma_fundamental_div_mod(n, w);
    let q = n / w;
    assert(w * q == q * w) by (nonlinear_arith);
    vstd::arithmetic::div_mod::lemma_div_pos_is_pos(n, w);
    vstd::arithmetic::div_mod::lemma_fundamental_div_mod_converse(w * max + w / 2, w, max, w / 2);
    vstd::arithmetic::div_mod::lemma_fundamental_div_mod_converse(w / 2, w, 0, w / 2);
    assert(max * w == w * max && 0 * w == 0) by (nonlinear_arith);
}

/// A ratio reaches a number of 1024ths exactly where the part, taken 1024 times,
/// reaches the whole taken that often.
pub proof fn lemma_per_1024(part: nat, whole: nat, limit: nat)
    requires
        whole > 0,
    ensures
        per_1024(part, whole) >= limit <==> 1024 * part >= limit * whole,
{
    let (n, w) = (part * 1024, whole as int);
    vstd::arithmetic::div_mod::lemma_fundamental_div_mod(n as int, w);
    let q = n as int / w;
    let r = n as int % w;
    assert(q >= limit <==> n >= limit * w) by (nonlinear_arith)
        requires
            n == w * q + r,
            0 <= r < w,
    ;
}

/// The family and the routing of a block follow from three ratios: how much of
/// the four strongest coefficients the first one holds, how often neighbouring
/// bits differ, and how many bits agree at the best shift.
pub proof fn law_family_and_routing(t: Topology)
    requires
        total_strength(t.walsh_peaks) > 0,
        t.derivative.len() > 0,
        t.bit_len > 0,
    ensures
        ({
            let dominant = 1024 * strength(t.walsh_peaks[0]) >= 700 * total_strength(t.walsh_peaks);
            let slow = 1024 * count_of_ones(t.derivative) < 513 * t.derivative.len();
            let periodic = 1024 * t.shift_scores[0].matching_bits >= 700 * t.bit_len;
            let coherent = 1024 * t.shift_scores[0].matching_bits >= 600 * t.bit_len;
            &&& layout_for(t).family == ConstantFamily::PhaseXor <==> dominant && slow
            &&& layout_for(t).family == ConstantFamily::OddAffine <==> periodic && !(dominant
                && slow)
            &&& layout_for(t).family == ConstantFamily::Hybrid <==> !periodic && !(dominant && slow)
            &&& layout_for(t).routing == RoutingKind::Butterfly <==> coherent && dominant
            &&& layout_for(t).routing == RoutingKind::ReverseWords <==> coherent && !dominant
            &&& layout_for(t).routing == RoutingKind::RotateWords <==> !coherent && dominant
            &&& layout_for(t).routing == RoutingKind::Identity <==> !coherent && !dominant
            &&& layout_for(t).affine_mask is None <==> dominant && slow
        }),
{
    let total = total_strength(t.walsh_peaks);
    let matching = t.shift_scores[0].matching_bits as nat;
    lemma_per_1024(strength(t.walsh_peaks[0]), total, 700);
    lemma_per_1024(count_of_ones(t.derivative), t.derivative.len(), 513);
    lemma_per_1024(matching, t.bit_len, 700);
    lemma_per_1024(matching, t.bit_len, 600);
}

/// The program holds the first three coefficients, as far as they are not zero:
/// each with its place and its sign, and its strength scaled so that the first
/// has 31. No scaled strength is off by more than a half, except that none is
/// less than one.
pub proof fn law_program_tells_peaks(t: Topology, i: int)
    requires
        0 <= i < 3,
        i < t.walsh_peaks.len(),
        forall|p: int, q: int|
            0 <= p < q < t.walsh_peaks.len() ==> strength(#[trigger] t.walsh_peaks[p]) >= strength(
                #[trigger] t.walsh_peaks[q],
            ),
    ensures
        ({
            let codes = program_for(t).peaks;
            let peak = t.walsh_peaks[i];
            let first = strength(t.walsh_peaks[0]);
            &&& codes.len() <= 3
            &&& i < codes.len() <==> peak.coefficient != 0
            &&& i < codes.len() ==> {
                &&& codes[i].index == peak.index
                &&& codes[i].positive == (peak.coefficient > 0)
                &&& codes[i].amplitude == 1 || 2 * (codes[i].amplitude * first) <= 62 * strength(
                    peak,
                ) + first
                &&& 62 * strength(peak) <= 2 * (codes[i].amplitude * first) + first
                &&& codes[0].amplitude == 31
            }
        }),
{
    let peaks = t.walsh_peaks;
    let top = top_strength(peaks);
    lemma_top_is_first(peaks);
    lemma_codes_in_order(peaks, top, i);
    lemma_codes_in_order(peaks, top, 0);
    lemma_top_strength(peaks, i);
    lemma_top_strength(peaks, 0);
    if peaks[i].coefficient != 0 {
        lemma_nearest_amplitude(strength(peaks[i]), top);
        lemma_scaled_amplitude(strength(peaks[i]), top);
        lemma_nearest_amplitude(top, top);
        lemma_scaled_amplitude(top, top);
        if i > 0 {
            assert(strength(peaks[0]) >= strength(peaks[i]));
        }
    }
}

proof fn lemma_nearest_amplitude(s: nat, top: nat)
    requires
        1 <= top,
    ensures
        ({
            let a = at_least_one((s * 31 + top / 2) / top);
            &&& a == 1 || 2 * (a * top) <= 62 * s + top
            &&& 62 * s <= 2 * (a * top) + top
            &&& s == top ==> a == 31
        }),
{
    let n = (s * 31 + top / 2) as int;
    let w = top as int;
    vstd::arithmetic::div_mod::lemma_fundamental_div_mod(n, w);
    let q = n / w;
    assert(w * q == q * w && 1 * w == w && 0 * w == 0) by (nonlinear_arith);
    if s == top {
        vstd::arithmetic::div_mod::lemma_fundamental_div_mod_converse(n, w, 31, w / 2);
    }
}

proof fn lemma_top_is_first(peaks: Seq<WalshPeak>)
    requires
        peaks.len() > 0,
        forall|p: int, q: int|
            0 <= p < q < peaks.len() ==> strength(#[trigger] peaks[p]) >= strength(
                #[trigger] peaks[q],
            ),
    ensures
        top_strength(peaks) == at_least_one(strength(peaks[0])),
    decreases peaks.len(),
{
    let front = peaks.drop_last();
    if front.len() > 0 {
        assert forall|p: int, q: int| 0 <= p < q < front.len() implies strength(
            #[trigger] front[p],
        ) >= strength(#[trigger] front[q]) by {
            assert(strength(peaks[p]) >= strength(peaks[q]));
        }
        lemma_top_is_first(front);
        assert(strength(peaks[0]) >= strength(peaks[peaks.len() - 1]));
    } else {
        assert(top_strength(front) == 1);
    }
}

proof fn lemma_codes_in_order(peaks: Seq<WalshPeak>, top: nat, i: int)
    requires
        0 <= i < 3,
        i < peaks.len(),
        forall|p: int, q: int|
            0 <= p < q < peaks.len() ==> strength(#[trigger] peaks[p]) >= strength(
                #[trigger] peaks[q],
            ),
    ensures
        peak_codes(peaks, top).len() <= 3,
        peak_codes(peaks, top).len() <= peaks.len(),
        i < peak_codes(peaks, top).len() <==> peaks[i].coefficient != 0,
        i < peak_codes(peaks, top).len() ==> peak_codes(peaks, top)[i] == peak_code(peaks[i], top),
    decreases peaks.len(),
{
    let front = peaks.drop_last();
    let n = peaks.len() as int;
    assert forall|p: int, q: int| 0 <= p < q < front.len() implies strength(#[trigger] front[p])
        >= strength(#[trigger] front[q]) by {
        assert(strength(peaks[p]) >= strength(peaks[q]));
    }
    if i < front.len() {
        lemma_codes_in_order(front, top, i);
        if peaks[i].coefficient == 0 {
            assert(strength(peaks[i]) >= strength(peaks[n - 1]));
        }
    } else {
        lemma_all_codes(front, top, peaks[n - 1]);
    }
}

proof fn lemma_all_codes(front: Seq<WalshPeak>, top: nat, last: WalshPeak)
    requires
        front.len() < 3,
        forall|p: int| 0 <= p < front.len() ==> strength(#[trigger] front[p]) >= strength(last),
    ensures
        peak_codes(front, top).len() <= front.len(),
        last.coefficient != 0 ==> peak_codes(front, top).len() == front.len(),
    decreases front.len(),
{
    if front.len() > 0 {
        let shorter = front.drop_last();
        assert forall|p: int| 0 <= p < shorter.len() implies strength(#[trigger] shorter[p])
            >= strength(last) by {
            assert(shorter[p] == front[p]);
        }
        lemma_all_codes(shorter, top, last);
        assert(strength(front[front.len() - 1]) >= strength(last));
    }
}

/// An operator key tells where the second and the third coefficient lie behind
/// the first, in a ring of 32, and keeps a place below 8192 and a shift from 1
/// to 31 as they are.
pub proof fn law_blueprint_tells_peaks(t: Topology)
    requires
        t.walsh_peaks.len() > 2,
        t.shift_scores.len() > 0,
    ensures
        ({
            let b = blueprint_for(t);
            let (first, second, third) = (
                t.walsh_peaks[0].index as int,
                t.walsh_peaks[1].index as int,
                t.walsh_peaks[2].index as int,
            );
            &&& (first + b.secondary_delta + 1) % 32 == second % 32
            &&& (first + b.tertiary_delta + 1) % 32 == third % 32
            &&& first < 8192 ==> b.dominant_index == first
            &&& b.dominant_positive == !(t.walsh_peaks[0].coefficient < 0)
            &&& 1 <= t.shift_scores[0].shift <= 31 ==> b.primary_shift == t.shift_scores[0].shift
        }),
{
}

proof fn lemma_pattern_tells_profile(left: Seq<u8>, right: Seq<u8>, seed: u64, i: int)
    requires
        left.len() == right.len(),
        0 <= i < 8,
        i < left.len(),
        density_pattern(left, seed) == density_pattern(right, seed),
    ensures
        left[i] == right[i],
{
    let a = Seq::new(
        8,
        |i: int|
            left[i % left.len() as int].wrapping_add(
                ((i as u64).wrapping_mul(seed) & 0xFF) as u8,
            ),
    );
    let b = Seq::new(
        8,
        |i: int|
            right[i % right.len() as int].wrapping_add(
                ((i as u64).wrapping_mul(seed) & 0xFF) as u8,
            ),
    );
    crate::words::lemma_le_value(a);
    crate::words::lemma_le_value(b);
    vstd::arithmetic::power2::lemma2_to64_rest();
    assert(a == b);
    vstd::arithmetic::div_mod::lemma_small_mod(i as nat, left.len());
    assert(a[i] == b[i]);
}

/// The masks tell the densities: signatures with the same coefficients, and any
/// difference among their first eight densities, have different phase masks; and
/// different affine masks too, where the rest agrees.
pub proof fn law_masks_tell_densities(s: Topology, t: Topology, i: int)
    requires
        s.popcnt_profile.len() == t.popcnt_profile.len(),
        0 <= i < 8,
        i < s.popcnt_profile.len(),
        s.popcnt_profile[i] != t.popcnt_profile[i],
        s.walsh_peaks == t.walsh_peaks,
    ensures
        phase_mask(s) != phase_mask(t),
        s.derivative == t.derivative && s.shift_scores == t.shift_scores ==> affine_mask(s)
            != affine_mask(t),
{
    let fold = phase_fold(s.walsh_peaks, first_three(s.walsh_peaks));
    let (a, b) = (0xC4CE_B9FE_1A85_EC53u64, 0xA3B1_7F2D_9E04_C865u64);
    let (x, y) = (density_pattern(s.popcnt_profile, a), density_pattern(t.popcnt_profile, a));
    let (z, w) = (density_pattern(s.popcnt_profile, b), density_pattern(t.popcnt_profile, b));
    if phase_mask(s) == phase_mask(t) {
        crate::kernel::topology::lemma_xor_injective(x, y, fold);
        lemma_pattern_tells_profile(s.popcnt_profile, t.popcnt_profile, a, i);
    }
    if s.derivative == t.derivative && s.shift_scores == t.shift_scores && affine_mask(s)
        == affine_mask(t) {
        let lanes = rotl(
            lane_parities(s.derivative, ceil_div(s.derivative.len(), 64)),
            s.shift_scores[0].shift as int,
        );
        crate::kernel::topology::lemma_xor_injective(rotr(z, 11), rotr(w, 11), lanes);
        crate::words::lemma_rotations_invert(z, 11);
        crate::words::lemma_rotations_invert(w, 11);
        lemma_pattern_tells_profile(s.popcnt_profile, t.popcnt_profile, b, i);
    }
}

/// Each bit of the lane parities tells whether its lane of 64 bits changes an odd
/// number of times.
pub proof fn law_lane_parities(s: Seq<u8>, n: nat, k: u64)
    requires
        k < n <= 64,
    ensures
        (lane_parities(s, n) >> k) & 1 == count_of_ones(lane(s, k as int)) % 2,
        n < 64 ==> lane_parities(s, n) >> (n as u64) == 0,
    decreases n,
{
    let i = (n - 1) as u64;
    let x = lane_parities(s, i as nat);
    let odd = (count_of_ones(lane(s, i as int)) % 2) as u64;
    if i == 0 {
        assert(0u64 >> 0u64 == 0) by {
            vstd::bits::lemma_u64_shr_is_div(0, 0);
            vstd::arithmetic::power2::lemma2_to64();
        }
    } else {
        law_lane_parities(s, i as nat, if k < i { k } else { 0 });
    }
    let y = x | (odd << i);
    let next = (i + 1) as u64;
    assert((y >> k) & 1 == (if k == i {
        odd
    } else {
        (x >> k) & 1
    }) && (next < 64 ==> y >> next == 0)) by (bit_vector)
        requires
            y == x | (odd << i),
            x >> i == 0,
            odd <= 1,
            i < 64,
            k < 64,
            next == i + 1,
    ;
}

/// Where all words match, every further round makes the words shorter and costs
/// nothing, so all rounds that the mask allows are taken.
pub proof fn law_matching_words_take_all_rounds(word_count: nat, feature: WordParityFeature)
    requires
        word_count > 0,
        feature.matching_words >= word_count,
    ensures
        chosen_rounds(word_count, feature) == max_rounds(feature.mask),
        ({
            let bits = ones(feature.mask as nat);
            max_rounds(feature.mask) == if bits == 0 {
                1
            } else if bits <= 16 {
                bits
            } else {
                16
            }
        }),
{
    lemma_all_rounds(word_count, max_rounds(feature.mask));
}

proof fn lemma_all_rounds(word_count: nat, max: nat)
    requires
        word_count > 0,
        1 <= max <= 16,
    ensures
        cheapest_rounds(word_count, 0, max) == max,
    decreases max,
{
    if max > 1 {
        let m = (max - 1) as nat;
        lemma_all_rounds(word_count, m);
        lemma_free_rounds(word_count, m);
        lemma_free_rounds(word_count, max);
        assert(word_count * (64 - max) < word_count * (64 - m)) by (nonlinear_arith)
            requires
                word_count > 0,
                max == m + 1,
        ;
    }
}

proof fn lemma_free_rounds(word_count: nat, rounds: nat)
    ensures
        rounds <= 64 ==> rounds_cost(word_count, 0, rounds) == word_count * (64 - rounds) + 8,
{
    assert(0 * rounds == 0 && 0 * rounds * 8 == 0);
    assert(rounds <= 64 ==> word_count * (64 - rounds) >= 0) by (nonlinear_arith)
        requires
            word_count >= 0,
    ;
}

/// Rounds save their bits of every word, and cost no more than 8 bits for each
/// anomaly and round, nor more than a bit for each word and round and the rest of
/// a byte.
pub proof fn law_rounds_cost(word_count: nat, anomalies: nat, rounds: nat)
    requires
        rounds <= 64,
    ensures
        ({
            let cost = rounds_cost(word_count, anomalies, rounds);
            let kept = word_count * (64 - rounds);
            &&& kept + 8 <= cost
            &&& cost <= kept + 8 + 8 * (anomalies * rounds)
            &&& cost <= 64 * word_count + 15
            &&& cost == kept + 8 + 8 * (anomalies * rounds) || cost >= 64 * word_count + 8
        }),
{
    let p = word_count * rounds;
    assert(word_count * (64 - rounds) + p == 64 * word_count && p >= 0 && word_count * (64 - rounds)
        >= 0 && anomalies * rounds >= 0) by (nonlinear_arith)
        requires
            p == word_count * rounds,
            rounds <= 64,
    ;
    assert(anomalies * rounds * 8 == 8 * (anomalies * rounds)) by (nonlinear_arith);
}

/// An operator key measures the block: the share of changes and of set bits in
/// 255ths, and the share of bits that agree at the best shift in 511ths, each to
/// the nearest.
pub proof fn law_blueprint_measures_block(t: Topology)
    requires
        0 < t.derivative.len(),
        count_of_ones(t.derivative) <= t.derivative.len(),
        0 < t.bit_len,
        sum_of(t.popcnt_profile) <= t.bit_len,
        t.shift_scores[0].matching_bits <= t.bit_len,
    ensures
        ({
            let b = blueprint_for(t);
            let (n, m) = (t.derivative.len() as int, t.bit_len as int);
            let (changes, set) = (
                count_of_ones(t.derivative) as int,
                sum_of(t.popcnt_profile) as int,
            );
            let agree = t.shift_scores[0].matching_bits as int;
            &&& 2 * (b.derivative_density * n) <= 510 * changes + n
            &&& 510 * changes <= 2 * (b.derivative_density * n) + n
            &&& 2 * (b.popcnt_density * m) <= 510 * set + m
            &&& 510 * set <= 2 * (b.popcnt_density * m) + m
            &&& 2 * (b.shift_match * m) <= 1022 * agree + m
            &&& 1022 * agree <= 2 * (b.shift_match * m) + m
        }),
{
    vstd::arithmetic::power2::lemma2_to64();
    let agree = t.shift_scores[0].matching_bits as nat;
    lemma_quantized_fits(count_of_ones(t.derivative), t.derivative.len(), 8);
    lemma_quantized_fits(sum_of(t.popcnt_profile), t.bit_len, 8);
    lemma_quantized_fits(agree, t.bit_len, 9);
    law_quantized_is_nearest(count_of_ones(t.derivative), t.derivative.len(), 8);
    law_quantized_is_nearest(sum_of(t.popcnt_profile), t.bit_len, 8);
    law_quantized_is_nearest(agree, t.bit_len, 9);
    let b = blueprint_for(t);
    assert(b.derivative_density == quantized(count_of_ones(t.derivative), t.derivative.len(), 8));
    assert(b.popcnt_density == quantized(sum_of(t.popcnt_profile), t.bit_len, 8));
    assert(b.shift_match == quantized(agree, t.bit_len, 9));
}

proof fn lemma_quantized_fits(part: nat, whole: nat, bits: nat)
    requires
        part <= whole,
        whole > 0,
    ensures
        quantized(part, whole, bits) < pow2(bits),
{
    vstd::arithmetic::power2::lemma_pow2_pos(bits);
    let max = pow2(bits) - 1;
    assert(part * max + whole / 2 <= whole * max + whole / 2) by (nonlinear_arith)
        requires
            part <= whole,
            max >= 0,
    ;
    law_quantized_is_nearest(whole, whole, bits);
    vstd::arithmetic::div_mod::lemma_div_is_ordered(
        part * max + whole as int / 2,
        whole * max + whole as int / 2,
        whole as int,
    );
    assert(part * max >= 0) by (nonlinear_arith)
        requires
            max >= 0,
    ;
    vstd::arithmetic::div_mod::lemma_div_pos_is_pos(part * max + whole as int / 2, whole as int);
}

/// A constant tells the places of the two strongest coefficients, by rotations in
/// a ring of 63, the best shift as far as it is a shift of a word, and the parity
/// feature of the block.
pub proof fn law_layout_tells_features(t: Topology)
    requires
        t.walsh_peaks.len() > 1,
        t.shift_scores.len() > 0,
    ensures
        ({
            let l = layout_for(t);
            let (first, second) = (t.walsh_peaks[0].index as int, t.walsh_peaks[1].index as int);
            let shift = t.shift_scores[0].shift;
            &&& 1 <= l.rotate_left <= 63 && (first + 1 - l.rotate_left) % 63 == 0
            &&& 1 <= l.rotate_right <= 63 && (second + 1 - l.rotate_right) % 63 == 0
            &&& 1 <= shift <= 63 ==> l.gf2_shift == shift
            &&& 1 <= l.gf2_shift <= 63
            &&& l.dominant_walsh_mask == t.word_parity.mask
            &&& l.dominant_walsh_bias == t.word_parity.bias
            &&& t.bit_len >= 64 ==> l.lane_rotate == (shift as nat % (t.bit_len / 64)) % 256
        }),
{
}

} // verus!
