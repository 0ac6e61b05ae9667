//! Operator keys of variable length, written bit by bit.
use vstd::prelude::*;
use vstd::arithmetic::power2::pow2;
use crate::bitstream::{ceil_div, lemma_packed_bit, packed_bits, stream_bit, BitSink};
use crate::kernel::compile::{
    change_density, check_features, coherence, count_entries_of_one, count_of_ones, dominance,
    feature_fault, lemma_per_1024, measure_change_density, measure_coherence, measure_dominance, strength,
    strength_of, sum_entries, sum_of,
};
use crate::kernel::topology::{
    avalanche, avalanche_word, chunk, law_avalanche_tells_words, lemma_xor_injective, Topology,
    TopologySignature, WalshPeak,
};
use crate::text::outcome;
use crate::words::{bits_number, lemma_low_bits, low_bits, rotate_left, rotl};

verus! {

/// Which fields a key has, and how wide they are.
#[derive(Clone, Copy, Debug, Eq, PartialEq, Structural)]
pub struct StrictKeyLayout {
    pub phase_bits: u8,
    pub affine_bits: u8,
    pub shift_bits: u8,
    pub rotate_bits: u8,
    pub lane_bits: u8,
    pub multiplier_bits: u8,
    pub parity_bits: u8,
    pub affine_present: bool,
    pub lane_present: bool,
    pub parity_present: bool,
}

impl View for StrictKeyLayout {
    type V = StrictKeyLayout;

    open spec fn view(&self) -> StrictKeyLayout {
        *self
    }
}

/// A key of variable length.
#[derive(Clone, Debug, Eq, PartialEq)]
pub struct StrictOperatorKey {
    pub bit_len: u16,
    pub bytes: Vec<u8>,
}

/// The layout that suits a signature.
pub open spec fn strict_layout(t: Topology) -> StrictKeyLayout {
    let d = dominance(t);
    let c = change_density(t);
    let s = coherence(t);
    StrictKeyLayout {
        phase_bits: if d >= 768 {
            24
        } else if d >= 512 {
            16
        } else {
            12
        },
        affine_bits: if c >= 448 {
            if s >= 704 {
                24
            } else {
                16
            }
        } else {
            0
        },
        shift_bits: if t.bit_len >= 16384 {
            6
        } else if t.bit_len >= 4096 {
            5
        } else {
            4
        },
        rotate_bits: if d >= 640 {
            6
        } else {
            5
        },
        lane_bits: 6,
        multiplier_bits: if c >= 640 {
            32
        } else if s >= 640 {
            24
        } else {
            16
        },
        parity_bits: 5,
        affine_present: c >= 448,
        lane_present: t.bit_len / 64 > 1 && s >= 384,
        parity_present: c >= 256,
    }
}

fn choose_layout(signature: &TopologySignature) -> (l: StrictKeyLayout)
    requires
        signature.walsh_peaks@.len() > 0,
        signature.shift_scores@.len() > 0,
    ensures
        l == strict_layout(signature@),
{
    let d: u128 = measure_dominance(signature);
    let c: u128 = measure_change_density(signature);
    let s: u128 = measure_coherence(signature);
    let bits: usize = signature.bit_len;
    StrictKeyLayout {
        phase_bits: if d >= 768 {
            24
        } else if d >= 512 {
            16
        } else {
            12
        },
        affine_bits: if c >= 448 {
            if s >= 704 {
                24
            } else {
                16
            }
        } else {
            0
        },
        shift_bits: if bits >= 16384 {
            6
        } else if bits >= 4096 {
            5
        } else {
            4
        },
        rotate_bits: if d >= 640 {
            6
        } else {
            5
        },
        lane_bits: 6,
        multiplier_bits: if c >= 640 {
            32
        } else if s >= 640 {
            24
        } else {
            16
        },
        parity_bits: 5,
        affine_present: c >= 448,
        lane_present: bits / 64 > 1 && s >= 384,
        parity_present: c >= 256,
    }
}

/// All values of a byte string added without carry.
pub open spec fn xor_of(s: Seq<u8>) -> u8
    decreases s.len(),
{
    if s.len() == 0 {
        0
    } else {
        xor_of(s.drop_last()) ^ s.last()
    }
}

/// The parities of the first `n` pieces of 64 entries, each at its own place.
pub open spec fn parity_fold(s: Seq<u8>, n: nat) -> u64
    decreases n,
{
    if n == 0 {
        0
    } else {
        parity_fold(s, (n - 1) as nat) ^ ((xor_of(chunk(s, 64, n - 1)) as u64) << (((n - 1)
            % 64) as u64))
    }
}

/// The entries of a profile folded into a word.
pub open spec fn profile_fold(s: Seq<u8>) -> u64
    decreases s.len(),
{
    if s.len() == 0 {
        0
    } else {
        rotl(profile_fold(s.drop_last()), 7) ^ ((s.last() as u64) << (((s.len() - 1) * 5 % 56) as u64))
    }
}

/// The peaks folded into a word.
pub open spec fn peak_fold(peaks: Seq<WalshPeak>) -> u64
    decreases peaks.len(),
{
    if peaks.len() == 0 {
        0
    } else {
        rotl(peak_fold(peaks.drop_last()), 11) ^ (strength(peaks.last()) as u64) ^ ((
        peaks.last().index as u64) << (((peaks.len() - 1) * 9 % 32) as u64))
    }
}

/// A word that depends on all features and a salt.
pub open spec fn feature_word(t: Topology, salt: u64) -> u64 {
    avalanche(
        parity_fold(t.derivative, ceil_div(t.derivative.len(), 64)) ^ profile_fold(
            t.popcnt_profile,
        ) ^ peak_fold(t.walsh_peaks) ^ salt.wrapping_mul(0x9E37_79B9_7F4A_7C15),
    )
}

fn fold_parities(s: &Vec<u8>) -> (acc: u64)
    ensures
        acc == parity_fold(s@, ceil_div(s@.len(), 64)),
{
    let n: usize = s.len();
    let mut acc: u64 = 0;
    let mut at: usize = 0;
    let mut k: usize = 0;
    while at < n
        invariant
            n == s.len(),
            at <= n,
            k <= n,
            at < n ==> at == 64 * k,
            64 * k < n + 64,
            at == n ==> 64 * k >= n,
            acc == parity_fold(s@, k as nat),
        decreases n - at,
    {
        let end: usize = if n - at < 64 {
            n
        } else {
            at + 64
        };
        let mut parity: u8 = 0;
        let ghost piece = chunk(s@, 64, k as int);
        assert(piece =~= s@.subrange(at as int, end as int));
        for i in at..end
            invariant
                at <= end <= n == s@.len(),
                piece == s@.subrange(at as int, end as int),
                parity == xor_of(piece.take(i - at)),
        {
            assert(piece.take(i + 1 - at).drop_last() =~= piece.take(i - at));
            parity = parity ^ s[i];
        }
        assert(piece.take(end - at) =~= piece);
        acc = acc ^ ((parity as u64) << ((k % 64) as u64));
        k = k + 1;
        at = end;
    }
    acc
}

fn fold_profile(s: &Vec<u8>) -> (acc: u64)
    ensures
        acc == profile_fold(s@),
{
    let n: usize = s.len();
    let mut acc: u64 = 0;
    assert(s@.take(0) =~= Seq::empty());
    for i in 0..n
        invariant
            n == s@.len(),
            acc == profile_fold(s@.take(i as int)),
    {
        assert(s@.take(i + 1).drop_last() =~= s@.take(i as int));
        let place: u64 = ((i % 56) * 5 % 56) as u64;
        proof {
            vstd::arithmetic::div_mod::lemma_mul_mod_noop_left(i as int, 5, 56);
        }
        acc = rotate_left(acc, 7) ^ ((s[i] as u64) << place);
    }
    assert(s@.take(n as int) =~= s@);
    acc
}

fn fold_peaks(peaks: &Vec<WalshPeak>) -> (acc: u64)
    ensures
        acc == peak_fold(peaks@),
{
    let n: usize = peaks.len();
    let mut acc: u64 = 0;
    assert(peaks@.take(0) =~= Seq::empty());
    for i in 0..n
        invariant
            n == peaks@.len(),
            acc == peak_fold(peaks@.take(i as int)),
    {
        assert(peaks@.take(i + 1).drop_last() =~= peaks@.take(i as int));
        let place: u64 = ((i % 32) * 9 % 32) as u64;
        proof {
            vstd::arithmetic::div_mod::lemma_mul_mod_noop_left(i as int, 9, 32);
        }
        let index: u64 = peaks[i].index as u64;
        acc = rotate_left(acc, 11) ^ strength_of(&peaks[i]) ^ (index << place);
    }
    assert(peaks@.take(n as int) =~= peaks@);
    acc
}

/// Mixes all features and a salt into a word.
pub(crate) fn mix_feature_word(signature: &TopologySignature, salt: u64) -> (w: u64)
    ensures
        w == feature_word(signature@, salt),
{
    avalanche_word(
        fold_parities(&signature.derivative) ^ fold_profile(&signature.popcnt_profile)
            ^ fold_peaks(&signature.walsh_peaks) ^ salt.wrapping_mul(0x9E37_79B9_7F4A_7C15),
    )
}

/// Entry 1 of the peaks, or entry 0 where there is no other.
pub open spec fn second_peak(t: Topology) -> WalshPeak {
    if t.walsh_peaks.len() > 1 {
        t.walsh_peaks[1]
    } else {
        t.walsh_peaks[0]
    }
}

/// The best shift, at least one.
pub open spec fn first_shift(t: Topology) -> u64 {
    if t.shift_scores[0].shift == 0 {
        1
    } else {
        t.shift_scores[0].shift as u64
    }
}

/// The second best shift, at least one; the best where there is no other.
pub open spec fn second_shift(t: Topology) -> u64 {
    if t.shift_scores.len() <= 1 {
        first_shift(t)
    } else if t.shift_scores[1].shift == 0 {
        1
    } else {
        t.shift_scores[1].shift as u64
    }
}

/// The mean of the density profile.
pub open spec fn mean_density(t: Topology) -> nat {
    if t.popcnt_profile.len() == 0 {
        0
    } else {
        sum_of(t.popcnt_profile) / t.popcnt_profile.len()
    }
}

/// The first entry of the density profile.
pub open spec fn first_density(t: Topology) -> u64 {
    if t.popcnt_profile.len() == 0 {
        0
    } else {
        t.popcnt_profile[0] as u64
    }
}

/// A bit that tells whether a field is there.
pub open spec fn flag(present: bool) -> Seq<bool> {
    seq![present]
}

/// The fourteen bits that describe a layout.
pub open spec fn header_bits(l: StrictKeyLayout) -> Seq<bool> {
    low_bits((l.phase_bits / 4 - 3) as nat, 2) + low_bits(
        if l.affine_present {
            (l.affine_bits / 8 - 2) as nat
        } else {
            0
        },
        2,
    ) + low_bits((l.shift_bits - 3) as nat, 2) + low_bits((l.rotate_bits - 4) as nat, 2) + low_bits(
        (l.multiplier_bits / 8 - 2) as nat,
        3,
    ) + flag(l.affine_present) + flag(l.lane_present) + flag(l.parity_present)
}

/// The field, if it is there.
pub open spec fn optional(present: bool, field: Seq<bool>) -> Seq<bool> {
    if present {
        field
    } else {
        Seq::empty()
    }
}

/// What the fields of a key hold.
#[derive(Clone, Copy, Debug, Eq, PartialEq)]
pub struct StrictFields {
    pub phase: u64,
    pub affine: u64,
    pub first_shift: u64,
    pub second_shift: u64,
    pub first_peak: u64,
    pub second_peak: u64,
    pub multiplier: u64,
    pub changes: u64,
}

/// The contents that a signature gives.
pub open spec fn strict_fields(t: Topology) -> StrictFields {
    let p0 = t.walsh_peaks[0].index as u64;
    let p1 = second_peak(t).index as u64;
    let s0 = first_shift(t);
    let s1 = second_shift(t);
    let changes = count_of_ones(t.derivative) as u64;
    StrictFields {
        phase: feature_word(t, p0 ^ s0 ^ first_density(t)),
        affine: feature_word(t, p1 ^ s1 ^ (mean_density(t) as u64) ^ changes),
        first_shift: s0,
        second_shift: s1,
        first_peak: p0,
        second_peak: p1,
        multiplier: feature_word(t, s0 ^ s1 ^ p0 ^ ((8 * change_density(t)) as u64)) | 1,
        changes,
    }
}

/// The fields behind the header.
pub open spec fn body_bits(l: StrictKeyLayout, f: StrictFields) -> Seq<bool> {
    low_bits(f.phase as nat, l.phase_bits as nat) + optional(
        l.affine_present,
        low_bits(f.affine as nat, l.affine_bits as nat),
    ) + low_bits((f.first_shift - 1) as nat, l.shift_bits as nat) + low_bits(
        (f.second_shift - 1) as nat,
        l.shift_bits as nat,
    ) + low_bits(f.first_peak as nat, l.rotate_bits as nat) + low_bits(
        f.second_peak as nat,
        l.rotate_bits as nat,
    ) + optional(l.lane_present, low_bits(f.first_shift as nat, l.lane_bits as nat)) + low_bits(
        f.multiplier as nat,
        l.multiplier_bits as nat,
    ) + optional(l.parity_present, low_bits(f.changes as nat, l.parity_bits as nat))
}

/// All bits of a key.
pub open spec fn strict_bits(t: Topology) -> Seq<bool> {
    header_bits(strict_layout(t)) + body_bits(strict_layout(t), strict_fields(t))
}

/// How many bits a key of a layout has.
pub open spec fn layout_width(l: StrictKeyLayout) -> nat {
    (14 + l.phase_bits + l.affine_bits + 2 * l.shift_bits + 2 * l.rotate_bits + (
    if l.lane_present {
        l.lane_bits
    } else {
        0
    }) + l.multiplier_bits + (if l.parity_present {
        l.parity_bits
    } else {
        0
    })) as nat
}

/// A key is as long as its layout says.
pub proof fn law_strict_key_len(t: Topology)
    ensures
        strict_bits(t).len() == layout_width(strict_layout(t)),
        header_bits(strict_layout(t)).len() == 14,
        layout_width(strict_layout(t)) <= 129,
{
    assert forall|v: nat, n: nat| #[trigger] low_bits(v, n).len() == n by {
        lemma_low_bits(v, n);
    }
}

fn push_bits(sink: &mut BitSink, value: u64, count: u8)
    requires
        old(sink).wf(),
    ensures
        final(sink).wf(),
        final(sink).bits() == old(sink).bits() + low_bits(value as nat, count as nat),
{
    let mut rest: u64 = value;
    let ghost want = sink.bits() + low_bits(value as nat, count as nat);
    for k in 0..count
        invariant
            sink.wf(),
            want == sink.bits() + low_bits(rest as nat, (count - k) as nat),
    {
        let ghost before = sink.bits();
        let ghost tail = low_bits((rest / 2) as nat, (count - k - 1) as nat);
        let bit: bool = rest % 2 == 1;
        sink.push(bit);
        assert(before + (seq![bit] + tail) =~= sink.bits() + tail);
        rest = rest / 2;
    }
    assert(want =~= sink.bits());
}

fn push_header(sink: &mut BitSink, l: &StrictKeyLayout)
    requires
        old(sink).wf(),
        12 <= l.phase_bits,
        l.affine_present ==> l.affine_bits >= 16,
        l.shift_bits >= 3,
        l.rotate_bits >= 4,
        l.multiplier_bits >= 16,
    ensures
        final(sink).wf(),
        final(sink).bits() == old(sink).bits() + header_bits(*l),
{
    let ghost before = sink.bits();
    push_bits(sink, (l.phase_bits / 4 - 3) as u64, 2);
    let affine: u64 = if l.affine_present {
        (l.affine_bits / 8 - 2) as u64
    } else {
        0
    };
    push_bits(sink, affine, 2);
    push_bits(sink, (l.shift_bits - 3) as u64, 2);
    push_bits(sink, (l.rotate_bits - 4) as u64, 2);
    push_bits(sink, (l.multiplier_bits / 8 - 2) as u64, 3);
    sink.push(l.affine_present);
    sink.push(l.lane_present);
    sink.push(l.parity_present);
    proof {
        lemma_header_joined(
            before,
            low_bits((l.phase_bits / 4 - 3) as nat, 2),
            low_bits(affine as nat, 2),
            low_bits((l.shift_bits - 3) as nat, 2),
            low_bits((l.rotate_bits - 4) as nat, 2),
            low_bits((l.multiplier_bits / 8 - 2) as nat, 3),
            l.affine_present,
            l.lane_present,
            l.parity_present,
        );
    }
}

/// Parts that are written one after the other stand behind what was there.
proof fn lemma_header_joined(
    before: Seq<bool>,
    a: Seq<bool>,
    b: Seq<bool>,
    c: Seq<bool>,
    d: Seq<bool>,
    e: Seq<bool>,
    f: bool,
    g: bool,
    h: bool,
)
    ensures
        (before + a + b + c + d + e).push(f).push(g).push(h) == before + (a + b + c + d + e + flag(f)
            + flag(g) + flag(h)),
{
    assert((before + a + b + c + d + e).push(f).push(g).push(h) =~= before + (a + b + c + d + e
        + flag(f) + flag(g) + flag(h)));
}

fn gather_fields(signature: &TopologySignature) -> (f: StrictFields)
    requires
        signature.walsh_peaks@.len() > 0,
        signature.shift_scores@.len() > 0,
    ensures
        f == strict_fields(signature@),
        f.first_shift > 0,
        f.second_shift > 0,
{
    let ghost t = signature@;
    let p0: u64 = signature.walsh_peaks[0].index as u64;
    let p1: u64 = if signature.walsh_peaks.len() > 1 {
        signature.walsh_peaks[1].index as u64
    } else {
        p0
    };
    let s0: u64 = if signature.shift_scores[0].shift == 0 {
        1
    } else {
        signature.shift_scores[0].shift as u64
    };
    let s1: u64 = if signature.shift_scores.len() <= 1 {
        s0
    } else if signature.shift_scores[1].shift == 0 {
        1
    } else {
        signature.shift_scores[1].shift as u64
    };
    let changes: u64 = count_entries_of_one(
        &signature.derivative,
        0,
        signature.derivative.len(),
    ) as u64;
    assert(t.derivative.subrange(0, t.derivative.len() as int) =~= t.derivative);
    let density: u128 = measure_change_density(signature);
    proof {
        lemma_density_bound(t);
    }
    let total: u128 = sum_entries(&signature.popcnt_profile);
    let entries: usize = signature.popcnt_profile.len();
    let mean: u64 = if entries == 0 {
        0
    } else {
        proof {
            lemma_mean_bound(total as nat, entries as nat);
        }
        (total / (entries as u128)) as u64
    };
    let first: u64 = if entries == 0 {
        0
    } else {
        signature.popcnt_profile[0] as u64
    };
    StrictFields {
        phase: mix_feature_word(signature, p0 ^ s0 ^ first),
        affine: mix_feature_word(signature, p1 ^ s1 ^ mean ^ changes),
        first_shift: s0,
        second_shift: s1,
        first_peak: p0,
        second_peak: p1,
        multiplier: mix_feature_word(signature, s0 ^ s1 ^ p0 ^ ((8 * density) as u64)) | 1,
        changes,
    }
}

fn push_optional(sink: &mut BitSink, present: bool, value: u64, count: u8)
    requires
        old(sink).wf(),
    ensures
        final(sink).wf(),
        final(sink).bits() == old(sink).bits() + optional(
            present,
            low_bits(value as nat, count as nat),
        ),
{
    if present {
        push_bits(sink, value, count);
    } else {
        assert(sink.bits() =~= old(sink).bits() + Seq::<bool>::empty());
    }
}

fn push_body(sink: &mut BitSink, l: &StrictKeyLayout, f: &StrictFields)
    requires
        old(sink).wf(),
        f.first_shift > 0,
        f.second_shift > 0,
    ensures
        final(sink).wf(),
        final(sink).bits() == old(sink).bits() + body_bits(*l, *f),
{
    let ghost before = sink.bits();
    push_bits(sink, f.phase, l.phase_bits);
    let ghost b1 = low_bits(f.phase as nat, l.phase_bits as nat);
    push_optional(sink, l.affine_present, f.affine, l.affine_bits);
    let ghost a2 = optional(l.affine_present, low_bits(f.affine as nat, l.affine_bits as nat));
    push_bits(sink, f.first_shift - 1, l.shift_bits);
    let ghost a3 = low_bits((f.first_shift - 1) as nat, l.shift_bits as nat);
    push_bits(sink, f.second_shift - 1, l.shift_bits);
    let ghost a4 = low_bits((f.second_shift - 1) as nat, l.shift_bits as nat);
    push_bits(sink, f.first_peak, l.rotate_bits);
    let ghost a5 = low_bits(f.first_peak as nat, l.rotate_bits as nat);
    push_bits(sink, f.second_peak, l.rotate_bits);
    let ghost a6 = low_bits(f.second_peak as nat, l.rotate_bits as nat);
    push_optional(sink, l.lane_present, f.first_shift, l.lane_bits);
    let ghost a7 = optional(l.lane_present, low_bits(f.first_shift as nat, l.lane_bits as nat));
    push_bits(sink, f.multiplier, l.multiplier_bits);
    let ghost a8 = low_bits(f.multiplier as nat, l.multiplier_bits as nat);
    push_optional(sink, l.parity_present, f.changes, l.parity_bits);
    let ghost a9 = optional(l.parity_present, low_bits(f.changes as nat, l.parity_bits as nat));
    proof {
        lemma_regroup(before, b1, a2);
        lemma_regroup(before, b1 + a2, a3);
        lemma_regroup(before, b1 + a2 + a3, a4);
        lemma_regroup(before, b1 + a2 + a3 + a4, a5);
        lemma_regroup(before, b1 + a2 + a3 + a4 + a5, a6);
        lemma_regroup(before, b1 + a2 + a3 + a4 + a5 + a6, a7);
        lemma_regroup(before, b1 + a2 + a3 + a4 + a5 + a6 + a7, a8);
        lemma_regroup(before, b1 + a2 + a3 + a4 + a5 + a6 + a7 + a8, a9);
    }
}

/// Concatenations can be regrouped.
proof fn lemma_regroup(a: Seq<bool>, b: Seq<bool>, c: Seq<bool>)
    ensures
        a + b + c == a + (b + c),
{
    assert(a + b + c =~= a + (b + c));
}

/// At most every entry is a change.
proof fn lemma_density_bound(t: Topology)
    ensures
        change_density(t) <= 1024,
{
    let n = t.derivative.len();
    lemma_ones_bound(t.derivative);
    if n > 0 {
        let c = count_of_ones(t.derivative);
        vstd::arithmetic::div_mod::lemma_div_is_ordered(
            c as int * 1024,
            n as int * 1024,
            n as int,
        );
        vstd::arithmetic::div_mod::lemma_div_multiples_vanish(1024, n as int);
        assert(n as int * 1024 == 1024 * n as int);
    }
}

proof fn lemma_ones_bound(s: Seq<u8>)
    ensures
        count_of_ones(s) <= s.len(),
    decreases s.len(),
{
    if s.len() > 0 {
        lemma_ones_bound(s.drop_last());
    }
}

proof fn lemma_mean_bound(total: nat, n: nat)
    requires
        n > 0,
        total <= 255 * n,
    ensures
        total / n <= 255,
{
    vstd::arithmetic::div_mod::lemma_div_is_ordered(total as int, 255 * n as int, n as int);
    vstd::arithmetic::div_mod::lemma_div_multiples_vanish(255, n as int);
}

/// Compiles a signature into a key of variable length.
pub fn compile_strict_operator_key(signature: &TopologySignature, window_bits: usize) -> (r: Result<
    StrictOperatorKey,
    String,
>)
    ensures
        match r {
            Ok(key) => {
                &&& feature_fault(signature@, window_bits as nat) is None
                &&& key.bit_len == strict_bits(signature@).len()
                &&& key.bytes@ == packed_bits(strict_bits(signature@))
            },
            Err(e) => feature_fault(signature@, window_bits as nat) == Some(e@),
        },
{
    match check_features(signature, window_bits) {
        Ok(_) => {},
        Err(e) => return Err(e),
    }
    let layout = choose_layout(signature);
    let fields = gather_fields(signature);
    let mut sink = BitSink::new();
    push_header(&mut sink, &layout);
    push_body(&mut sink, &layout, &fields);
    proof {
        law_strict_key_len(signature@);
        assert(sink.bits() =~= strict_bits(signature@));
    }
    let width: u16 = key_width(&layout);
    Ok(StrictOperatorKey { bit_len: width, bytes: sink.finish() })
}

fn key_width(l: &StrictKeyLayout) -> (w: u16)
    ensures
        w == layout_width(*l),
{
    let lane: u16 = if l.lane_present {
        l.lane_bits as u16
    } else {
        0
    };
    let parity: u16 = if l.parity_present {
        l.parity_bits as u16
    } else {
        0
    };
    14 + l.phase_bits as u16 + l.affine_bits as u16 + 2 * l.shift_bits as u16 + 2
        * l.rotate_bits as u16 + lane + l.multiplier_bits as u16 + parity
}

/// How much a large window counts.
pub open spec fn window_factor(window_bits: nat) -> nat {
    if window_bits < 256 {
        0
    } else if window_bits < 512 {
        1
    } else if window_bits < 1024 {
        2
    } else {
        3
    }
}

/// The number of parity steps that suits a signature.
pub open spec fn strict_steps(t: Topology) -> nat {
    let d = dominance(t);
    let c = change_density(t);
    let s = coherence(t);
    let structured = d / 256 + s / 384 + window_factor(t.bit_len);
    let noisy = c / 320;
    if c >= 640 && d <= 704 {
        1
    } else if c >= 512 && s <= 640 {
        1
    } else if c >= 384 {
        2
    } else if structured <= noisy + 1 {
        1
    } else if structured >= noisy + 4 {
        4
    } else {
        (structured - noisy) as nat
    }
}

/// Chooses the number of parity steps.
pub fn compile_strict_operator_steps(signature: &TopologySignature, window_bits: usize) -> (r:
    Result<u8, String>)
    requires
        window_bits > 0 || feature_fault(signature@, window_bits as nat) is Some,
    ensures
        match r {
            Ok(steps) => feature_fault(signature@, window_bits as nat) is None && steps
                == strict_steps(signature@) && 1 <= steps <= 4,
            Err(e) => feature_fault(signature@, window_bits as nat) == Some(e@),
        },
{
    match check_features(signature, window_bits) {
        Ok(_) => {},
        Err(e) => return Err(e),
    }
    let d: u128 = measure_dominance(signature);
    let c: u128 = measure_change_density(signature);
    let s: u128 = measure_coherence(signature);
    let factor: u128 = if window_bits < 256 {
        0
    } else if window_bits < 512 {
        1
    } else if window_bits < 1024 {
        2
    } else {
        3
    };
    if c >= 640 && d <= 704 {
        return Ok(1);
    }
    if c >= 512 && s <= 640 {
        return Ok(1);
    }
    if c >= 384 {
        return Ok(2);
    }
    let structured: u128 = d / 256 + s / 384 + factor;
    let noisy: u128 = c / 320;
    if structured <= noisy + 1 {
        Ok(1)
    } else if structured >= noisy + 4 {
        Ok(4)
    } else {
        Ok((structured - noisy) as u8)
    }
}

/// The bits of a byte string.
pub open spec fn stream_bits(bytes: Seq<u8>, n: nat) -> Seq<bool> {
    Seq::new(n, |p: int| stream_bit(bytes, p))
}

/// The number in the `n` bits at `at`.
pub open spec fn field(bits: Seq<bool>, at: int, n: int) -> nat {
    bits_number(bits.subrange(at, at + n))
}

/// The layout that the header of a key describes.
pub open spec fn described(bits: Seq<bool>) -> StrictKeyLayout {
    let phase = field(bits, 0, 2);
    let affine_present = bits[11];
    let parity_present = bits[13];
    StrictKeyLayout {
        phase_bits: if phase >= 3 {
            24
        } else {
            (12 + 4 * phase) as u8
        },
        affine_bits: if affine_present {
            (8 * (field(bits, 2, 2) + 2)) as u8
        } else {
            0
        },
        shift_bits: (field(bits, 4, 2) + 3) as u8,
        rotate_bits: (field(bits, 6, 2) + 4) as u8,
        lane_bits: 6,
        multiplier_bits: (8 * (field(bits, 8, 3) + 2)) as u8,
        parity_bits: if parity_present {
            5
        } else {
            0
        },
        affine_present,
        lane_present: bits[12],
        parity_present,
    }
}

/// The bits behind the end of the key are not all zero.
pub open spec fn padding_set(bit_len: nat, bytes: Seq<u8>) -> bool {
    exists|p: int| bit_len <= p < 8 * bytes.len() && #[trigger] stream_bit(bytes, p)
}

/// The layout of a key.
pub open spec fn layout_of_key(bit_len: u16, bytes: Seq<u8>) -> Result<StrictKeyLayout, Seq<char>> {
    if bytes.len() != ceil_div(bit_len as nat, 8) {
        Err("strict operator K byte length is not canonical"@)
    } else if bit_len < 14 {
        Err("strict operator K is too short for the required header"@)
    } else if padding_set(bit_len as nat, bytes) {
        Err("strict operator K has non-canonical trailing padding bits"@)
    } else {
        let l = described(stream_bits(bytes, bit_len as nat));
        if layout_width(l) > bit_len {
            Err("strict operator K field widths exceed the declared key bit length"@)
        } else {
            Ok(l)
        }
    }
}

fn read_bit(bytes: &[u8], p: usize) -> (b: bool)
    requires
        p < 8 * bytes@.len(),
    ensures
        b == stream_bit(bytes@, p as int),
{
    let at: u8 = (p % 8) as u8;
    (bytes[p / 8] >> at) & 1 == 1
}

/// Reads the number in the bits at `at`.
fn read_bits(bytes: &[u8], at: usize, count: usize, Ghost(bits): Ghost<Seq<bool>>) -> (v: u8)
    requires
        count <= 3,
        at + count <= bits.len(),
        bits.len() <= 8 * bytes@.len(),
        bits.len() <= u16::MAX,
        bits == stream_bits(bytes@, bits.len()),
    ensures
        v == field(bits, at as int, count as int),
        v < 8,
{
    let mut v: u8 = 0;
    let mut k: usize = count;
    assert(bits.subrange(at + count, at + count) =~= Seq::empty());
    while k > 0
        invariant
            k <= count <= 3,
            at + count <= bits.len(),
            bits.len() <= 8 * bytes@.len(),
            bits.len() <= u16::MAX,
            bits == stream_bits(bytes@, bits.len()),
            v == bits_number(bits.subrange(at + k, at + count)),
            k == 3 ==> v < 1,
            k == 2 ==> v < 2,
            k == 1 ==> v < 4,
            k == 0 ==> v < 8,
        decreases k,
    {
        let ghost here = bits.subrange(at + k - 1, at + count);
        assert(here.skip(1) =~= bits.subrange(at + k, at + count));
        let bit: bool = read_bit(bytes, at + k - 1);
        assert(here[0] == bit);
        v = 2 * v + if bit {
            1
        } else {
            0
        };
        k = k - 1;
    }
    v
}

fn has_padding(bytes: &[u8], bit_len: u16) -> (r: bool)
    requires
        bit_len <= 8 * bytes@.len() < bit_len + 8,
    ensures
        r == padding_set(bit_len as nat, bytes@),
{
    let end: usize = 8 * bytes.len();
    let mut p: usize = bit_len as usize;
    while p < end
        invariant
            end == 8 * bytes@.len(),
            bit_len <= p <= end,
            forall|q: int| bit_len <= q < p ==> !#[trigger] stream_bit(bytes@, q),
        decreases end - p,
    {
        if read_bit(bytes, p) {
            return true;
        }
        p = p + 1;
    }
    false
}

/// Reads the layout of a key.
pub fn parse_strict_key_layout(bit_len: u16, bytes: &[u8]) -> (r: Result<StrictKeyLayout, String>)
    ensures
        outcome(r) == layout_of_key(bit_len, bytes@),
{
    let expected: usize = (bit_len as usize + 7) / 8;
    assert(expected == ceil_div(bit_len as nat, 8));
    if bytes.len() != expected {
        return Err("strict operator K byte length is not canonical".to_string());
    }
    if bit_len < 14 {
        return Err("strict operator K is too short for the required header".to_string());
    }
    if has_padding(bytes, bit_len) {
        return Err("strict operator K has non-canonical trailing padding bits".to_string());
    }
    let ghost bits = stream_bits(bytes@, bit_len as nat);
    let phase: u8 = read_bits(bytes, 0, 2, Ghost(bits));
    let affine: u8 = read_bits(bytes, 2, 2, Ghost(bits));
    let shift: u8 = read_bits(bytes, 4, 2, Ghost(bits));
    let rotate: u8 = read_bits(bytes, 6, 2, Ghost(bits));
    let multiplier: u8 = read_bits(bytes, 8, 3, Ghost(bits));
    let affine_present: bool = read_bit(bytes, 11);
    let lane_present: bool = read_bit(bytes, 12);
    let parity_present: bool = read_bit(bytes, 13);
    let l = StrictKeyLayout {
        phase_bits: if phase >= 3 {
            24
        } else {
            12 + 4 * phase
        },
        affine_bits: if affine_present {
            8 * (affine + 2)
        } else {
            0
        },
        shift_bits: shift + 3,
        rotate_bits: rotate + 4,
        lane_bits: 6,
        multiplier_bits: 8 * (multiplier + 2),
        parity_bits: if parity_present {
            5
        } else {
            0
        },
        affine_present,
        lane_present,
        parity_present,
    };
    assert(l == described(bits));
    if key_width(&l) > bit_len {
        return Err("strict operator K field widths exceed the declared key bit length".to_string());
    }
    Ok(l)
}

/// The layout as a reader sees it: a field that is not there has no width.
pub open spec fn effective(l: StrictKeyLayout) -> StrictKeyLayout {
    StrictKeyLayout {
        parity_bits: if l.parity_present {
            5
        } else {
            0
        },
        ..l
    }
}

/// A number of at most `n` bits is found where it was written.
proof fn lemma_field(bits: Seq<bool>, at: int, value: nat, n: nat)
    requires
        0 <= at,
        at + n <= bits.len(),
        bits.subrange(at, at + n) == low_bits(value, n),
        value < vstd::arithmetic::power2::pow2(n),
    ensures
        field(bits, at, n as int) == value,
{
    lemma_low_bits(value, n);
    vstd::arithmetic::div_mod::lemma_small_mod(value, vstd::arithmetic::power2::pow2(n));
}

/// Where the parts of a header stand.
proof fn lemma_header_parts(
    a: Seq<bool>,
    b: Seq<bool>,
    c: Seq<bool>,
    d: Seq<bool>,
    e: Seq<bool>,
    f: bool,
    g: bool,
    h: bool,
    tail: Seq<bool>,
)
    requires
        a.len() == 2,
        b.len() == 2,
        c.len() == 2,
        d.len() == 2,
        e.len() == 3,
    ensures
        ({
            let all = a + b + c + d + e + flag(f) + flag(g) + flag(h) + tail;
            &&& all.subrange(0, 2) == a
            &&& all.subrange(2, 4) == b
            &&& all.subrange(4, 6) == c
            &&& all.subrange(6, 8) == d
            &&& all.subrange(8, 11) == e
            &&& all[11] == f
            &&& all[12] == g
            &&& all[13] == h
        }),
{
    let all = a + b + c + d + e + flag(f) + flag(g) + flag(h) + tail;
    assert(all.subrange(0, 2) =~= a);
    assert(all.subrange(2, 4) =~= b);
    assert(all.subrange(4, 6) =~= c);
    assert(all.subrange(6, 8) =~= d);
    assert(all.subrange(8, 11) =~= e);
}

/// A header describes the layout it was made from.
proof fn lemma_described(t: Topology, tail: Seq<bool>)
    ensures
        described(header_bits(strict_layout(t)) + tail) == effective(strict_layout(t)),
{
    let l = strict_layout(t);
    let all = header_bits(l) + tail;
    vstd::arithmetic::power2::lemma2_to64();
    let phase = (l.phase_bits / 4 - 3) as nat;
    let affine = if l.affine_present {
        (l.affine_bits / 8 - 2) as nat
    } else {
        0
    };
    let shift = (l.shift_bits - 3) as nat;
    let rotate = (l.rotate_bits - 4) as nat;
    let multiplier = (l.multiplier_bits / 8 - 2) as nat;
    lemma_low_bits(phase, 2);
    lemma_low_bits(affine, 2);
    lemma_low_bits(shift, 2);
    lemma_low_bits(rotate, 2);
    lemma_low_bits(multiplier, 3);
    lemma_header_parts(
        low_bits(phase, 2),
        low_bits(affine, 2),
        low_bits(shift, 2),
        low_bits(rotate, 2),
        low_bits(multiplier, 3),
        l.affine_present,
        l.lane_present,
        l.parity_present,
        tail,
    );
    lemma_field(all, 0, phase, 2);
    lemma_field(all, 2, affine, 2);
    lemma_field(all, 4, shift, 2);
    lemma_field(all, 6, rotate, 2);
    lemma_field(all, 8, multiplier, 3);
}

/// Reading a compiled key gives the layout it was compiled with, and the key
/// has no bit too many.
pub proof fn law_strict_key_roundtrip(t: Topology)
    ensures
        layout_of_key(
            strict_bits(t).len() as u16,
            packed_bits(strict_bits(t)),
        ) == Ok::<StrictKeyLayout, Seq<char>>(effective(strict_layout(t))),
        layout_width(effective(strict_layout(t))) == strict_bits(t).len(),
{
    law_strict_key_len(t);
    let l = strict_layout(t);
    let tail = body_bits(l, strict_fields(t));
    let all = strict_bits(t);
    let n = all.len();
    let bytes = packed_bits(all);
    assert forall|p: int| 0 <= p < 8 * bytes.len() implies #[trigger] stream_bit(bytes, p) == (p < n
        && all[p]) by {
        lemma_packed_bit(all, p);
    }
    assert(stream_bits(bytes, n) =~= all);
    lemma_described(t, tail);
}

/// Where the parts of a key stand.
proof fn lemma_key_parts(
    head: Seq<bool>,
    p: Seq<bool>,
    a: Seq<bool>,
    s: Seq<bool>,
    t: Seq<bool>,
    q: Seq<bool>,
    r: Seq<bool>,
    n: Seq<bool>,
    m: Seq<bool>,
    c: Seq<bool>,
)
    ensures
        ({
            let all = head + (p + a + s + t + q + r + n + m + c);
            let i1 = head.len() as int;
            let i2 = i1 + p.len();
            let i3 = i2 + a.len();
            let i4 = i3 + s.len();
            let i5 = i4 + t.len();
            let i6 = i5 + q.len();
            let i7 = i6 + r.len();
            let i8 = i7 + n.len();
            let i9 = i8 + m.len();
            &&& all.len() == i9 + c.len()
            &&& all.subrange(i1, i2) == p
            &&& all.subrange(i2, i3) == a
            &&& all.subrange(i3, i4) == s
            &&& all.subrange(i4, i5) == t
            &&& all.subrange(i5, i6) == q
            &&& all.subrange(i6, i7) == r
            &&& all.subrange(i7, i8) == n
            &&& all.subrange(i8, i9) == m
            &&& all.subrange(i9, i9 + c.len()) == c
        }),
{
    let all = head + (p + a + s + t + q + r + n + m + c);
    let i1 = head.len() as int;
    let i2 = i1 + p.len();
    let i3 = i2 + a.len();
    let i4 = i3 + s.len();
    let i5 = i4 + t.len();
    let i6 = i5 + q.len();
    let i7 = i6 + r.len();
    let i8 = i7 + n.len();
    let i9 = i8 + m.len();
    assert(all.subrange(i1, i2) =~= p);
    assert(all.subrange(i2, i3) =~= a);
    assert(all.subrange(i3, i4) =~= s);
    assert(all.subrange(i4, i5) =~= t);
    assert(all.subrange(i5, i6) =~= q);
    assert(all.subrange(i6, i7) =~= r);
    assert(all.subrange(i7, i8) =~= n);
    assert(all.subrange(i8, i9) =~= m);
    assert(all.subrange(i9, i9 + c.len()) =~= c);
}

/// Behind its fourteen bits of layout a key tells, one after the other and each
/// as far as its field is wide: the phase, the affine word where it has one, the
/// two best shifts less one, the places of the two strongest coefficients, the
/// best shift again where it has lanes, the multiplier, and the changes where it
/// has a parity.
pub proof fn law_strict_key_tells_fields(t: Topology)
    requires
        t.walsh_peaks.len() >= 2,
        t.shift_scores.len() >= 2,
        t.shift_scores[0].shift >= 1,
        t.shift_scores[1].shift >= 1,
    ensures
        ({
            let (l, key, f) = (strict_layout(t), strict_bits(t), strict_fields(t));
            let (w, v) = (l.shift_bits as int, l.rotate_bits as int);
            let i2 = 14 + l.phase_bits as int;
            let i3 = i2 + l.affine_bits;
            let i7 = i3 + 2 * w + 2 * v;
            let i8 = i7 + if l.lane_present {
                6int
            } else {
                0
            };
            let i9 = i8 + l.multiplier_bits;
            &&& field(key, 14, l.phase_bits as int) == f.phase as nat % pow2(l.phase_bits as nat)
            &&& field(key, i2, l.affine_bits as int) == f.affine as nat % pow2(
                l.affine_bits as nat,
            )
            &&& field(key, i3, w) == (t.shift_scores[0].shift - 1) % pow2(w as nat) as int
            &&& field(key, i3 + w, w) == (t.shift_scores[1].shift - 1) % pow2(w as nat) as int
            &&& field(key, i3 + 2 * w, v) == t.walsh_peaks[0].index as int % pow2(v as nat) as int
            &&& field(key, i3 + 2 * w + v, v) == t.walsh_peaks[1].index as int % pow2(
                v as nat,
            ) as int
            &&& l.lane_present ==> field(key, i7, 6) == t.shift_scores[0].shift % 64
            &&& field(key, i8, l.multiplier_bits as int) == f.multiplier as nat % pow2(
                l.multiplier_bits as nat,
            )
            &&& l.parity_present ==> field(key, i9, 5) == f.changes % 32
            &&& key.len() == i9 + if l.parity_present {
                5int
            } else {
                0
            }
        }),
{
    let (l, key, f) = (strict_layout(t), strict_bits(t), strict_fields(t));
    assert forall|v: nat, n: nat| #[trigger] low_bits(v, n).len() == n && bits_number(
        low_bits(v, n),
    ) == v % vstd::arithmetic::power2::pow2(n) by {
        lemma_low_bits(v, n);
    }
    vstd::arithmetic::power2::lemma2_to64();
    law_strict_key_len(t);
    let p = low_bits(f.phase as nat, l.phase_bits as nat);
    let a = optional(l.affine_present, low_bits(f.affine as nat, l.affine_bits as nat));
    let s = low_bits((f.first_shift - 1) as nat, l.shift_bits as nat);
    let u = low_bits((f.second_shift - 1) as nat, l.shift_bits as nat);
    let q = low_bits(f.first_peak as nat, l.rotate_bits as nat);
    let r = low_bits(f.second_peak as nat, l.rotate_bits as nat);
    let n = optional(l.lane_present, low_bits(f.first_shift as nat, l.lane_bits as nat));
    let m = low_bits(f.multiplier as nat, l.multiplier_bits as nat);
    let c = optional(l.parity_present, low_bits(f.changes as nat, l.parity_bits as nat));
    lemma_key_parts(header_bits(l), p, a, s, u, q, r, n, m, c);
    assert(key == header_bits(l) + (p + a + s + u + q + r + n + m + c));
    assert(a.len() == l.affine_bits);
    assert(bits_number(Seq::<bool>::empty()) == 0);
}

/// The widths of a key follow from three ratios: how much of the strongest
/// coefficients the first one holds, how often neighbouring bits differ, and how
/// many bits agree at the best shift.
pub proof fn law_strict_layout(t: Topology)
    requires
        crate::kernel::compile::total_strength(t.walsh_peaks) > 0,
        t.derivative.len() > 0,
        t.bit_len > 0,
    ensures
        ({
            let l = strict_layout(t);
            let (first, total) = (
                1024 * strength(t.walsh_peaks[0]),
                crate::kernel::compile::total_strength(t.walsh_peaks),
            );
            let (changes, n) = (1024 * count_of_ones(t.derivative), t.derivative.len());
            let (agree, m) = (1024 * t.shift_scores[0].matching_bits, t.bit_len);
            &&& l.phase_bits == 24 <==> first >= 768 * total
            &&& l.phase_bits == 12 <==> first < 512 * total
            &&& l.phase_bits == 12 || l.phase_bits == 16 || l.phase_bits == 24
            &&& l.rotate_bits == 6 <==> first >= 640 * total
            &&& l.rotate_bits == 5 <==> first < 640 * total
            &&& l.affine_present <==> changes >= 448 * n
            &&& l.affine_bits == 24 <==> changes >= 448 * n && agree >= 704 * m
            &&& l.affine_bits == 16 <==> changes >= 448 * n && agree < 704 * m
            &&& l.affine_bits == 0 <==> changes < 448 * n
            &&& l.multiplier_bits == 32 <==> changes >= 640 * n
            &&& l.multiplier_bits == 24 <==> changes < 640 * n && agree >= 640 * m
            &&& l.multiplier_bits == 16 <==> changes < 640 * n && agree < 640 * m
            &&& l.lane_present <==> m >= 128 && agree >= 384 * m
            &&& l.parity_present <==> changes >= 256 * n
            &&& l.shift_bits == 6 <==> m >= 16384
            &&& l.shift_bits == 4 <==> m < 4096
            &&& 4 <= l.shift_bits <= 6
        }),
{
    let total = crate::kernel::compile::total_strength(t.walsh_peaks);
    let first = strength(t.walsh_peaks[0]);
    let changes = count_of_ones(t.derivative);
    let matching = t.shift_scores[0].matching_bits as nat;
    lemma_per_1024(first, total, 768);
    lemma_per_1024(first, total, 640);
    lemma_per_1024(first, total, 512);
    lemma_per_1024(changes, t.derivative.len(), 448);
    lemma_per_1024(changes, t.derivative.len(), 640);
    lemma_per_1024(changes, t.derivative.len(), 256);
    lemma_per_1024(matching, t.bit_len, 704);
    lemma_per_1024(matching, t.bit_len, 640);
    lemma_per_1024(matching, t.bit_len, 384);
}

/// Under different salts the same features give different words.
pub proof fn law_salts_are_told_apart(t: Topology, a: u64, b: u64)
    requires
        feature_word(t, a) == feature_word(t, b),
    ensures
        a == b,
{
    let c = 0x9E37_79B9_7F4A_7C15u64;
    let f = parity_fold(t.derivative, ceil_div(t.derivative.len(), 64)) ^ profile_fold(
        t.popcnt_profile,
    ) ^ peak_fold(t.walsh_peaks);
    let (x, y) = (a.wrapping_mul(c), b.wrapping_mul(c));
    law_avalanche_tells_words(f ^ x, f ^ y);
    lemma_xor_injective(x, y, f);
    crate::kernel::invert::law_odd_product_is_undone(a, c);
    crate::kernel::invert::law_odd_product_is_undone(b, c);
}

} // verus!
