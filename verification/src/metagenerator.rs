//! A compact descriptor of a run of words: the three strongest peaks of the
//! spectrum of their bit counts, packed into one 64-bit constant.
//!
//! From the lowest bit up the constant holds three indices of 13 bits, three
//! scaled amplitudes of 5 bits, three signs, the number of peaks less one in
//! 2 bits, the binary logarithm of the window in 4 bits, and a spare bit.
use vstd::prelude::*;
use vstd::arithmetic::power2::{is_pow2, lemma2_to64, lemma_pow2_unfold, pow2};
use crate::fwht::{
    distance, fwht_inplace, goes_before, ints, is_listed, law_ranking_of_spectrum, lemma_wht_bound,
    magnitude, rank_spectrum, strongest, walsh_sum, wht,
};
use crate::words::{count_ones, is_power_of_two, ones};

verus! {

/// How many peaks the constant holds at most.
pub const MAX_PEAKS: usize = 3;

/// The packed constant.
#[derive(Clone, Copy, Debug, Eq, PartialEq, Structural)]
pub struct MetaK {
    pub raw: u64,
}

/// One peak.
#[derive(Clone, Copy, Debug, Eq, PartialEq, Structural)]
pub struct WalshPeak {
    pub index: u16,
    pub amplitude: i64,
}

/// The strength of an amplitude.
pub open spec fn strength(amplitude: i64) -> nat {
    (if amplitude < 0 {
        -amplitude
    } else {
        amplitude as int
    }) as nat
}

/// The greatest strength among the first `n` peaks, at least one.
pub open spec fn top_strength(peaks: Seq<WalshPeak>, n: nat) -> nat
    decreases n,
{
    if n == 0 {
        1
    } else {
        let top = top_strength(peaks, (n - 1) as nat);
        let own = strength(peaks[n - 1].amplitude);
        if own > top {
            own
        } else {
            top
        }
    }
}

/// How many of the peaks are packed.
pub open spec fn packed_count(peaks: Seq<WalshPeak>) -> nat {
    if peaks.len() < 3 {
        peaks.len()
    } else {
        3
    }
}

/// The amplitude of peak `i` on a scale from 0 to 31.
pub open spec fn scaled(peaks: Seq<WalshPeak>, i: int) -> nat {
    strength(peaks[i].amplitude) * 31 / top_strength(peaks, packed_count(peaks))
}

/// The index field of peak `i`.
pub open spec fn index_field(peaks: Seq<WalshPeak>, i: int) -> u64 {
    if i < packed_count(peaks) {
        (peaks[i].index % 8192) as u64
    } else {
        0
    }
}

/// The amplitude field of peak `i`.
pub open spec fn amplitude_field(peaks: Seq<WalshPeak>, i: int) -> u64 {
    if i < packed_count(peaks) {
        scaled(peaks, i) as u64
    } else {
        0
    }
}

/// The sign field of peak `i`.
pub open spec fn sign_field(peaks: Seq<WalshPeak>, i: int) -> u64 {
    if i < packed_count(peaks) && peaks[i].amplitude < 0 {
        1
    } else {
        0
    }
}

/// The field that tells how many peaks there are.
pub open spec fn count_field(peaks: Seq<WalshPeak>) -> u64 {
    if peaks.len() == 0 {
        0
    } else {
        (packed_count(peaks) - 1) as u64
    }
}

/// The constant that holds the peaks and the window.
pub open spec fn packed(peaks: Seq<WalshPeak>, block_log2: u8) -> u64 {
    index_field(peaks, 0) | (index_field(peaks, 1) << 13) | (index_field(peaks, 2) << 26) | (
    amplitude_field(peaks, 0) << 39) | (amplitude_field(peaks, 1) << 44) | (amplitude_field(peaks, 2)
        << 49) | (sign_field(peaks, 0) << 54) | (sign_field(peaks, 1) << 55) | (sign_field(peaks, 2)
        << 56) | (count_field(peaks) << 57) | ((block_log2 as u64) << 59)
}

/// Peak `i` of a constant.
pub open spec fn unpacked_peak(raw: u64, i: int) -> WalshPeak {
    let index = (raw >> ((13 * i) as u64)) & 0x1FFF;
    let amplitude = (raw >> ((39 + 5 * i) as u64)) & 0x1F;
    let negative = (raw >> ((54 + i) as u64)) & 1 == 1;
    WalshPeak {
        index: index as u16,
        amplitude: if negative {
            (-(amplitude as int)) as i64
        } else {
            amplitude as i64
        },
    }
}

/// The peaks of a constant.
pub open spec fn unpacked_peaks(raw: u64) -> Seq<WalshPeak> {
    Seq::new((((raw >> 57) & 3) + 1) as nat, |i: int| unpacked_peak(raw, i))
}

/// The binary logarithm of the window.
pub open spec fn log2_field(raw: u64) -> u8 {
    ((raw >> 59) & 0xF) as u8
}

proof fn lemma_top_strength(peaks: Seq<WalshPeak>, n: nat, i: int)
    requires
        0 <= i < n,
    ensures
        strength(peaks[i].amplitude) <= top_strength(peaks, n),
    decreases n,
{
    if i < n - 1 {
        lemma_top_strength(peaks, (n - 1) as nat, i);
    }
}

proof fn lemma_top_positive(peaks: Seq<WalshPeak>, n: nat)
    ensures
        1 <= top_strength(peaks, n),
    decreases n,
{
    if n > 0 {
        lemma_top_positive(peaks, (n - 1) as nat);
    }
}

/// A scaled amplitude is at most 31.
proof fn lemma_scaled(peaks: Seq<WalshPeak>, i: int)
    requires
        0 <= i < packed_count(peaks),
    ensures
        scaled(peaks, i) <= 31,
        top_strength(peaks, packed_count(peaks)) >= 1,
{
    let top = top_strength(peaks, packed_count(peaks)) as int;
    let own = strength(peaks[i].amplitude) as int;
    lemma_top_positive(peaks, packed_count(peaks));
    lemma_top_strength(peaks, packed_count(peaks), i);
    vstd::arithmetic::div_mod::lemma_div_is_ordered(own * 31, 31 * top, top);
    vstd::arithmetic::div_mod::lemma_div_multiples_vanish(31, top);
}

fn greatest_strength(peaks: &[WalshPeak], n: usize) -> (top: u64)
    requires
        n <= peaks@.len(),
    ensures
        top == top_strength(peaks@, n as nat),
{
    let mut top: u64 = 1;
    for i in 0..n
        invariant
            n <= peaks@.len(),
            top == top_strength(peaks@, i as nat),
    {
        let own: u64 = magnitude(peaks[i].amplitude);
        if own > top {
            top = own;
        }
    }
    top
}

fn scale_amplitude(amplitude: i64, top: u64) -> (s: u64)
    requires
        top >= 1,
        strength(amplitude) * 31 / top as nat <= 31,
    ensures
        s == strength(amplitude) * 31 / top as nat,
{
    (magnitude(amplitude) as u128 * 31 / top as u128) as u64
}

/// The three fields of one peak.
fn peak_fields(peaks: &[WalshPeak], i: usize, count: usize, top: u64) -> (f: (u64, u64, u64))
    requires
        count == packed_count(peaks@),
        top == top_strength(peaks@, count as nat),
    ensures
        f.0 == index_field(peaks@, i as int),
        f.1 == amplitude_field(peaks@, i as int),
        f.2 == sign_field(peaks@, i as int),
{
    if i >= count {
        return (0, 0, 0);
    }
    proof {
        lemma_scaled(peaks@, i as int);
    }
    let p = peaks[i];
    let amplitude: u64 = scale_amplitude(p.amplitude, top);
    let sign: u64 = if p.amplitude < 0 {
        1
    } else {
        0
    };
    ((p.index % 8192) as u64, amplitude, sign)
}

impl MetaK {
    /// Packs up to three peaks and the window.
    pub fn pack(peaks: &[WalshPeak], block_log2: u8) -> (k: Self)
        requires
            6 <= block_log2 <= 12,
        ensures
            k.raw == packed(peaks@, block_log2),
    {
        let count: usize = if peaks.len() < MAX_PEAKS {
            peaks.len()
        } else {
            MAX_PEAKS
        };
        let top: u64 = greatest_strength(peaks, count);
        let (i0, a0, s0) = peak_fields(peaks, 0, count, top);
        let (i1, a1, s1) = peak_fields(peaks, 1, count, top);
        let (i2, a2, s2) = peak_fields(peaks, 2, count, top);
        let n: u64 = if count == 0 {
            0
        } else {
            (count - 1) as u64
        };
        let log2: u64 = block_log2 as u64;
        MetaK {
            raw: i0 | (i1 << 13) | (i2 << 26) | (a0 << 39) | (a1 << 44) | (a2 << 49) | (s0 << 54)
                | (s1 << 55) | (s2 << 56) | (n << 57) | (log2 << 59),
        }
    }

    /// Unpacks the peaks and the window.
    pub fn unpack(self) -> (r: (Vec<WalshPeak>, u8))
        requires
            (self.raw >> 57) & 3 < 3,
        ensures
            r.0@ == unpacked_peaks(self.raw),
            r.1 == log2_field(self.raw),
    {
        let raw: u64 = self.raw;
        let count: u64 = ((raw >> 57) & 3) + 1;
        let mut peaks: Vec<WalshPeak> = Vec::new();
        for i in 0..count
            invariant
                raw == self.raw,
                count == ((raw >> 57) & 3) + 1,
                count <= 3,
                peaks@ == unpacked_peaks(raw).take(i as int),
        {
            let index: u64 = (raw >> (13 * i)) & 0x1FFF;
            let amplitude: u64 = (raw >> (39 + 5 * i)) & 0x1F;
            proof {
                lemma_field_bounds(raw >> (13 * i), raw >> (39 + 5 * i));
            }
            let negative: bool = (raw >> (54 + i)) & 1 == 1;
            peaks.push(
                WalshPeak {
                    index: index as u16,
                    amplitude: if negative {
                        -(amplitude as i64)
                    } else {
                        amplitude as i64
                    },
                },
            );
            assert(peaks@ =~= unpacked_peaks(raw).take(i + 1));
        }
        assert(peaks@ =~= unpacked_peaks(raw));
        (peaks, ((raw >> 59) & 0xF) as u8)
    }

    /// The index of the first peak.
    pub fn primary_walsh_index(&self) -> (index: u16)
        ensures
            index == unpacked_peak(self.raw, 0).index,
    {
        let raw: u64 = self.raw;
        assert(raw >> 0 == raw) by (bit_vector);
        (raw & 0x1FFF) as u16
    }

    /// The size of the window in bits.
    pub fn window_bits(&self) -> (bits: usize)
        ensures
            bits == pow2(log2_field(self.raw) as nat),
            bits <= 0x8000,
    {
        let log2: u8 = ((self.raw >> 59) & 0xF) as u8;
        proof {
            lemma_log2_bound(self.raw);
            lemma2_to64();
        }
        let mut bits: usize = 1;
        for i in 0..log2
            invariant
                log2 < 16,
                bits == pow2(i as nat),
                bits <= 0x8000,
        {
            proof {
                lemma_pow2_unfold((i + 1) as nat);
                lemma2_to64();
                lemma_pow2_monotonic((i + 1) as nat, 15);
            }
            bits = bits * 2;
        }
        bits
    }
}

proof fn lemma_pow2_monotonic(a: nat, b: nat)
    requires
        a <= b,
    ensures
        pow2(a) <= pow2(b),
{
    if a < b {
        vstd::arithmetic::power2::lemma_pow2_strictly_increases(a, b);
    }
}

proof fn lemma_field_bounds(a: u64, b: u64)
    ensures
        a & 0x1FFF < 0x2000,
        b & 0x1F < 0x20,
{
    assert(a & 0x1FFF < 0x2000 && b & 0x1F < 0x20) by (bit_vector);
}

proof fn lemma_log2_bound(raw: u64)
    ensures
        (raw >> 59) & 0xF < 16,
{
    assert((raw >> 59) & 0xF < 16) by (bit_vector);
}

/// Every field is found where it was packed.
proof fn lemma_fields(
    i0: u64,
    i1: u64,
    i2: u64,
    a0: u64,
    a1: u64,
    a2: u64,
    s0: u64,
    s1: u64,
    s2: u64,
    n: u64,
    l: u64,
)
    requires
        i0 < 8192,
        i1 < 8192,
        i2 < 8192,
        a0 < 32,
        a1 < 32,
        a2 < 32,
        s0 < 2,
        s1 < 2,
        s2 < 2,
        n < 4,
        l < 16,
    ensures
        ({
            let raw = i0 | (i1 << 13) | (i2 << 26) | (a0 << 39) | (a1 << 44) | (a2 << 49) | (s0
                << 54) | (s1 << 55) | (s2 << 56) | (n << 57) | (l << 59);
            &&& (raw >> 0) & 0x1FFF == i0
            &&& (raw >> 13) & 0x1FFF == i1
            &&& (raw >> 26) & 0x1FFF == i2
            &&& (raw >> 39) & 0x1F == a0
            &&& (raw >> 44) & 0x1F == a1
            &&& (raw >> 49) & 0x1F == a2
            &&& (raw >> 54) & 1 == s0
            &&& (raw >> 55) & 1 == s1
            &&& (raw >> 56) & 1 == s2
            &&& (raw >> 57) & 3 == n
            &&& (raw >> 59) & 0xF == l
        }),
{
    let raw = i0 | (i1 << 13) | (i2 << 26) | (a0 << 39) | (a1 << 44) | (a2 << 49) | (s0 << 54) | (s1
        << 55) | (s2 << 56) | (n << 57) | (l << 59);
    assert((raw >> 0) & 0x1FFF == i0 && (raw >> 13) & 0x1FFF == i1 && (raw >> 26) & 0x1FFF == i2
        && (raw >> 39) & 0x1F == a0 && (raw >> 44) & 0x1F == a1 && (raw >> 49) & 0x1F == a2 && (raw
        >> 54) & 1 == s0 && (raw >> 55) & 1 == s1 && (raw >> 56) & 1 == s2 && (raw >> 57) & 3 == n
        && (raw >> 59) & 0xF == l) by (bit_vector)
        requires
            raw == i0 | (i1 << 13) | (i2 << 26) | (a0 << 39) | (a1 << 44) | (a2 << 49) | (s0 << 54)
                | (s1 << 55) | (s2 << 56) | (n << 57) | (l << 59),
            i0 < 8192,
            i1 < 8192,
            i2 < 8192,
            a0 < 32,
            a1 < 32,
            a2 < 32,
            s0 < 2,
            s1 < 2,
            s2 < 2,
            n < 4,
            l < 16,
    ;
}

/// A peak as a reader of the constant sees it: the amplitude on a scale from 0
/// to 31, with its sign.
pub open spec fn coarse(peaks: Seq<WalshPeak>, i: int) -> WalshPeak {
    WalshPeak {
        index: peaks[i].index % 8192,
        amplitude: if peaks[i].amplitude < 0 {
            -(scaled(peaks, i) as int) as i64
        } else {
            scaled(peaks, i) as i64
        },
    }
}

/// Unpacking gives back the packed peaks with their coarse amplitudes, and the
/// window.
pub proof fn law_pack_roundtrip(peaks: Seq<WalshPeak>, block_log2: u8)
    requires
        1 <= peaks.len(),
        block_log2 < 16,
    ensures
        unpacked_peaks(packed(peaks, block_log2)).len() == packed_count(peaks),
        forall|i: int|
            0 <= i < packed_count(peaks) ==> #[trigger] unpacked_peaks(
                packed(peaks, block_log2),
            )[i] == coarse(peaks, i),
        log2_field(packed(peaks, block_log2)) == block_log2,
{
    let raw = packed(peaks, block_log2);
    let n = packed_count(peaks);
    if 0 < n {
        lemma_scaled(peaks, 0);
    }
    if 1 < n {
        lemma_scaled(peaks, 1);
    }
    if 2 < n {
        lemma_scaled(peaks, 2);
    }
    lemma_fields(
        index_field(peaks, 0),
        index_field(peaks, 1),
        index_field(peaks, 2),
        amplitude_field(peaks, 0),
        amplitude_field(peaks, 1),
        amplitude_field(peaks, 2),
        sign_field(peaks, 0),
        sign_field(peaks, 1),
        sign_field(peaks, 2),
        count_field(peaks),
        block_log2 as u64,
    );
    assert forall|i: int| 0 <= i < n implies #[trigger] unpacked_peaks(raw)[i] == coarse(
        peaks,
        i,
    ) by {
        assert(i == 0 || i == 1 || i == 2);
    }
}

/// The bit counts of words.
pub open spec fn bit_counts(words: Seq<u64>) -> Seq<int> {
    words.map_values(|w: u64| ones(w as nat) as int)
}

/// The spectrum of the bit counts of words.
pub fn walsh_spectrum(words: &[u64]) -> (spectrum: Vec<i64>)
    requires
        words@.len() == 0 || is_pow2(words@.len() as int),
        64 * words@.len() <= i64::MAX,
    ensures
        ints(spectrum@) == wht(bit_counts(words@)),
        spectrum@.len() == words@.len(),
{
    let n: usize = words.len();
    let mut f: Vec<i64> = Vec::new();
    for i in 0..n
        invariant
            n == words@.len(),
            ints(f@) == bit_counts(words@.take(i as int)),
            f@.len() == i,
    {
        let ghost before = f@;
        let count: u32 = count_ones(words[i]);
        f.push(count as i64);
        assert(f@[i as int] == ones(words@[i as int] as nat));
        assert(ints(f@) =~= ints(before).push(f@[i as int] as int));
        assert(words@.take(i + 1) =~= words@.take(i as int).push(words@[i as int]));
        assert(bit_counts(words@.take(i + 1)) =~= bit_counts(words@.take(i as int)).push(
            ones(words@[i as int] as nat) as int,
        ));
    }
    assert(words@.take(n as int) =~= words@);
    if n == 0 {
        return f;
    }
    proof {
        let x = ints(f@);
        assert forall|k: int| 0 <= k < x.len() implies -64 <= #[trigger] x[k] <= 64 by {
            crate::words::lemma_ones_u64(words@[k]);
        }
        lemma_wht_bound(x, 64);
    }
    fwht_inplace(&mut f);
    f
}

/// The index that fits its field.
pub open spec fn short_index(i: int) -> u16 {
    if i > 0x1FFF {
        0x1FFF
    } else {
        i as u16
    }
}

/// How many peaks are taken of a spectrum.
pub open spec fn peak_count(n: nat) -> nat {
    if n <= 1 {
        n
    } else if n <= 3 {
        (n - 1) as nat
    } else {
        3
    }
}

/// The strongest coefficients but the first, at most three; the first only
/// where there is no other.
pub open spec fn peaks_of(spectrum: Seq<int>) -> Seq<WalshPeak> {
    if spectrum.len() <= 1 {
        Seq::new(spectrum.len(), |p: int| WalshPeak { index: 0, amplitude: spectrum[p] as i64 })
    } else {
        let order = strongest(spectrum.skip(1));
        Seq::new(
            peak_count(spectrum.len()),
            |p: int| WalshPeak { index: short_index(order[p].0 + 1), amplitude: order[p].1 },
        )
    }
}

/// Finds the strongest coefficients.
pub fn find_peaks(spectrum: &[i64]) -> (peaks: Vec<WalshPeak>)
    ensures
        peaks@ == peaks_of(ints(spectrum@)),
{
    let n: usize = spectrum.len();
    let mut peaks: Vec<WalshPeak> = Vec::new();
    if n == 0 {
        assert(peaks@ =~= peaks_of(ints(spectrum@)));
        return peaks;
    }
    if n == 1 {
        peaks.push(WalshPeak { index: 0, amplitude: spectrum[0] });
        assert(peaks@ =~= peaks_of(ints(spectrum@)));
        return peaks;
    }
    let tail = vstd::slice::slice_to_vec(vstd::slice::slice_subrange(spectrum, 1, n));
    assert(ints(tail@) =~= ints(spectrum@).skip(1));
    let order = rank_spectrum(&tail);
    let count: usize = if n <= 3 {
        n - 1
    } else {
        3
    };
    for p in 0..count
        invariant
            count == peak_count(spectrum@.len()),
            spectrum.len() > 1,
            order@ == strongest(ints(spectrum@).skip(1)),
            order@.len() == spectrum.len() - 1,
            order.len() == spectrum.len() - 1,
            peaks@ == peaks_of(ints(spectrum@)).take(p as int),
    {
        let (at, amplitude) = order[p];
        let index: u16 = if at >= 0x1FFF {
            0x1FFF
        } else {
            (at + 1) as u16
        };
        peaks.push(WalshPeak { index, amplitude });
        assert(peaks@ =~= peaks_of(ints(spectrum@)).take(p + 1));
    }
    assert(peaks@ =~= peaks_of(ints(spectrum@)));
    peaks
}

/// The constant that describes words.
pub open spec fn meta_k(words: Seq<u64>, block_log2: u8) -> u64 {
    packed(peaks_of(wht(bit_counts(words))), block_log2)
}

/// Derives the constant that describes words; there is one exactly where the
/// number of words is a power of two.
pub fn derive_meta_k(words: &[u64], block_log2: u8) -> (r: Option<MetaK>)
    requires
        is_pow2(words@.len() as int) ==> 6 <= block_log2 <= 12,
        64 * words@.len() <= i64::MAX,
    ensures
        match r {
            Some(k) => is_pow2(words@.len() as int) && k.raw == meta_k(words@, block_log2),
            None => !is_pow2(words@.len() as int),
        },
{
    if !is_power_of_two(words.len()) {
        return None;
    }
    let spectrum = walsh_spectrum(words);
    let peaks = find_peaks(spectrum.as_slice());
    Some(MetaK::pack(peaks.as_slice(), block_log2))
}

/// The peaks of a spectrum are its strongest coefficients but the first: three
/// where there are so many, each with the coefficient at its place, by falling
/// absolute value and lower places first among equals. Every coefficient that
/// is left out goes behind all of them. Gives the places of the peaks.
pub proof fn law_peaks_are_strongest(spectrum: Seq<int>) -> (places: Seq<int>)
    requires
        2 <= spectrum.len() <= usize::MAX,
        forall|i: int|
            0 <= i < spectrum.len() ==> i64::MIN <= #[trigger] spectrum[i] <= i64::MAX,
    ensures
        places.len() == peaks_of(spectrum).len(),
        places.len() == (if spectrum.len() <= 3 {
            spectrum.len() - 1
        } else {
            3
        }),
        forall|p: int|
            0 <= p < places.len() ==> {
                let peak = #[trigger] peaks_of(spectrum)[p];
                &&& 1 <= places[p] < spectrum.len()
                &&& peak.amplitude == spectrum[places[p]]
                &&& peak.index == (if places[p] < 8192 {
                    places[p]
                } else {
                    8191
                })
            },
        forall|p: int, q: int|
            0 <= p < q < places.len() ==> goes_before(
                spectrum[#[trigger] places[p]],
                places[p],
                spectrum[#[trigger] places[q]],
                places[q],
            ),
        forall|i: int, p: int|
            1 <= i < spectrum.len() && !places.contains(i) && 0 <= p < places.len()
                ==> goes_before(
                spectrum[#[trigger] places[p]],
                places[p],
                #[trigger] spectrum[i],
                i,
            ),
{
    let tail = spectrum.skip(1);
    let order = strongest(tail);
    assert forall|i: int| 0 <= i < tail.len() implies i64::MIN <= #[trigger] tail[i]
        <= i64::MAX by {
        assert(tail[i] == spectrum[i + 1]);
    }
    law_ranking_of_spectrum(tail);
    let places = Seq::new(peak_count(spectrum.len()), |p: int| order[p].0 + 1);
    assert forall|p: int, q: int| 0 <= p < q < order.len() implies goes_before(
        spectrum[(#[trigger] order[p]).0 + 1],
        order[p].0 + 1,
        spectrum[(#[trigger] order[q]).0 + 1],
        order[q].0 + 1,
    ) by {
        assert(order[p].1 == tail[order[p].0 as int]);
        assert(order[q].1 == tail[order[q].0 as int]);
    }
    assert forall|i: int, p: int|
        1 <= i < spectrum.len() && !places.contains(i) && 0 <= p < places.len() implies goes_before(
        spectrum[#[trigger] places[p]],
        places[p],
        #[trigger] spectrum[i],
        i,
    ) by {
        assert(is_listed(order, i - 1));
        let q = choose|q: int| 0 <= q < order.len() && (#[trigger] order[q]).0 == i - 1;
        if q < places.len() {
            assert(places[q] == i);
        }
        assert(p < q);
        assert(order[p].0 + 1 == places[p]);
        assert(order[q].0 + 1 == i);
    }
    assert forall|p: int| 0 <= p < places.len() implies {
        let peak = #[trigger] peaks_of(spectrum)[p];
        &&& 1 <= places[p] < spectrum.len()
        &&& peak.amplitude == spectrum[places[p]]
        &&& peak.index == (if places[p] < 8192 {
            places[p]
        } else {
            8191
        })
    } by {
        assert(order[p].1 == tail[order[p].0 as int]);
    }
    places
}

proof fn lemma_first_is_top(peaks: Seq<WalshPeak>, n: nat)
    requires
        0 < n <= peaks.len(),
        forall|p: int|
            0 <= p < n ==> strength((#[trigger] peaks[p]).amplitude) <= strength(
                peaks[0].amplitude,
            ),
    ensures
        top_strength(peaks, n) == (if strength(peaks[0].amplitude) > 1 {
            strength(peaks[0].amplitude)
        } else {
            1
        }),
    decreases n,
{
    reveal_with_fuel(top_strength, 2);
    if n > 1 {
        lemma_first_is_top(peaks, (n - 1) as nat);
        assert(strength(peaks[n - 1].amplitude) <= strength(peaks[0].amplitude));
    }
}

/// What a constant tells of the words it was derived from: the window, and the
/// strongest Walsh coefficients of their bit counts but the first, strongest
/// first. Each is told by its place, its sign, and its strength on a scale on
/// which the strongest has 31. Gives the places.
pub proof fn law_constant_tells_strongest_peaks(words: Seq<u64>, block_log2: u8) -> (places: Seq<
    int,
>)
    requires
        is_pow2(words.len() as int),
        words.len() >= 2,
        64 * words.len() <= i64::MAX,
        words.len() <= usize::MAX,
        6 <= block_log2 <= 12,
    ensures
        ({
            let n = words.len();
            let counts = words.map_values(|w: u64| ones(w as nat) as int);
            let spectrum = Seq::new(n, |i: int| walsh_sum(counts, i as nat, n));
            let told = unpacked_peaks(meta_k(words, block_log2));
            let top = if distance(spectrum[places[0]]) > 1 {
                distance(spectrum[places[0]])
            } else {
                1
            };
            &&& log2_field(meta_k(words, block_log2)) == block_log2
            &&& places.len() == told.len()
            &&& places.len() == (if n <= 3 {
                n - 1
            } else {
                3
            })
            &&& forall|p: int|
                0 <= p < places.len() ==> {
                    let peak = #[trigger] told[p];
                    &&& 1 <= places[p] < n
                    &&& peak.index == (if places[p] < 8192 {
                        places[p]
                    } else {
                        8191
                    })
                    &&& distance(peak.amplitude as int) == distance(spectrum[places[p]]) * 31 / top
                    &&& peak.amplitude != 0 ==> (peak.amplitude < 0) == (spectrum[places[p]] < 0)
                }
            &&& forall|p: int, q: int|
                0 <= p < q < places.len() ==> goes_before(
                    spectrum[#[trigger] places[p]],
                    places[p],
                    spectrum[#[trigger] places[q]],
                    places[q],
                )
            &&& forall|i: int, p: int|
                1 <= i < n && !places.contains(i) && 0 <= p < places.len() ==> goes_before(
                    spectrum[#[trigger] places[p]],
                    places[p],
                    #[trigger] spectrum[i],
                    i,
                )
        }),
{
    let n = words.len();
    let counts = words.map_values(|w: u64| ones(w as nat) as int);
    assert(counts =~= bit_counts(words));
    let own = wht(counts);
    crate::fwht::lemma_wht_len(counts);
    let spectrum = Seq::new(n, |i: int| walsh_sum(counts, i as nat, n));
    assert forall|i: int| 0 <= i < n implies own[i] == spectrum[i] by {
        crate::fwht::law_wht_is_walsh_sum(counts, i as nat);
    }
    assert(own =~= spectrum);
    assert forall|k: int| 0 <= k < n implies -64 <= #[trigger] counts[k] <= 64 by {
        crate::words::lemma_ones_u64(words[k]);
    }
    lemma_wht_bound(counts, 64);
    assert forall|i: int| 0 <= i < n implies i64::MIN <= #[trigger] spectrum[i] <= i64::MAX by {
        assert(-(64 * n) <= own[i] <= 64 * n);
    }
    let places = law_peaks_are_strongest(spectrum);
    let peaks = peaks_of(spectrum);
    law_pack_roundtrip(peaks, block_log2);
    assert forall|p: int| 0 <= p < peaks.len() implies strength((#[trigger] peaks[p]).amplitude)
        == distance(spectrum[places[p]]) && strength(peaks[p].amplitude) <= strength(
        peaks[0].amplitude,
    ) by {
        assert(peaks[p].amplitude == spectrum[places[p]]);
        assert(peaks[0].amplitude == spectrum[places[0]]);
        if p > 0 {
            assert(goes_before(spectrum[places[0]], places[0], spectrum[places[p]], places[p]));
        }
    }
    lemma_first_is_top(peaks, packed_count(peaks));
    let told = unpacked_peaks(meta_k(words, block_log2));
    assert forall|p: int| 0 <= p < places.len() implies told[p] == coarse(peaks, p) && (
    #[trigger] peaks[p]).index < 8192 by {
        assert(told[p] == coarse(peaks, p));
        assert(peaks_of(spectrum)[p].index < 8192);
    }
    assert forall|p: int| 0 <= p < places.len() implies scaled(peaks, p) <= 31 && (
    #[trigger] peaks[p]).index < 8192 by {
        lemma_scaled(peaks, p);
    }
    places
}

} // verus!
