//! Expansion of a spectral program into the bits it predicts.
use vstd::prelude::*;
use crate::fwht::{lemma_common_digits, meet_oddly};
use crate::kernel::key::{SpectralPeakCode, SpectralPlan, SpectralProgram};
use crate::text::outcome;
use crate::words::{count_ones, ones};

verus! {

/// The value of the Walsh function `index` at `position`.
pub open spec fn walsh(index: usize, position: usize) -> int {
    if ones((index & position) as nat) % 2 == 0 {
        1
    } else {
        -1
    }
}

/// What one peak adds at `position`.
pub open spec fn peak_vote(peak: SpectralPeakCode, position: usize) -> int {
    let weighted = walsh(peak.index, position) * peak.amplitude;
    if peak.positive {
        weighted
    } else {
        -weighted
    }
}

/// What all peaks add up to at `position`.
pub open spec fn score(peaks: Seq<SpectralPeakCode>, position: usize) -> int
    decreases peaks.len(),
{
    if peaks.len() == 0 {
        0
    } else {
        score(peaks.drop_last(), position) + peak_vote(peaks.last(), position)
    }
}

/// The bit predicted at `position`.
pub open spec fn predicted(p: SpectralPlan, position: usize) -> bool {
    let s = score(p.peaks, position);
    s > 0 || (s == 0 && p.tie_bit)
}

/// The bits a program expands to.
pub open spec fn predicted_bits(p: SpectralPlan) -> Seq<bool> {
    Seq::new(p.bit_len, |i: int| predicted(p, i as usize))
}

/// What expanding a program gives.
pub open spec fn expansion(p: SpectralPlan) -> Result<Seq<u8>, Seq<char>> {
    if p.peaks.len() == 0 {
        Err("spectral program contains no Walsh peaks"@)
    } else if exists|i: int| 0 <= i < p.peaks.len() && (#[trigger] p.peaks[i]).index >= p.bit_len {
        Err("spectral program peak is outside the block"@)
    } else {
        Ok(
            predicted_bits(p).map_values(
                |bit: bool|
                    if bit {
                        1u8
                    } else {
                        0u8
                    },
            ),
        )
    }
}

/// Evaluates the prediction at one position.
fn predict(program: &SpectralProgram, position: usize) -> (bit: bool)
    requires
        255 * program.peaks@.len() <= i32::MAX,
    ensures
        bit == predicted(program@, position),
{
    let mut s: i32 = 0;
    let n: usize = program.peaks.len();
    for i in 0..n
        invariant
            n == program.peaks@.len(),
            255 * n <= i32::MAX,
            s == score(program.peaks@.take(i as int), position),
            -255 * i <= s <= 255 * i,
    {
        let peak = &program.peaks[i];
        let even: bool = count_ones((peak.index & position) as u64) % 2 == 0;
        let amplitude: i32 = peak.amplitude as i32;
        proof {
            let front = program.peaks@.take(i + 1);
            assert(front.drop_last() =~= program.peaks@.take(i as int));
            let w = walsh(peak.index, position);
            assert(w * peak.amplitude == if w == 1 {
                peak.amplitude as int
            } else {
                -(peak.amplitude as int)
            }) by (nonlinear_arith)
                requires
                    w == 1 || w == -1,
            ;
        }
        s = if even == peak.positive {
            s + amplitude
        } else {
            s - amplitude
        };
    }
    assert(program.peaks@.take(n as int) =~= program.peaks@);
    s > 0 || (s == 0 && program.tie_bit)
}

/// Expands a program into bits, one per byte.
pub fn synthesise_spectral_bits(program: &SpectralProgram) -> (r: Result<Vec<u8>, String>)
    requires
        255 * program.peaks@.len() <= i32::MAX,
    ensures
        outcome(r) == expansion(program@),
{
    let n: usize = program.peaks.len();
    if n == 0 {
        return Err("spectral program contains no Walsh peaks".to_string());
    }
    for i in 0..n
        invariant
            n == program.peaks@.len(),
            n > 0,
            forall|k: int| 0 <= k < i ==> (#[trigger] program.peaks@[k]).index < program.bit_len,
    {
        if program.peaks[i].index >= program.bit_len {
            assert(program@.peaks[i as int].index >= program@.bit_len);
            return Err("spectral program peak is outside the block".to_string());
        }
    }
    let mut bits: Vec<u8> = Vec::new();
    let ghost want = predicted_bits(program@).map_values(
        |bit: bool|
            if bit {
                1u8
            } else {
                0u8
            },
    );
    for position in 0..program.bit_len
        invariant
            255 * program.peaks@.len() <= i32::MAX,
            want.len() == program.bit_len,
            forall|k: int|
                0 <= k < want.len() ==> #[trigger] want[k] == if predicted(
                    program@,
                    k as usize,
                ) {
                    1u8
                } else {
                    0u8
                },
            bits@ =~= want.take(position as int),
    {
        bits.push(
            if predict(program, position) {
                1
            } else {
                0
            },
        );
    }
    assert(want.take(program.bit_len as int) =~= want);
    Ok(bits)
}

/// A program of one peak predicts its Walsh function: the bits whose places have
/// an even number of digits in common with the peak's, or the others where the
/// peak is negative.
pub proof fn law_single_peak_predicts_walsh(p: SpectralPlan, position: usize)
    requires
        p.peaks.len() == 1,
        p.peaks[0].amplitude > 0,
    ensures
        predicted(p, position) == (meet_oddly(p.peaks[0].index as nat, position as nat)
            != p.peaks[0].positive),
{
    let peak = p.peaks[0];
    lemma_walsh_sign(peak.index, position);
    reveal_with_fuel(score, 2);
    assert(p.peaks.last() == peak);
    let (w, a) = (walsh(peak.index, position), peak.amplitude as int);
    assert(w * a == if w == 1 {
        a
    } else {
        -a
    }) by (nonlinear_arith)
        requires
            w == 1 || w == -1,
    ;
}

proof fn lemma_walsh_sign(index: usize, position: usize)
    ensures
        walsh(index, position) == (if meet_oddly(index as nat, position as nat) {
            -1int
        } else {
            1int
        }),
{
    lemma_common_digits(index as u64, position as u64);
    assert((index & position) as u64 == (index as u64) & (position as u64));
}

/// Peaks vote with their strength: the prediction follows the peaks of one side
/// where they are together stronger than those of the other, and the tie bit
/// where both are as strong.
pub proof fn law_stronger_side_is_predicted(p: SpectralPlan, position: usize)
    ensures
        ({
            let (up, down) = (
                votes(p.peaks, position, true),
                votes(p.peaks, position, false),
            );
            &&& up > down ==> predicted(p, position)
            &&& up < down ==> !predicted(p, position)
            &&& up == down ==> predicted(p, position) == p.tie_bit
        }),
{
    lemma_votes(p.peaks, position);
}

/// The strength of the peaks that vote for a set bit, or for a clear one.
pub open spec fn votes(peaks: Seq<SpectralPeakCode>, position: usize, up: bool) -> nat
    decreases peaks.len(),
{
    if peaks.len() == 0 {
        0
    } else {
        let peak = peaks.last();
        votes(peaks.drop_last(), position, up) + if (meet_oddly(
            peak.index as nat,
            position as nat,
        ) != peak.positive) == up {
            peak.amplitude as nat
        } else {
            0
        }
    }
}

proof fn lemma_votes(peaks: Seq<SpectralPeakCode>, position: usize)
    ensures
        score(peaks, position) == votes(peaks, position, true) - votes(peaks, position, false),
    decreases peaks.len(),
{
    if peaks.len() > 0 {
        let peak = peaks.last();
        lemma_votes(peaks.drop_last(), position);
        lemma_walsh_sign(peak.index, position);
        let (w, a) = (walsh(peak.index, position), peak.amplitude as int);
        assert(w * a == if w == 1 {
            a
        } else {
            -a
        }) by (nonlinear_arith)
            requires
                w == 1 || w == -1,
        ;
    }
}

} // verus!
