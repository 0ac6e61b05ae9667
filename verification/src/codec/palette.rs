//! Words told by parity trajectories that end in a small palette.
use vstd::prelude::*;
use vstd::arithmetic::power2::pow2;
use crate::bitstream::{
    bit_width_for_cardinality, index_width, lemma_bit_len, lemma_packed_bit, packed_bits,
    stream_bit, BitSink,
};
use crate::kernel::trajectory::{crumbs_of, lemma_crumbs_len, terminal_of};
use crate::order::{distinct, lemma_distinct, lemma_distinct_unique, lists_ascending, sort_distinct};
use crate::text::outcome;
use crate::words::{bits_number, low_bits};

verus! {

/// The most steps a decoder walks for one block.
pub const MAX_DECODER_STEPS: usize = 1_000_000;

/// The step counts that are tried.
pub fn candidate_steps() -> (r: std::ops::Range<u8>)
    ensures
        r.start == 1,
        r.end == 64,
{
    1..64
}

/// Packs bits, least significant first.
pub fn pack_bools(bits: &[bool]) -> (out: Vec<u8>)
    ensures
        out@ == packed_bits(bits@),
{
    let mut sink = BitSink::new();
    let n: usize = bits.len();
    for i in 0..n
        invariant
            n == bits@.len(),
            sink.wf(),
            sink.bits() =~= bits@.take(i as int),
    {
        sink.push(bits[i]);
    }
    assert(bits@.take(n as int) =~= bits@);
    sink.finish()
}

/// What unpacking `count` bits gives.
pub open spec fn unpacked_bools(bytes: Seq<u8>, count: nat) -> Result<Seq<bool>, Seq<char>> {
    if count > 8 * bytes.len() {
        Err("packed breadcrumb stream is truncated"@)
    } else {
        Ok(Seq::new(count, |i: int| stream_bit(bytes, i)))
    }
}

/// Unpacks `count` bits.
pub fn unpack_bools(bytes: &[u8], count: usize) -> (r: Result<Vec<bool>, String>)
    ensures
        outcome(r) == unpacked_bools(bytes@, count as nat),
{
    if count as u128 > bytes.len() as u128 * 8 {
        return Err("packed breadcrumb stream is truncated".to_string());
    }
    let mut out: Vec<bool> = Vec::new();
    let ghost want = Seq::new(count as nat, |i: int| stream_bit(bytes@, i));
    for i in 0..count
        invariant
            count <= 8 * bytes@.len(),
            want == Seq::new(count as nat, |i: int| stream_bit(bytes@, i)),
            out@ =~= want.take(i as int),
    {
        out.push((bytes[i / 8] >> ((i % 8) as u8)) & 1 == 1);
    }
    assert(want.take(count as int) =~= want);
    Ok(out)
}

/// Packed bits are unpacked again.
pub proof fn lemma_bools_roundtrip(bits: Seq<bool>)
    ensures
        unpacked_bools(packed_bits(bits), bits.len()) == Ok::<Seq<bool>, Seq<char>>(bits),
{
    let got = Seq::new(bits.len(), |i: int| stream_bit(packed_bits(bits), i));
    assert forall|i: int| 0 <= i < bits.len() implies got[i] == bits[i] by {
        lemma_packed_bit(bits, i);
    }
    assert(got =~= bits);
}

/// Where the trajectories of words end.
pub open spec fn ends(words: Seq<u64>, steps: nat) -> Seq<u64> {
    words.map_values(|w: u64| terminal_of(w as nat, steps) as u64)
}

/// The distinct ends, ascending.
pub open spec fn palette(words: Seq<u64>, steps: nat) -> Seq<u64> {
    distinct(ends(words, steps))
}

/// The place of an end in the palette.
pub open spec fn slot(palette: Seq<u64>, end: u64) -> int {
    choose|i: int| 0 <= i < palette.len() && palette[i] == end
}

/// Ends replaced by their places.
pub open spec fn slots(palette: Seq<u64>, ends: Seq<u64>) -> Seq<u8> {
    ends.map_values(|t: u64| slot(palette, t) as u8)
}

/// The crumbs of all words, one after the other.
pub open spec fn all_crumbs(words: Seq<u64>, steps: nat) -> Seq<bool>
    decreases words.len(),
{
    if words.len() == 0 {
        Seq::empty()
    } else {
        all_crumbs(words.drop_last(), steps) + crumbs_of(words.last() as nat, steps)
    }
}

/// Words told by places in a palette of ends and by crumbs.
#[derive(Clone, Debug, Eq, PartialEq)]
pub struct TerminalPalettePlan {
    pub terminals: Vec<u64>,
    pub terminal_indices: Vec<u8>,
    pub terminal_index_bits: u8,
    pub breadcrumbs: Vec<bool>,
}

/// A plan as mathematical values.
#[verifier::ext_equal]
pub struct PlanView {
    pub terminals: Seq<u64>,
    pub terminal_indices: Seq<u8>,
    pub terminal_index_bits: u8,
    pub breadcrumbs: Seq<bool>,
}

impl View for TerminalPalettePlan {
    type V = PlanView;

    open spec fn view(&self) -> PlanView {
        PlanView {
            terminals: self.terminals@,
            terminal_indices: self.terminal_indices@,
            terminal_index_bits: self.terminal_index_bits,
            breadcrumbs: self.breadcrumbs@,
        }
    }
}

/// Whether words have a plan of `steps` steps with at most `max` terminals.
pub open spec fn has_plan(words: Seq<u64>, steps: int, max: nat) -> bool {
    &&& words.len() > 0
    &&& 1 <= steps < 64
    &&& max > 0
    &&& palette(words, steps as nat).len() <= max
    &&& palette(words, steps as nat).len() <= 256
}

/// The plan of `steps` steps.
pub open spec fn plan_of(words: Seq<u64>, steps: nat) -> PlanView {
    let terminals = palette(words, steps);
    PlanView {
        terminals,
        terminal_indices: slots(terminals, ends(words, steps)),
        terminal_index_bits: index_width(terminals.len()) as u8,
        breadcrumbs: all_crumbs(words, steps),
    }
}

/// A smaller word does not end above a larger one.
proof fn lemma_end_ordered(a: u64, b: u64, steps: nat)
    requires
        a <= b,
    ensures
        terminal_of(a as nat, steps) <= terminal_of(b as nat, steps),
{
    vstd::arithmetic::power2::lemma_pow2_pos(steps);
    vstd::arithmetic::div_mod::lemma_div_is_ordered(a as int, b as int, pow2(steps) as int);
}

/// The end of a word, by shifting.
fn end_of(word: u64, steps: u8) -> (end: u64)
    requires
        steps < 64,
    ensures
        end == terminal_of(word as nat, steps as nat),
{
    proof {
        vstd::bits::lemma_u64_shr_is_div(word, steps as u64);
        vstd::arithmetic::power2::lemma_pow2_pos(steps as nat);
    }
    word >> (steps as u64)
}

/// The palette of words, given their distinct values.
pub(crate) fn collect_palette(sorted: &Vec<u64>, steps: u8, Ghost(words): Ghost<Seq<u64>>) -> (out: Vec<u64>)
    requires
        lists_ascending(sorted@, words),
        steps < 64,
    ensures
        out@ == palette(words, steps as nat),
        out@.len() <= sorted@.len(),
{
    let mut out: Vec<u64> = Vec::new();
    let n: usize = sorted.len();
    let ghost s = steps as nat;
    for i in 0..n
        invariant
            n == sorted@.len(),
            steps < 64,
            s == steps,
            lists_ascending(sorted@, words),
            out@.len() <= i,
            i > 0 ==> out@.len() > 0 && out@.last() == terminal_of(sorted@[i - 1] as nat, s),
            forall|a: int, b: int| 0 <= a < b < out@.len() ==> #[trigger] out@[a] < #[trigger] out@[b],
            forall|k: int|
                0 <= k < i ==> out@.contains(terminal_of(#[trigger] sorted@[k] as nat, s) as u64),
            forall|a: int|
                0 <= a < out@.len() ==> exists|k: int|
                    0 <= k < i && #[trigger] out@[a] == terminal_of(
                        #[trigger] sorted@[k] as nat,
                        s,
                    ) as u64,
    {
        let end: u64 = end_of(sorted[i], steps);
        let m: usize = out.len();
        let ghost before = out@;
        if i > 0 {
            assert(sorted@[i - 1] < sorted@[i as int]);
            proof {
                lemma_end_ordered(sorted@[i - 1], sorted@[i as int], s);
            }
        }
        if m == 0 || out[m - 1] != end {
            out.push(end);
            proof {
                assert(out@[m as int] == end);
                assert forall|a: int, b: int| 0 <= a < b < out@.len() implies #[trigger] out@[a]
                    < #[trigger] out@[b] by {
                    if b == m {
                        assert(before[a] <= before[m - 1]);
                    }
                }
                assert forall|x: u64| before.contains(x) implies out@.contains(x) by {
                    let k = choose|k: int| 0 <= k < before.len() && before[k] == x;
                    assert(out@[k] == x);
                }
                assert forall|a: int| 0 <= a < out@.len() implies exists|k: int|
                    0 <= k < i + 1 && #[trigger] out@[a] == terminal_of(
                        #[trigger] sorted@[k] as nat,
                        s,
                    ) as u64 by {
                    if a < m {
                        assert(out@[a] == before[a]);
                    } else {
                        assert(out@[a] == terminal_of(sorted@[i as int] as nat, s) as u64);
                    }
                }
            }
        } else {
            assert(out@[m - 1] == end);
        }
    }
    proof {
        let of = ends(words, s);
        assert forall|x: u64| out@.contains(x) <==> of.contains(x) by {
            if out@.contains(x) {
                let a = choose|a: int| 0 <= a < out@.len() && out@[a] == x;
                let k = choose|k: int|
                    0 <= k < n && out@[a] == terminal_of(#[trigger] sorted@[k] as nat, s) as u64;
                assert(sorted@.contains(sorted@[k]));
                assert(words.contains(sorted@[k]));
                let m = choose|m: int| 0 <= m < words.len() && words[m] == sorted@[k];
                assert(of[m] == x);
            }
            if of.contains(x) {
                let m = choose|m: int| 0 <= m < of.len() && of[m] == x;
                assert(words.contains(words[m]));
                assert(sorted@.contains(words[m]));
                let k = choose|k: int| 0 <= k < n && sorted@[k] == words[m];
                assert(out@.contains(terminal_of(sorted@[k] as nat, s) as u64));
            }
        }
        lemma_distinct_unique(out@, of);
    }
    out
}

/// Finds an end in the palette.
fn find_slot(palette: &Vec<u64>, end: u64) -> (i: usize)
    requires
        palette@.contains(end),
        forall|a: int, b: int|
            0 <= a < b < palette@.len() ==> #[trigger] palette@[a] < #[trigger] palette@[b],
    ensures
        i < palette@.len(),
        palette@[i as int] == end,
        i == slot(palette@, end),
{
    let ghost k = choose|k: int| 0 <= k < palette@.len() && palette@[k] == end;
    let mut lo: usize = 0;
    let mut hi: usize = palette.len();
    while hi - lo > 1
        invariant
            lo <= k < hi <= palette@.len(),
            palette@[k] == end,
            forall|a: int, b: int|
                0 <= a < b < palette@.len() ==> #[trigger] palette@[a] < #[trigger] palette@[b],
        decreases hi - lo,
    {
        let mid: usize = lo + (hi - lo) / 2;
        if palette[mid] <= end {
            assert(k < mid ==> palette@[k] < palette@[mid as int]);
            lo = mid;
        } else {
            assert(mid < k ==> palette@[mid as int] < palette@[k]);
            hi = mid;
        }
    }
    proof {
        let j = slot(palette@, end);
        assert(palette@[j] == end);
        if j < lo {
            assert(palette@[j] < palette@[lo as int]);
        }
        if lo < j {
            assert(palette@[lo as int] < palette@[j]);
        }
    }
    lo
}

fn push_crumbs(out: &mut Vec<bool>, word: u64, steps: u8)
    requires
        steps < 64,
    ensures
        final(out)@ == old(out)@ + crumbs_of(word as nat, steps as nat),
{
    let mut rest: u64 = word;
    let mut left: u8 = steps;
    while left > 0
        invariant
            old(out)@ + crumbs_of(word as nat, steps as nat) =~= out@ + crumbs_of(
                rest as nat,
                left as nat,
            ),
        decreases left,
    {
        let ghost before = out@;
        out.push(rest % 2 == 1);
        assert(before + crumbs_of(rest as nat, left as nat) =~= out@ + crumbs_of(
            (rest / 2) as nat,
            (left - 1) as nat,
        ));
        rest = rest / 2;
        left = left - 1;
    }
    assert(out@ + crumbs_of(rest as nat, 0) =~= out@);
}

/// Builds the plan whose palette is known.
pub(crate) fn build_plan(words: &[u64], steps: u8, terminals: Vec<u64>) -> (plan: TerminalPalettePlan)
    requires
        1 <= steps < 64,
        terminals@ == palette(words@, steps as nat),
        terminals@.len() <= 256,
    ensures
        plan@ == plan_of(words@, steps as nat),
{
    let mut terminal_indices: Vec<u8> = Vec::new();
    let mut breadcrumbs: Vec<bool> = Vec::new();
    let n: usize = words.len();
    let ghost s = steps as nat;
    proof {
        lemma_distinct(ends(words@, s));
    }
    for i in 0..n
        invariant
            n == words@.len(),
            1 <= steps < 64,
            s == steps,
            terminals@ == palette(words@, s),
            lists_ascending(terminals@, ends(words@, s)),
            terminals@.len() <= 256,
            terminal_indices@ =~= slots(terminals@, ends(words@.take(i as int), s)),
            breadcrumbs@ == all_crumbs(words@.take(i as int), s),
    {
        let word: u64 = words[i];
        let end: u64 = end_of(word, steps);
        proof {
            assert(words@.take(i + 1) =~= words@.take(i as int).push(word));
            assert(words@.take(i + 1).drop_last() =~= words@.take(i as int));
            assert(ends(words@, s)[i as int] == end);
            assert(ends(words@, s).contains(end));
            assert(terminals@.contains(end));
        }
        terminal_indices.push(find_slot(&terminals, end) as u8);
        push_crumbs(&mut breadcrumbs, word, steps);
    }
    assert(words@.take(n as int) =~= words@);
    proof {
        if terminals@.len() > 1 {
            vstd::arithmetic::power2::lemma2_to64();
            lemma_bit_len((terminals@.len() - 1) as nat, 8);
        }
    }
    let terminal_index_bits: u8 = bit_width_for_cardinality(terminals.len());
    TerminalPalettePlan { terminals, terminal_indices, terminal_index_bits, breadcrumbs }
}

/// Plans words on `steps` steps, if their ends are few enough.
pub fn build_terminal_palette_plan(words: &[u64], steps: u8, max_terminals: usize) -> (r: Result<
    Option<TerminalPalettePlan>,
    String,
>)
    ensures
        match r {
            Ok(Some(plan)) => has_plan(words@, steps as int, max_terminals as nat) && plan@
                == plan_of(words@, steps as nat),
            Ok(None) => !has_plan(words@, steps as int, max_terminals as nat),
            Err(_) => false,
        },
{
    if words.len() == 0 || steps < 1 || steps >= 64 || max_terminals == 0 {
        return Ok(None);
    }
    let sorted = sort_distinct(words);
    let terminals = collect_palette(&sorted, steps, Ghost(words@));
    if terminals.len() > max_terminals || terminals.len() > 256 {
        return Ok(None);
    }
    Ok(Some(build_plan(words, steps, terminals)))
}

/// The bits a plan takes.
pub open spec fn plan_bits(word_count: nat, terminals: nat, steps: nat) -> nat {
    64 * terminals + word_count * index_width(terminals) + word_count * steps
}

/// What the best plan of some words takes.
#[derive(Clone, Copy, Debug, Eq, PartialEq)]
pub struct TrajectoryScore {
    pub encoded_bits: u64,
    pub steps: u8,
    pub terminal_count: usize,
}

/// The score of the plan of `steps` steps.
pub open spec fn plan_score(words: Seq<u64>, steps: nat) -> TrajectoryScore {
    let terminals = palette(words, steps).len();
    TrajectoryScore {
        encoded_bits: plan_bits(words.len(), terminals, steps) as u64,
        steps: steps as u8,
        terminal_count: terminals as usize,
    }
}

/// The score of the shortest plan of up to `max` steps, fewer steps first
/// among equals.
pub open spec fn best_score(words: Seq<u64>, max: nat) -> Option<TrajectoryScore>
    decreases max,
{
    if max == 0 {
        None
    } else {
        let best = best_score(words, (max - 1) as nat);
        let next = plan_score(words, max);
        if !has_plan(words, max as int, 256) {
            best
        } else {
            match best {
                None => Some(next),
                Some(b) => if next.encoded_bits < b.encoded_bits {
                    Some(next)
                } else {
                    Some(b)
                },
            }
        }
    }
}

/// Scores words by their shortest plan.
pub fn grouped_trajectory_score(words: &[u64]) -> (r: Result<Option<TrajectoryScore>, String>)
    requires
        100 * words@.len() + 20000 <= u64::MAX,
    ensures
        r matches Ok(score) && score == best_score(words@, 63),
{
    let mut best: Option<TrajectoryScore> = None;
    let n: usize = words.len();
    if n == 0 {
        proof {
            lemma_no_plan(words@, 63);
        }
        return Ok(best);
    }
    let sorted = sort_distinct(words);
    let range = candidate_steps();
    for steps in range.start..range.end
        invariant
            range.start == 1,
            range.end == 64,
            n == words@.len(),
            n > 0,
            100 * n + 20000 <= u64::MAX,
            lists_ascending(sorted@, words@),
            best == best_score(words@, (steps - 1) as nat),
    {
        let terminals = collect_palette(&sorted, steps, Ghost(words@));
        let count: usize = terminals.len();
        if count <= 256 {
            let width: u8 = bit_width_for_cardinality(count);
            proof {
                lemma_narrow_index(count as nat);
                lemma_plan_bits_bound(n as nat, width as nat, steps as nat);
            }
            let score = TrajectoryScore {
                encoded_bits: 64 * (count as u64) + (n as u64) * (width as u64) + (n as u64) * (
                steps as u64),
                steps,
                terminal_count: count,
            };
            best = match best {
                None => Some(score),
                Some(b) => if score.encoded_bits < b.encoded_bits {
                    Some(score)
                } else {
                    Some(b)
                },
            };
        }
    }
    Ok(best)
}

/// What a plan takes in bits.
pub open spec fn plan_size(p: PlanView) -> nat {
    64 * p.terminals.len() + p.terminal_indices.len() * p.terminal_index_bits as nat
        + p.breadcrumbs.len()
}

/// Estimates what a plan takes in bits.
pub fn estimate_plan_bits(plan: &TerminalPalettePlan) -> (bits: u64)
    requires
        plan_size(plan@) <= u64::MAX,
    ensures
        bits == plan_size(plan@),
{
    let slots: u64 = plan.terminal_indices.len() as u64;
    let width: u64 = plan.terminal_index_bits as u64;
    assert(0 <= slots * width) by (nonlinear_arith)
        requires
            0 <= slots,
            0 <= width,
    ;
    64 * (plan.terminals.len() as u64) + slots * width + plan.breadcrumbs.len() as u64
}

/// Builds the shortest plan of some words.
pub fn best_grouped_trajectory_plan(words: &[u64]) -> (r: Result<
    Option<(u8, TerminalPalettePlan)>,
    String,
>)
    requires
        100 * words@.len() + 20000 <= u64::MAX,
    ensures
        match r {
            Ok(Some((steps, plan))) => {
                &&& best_score(words@, 63) matches Some(score) && score.steps == steps
                &&& has_plan(words@, steps as int, 256)
                &&& plan@ == plan_of(words@, steps as nat)
            },
            Ok(None) => best_score(words@, 63) is None,
            Err(_) => false,
        },
{
    match grouped_trajectory_score(words) {
        Ok(Some(score)) => {
            proof {
                lemma_best_score(words@, 63);
            }
            match build_terminal_palette_plan(words, score.steps, 256) {
                Ok(Some(plan)) => Ok(Some((score.steps, plan))),
                Ok(None) => Ok(None),
                Err(e) => Err(e),
            }
        },
        Ok(None) => Ok(None),
        Err(e) => Err(e),
    }
}

/// A best score is the score of a plan.
proof fn lemma_best_score(words: Seq<u64>, max: nat)
    requires
        max <= 63,
    ensures
        best_score(words, max) matches Some(s) ==> has_plan(words, s.steps as int, 256) && s
            == plan_score(words, s.steps as nat),
    decreases max,
{
    if max > 0 {
        lemma_best_score(words, (max - 1) as nat);
    }
}

/// The score of a plan counts the bits of the plan.
pub proof fn law_score_counts_plan(words: Seq<u64>, steps: nat)
    requires
        has_plan(words, steps as int, 256),
        100 * words.len() + 20000 <= u64::MAX,
    ensures
        plan_score(words, steps).encoded_bits == plan_size(plan_of(words, steps)),
{
    let terminals = palette(words, steps).len();
    lemma_narrow_index(terminals);
    lemma_plan_bits_bound(words.len(), index_width(terminals), steps);
    lemma_crumb_count(words, steps);
}

proof fn lemma_crumb_count(words: Seq<u64>, steps: nat)
    ensures
        all_crumbs(words, steps).len() == words.len() * steps,
    decreases words.len(),
{
    if words.len() == 0 {
        assert(0 * steps == 0);
    } else {
        let front = words.drop_last();
        lemma_crumb_count(front, steps);
        crate::kernel::trajectory::lemma_crumbs_len(words.last() as nat, steps);
        assert(front.len() * steps + steps == words.len() * steps) by (nonlinear_arith)
            requires
                words.len() == front.len() + 1,
        ;
    }
}

proof fn lemma_no_plan(words: Seq<u64>, max: nat)
    requires
        words.len() == 0,
    ensures
        best_score(words, max) is None,
    decreases max,
{
    if max > 0 {
        lemma_no_plan(words, (max - 1) as nat);
    }
}

/// An index into at most 256 places takes at most eight bits.
pub proof fn lemma_narrow_index(n: nat)
    requires
        n <= 256,
    ensures
        index_width(n) <= 8,
{
    if n > 1 {
        vstd::arithmetic::power2::lemma2_to64();
        lemma_bit_len((n - 1) as nat, 8);
    }
}

proof fn lemma_plan_bits_bound(n: nat, width: nat, steps: nat)
    requires
        width <= 8,
        steps < 64,
    ensures
        0 <= n * width <= 8 * n,
        0 <= n * steps <= 63 * n,
{
    assert(0 <= n * width <= 8 * n) by (nonlinear_arith)
        requires
            width <= 8,
    ;
    assert(0 <= n * steps <= 63 * n) by (nonlinear_arith)
        requires
            steps < 64,
    ;
}

/// One score is better than another: fewer bits, or fewer terminals, or fewer
/// steps. Any score is better than none.
pub open spec fn better_score(
    candidate: Option<TrajectoryScore>,
    incumbent: Option<TrajectoryScore>,
) -> bool {
    match (candidate, incumbent) {
        (Some(l), Some(r)) => l.encoded_bits < r.encoded_bits || (l.encoded_bits == r.encoded_bits
            && (l.terminal_count < r.terminal_count || (l.terminal_count == r.terminal_count
            && l.steps < r.steps))),
        (Some(_), None) => true,
        _ => false,
    }
}

/// Compares scores.
pub fn is_better_trajectory_score(
    candidate: Option<TrajectoryScore>,
    incumbent: Option<TrajectoryScore>,
) -> (r: bool)
    ensures
        r == better_score(candidate, incumbent),
{
    match (candidate, incumbent) {
        (Some(l), Some(r)) => {
            l.encoded_bits < r.encoded_bits || (l.encoded_bits == r.encoded_bits && (
            l.terminal_count < r.terminal_count || (l.terminal_count == r.terminal_count && l.steps
                < r.steps)))
        },
        (Some(_), None) => true,
        _ => false,
    }
}

/// The value is what is left of some word when its low bits are taken away.
pub open spec fn is_high_part(words: Seq<u64>, steps: nat, x: u64) -> bool {
    exists|k: int| 0 <= k < words.len() && x == (#[trigger] words[k] as nat / pow2(steps)) as u64
}

/// The palette lists, ascending and each once, what is left of the words when
/// their low bits are taken away.
pub proof fn law_palette_lists_high_parts(words: Seq<u64>, steps: nat)
    ensures
        forall|i: int, j: int|
            0 <= i < j < palette(words, steps).len() ==> #[trigger] palette(words, steps)[i]
                < #[trigger] palette(words, steps)[j],
        forall|x: u64|
            #![trigger palette(words, steps).contains(x)]
            #![trigger is_high_part(words, steps, x)]
            palette(words, steps).contains(x) <==> is_high_part(words, steps, x),
{
    let of = ends(words, steps);
    let p = palette(words, steps);
    lemma_distinct(of);
    assert forall|x: u64| p.contains(x) <==> #[trigger] is_high_part(words, steps, x) by {
        if is_high_part(words, steps, x) {
            let k = choose|k: int|
                0 <= k < words.len() && x == (#[trigger] words[k] as nat / pow2(steps)) as u64;
            assert(of[k] == x);
            assert(of.contains(x));
        }
        if p.contains(x) {
            assert(of.contains(x));
            let k = choose|k: int| 0 <= k < of.len() && of[k] == x;
            assert(x == (words[k] as nat / pow2(steps)) as u64);
        }
    }
}

/// A plan tells every word: its place in the palette gives the high part, and
/// its crumbs give the low bits.
pub proof fn law_plan_tells_words(words: Seq<u64>, steps: nat, k: int)
    requires
        has_plan(words, steps as int, 256),
        0 <= k < words.len(),
    ensures
        ({
            let plan = plan_of(words, steps);
            &&& plan.terminal_indices.len() == words.len()
            &&& plan.terminal_indices[k] < plan.terminals.len()
            &&& plan.breadcrumbs.len() == words.len() * steps
            &&& 0 <= k * steps <= (k + 1) * steps <= words.len() * steps
            &&& words[k] == plan.terminals[plan.terminal_indices[k] as int] as nat * pow2(steps)
                + bits_number(plan.breadcrumbs.subrange(k * steps, (k + 1) * steps))
        }),
{
    let plan = plan_of(words, steps);
    let of = ends(words, steps);
    lemma_distinct(of);
    assert(of.contains(of[k]));
    let i = slot(plan.terminals, of[k]);
    assert(plan.terminals.contains(of[k]));
    assert(0 <= i < plan.terminals.len() && plan.terminals[i] == of[k]);
    assert(plan.terminal_indices[k] == i as u8);
    lemma_crumb_count(words, steps);
    lemma_crumbs_of_word(words, steps, k);
    let w = words[k] as nat;
    lemma_crumbs_are_low_bits(w, steps);
    crate::words::lemma_low_bits(w, steps);
    vstd::arithmetic::power2::lemma_pow2_pos(steps);
    let p = pow2(steps) as int;
    vstd::arithmetic::div_mod::lemma_fundamental_div_mod(w as int, p);
    assert(w / pow2(steps) <= w) by (nonlinear_arith)
        requires
            pow2(steps) > 0,
    ;
    assert(p * (w as int / p) == (w as int / p) * p) by (nonlinear_arith);
}

proof fn lemma_crumbs_are_low_bits(value: nat, n: nat)
    ensures
        crumbs_of(value, n) == low_bits(value, n),
    decreases n,
{
    if n > 0 {
        lemma_crumbs_are_low_bits(value / 2, (n - 1) as nat);
    }
}

proof fn lemma_crumbs_of_word(words: Seq<u64>, steps: nat, k: int)
    requires
        0 <= k < words.len(),
    ensures
        0 <= k * steps <= (k + 1) * steps <= words.len() * steps,
        all_crumbs(words, steps).len() == words.len() * steps,
        all_crumbs(words, steps).subrange(k * steps, (k + 1) * steps) == crumbs_of(
            words[k] as nat,
            steps,
        ),
    decreases words.len(),
{
    let front = words.drop_last();
    let n = words.len() as int;
    let s = steps as int;
    lemma_crumb_count(words, steps);
    lemma_crumb_count(front, steps);
    lemma_crumbs_len(words.last() as nat, steps);
    assert(0 <= k * s <= (k + 1) * s <= n * s && (n - 1) * s + s == n * s && (k < n - 1 ==> (k + 1)
        * s <= (n - 1) * s)) by (nonlinear_arith)
        requires
            0 <= k < n,
            s >= 0,
    ;
    let all = all_crumbs(words, steps);
    let before = all_crumbs(front, steps);
    if k < n - 1 {
        lemma_crumbs_of_word(front, steps, k);
        assert(all.subrange(k * s, (k + 1) * s) =~= before.subrange(k * s, (k + 1) * s));
    } else {
        assert(all.subrange(k * s, (k + 1) * s) =~= crumbs_of(words.last() as nat, steps));
    }
}

/// Words have a best plan unless there are none. No plan of one to 63 steps is
/// shorter, and none of fewer steps is as short.
pub proof fn law_best_plan_is_shortest(words: Seq<u64>, steps: nat)
    requires
        has_plan(words, steps as int, 256),
        100 * words.len() + 20000 <= u64::MAX,
    ensures
        best_score(words, 63) matches Some(b) && {
            &&& 1 <= b.steps <= 63
            &&& has_plan(words, b.steps as int, 256)
            &&& b.encoded_bits == plan_size(plan_of(words, b.steps as nat))
            &&& b.terminal_count == plan_of(words, b.steps as nat).terminals.len()
            &&& b.encoded_bits <= plan_size(plan_of(words, steps))
            &&& steps < b.steps ==> b.encoded_bits < plan_size(plan_of(words, steps))
        },
{
    lemma_shortest(words, 63, steps);
    lemma_best_score(words, 63);
    law_score_counts_plan(words, steps);
    let b = best_score(words, 63)->Some_0;
    law_score_counts_plan(words, b.steps as nat);
}

proof fn lemma_shortest(words: Seq<u64>, max: nat, steps: nat)
    requires
        max <= 63,
        steps <= max,
        has_plan(words, steps as int, 256),
    ensures
        best_score(words, max) matches Some(b) && b.encoded_bits <= plan_score(
            words,
            steps,
        ).encoded_bits && (steps < b.steps ==> b.encoded_bits < plan_score(
            words,
            steps,
        ).encoded_bits),
    decreases max,
{
    if steps < max {
        lemma_shortest(words, (max - 1) as nat, steps);
    } else {
        lemma_best_score(words, (max - 1) as nat);
        lemma_score_steps(words, (max - 1) as nat);
    }
}

proof fn lemma_score_steps(words: Seq<u64>, max: nat)
    requires
        max <= 63,
    ensures
        best_score(words, max) matches Some(b) ==> b.steps <= max,
    decreases max,
{
    if max > 0 {
        lemma_score_steps(words, (max - 1) as nat);
    }
}

/// Words have a plan of 63 steps, since only two ends are left then.
pub proof fn law_words_have_a_plan(words: Seq<u64>)
    ensures
        has_plan(words, 63, 256) <==> words.len() > 0,
        best_score(words, 63) is Some <==> words.len() > 0,
{
    let p = palette(words, 63);
    law_palette_lists_high_parts(words, 63);
    vstd::arithmetic::power2::lemma2_to64_rest();
    assert forall|i: int| 0 <= i < p.len() implies #[trigger] p[i] <= 1 by {
        assert(p.contains(p[i]));
        let k = choose|k: int|
            0 <= k < words.len() && p[i] == (#[trigger] words[k] as nat / pow2(63)) as u64;
        assert(words[k] as nat / pow2(63) <= 1);
    }
    if p.len() > 2 {
        assert(p[0] < p[1]);
        assert(p[1] < p[2]);
    }
    if words.len() == 0 {
        lemma_no_plan(words, 63);
    } else {
        lemma_shortest(words, 63, 63);
    }
}

/// A score of fewer bits is better, and a score is better than none.
pub proof fn law_fewer_bits_are_better(a: TrajectoryScore, b: TrajectoryScore)
    ensures
        a.encoded_bits < b.encoded_bits ==> better_score(Some(a), Some(b)) && !better_score(
            Some(b),
            Some(a),
        ),
        better_score(Some(a), Some(b)) ==> a.encoded_bits <= b.encoded_bits,
        a != b ==> better_score(Some(a), Some(b)) != better_score(Some(b), Some(a)),
        !better_score(Some(a), Some(a)),
        better_score(Some(a), None),
        !better_score(None, Some(a)),
{
}

} // verus!
