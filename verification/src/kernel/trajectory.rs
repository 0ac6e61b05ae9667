//! Parity trajectories: a word is halved step by step, and the parity lost at
//! every step is kept as a crumb.
use vstd::prelude::*;
use vstd::arithmetic::power2::pow2;
use crate::text::outcome;

verus! {

/// The end of a trajectory and the parities met on the way there.
#[derive(Clone, Debug, Eq, PartialEq)]
pub struct ParityTrajectory {
    pub terminal: u64,
    pub crumbs: Vec<bool>,
}

/// A trajectory as mathematical values.
#[verifier::ext_equal]
pub struct Trajectory {
    pub terminal: u64,
    pub crumbs: Seq<bool>,
}

impl View for ParityTrajectory {
    type V = Trajectory;

    open spec fn view(&self) -> Trajectory {
        Trajectory { terminal: self.terminal, crumbs: self.crumbs@ }
    }
}

/// What is left of `value` after `steps` halvings.
pub open spec fn terminal_of(value: nat, steps: nat) -> nat {
    value / pow2(steps)
}

/// The parities of `value` and of its first halvings, in order.
pub open spec fn crumbs_of(value: nat, steps: nat) -> Seq<bool>
    decreases steps,
{
    if steps == 0 {
        Seq::empty()
    } else {
        seq![value % 2 == 1] + crumbs_of(value / 2, (steps - 1) as nat)
    }
}

/// The number reached by undoing the halvings, last crumb first.
pub open spec fn rebuilt(terminal: nat, crumbs: Seq<bool>) -> nat
    decreases crumbs.len(),
{
    if crumbs.len() == 0 {
        terminal
    } else {
        2 * rebuilt(terminal, crumbs.drop_first()) + if crumbs[0] {
            1nat
        } else {
            0
        }
    }
}

/// What walking `steps` halvings from `value` gives.
pub open spec fn trajectory_of(value: u64, steps: int) -> Result<Trajectory, Seq<char>> {
    if steps > 64 {
        Err("u64 trajectory cannot contain more than 64 parity steps"@)
    } else {
        Ok(
            Trajectory {
                terminal: terminal_of(value as nat, steps as nat) as u64,
                crumbs: crumbs_of(value as nat, steps as nat),
            },
        )
    }
}

/// What walking a trajectory backwards gives.
pub open spec fn word_of(t: Trajectory) -> Result<u64, Seq<char>> {
    if t.crumbs.len() > 64 {
        Err("u64 trajectory cannot contain more than 64 parity steps"@)
    } else {
        Ok((rebuilt(t.terminal as nat, t.crumbs) % pow2(64)) as u64)
    }
}

pub proof fn lemma_crumbs_len(value: nat, steps: nat)
    ensures
        crumbs_of(value, steps).len() == steps,
    decreases steps,
{
    if steps > 0 {
        lemma_crumbs_len(value / 2, (steps - 1) as nat);
    }
}

/// Halving once more.
pub proof fn lemma_terminal_step(value: nat, steps: nat)
    ensures
        terminal_of(value, steps + 1) == terminal_of(value, steps) / 2,
        terminal_of(value, steps + 1) == terminal_of(value / 2, steps),
        terminal_of(value, 0) == value,
{
    vstd::arithmetic::power2::lemma_pow2_unfold(steps + 1);
    vstd::arithmetic::power2::lemma_pow2_pos(steps);
    vstd::arithmetic::power2::lemma2_to64();
    vstd::arithmetic::div_mod::lemma_div_denominator(value as int, pow2(steps) as int, 2);
    vstd::arithmetic::div_mod::lemma_div_denominator(value as int, 2, pow2(steps) as int);
    vstd::arithmetic::mul::lemma_mul_is_commutative(2, pow2(steps) as int);
}

/// The crumbs of one more step.
proof fn lemma_crumbs_step(value: nat, steps: nat)
    ensures
        crumbs_of(value, steps + 1) == crumbs_of(value, steps).push(
            terminal_of(value, steps) % 2 == 1,
        ),
    decreases steps,
{
    lemma_terminal_step(value, steps);
    if steps == 0 {
        assert(crumbs_of(value / 2, 0) =~= Seq::empty());
        assert(crumbs_of(value, 1) =~= crumbs_of(value, 0).push(value % 2 == 1));
    } else {
        lemma_crumbs_step(value / 2, (steps - 1) as nat);
        lemma_terminal_step(value, (steps - 1) as nat);
        assert(crumbs_of(value, steps + 1) =~= crumbs_of(value, steps).push(
            terminal_of(value, steps) % 2 == 1,
        ));
    }
}

/// Walks `steps` halvings from `value`, keeping every lost parity.
pub fn encode_parity_trajectory(value: u64, steps: usize) -> (r: Result<ParityTrajectory, String>)
    ensures
        outcome(r) == trajectory_of(value, steps as int),
{
    if steps > 64 {
        return Err("u64 trajectory cannot contain more than 64 parity steps".to_string());
    }
    let mut rest: u64 = value;
    let mut crumbs: Vec<bool> = Vec::new();
    proof {
        lemma_terminal_step(value as nat, 0);
    }
    for i in 0..steps
        invariant
            rest == terminal_of(value as nat, i as nat),
            crumbs@ == crumbs_of(value as nat, i as nat),
    {
        proof {
            lemma_crumbs_step(value as nat, i as nat);
            lemma_terminal_step(value as nat, i as nat);
        }
        crumbs.push(rest % 2 == 1);
        rest = rest / 2;
    }
    Ok(ParityTrajectory { terminal: rest, crumbs })
}

/// Rebuilds a word from its terminal and its crumbs.
pub fn decode_parity_trajectory(trajectory: &ParityTrajectory) -> (r: Result<u64, String>)
    ensures
        outcome(r) == word_of(trajectory@),
{
    if trajectory.crumbs.len() > 64 {
        return Err("u64 trajectory cannot contain more than 64 parity steps".to_string());
    }
    Ok(rebuild_word(trajectory.terminal, trajectory.crumbs.as_slice()))
}

/// Undoes the halvings that led to `terminal`.
pub fn rebuild_word(terminal: u64, crumbs: &[bool]) -> (value: u64)
    ensures
        value == rebuilt(terminal as nat, crumbs@) % pow2(64),
{
    let mut value: u64 = terminal;
    let mut i: usize = crumbs.len();
    proof {
        vstd::arithmetic::power2::lemma2_to64_rest();
        assert(crumbs@.skip(i as int) =~= Seq::empty());
        vstd::arithmetic::div_mod::lemma_small_mod(terminal as nat, pow2(64));
    }
    while i > 0
        invariant
            i <= crumbs@.len(),
            pow2(64) == 0x1_0000_0000_0000_0000,
            value == rebuilt(terminal as nat, crumbs@.skip(i as int)) % pow2(64),
        decreases i,
    {
        i = i - 1;
        proof {
            assert(crumbs@.skip(i as int).drop_first() =~= crumbs@.skip(i + 1));
        }
        let doubled: u64 = (value % 0x8000_0000_0000_0000) * 2;
        value = if crumbs[i] {
            doubled + 1
        } else {
            doubled
        };
    }
    assert(crumbs@.skip(0) =~= crumbs@);
    value
}

/// Undoing the halvings of a word gives the word back.
pub proof fn law_trajectory_roundtrip(value: u64, steps: int)
    requires
        0 <= steps <= 64,
    ensures
        trajectory_of(value, steps) is Ok,
        word_of(trajectory_of(value, steps)->Ok_0) == Ok::<u64, Seq<char>>(value),
        rebuilt(
            terminal_of(value as nat, steps as nat),
            crumbs_of(value as nat, steps as nat),
        ) == value,
{
    lemma_rebuilt(value as nat, steps as nat);
    lemma_crumbs_len(value as nat, steps as nat);
    lemma_terminal_le(value as nat, steps as nat);
    vstd::arithmetic::power2::lemma2_to64_rest();
    vstd::arithmetic::div_mod::lemma_small_mod(value as nat, pow2(64));
}

/// A terminal is not larger than the word it came from.
pub proof fn lemma_terminal_le(value: nat, steps: nat)
    ensures
        terminal_of(value, steps) <= value,
{
    vstd::arithmetic::power2::lemma_pow2_pos(steps);
    vstd::arithmetic::div_mod::lemma_div_is_ordered_by_denominator(
        value as int,
        1,
        pow2(steps) as int,
    );
}

proof fn lemma_rebuilt(value: nat, steps: nat)
    ensures
        rebuilt(terminal_of(value, steps), crumbs_of(value, steps)) == value,
    decreases steps,
{
    lemma_terminal_step(value, 0);
    if steps > 0 {
        let c = crumbs_of(value, steps);
        lemma_terminal_step(value, (steps - 1) as nat);
        lemma_rebuilt(value / 2, (steps - 1) as nat);
        assert(c.drop_first() =~= crumbs_of(value / 2, (steps - 1) as nat));
    }
}

/// Every crumb counts: two crumb sequences of one length that lead from the
/// same terminal to the same word are the same.
pub proof fn law_crumbs_are_determined(terminal: u64, left: Seq<bool>, right: Seq<bool>)
    requires
        left.len() == right.len() <= 64,
        word_of(Trajectory { terminal, crumbs: left }) == word_of(
            Trajectory { terminal, crumbs: right },
        ),
    ensures
        left == right,
{
    vstd::arithmetic::power2::lemma2_to64_rest();
    lemma_crumbs_determined(terminal as nat, left, right, 64);
}

proof fn lemma_crumbs_determined(terminal: nat, left: Seq<bool>, right: Seq<bool>, bits: nat)
    requires
        left.len() == right.len() <= bits,
        rebuilt(terminal, left) % pow2(bits) == rebuilt(terminal, right) % pow2(bits),
    ensures
        left == right,
    decreases left.len(),
{
    if left.len() == 0 {
        assert(left =~= right);
    } else {
        let low = (bits - 1) as nat;
        let (a, b) = (left.drop_first(), right.drop_first());
        let (x, y) = (rebuilt(terminal, a) as int, rebuilt(terminal, b) as int);
        let (p, q) = (rebuilt(terminal, left) as int, rebuilt(terminal, right) as int);
        let m = pow2(low) as int;
        vstd::arithmetic::power2::lemma_pow2_unfold(bits);
        vstd::arithmetic::power2::lemma_pow2_pos(low);
        // both sides agree up to a multiple of 2 * m
        vstd::arithmetic::div_mod::lemma_fundamental_div_mod(p, 2 * m);
        vstd::arithmetic::div_mod::lemma_fundamental_div_mod(q, 2 * m);
        let k = p / (2 * m) - q / (2 * m);
        assert(p - q == 2 * (m * k)) by (nonlinear_arith)
            requires
                p == (2 * m) * (p / (2 * m)) + p % (2 * m),
                q == (2 * m) * (q / (2 * m)) + q % (2 * m),
                p % (2 * m) == q % (2 * m),
                k == p / (2 * m) - q / (2 * m),
        ;
        assert(left[0] == right[0]);
        assert(x == m * k + y);
        vstd::arithmetic::div_mod::lemma_mod_multiples_vanish(k, y, m);
        lemma_crumbs_determined(terminal, a, b, low);
        assert(left =~= seq![left[0]] + a);
        assert(right =~= seq![right[0]] + b);
    }
}

} // verus!
