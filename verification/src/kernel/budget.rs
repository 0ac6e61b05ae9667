//! Bit accounting: what an encoding costs and when it is worth having.
use vstd::prelude::*;
use crate::text::outcome;

verus! {

/// The bits of a block and of its encoding.
#[derive(Clone, Copy, Debug, Eq, PartialEq)]
pub struct BitBudget {
    pub source_bits: u64,
    pub key_bits: u64,
    pub crumb_bits: u64,
    pub overhead_bits: u64,
}

impl BitBudget {
    /// The length of the encoding.
    pub open spec fn spent(&self) -> int {
        self.key_bits + self.crumb_bits + self.overhead_bits
    }

    /// The length of the encoding, if it can be counted.
    pub open spec fn encoded(&self) -> Result<u64, Seq<char>> {
        if self.spent() > u64::MAX {
            Err("bit budget overflow"@)
        } else {
            Ok(self.spent() as u64)
        }
    }

    pub fn encoded_bits(&self) -> (r: Result<u64, String>)
        ensures
            outcome(r) == self.encoded(),
    {
        match self.key_bits.checked_add(self.crumb_bits) {
            Some(partial) => match partial.checked_add(self.overhead_bits) {
                Some(total) => Ok(total),
                None => Err("bit budget overflow".to_string()),
            },
            None => Err("bit budget overflow".to_string()),
        }
    }

    /// The bits saved, negative where the encoding is longer than the block.
    pub fn gain_bits(&self) -> (r: Result<i128, String>)
        ensures
            match r {
                Ok(gain) => self.encoded() is Ok && gain == self.source_bits - self.spent(),
                Err(e) => self.encoded() == Err::<u64, Seq<char>>(e@),
            },
    {
        match self.encoded_bits() {
            Ok(encoded) => Ok(self.source_bits as i128 - encoded as i128),
            Err(e) => Err(e),
        }
    }

    /// The share of the branch bits in the block, as a fraction.
    pub fn crumb_ratio(&self) -> (r: Result<(u64, u64), String>)
        ensures
            match r {
                Ok(f) => f == (self.crumb_bits, self.source_bits) && self.source_bits > 0,
                Err(e) => self.source_bits == 0 && e@ == "source bit length must be non-zero"@,
            },
    {
        if self.source_bits == 0 {
            return Err("source bit length must be non-zero".to_string());
        }
        Ok((self.crumb_bits, self.source_bits))
    }
}

/// The bounds an encoding must keep. Fractions are given in thousandths.
#[derive(Clone, Copy, Debug, PartialEq, Eq)]
pub struct CompressionPolicy {
    pub max_key_bits: u64,
    pub max_key_permille: u64,
    pub minimum_gain_permille: u64,
}

/// Whether `policy` accepts `budget`.
pub open spec fn policy_verdict(policy: CompressionPolicy, budget: BitBudget) -> Result<
    bool,
    Seq<char>,
> {
    if budget.source_bits == 0 {
        Err("source bit length must be non-zero"@)
    } else if policy.max_key_permille >= 1000 || policy.minimum_gain_permille >= 1000 {
        Err("compression policy fractions must be inside [0, 1)"@)
    } else if budget.key_bits > policy.max_key_bits || budget.key_bits > (budget.source_bits
        * policy.max_key_permille) / 1000 {
        Ok(false)
    } else if budget.spent() > u64::MAX {
        Err("bit budget overflow"@)
    } else {
        Ok(
            budget.spent() < budget.source_bits && 1000 * (budget.source_bits - budget.spent())
                >= policy.minimum_gain_permille * budget.source_bits,
        )
    }
}

/// At most 512 key bits and a quarter of the block, at least a tenth saved.
pub open spec fn mvp_policy() -> CompressionPolicy {
    CompressionPolicy { max_key_bits: 512, max_key_permille: 250, minimum_gain_permille: 100 }
}

impl CompressionPolicy {
    /// The policy every block encoder keeps.
    pub fn mvp() -> (policy: Self)
        ensures
            policy == mvp_policy(),
    {
        CompressionPolicy { max_key_bits: 512, max_key_permille: 250, minimum_gain_permille: 100 }
    }

    pub fn accepts(&self, budget: BitBudget) -> (r: Result<bool, String>)
        ensures
            outcome(r) == policy_verdict(*self, budget),
    {
        if budget.source_bits == 0 {
            return Err("source bit length must be non-zero".to_string());
        }
        if self.max_key_permille >= 1000 || self.minimum_gain_permille >= 1000 {
            return Err("compression policy fractions must be inside [0, 1)".to_string());
        }
        assert(0 <= budget.source_bits * self.max_key_permille <= 1000 * budget.source_bits)
            by (nonlinear_arith)
            requires
                self.max_key_permille < 1000,
        ;
        assert(0 <= self.minimum_gain_permille * budget.source_bits <= 1000 * budget.source_bits)
            by (nonlinear_arith)
            requires
                self.minimum_gain_permille < 1000,
        ;
        let limit: u128 = (budget.source_bits as u128 * self.max_key_permille as u128) / 1000;
        if budget.key_bits > self.max_key_bits || budget.key_bits as u128 > limit {
            return Ok(false);
        }
        match budget.encoded_bits() {
            Err(e) => Err(e),
            Ok(encoded) => {
                if encoded >= budget.source_bits {
                    Ok(false)
                } else {
                    let gain: u128 = (budget.source_bits - encoded) as u128;
                    Ok(
                        1000 * gain >= self.minimum_gain_permille as u128
                            * budget.source_bits as u128,
                    )
                }
            },
        }
    }
}

/// Whether a rule that lengthens the key pays for itself in crumbs.
pub open spec fn incremental_verdict(
    current_key_bits: u64,
    current_crumb_bits: u64,
    added_key_bits: u64,
    next_crumb_bits: u64,
) -> Result<bool, Seq<char>> {
    if next_crumb_bits > current_crumb_bits {
        Ok(false)
    } else if current_key_bits + added_key_bits > u64::MAX {
        Err("key growth overflow"@)
    } else {
        Ok(current_crumb_bits - next_crumb_bits > added_key_bits)
    }
}

pub fn accept_incremental_rule(
    current_key_bits: u64,
    current_crumb_bits: u64,
    added_key_bits: u64,
    next_crumb_bits: u64,
) -> (r: Result<bool, String>)
    ensures
        outcome(r) == incremental_verdict(
            current_key_bits,
            current_crumb_bits,
            added_key_bits,
            next_crumb_bits,
        ),
{
    if next_crumb_bits > current_crumb_bits {
        return Ok(false);
    }
    let crumb_reduction: u64 = current_crumb_bits - next_crumb_bits;
    match current_key_bits.checked_add(added_key_bits) {
        Some(next_key_bits) => {
            let key_growth: u64 = next_key_bits - current_key_bits;
            Ok(crumb_reduction > key_growth)
        },
        None => Err("key growth overflow".to_string()),
    }
}

/// An accepted encoding is shorter than the block by at least the policy's
/// minimum gain, and its key keeps both of the policy's bounds.
pub proof fn law_accepted_budget(policy: CompressionPolicy, budget: BitBudget)
    requires
        policy_verdict(policy, budget) == Ok::<bool, Seq<char>>(true),
    ensures
        budget.spent() < budget.source_bits,
        1000 * budget.spent() <= (1000 - policy.minimum_gain_permille) * budget.source_bits,
        budget.key_bits <= policy.max_key_bits,
        1000 * budget.key_bits <= policy.max_key_permille * budget.source_bits,
{
    let (s, p, g) = (
        budget.source_bits as int,
        policy.max_key_permille as int,
        policy.minimum_gain_permille as int,
    );
    assert((1000 - g) * s == 1000 * s - g * s) by (nonlinear_arith);
    assert(s * p == p * s) by (nonlinear_arith);
}

/// A policy accepts exactly the encodings that save its share of the block and
/// whose key keeps its bounds.
pub proof fn law_policy_accepts_what_pays(policy: CompressionPolicy, budget: BitBudget)
    requires
        budget.source_bits > 0,
        policy.max_key_permille < 1000,
        policy.minimum_gain_permille < 1000,
        budget.spent() <= u64::MAX,
    ensures
        policy_verdict(policy, budget) == Ok::<bool, Seq<char>>(
            budget.spent() < budget.source_bits && 1000 * budget.spent() <= (1000
                - policy.minimum_gain_permille) * budget.source_bits && budget.key_bits
                <= policy.max_key_bits && 1000 * budget.key_bits <= policy.max_key_permille
                * budget.source_bits,
        ),
{
    let (s, p, g) = (
        budget.source_bits as int,
        policy.max_key_permille as int,
        policy.minimum_gain_permille as int,
    );
    assert((1000 - g) * s == 1000 * s - g * s) by (nonlinear_arith);
    assert(s * p == p * s) by (nonlinear_arith);
}

/// A block encoder's policy asks for a tenth of the block to be saved, and for a
/// key of no more than 512 bits and a quarter of the block.
pub proof fn law_block_policy(budget: BitBudget)
    requires
        budget.source_bits > 0,
        budget.spent() <= u64::MAX,
    ensures
        policy_verdict(mvp_policy(), budget) == Ok::<bool, Seq<char>>(
            10 * budget.spent() <= 9 * budget.source_bits && budget.key_bits <= 512 && 4
                * budget.key_bits <= budget.source_bits,
        ),
{
    law_policy_accepts_what_pays(mvp_policy(), budget);
}

/// A rule is accepted exactly where it makes key and crumbs together shorter.
pub proof fn law_rule_pays(
    current_key_bits: u64,
    current_crumb_bits: u64,
    added_key_bits: u64,
    next_crumb_bits: u64,
)
    requires
        current_key_bits + added_key_bits <= u64::MAX,
    ensures
        incremental_verdict(
            current_key_bits,
            current_crumb_bits,
            added_key_bits,
            next_crumb_bits,
        ) == Ok::<bool, Seq<char>>(
            (current_key_bits + added_key_bits) + next_crumb_bits < current_key_bits
                + current_crumb_bits,
        ),
{
}

} // verus!
