//! The standard base of word operations, and schedules generated from a seed.
use vstd::prelude::*;
use crate::kernel::invert::{
    inverse_odd, invert_xorshift_left, invert_xorshift_right, modular_inverse_odd, reverse_bits,
    reversed, unshifted_left, unshifted_right,
};
use crate::kernel::topology::{avalanche, avalanche_word};
use crate::text::{decimal, numbered};
use crate::words::{rotate_left, rotate_right, rotl, rotr};

verus! {

/// An operation on words.
#[derive(Clone, Copy, Debug, Eq, Ord, PartialEq, PartialOrd, Structural)]
pub enum OperationCode {
    Xor,
    RotateLeft,
    RotateRight,
    XorShiftLeft,
    XorShiftRight,
    Add,
    Subtract,
    MultiplyOdd,
    BitPermutation,
    WalshHadamard,
    PhaseReflect,
    Or,
    And,
    Not,
    Popcnt,
    CountLeadingZeros,
    CountTrailingZeros,
}

/// The number that stands for an operation.
pub open spec fn code_of(op: OperationCode) -> u8 {
    match op {
        OperationCode::Xor => 0x01,
        OperationCode::RotateLeft => 0x02,
        OperationCode::RotateRight => 0x03,
        OperationCode::XorShiftLeft => 0x04,
        OperationCode::XorShiftRight => 0x05,
        OperationCode::Add => 0x06,
        OperationCode::Subtract => 0x07,
        OperationCode::MultiplyOdd => 0x08,
        OperationCode::BitPermutation => 0x09,
        OperationCode::WalshHadamard => 0x0A,
        OperationCode::PhaseReflect => 0x0B,
        OperationCode::Or => 0x0C,
        OperationCode::And => 0x0D,
        OperationCode::Not => 0x0E,
        OperationCode::Popcnt => 0x0F,
        OperationCode::CountLeadingZeros => 0x10,
        OperationCode::CountTrailingZeros => 0x11,
    }
}

/// The name of an operation.
pub open spec fn name_of(op: OperationCode) -> Seq<char> {
    match op {
        OperationCode::Xor => "Xor"@,
        OperationCode::RotateLeft => "RotateLeft"@,
        OperationCode::RotateRight => "RotateRight"@,
        OperationCode::XorShiftLeft => "XorShiftLeft"@,
        OperationCode::XorShiftRight => "XorShiftRight"@,
        OperationCode::Add => "Add"@,
        OperationCode::Subtract => "Subtract"@,
        OperationCode::MultiplyOdd => "MultiplyOdd"@,
        OperationCode::BitPermutation => "BitPermutation"@,
        OperationCode::WalshHadamard => "WalshHadamard"@,
        OperationCode::PhaseReflect => "PhaseReflect"@,
        OperationCode::Or => "Or"@,
        OperationCode::And => "And"@,
        OperationCode::Not => "Not"@,
        OperationCode::Popcnt => "Popcnt"@,
        OperationCode::CountLeadingZeros => "CountLeadingZeros"@,
        OperationCode::CountTrailingZeros => "CountTrailingZeros"@,
    }
}

impl OperationCode {
    /// The number that stands for the operation.
    pub fn code(self) -> (code: u8)
        ensures
            code == code_of(self),
    {
        match self {
            OperationCode::Xor => 0x01,
            OperationCode::RotateLeft => 0x02,
            OperationCode::RotateRight => 0x03,
            OperationCode::XorShiftLeft => 0x04,
            OperationCode::XorShiftRight => 0x05,
            OperationCode::Add => 0x06,
            OperationCode::Subtract => 0x07,
            OperationCode::MultiplyOdd => 0x08,
            OperationCode::BitPermutation => 0x09,
            OperationCode::WalshHadamard => 0x0A,
            OperationCode::PhaseReflect => 0x0B,
            OperationCode::Or => 0x0C,
            OperationCode::And => 0x0D,
            OperationCode::Not => 0x0E,
            OperationCode::Popcnt => 0x0F,
            OperationCode::CountLeadingZeros => 0x10,
            OperationCode::CountTrailingZeros => 0x11,
        }
    }

    /// The operation that a number stands for.
    pub fn try_from(value: u8) -> (r: Result<Self, String>)
        ensures
            match r {
                Ok(op) => code_of(op) == value,
                Err(e) => !(0x01 <= value <= 0x11) && e@ == "unknown operation code: "@ + decimal(
                    value as nat,
                ),
            },
    {
        match value {
            0x01 => Ok(OperationCode::Xor),
            0x02 => Ok(OperationCode::RotateLeft),
            0x03 => Ok(OperationCode::RotateRight),
            0x04 => Ok(OperationCode::XorShiftLeft),
            0x05 => Ok(OperationCode::XorShiftRight),
            0x06 => Ok(OperationCode::Add),
            0x07 => Ok(OperationCode::Subtract),
            0x08 => Ok(OperationCode::MultiplyOdd),
            0x09 => Ok(OperationCode::BitPermutation),
            0x0A => Ok(OperationCode::WalshHadamard),
            0x0B => Ok(OperationCode::PhaseReflect),
            0x0C => Ok(OperationCode::Or),
            0x0D => Ok(OperationCode::And),
            0x0E => Ok(OperationCode::Not),
            0x0F => Ok(OperationCode::Popcnt),
            0x10 => Ok(OperationCode::CountLeadingZeros),
            0x11 => Ok(OperationCode::CountTrailingZeros),
            _ => Err(numbered("unknown operation code: ", value)),
        }
    }

    /// The name of the operation.
    pub fn name(self) -> (name: &'static str)
        ensures
            name@ == name_of(self),
    {
        match self {
            OperationCode::Xor => "Xor",
            OperationCode::RotateLeft => "RotateLeft",
            OperationCode::RotateRight => "RotateRight",
            OperationCode::XorShiftLeft => "XorShiftLeft",
            OperationCode::XorShiftRight => "XorShiftRight",
            OperationCode::Add => "Add",
            OperationCode::Subtract => "Subtract",
            OperationCode::MultiplyOdd => "MultiplyOdd",
            OperationCode::BitPermutation => "BitPermutation",
            OperationCode::WalshHadamard => "WalshHadamard",
            OperationCode::PhaseReflect => "PhaseReflect",
            OperationCode::Or => "Or",
            OperationCode::And => "And",
            OperationCode::Not => "Not",
            OperationCode::Popcnt => "Popcnt",
            OperationCode::CountLeadingZeros => "CountLeadingZeros",
            OperationCode::CountTrailingZeros => "CountTrailingZeros",
        }
    }
}

/// Different operations have different numbers.
pub proof fn law_codes_are_distinct(a: OperationCode, b: OperationCode)
    ensures
        code_of(a) == code_of(b) <==> a == b,
        0x01 <= code_of(a) <= 0x11,
{
}

/// Where an operation may be used.
#[derive(Clone, Copy, Debug, Eq, PartialEq, Structural)]
pub enum SafetyClass {
    DirectlyReversible,
    FeistelOrPhaseOnly,
}

/// A way to describe blocks.
#[derive(Clone, Copy, Debug, Eq, Ord, PartialEq, PartialOrd, Structural)]
pub enum PatternId {
    Raw,
    SpectralInvolution,
    AlphabetDiagnostic,
    Trajectory,
}

/// An operation and where it may be used.
#[derive(Clone, Copy, Debug, Eq, PartialEq, Structural)]
pub struct OperationSpec {
    pub code: OperationCode,
    pub safety: SafetyClass,
}

/// The operations and patterns of a version.
#[derive(Clone, Debug, Eq, PartialEq)]
pub struct StandardBase {
    pub version: u8,
    pub operations: Vec<OperationSpec>,
    pub patterns: Vec<PatternId>,
}

/// The seed of a generated base.
#[derive(Clone, Copy, Debug, Eq, PartialEq, Structural)]
pub struct RootSeed {
    pub value: u64,
}

/// A schedule of operations generated from a seed.
#[derive(Clone, Debug, Eq, PartialEq)]
pub struct GeneratedBase {
    pub root: RootSeed,
    pub operation_schedule: Vec<OperationCode>,
    pub primary_pattern: PatternId,
}

/// The operation is among those listed.
pub open spec fn lists(ops: Seq<OperationSpec>, code: OperationCode) -> bool {
    exists|i: int| 0 <= i < ops.len() && (#[trigger] ops[i]).code == code
}

/// No operation is listed twice.
pub open spec fn unique_codes(ops: Seq<OperationSpec>) -> bool {
    forall|i: int, j: int|
        0 <= i < j < ops.len() ==> (#[trigger] ops[i]).code != (#[trigger] ops[j]).code
}

/// No pattern is listed twice.
pub open spec fn unique_patterns(patterns: Seq<PatternId>) -> bool {
    forall|i: int, j: int|
        0 <= i < j < patterns.len() ==> #[trigger] patterns[i] != #[trigger] patterns[j]
}

/// The first required operation that is missing, if any.
pub open spec fn missing_operation(ops: Seq<OperationSpec>) -> Option<OperationCode> {
    if !lists(ops, OperationCode::Xor) {
        Some(OperationCode::Xor)
    } else if !lists(ops, OperationCode::RotateLeft) {
        Some(OperationCode::RotateLeft)
    } else if !lists(ops, OperationCode::Add) {
        Some(OperationCode::Add)
    } else if !lists(ops, OperationCode::MultiplyOdd) {
        Some(OperationCode::MultiplyOdd)
    } else if !lists(ops, OperationCode::WalshHadamard) {
        Some(OperationCode::WalshHadamard)
    } else if !lists(ops, OperationCode::PhaseReflect) {
        Some(OperationCode::PhaseReflect)
    } else {
        None
    }
}

/// What is wrong with a base, if anything.
pub open spec fn base_fault(
    version: u8,
    ops: Seq<OperationSpec>,
    patterns: Seq<PatternId>,
) -> Option<Seq<char>> {
    if version == 0 {
        Some("base version must be non-zero"@)
    } else if !unique_codes(ops) {
        Some("operation codes must be unique"@)
    } else if !unique_patterns(patterns) {
        Some("pattern ids must be unique"@)
    } else {
        match missing_operation(ops) {
            Some(op) => Some("missing required operation: "@ + name_of(op)),
            None => if !patterns.contains(PatternId::SpectralInvolution) {
                Some("spectral involution pattern is required"@)
            } else {
                None
            },
        }
    }
}

impl StandardBase {
    /// Looks an operation up.
    pub fn operation(&self, code: OperationCode) -> (r: Option<&OperationSpec>)
        ensures
            match r {
                Some(s) => exists|i: int|
                    0 <= i < self.operations@.len() && *s == #[trigger] self.operations@[i]
                        && s.code == code && forall|k: int|
                        0 <= k < i ==> (#[trigger] self.operations@[k]).code != code,
                None => !lists(self.operations@, code),
            },
    {
        let n: usize = self.operations.len();
        for i in 0..n
            invariant
                n == self.operations@.len(),
                forall|k: int| 0 <= k < i ==> (#[trigger] self.operations@[k]).code != code,
        {
            if self.operations[i].code == code {
                return Some(&self.operations[i]);
            }
        }
        None
    }

    fn lists_pattern(&self, pattern: PatternId) -> (r: bool)
        ensures
            r == self.patterns@.contains(pattern),
    {
        let n: usize = self.patterns.len();
        for i in 0..n
            invariant
                n == self.patterns@.len(),
                forall|k: int| 0 <= k < i ==> #[trigger] self.patterns@[k] != pattern,
        {
            if self.patterns[i] == pattern {
                return true;
            }
        }
        false
    }

    fn codes_unique(&self) -> (r: bool)
        ensures
            r == unique_codes(self.operations@),
    {
        let n: usize = self.operations.len();
        for j in 0..n
            invariant
                n == self.operations@.len(),
                forall|a: int, b: int|
                    0 <= a < b < j ==> (#[trigger] self.operations@[a]).code != (
                    #[trigger] self.operations@[b]).code,
        {
            for i in 0..j
                invariant
                    j < n,
                    n == self.operations@.len(),
                    forall|a: int|
                        0 <= a < i ==> (#[trigger] self.operations@[a]).code
                            != self.operations@[j as int].code,
            {
                if self.operations[i].code == self.operations[j].code {
                    assert(self.operations@[i as int].code == self.operations@[j as int].code);
                    return false;
                }
            }
        }
        true
    }

    fn patterns_unique(&self) -> (r: bool)
        ensures
            r == unique_patterns(self.patterns@),
    {
        let n: usize = self.patterns.len();
        for j in 0..n
            invariant
                n == self.patterns@.len(),
                forall|a: int, b: int|
                    0 <= a < b < j ==> #[trigger] self.patterns@[a] != #[trigger] self.patterns@[b],
        {
            for i in 0..j
                invariant
                    j < n,
                    n == self.patterns@.len(),
                    forall|a: int|
                        0 <= a < i ==> #[trigger] self.patterns@[a] != self.patterns@[j as int],
            {
                if self.patterns[i] == self.patterns[j] {
                    assert(self.patterns@[i as int] == self.patterns@[j as int]);
                    return false;
                }
            }
        }
        true
    }

    fn first_missing(&self) -> (r: Option<OperationCode>)
        ensures
            r == missing_operation(self.operations@),
    {
        if self.operation(OperationCode::Xor).is_none() {
            Some(OperationCode::Xor)
        } else if self.operation(OperationCode::RotateLeft).is_none() {
            Some(OperationCode::RotateLeft)
        } else if self.operation(OperationCode::Add).is_none() {
            Some(OperationCode::Add)
        } else if self.operation(OperationCode::MultiplyOdd).is_none() {
            Some(OperationCode::MultiplyOdd)
        } else if self.operation(OperationCode::WalshHadamard).is_none() {
            Some(OperationCode::WalshHadamard)
        } else if self.operation(OperationCode::PhaseReflect).is_none() {
            Some(OperationCode::PhaseReflect)
        } else {
            None
        }
    }

    /// Checks the base.
    pub fn validate(&self) -> (r: Result<(), String>)
        ensures
            match r {
                Ok(_) => base_fault(self.version, self.operations@, self.patterns@) is None,
                Err(e) => base_fault(self.version, self.operations@, self.patterns@) == Some(e@),
            },
    {
        if self.version == 0 {
            return Err("base version must be non-zero".to_string());
        }
        if !self.codes_unique() {
            return Err("operation codes must be unique".to_string());
        }
        if !self.patterns_unique() {
            return Err("pattern ids must be unique".to_string());
        }
        match self.first_missing() {
            Some(op) => return Err(
                "missing required operation: ".to_string().concat(op.name()),
            ),
            None => {},
        }
        if !self.lists_pattern(PatternId::SpectralInvolution) {
            return Err("spectral involution pattern is required".to_string());
        }
        Ok(())
    }
}

/// A word operation can be undone on its own.
pub open spec fn is_reversible(op: OperationCode) -> bool {
    match op {
        OperationCode::Or => false,
        OperationCode::And => false,
        OperationCode::Popcnt => false,
        OperationCode::CountLeadingZeros => false,
        OperationCode::CountTrailingZeros => false,
        _ => true,
    }
}

/// Entry `i` of the standard list.
pub open spec fn standard_operation(i: int) -> OperationCode {
    if i == 0 {
        OperationCode::Xor
    } else if i == 1 {
        OperationCode::RotateLeft
    } else if i == 2 {
        OperationCode::RotateRight
    } else if i == 3 {
        OperationCode::XorShiftLeft
    } else if i == 4 {
        OperationCode::XorShiftRight
    } else if i == 5 {
        OperationCode::Add
    } else if i == 6 {
        OperationCode::Subtract
    } else if i == 7 {
        OperationCode::MultiplyOdd
    } else if i == 8 {
        OperationCode::BitPermutation
    } else if i == 9 {
        OperationCode::WalshHadamard
    } else if i == 10 {
        OperationCode::PhaseReflect
    } else if i == 11 {
        OperationCode::Not
    } else if i == 12 {
        OperationCode::Or
    } else if i == 13 {
        OperationCode::And
    } else if i == 14 {
        OperationCode::Popcnt
    } else if i == 15 {
        OperationCode::CountLeadingZeros
    } else {
        OperationCode::CountTrailingZeros
    }
}

/// The operations of the standard base: those that can be undone come first.
pub open spec fn standard_operations() -> Seq<OperationSpec> {
    Seq::new(
        17,
        |i: int|
            OperationSpec {
                code: standard_operation(i),
                safety: if i < 12 {
                    SafetyClass::DirectlyReversible
                } else {
                    SafetyClass::FeistelOrPhaseOnly
                },
            },
    )
}

/// The patterns of the standard base.
pub open spec fn standard_patterns() -> Seq<PatternId> {
    seq![
        PatternId::Raw,
        PatternId::SpectralInvolution,
        PatternId::AlphabetDiagnostic,
        PatternId::Trajectory,
    ]
}

/// The standard base passes its own checks.
pub proof fn law_standard_base_is_sound()
    ensures
        base_fault(1, standard_operations(), standard_patterns()) is None,
        forall|i: int|
            0 <= i < 17 ==> ((#[trigger] standard_operations()[i]).safety
                == SafetyClass::DirectlyReversible <==> is_reversible(
                standard_operations()[i].code,
            )),
{
    let ops = standard_operations();
    assert(ops[0].code == OperationCode::Xor);
    assert(ops[1].code == OperationCode::RotateLeft);
    assert(ops[5].code == OperationCode::Add);
    assert(ops[7].code == OperationCode::MultiplyOdd);
    assert(ops[9].code == OperationCode::WalshHadamard);
    assert(ops[10].code == OperationCode::PhaseReflect);
    assert(standard_patterns()[1] == PatternId::SpectralInvolution);
}

fn push_operation(list: &mut Vec<OperationSpec>, code: OperationCode, safety: SafetyClass)
    ensures
        final(list)@ == old(list)@.push(OperationSpec { code, safety }),
{
    list.push(OperationSpec { code, safety });
}

/// The standard base of a version.
pub fn standard_base(version: u8) -> (r: Result<StandardBase, String>)
    ensures
        match r {
            Ok(base) => version == 1 && base.version == 1 && base.operations@
                == standard_operations() && base.patterns@ == standard_patterns(),
            Err(e) => version != 1 && e@ == "unsupported standard base version: "@ + decimal(
                version as nat,
            ),
        },
{
    if version != 1 {
        return Err(numbered("unsupported standard base version: ", version));
    }
    let mut operations: Vec<OperationSpec> = Vec::new();
    let direct = SafetyClass::DirectlyReversible;
    let inner = SafetyClass::FeistelOrPhaseOnly;
    push_operation(&mut operations, OperationCode::Xor, direct);
    push_operation(&mut operations, OperationCode::RotateLeft, direct);
    push_operation(&mut operations, OperationCode::RotateRight, direct);
    push_operation(&mut operations, OperationCode::XorShiftLeft, direct);
    push_operation(&mut operations, OperationCode::XorShiftRight, direct);
    push_operation(&mut operations, OperationCode::Add, direct);
    push_operation(&mut operations, OperationCode::Subtract, direct);
    push_operation(&mut operations, OperationCode::MultiplyOdd, direct);
    push_operation(&mut operations, OperationCode::BitPermutation, direct);
    push_operation(&mut operations, OperationCode::WalshHadamard, direct);
    push_operation(&mut operations, OperationCode::PhaseReflect, direct);
    push_operation(&mut operations, OperationCode::Not, direct);
    push_operation(&mut operations, OperationCode::Or, inner);
    push_operation(&mut operations, OperationCode::And, inner);
    push_operation(&mut operations, OperationCode::Popcnt, inner);
    push_operation(&mut operations, OperationCode::CountLeadingZeros, inner);
    push_operation(&mut operations, OperationCode::CountTrailingZeros, inner);
    assert(operations@ =~= standard_operations());
    let mut patterns: Vec<PatternId> = Vec::new();
    patterns.push(PatternId::Raw);
    patterns.push(PatternId::SpectralInvolution);
    patterns.push(PatternId::AlphabetDiagnostic);
    patterns.push(PatternId::Trajectory);
    assert(patterns@ =~= standard_patterns());
    let base = StandardBase { version, operations, patterns };
    proof {
        law_standard_base_is_sound();
    }
    match base.validate() {
        Ok(_) => Ok(base),
        Err(e) => Err(e),
    }
}

/// The operations that may be used directly, in order.
pub open spec fn direct_codes(ops: Seq<OperationSpec>) -> Seq<OperationCode>
    decreases ops.len(),
{
    if ops.len() == 0 {
        Seq::empty()
    } else if ops.last().safety == SafetyClass::DirectlyReversible {
        direct_codes(ops.drop_last()).push(ops.last().code)
    } else {
        direct_codes(ops.drop_last())
    }
}

/// The state of the generator after `rounds` rounds.
pub open spec fn generator_state(seed: u64, rounds: nat) -> u64
    decreases rounds,
{
    if rounds == 0 {
        seed | 1
    } else {
        let s = generator_state(seed, (rounds - 1) as nat);
        let a = s ^ (s << 13);
        let b = a ^ (a >> 7);
        rotl(b, (rounds - 1) % 31 + 1)
    }
}

/// The schedule of eight operations drawn from a list.
pub open spec fn schedule_of(codes: Seq<OperationCode>, seed: u64) -> Seq<OperationCode> {
    Seq::new(8, |k: int| codes[(generator_state(seed, (k + 1) as nat) as int) % codes.len() as int])
}

/// What is wrong with generating from a base, if anything.
pub open spec fn generation_fault(base: StandardBase) -> Option<Seq<char>> {
    match base_fault(base.version, base.operations@, base.patterns@) {
        Some(e) => Some(e),
        None => if direct_codes(base.operations@).len() == 0 {
            Some("standard base does not contain reversible operations"@)
        } else {
            None
        },
    }
}

/// Generates a schedule from a seed.
pub fn generate_base_from_root(base: &StandardBase, root: RootSeed) -> (r: Result<
    GeneratedBase,
    String,
>)
    ensures
        match r {
            Ok(g) => generation_fault(*base) is None && g.root == root && g.operation_schedule@
                == schedule_of(direct_codes(base.operations@), root.value) && g.primary_pattern
                == PatternId::SpectralInvolution,
            Err(e) => generation_fault(*base) == Some(e@),
        },
{
    match base.validate() {
        Ok(_) => {},
        Err(e) => return Err(e),
    }
    let n: usize = base.operations.len();
    let mut codes: Vec<OperationCode> = Vec::new();
    assert(base.operations@.take(0) =~= Seq::empty());
    for i in 0..n
        invariant
            n == base.operations@.len(),
            codes@ == direct_codes(base.operations@.take(i as int)),
    {
        assert(base.operations@.take(i + 1).drop_last() =~= base.operations@.take(i as int));
        if base.operations[i].safety == SafetyClass::DirectlyReversible {
            codes.push(base.operations[i].code);
        }
    }
    assert(base.operations@.take(n as int) =~= base.operations@);
    if codes.len() == 0 {
        return Err("standard base does not contain reversible operations".to_string());
    }
    let mut state: u64 = root.value | 1;
    let mut operation_schedule: Vec<OperationCode> = Vec::new();
    for round in 0u32..8
        invariant
            codes@.len() > 0,
            state == generator_state(root.value, round as nat),
            operation_schedule@ == schedule_of(codes@, root.value).take(round as int),
    {
        state = state ^ (state << 13);
        state = state ^ (state >> 7);
        state = rotate_left(state, round % 31 + 1);
        let index: u64 = state % (codes.len() as u64);
        operation_schedule.push(codes[index as usize]);
        assert(operation_schedule@ =~= schedule_of(codes@, root.value).take(round + 1));
    }
    assert(operation_schedule@ =~= schedule_of(codes@, root.value));
    Ok(
        GeneratedBase {
            root,
            operation_schedule,
            primary_pattern: PatternId::SpectralInvolution,
        },
    )
}

/// The parameter of round `round`.
pub open spec fn constant_of(root: u64, round: nat) -> u64 {
    avalanche(root.wrapping_add(((round + 1) as u64).wrapping_mul(0x9E37_79B9_7F4A_7C15)))
}

fn round_constant(root: RootSeed, round: usize) -> (c: u64)
    requires
        round < u64::MAX,
    ensures
        c == constant_of(root.value, round as nat),
{
    let mixed: u64 = root.value.wrapping_add(
        (round as u64 + 1).wrapping_mul(0x9E37_79B9_7F4A_7C15),
    );
    avalanche_word(mixed)
}

/// A word after a reversible operation.
pub open spec fn applied(value: u64, op: OperationCode, parameter: u64) -> u64 {
    let shift = (parameter % 63 + 1) as u64;
    match op {
        OperationCode::Xor => value ^ parameter,
        OperationCode::RotateLeft => rotl(value, parameter as int % 64),
        OperationCode::RotateRight => rotr(value, parameter as int % 64),
        OperationCode::XorShiftLeft => value ^ (value << shift),
        OperationCode::XorShiftRight => value ^ (value >> shift),
        OperationCode::Add => value.wrapping_add(parameter),
        OperationCode::Subtract => value.wrapping_sub(parameter),
        OperationCode::MultiplyOdd => value.wrapping_mul(parameter | 1),
        OperationCode::BitPermutation => reversed(value),
        OperationCode::WalshHadamard => reversed(value),
        OperationCode::PhaseReflect => value ^ rotl(parameter, 17),
        _ => !value,
    }
}

/// A word before a reversible operation.
pub open spec fn unapplied(value: u64, op: OperationCode, parameter: u64) -> u64 {
    let shift = (parameter % 63 + 1) as nat;
    match op {
        OperationCode::Xor => value ^ parameter,
        OperationCode::RotateLeft => rotr(value, parameter as int % 64),
        OperationCode::RotateRight => rotl(value, parameter as int % 64),
        OperationCode::XorShiftLeft => unshifted_left(value, shift),
        OperationCode::XorShiftRight => unshifted_right(value, shift),
        OperationCode::Add => value.wrapping_sub(parameter),
        OperationCode::Subtract => value.wrapping_add(parameter),
        OperationCode::MultiplyOdd => value.wrapping_mul(inverse_odd(parameter | 1)),
        OperationCode::BitPermutation => reversed(value),
        OperationCode::WalshHadamard => reversed(value),
        OperationCode::PhaseReflect => value ^ rotl(parameter, 17),
        _ => !value,
    }
}

/// A reversible operation and its inverse undo each other.
pub proof fn law_operation_is_undone(value: u64, op: OperationCode, parameter: u64)
    requires
        is_reversible(op),
    ensures
        unapplied(applied(value, op, parameter), op, parameter) == value,
        applied(unapplied(value, op, parameter), op, parameter) == value,
{
    let shift = (parameter % 63 + 1) as nat;
    let phase = rotl(parameter, 17);
    match op {
        OperationCode::RotateLeft | OperationCode::RotateRight => {
            crate::words::lemma_rotations_invert(value, parameter as int % 64);
        },
        OperationCode::XorShiftLeft => {
            crate::kernel::invert::law_shift_left_is_undone(value, shift);
        },
        OperationCode::XorShiftRight => {
            crate::kernel::invert::law_shift_right_is_undone(value, shift);
        },
        OperationCode::MultiplyOdd => {
            lemma_made_odd(parameter);
            crate::kernel::invert::law_odd_product_is_undone(value, parameter | 1);
        },
        OperationCode::BitPermutation | OperationCode::WalshHadamard => {
            crate::kernel::invert::law_reversed(value, 0);
        },
        _ => {
            assert(value ^ parameter ^ parameter == value && value ^ phase ^ phase == value && !!value
                == value) by (bit_vector);
        },
    }
}

proof fn lemma_made_odd(parameter: u64)
    ensures
        (parameter | 1) % 2 == 1,
{
    assert((parameter | 1) % 2 == 1) by (bit_vector);
}

/// Why an operation cannot be used on a word by itself.
pub open spec fn irreversible(op: OperationCode) -> Seq<char> {
    "operation "@ + name_of(op) + " is not reversible at word level"@
}

fn irreversible_text(op: OperationCode) -> (s: String)
    ensures
        s@ == irreversible(op),
{
    "operation ".to_string().concat(op.name()).concat(" is not reversible at word level")
}

fn apply_operation(value: u64, operation: OperationCode, parameter: u64) -> (r: Result<u64, String>)
    ensures
        match r {
            Ok(v) => is_reversible(operation) && v == applied(value, operation, parameter),
            Err(e) => !is_reversible(operation) && e@ == irreversible(operation),
        },
{
    let shift: u64 = parameter % 63 + 1;
    let rotate: u32 = (parameter % 64) as u32;
    match operation {
        OperationCode::Xor => Ok(value ^ parameter),
        OperationCode::RotateLeft => Ok(rotate_left(value, rotate)),
        OperationCode::RotateRight => Ok(rotate_right(value, rotate)),
        OperationCode::XorShiftLeft => Ok(value ^ (value << shift)),
        OperationCode::XorShiftRight => Ok(value ^ (value >> shift)),
        OperationCode::Add => Ok(value.wrapping_add(parameter)),
        OperationCode::Subtract => Ok(value.wrapping_sub(parameter)),
        OperationCode::MultiplyOdd => Ok(value.wrapping_mul(parameter | 1)),
        OperationCode::BitPermutation => Ok(reverse_bits(value)),
        OperationCode::WalshHadamard => Ok(reverse_bits(value)),
        OperationCode::PhaseReflect => Ok(value ^ rotate_left(parameter, 17)),
        OperationCode::Not => Ok(!value),
        other => Err(irreversible_text(other)),
    }
}

fn invert_operation(value: u64, operation: OperationCode, parameter: u64) -> (r: Result<
    u64,
    String,
>)
    ensures
        match r {
            Ok(v) => is_reversible(operation) && v == unapplied(value, operation, parameter),
            Err(e) => !is_reversible(operation) && e@ == irreversible(operation),
        },
{
    let shift: u32 = (parameter % 63 + 1) as u32;
    let rotate: u32 = (parameter % 64) as u32;
    proof {
        lemma_made_odd(parameter);
    }
    match operation {
        OperationCode::Xor => Ok(value ^ parameter),
        OperationCode::RotateLeft => Ok(rotate_right(value, rotate)),
        OperationCode::RotateRight => Ok(rotate_left(value, rotate)),
        OperationCode::XorShiftLeft => Ok(invert_xorshift_left(value, shift)),
        OperationCode::XorShiftRight => Ok(invert_xorshift_right(value, shift)),
        OperationCode::Add => Ok(value.wrapping_sub(parameter)),
        OperationCode::Subtract => Ok(value.wrapping_add(parameter)),
        OperationCode::MultiplyOdd => Ok(value.wrapping_mul(modular_inverse_odd(parameter | 1))),
        OperationCode::BitPermutation => Ok(reverse_bits(value)),
        OperationCode::WalshHadamard => Ok(reverse_bits(value)),
        OperationCode::PhaseReflect => Ok(value ^ rotate_left(parameter, 17)),
        OperationCode::Not => Ok(!value),
        other => Err(irreversible_text(other)),
    }
}

/// A word after the rounds of a schedule.
pub open spec fn forward(schedule: Seq<OperationCode>, root: u64, value: u64) -> Result<
    u64,
    Seq<char>,
>
    decreases schedule.len(),
{
    if schedule.len() == 0 {
        Ok(value)
    } else {
        match forward(schedule.drop_last(), root, value) {
            Err(e) => Err(e),
            Ok(state) => if is_reversible(schedule.last()) {
                Ok(
                    applied(
                        state,
                        schedule.last(),
                        constant_of(root, (schedule.len() - 1) as nat),
                    ),
                )
            } else {
                Err(irreversible(schedule.last()))
            },
        }
    }
}

/// A word before the rounds of a schedule.
pub open spec fn backward(schedule: Seq<OperationCode>, root: u64, value: u64) -> Result<
    u64,
    Seq<char>,
>
    decreases schedule.len(),
{
    if schedule.len() == 0 {
        Ok(value)
    } else if is_reversible(schedule.last()) {
        backward(
            schedule.drop_last(),
            root,
            unapplied(value, schedule.last(), constant_of(root, (schedule.len() - 1) as nat)),
        )
    } else {
        Err(irreversible(schedule.last()))
    }
}

/// Every operation of the schedule can be undone.
pub open spec fn all_reversible(schedule: Seq<OperationCode>) -> bool {
    forall|i: int| 0 <= i < schedule.len() ==> is_reversible(#[trigger] schedule[i])
}

/// A fault in the first rounds is a fault of the schedule.
proof fn lemma_forward_fault(schedule: Seq<OperationCode>, root: u64, value: u64, k: int)
    requires
        0 <= k <= schedule.len(),
        forward(schedule.take(k), root, value) is Err,
    ensures
        forward(schedule, root, value) == forward(schedule.take(k), root, value),
    decreases schedule.len() - k,
{
    if k == schedule.len() {
        assert(schedule.take(k) =~= schedule);
    } else {
        assert(schedule.take(k + 1).drop_last() =~= schedule.take(k));
        lemma_forward_fault(schedule, root, value, k + 1);
    }
}

impl GeneratedBase {
    /// Runs the schedule on a word.
    pub fn apply_forward(&self, value: u64) -> (r: Result<u64, String>)
        ensures
            match r {
                Ok(v) => forward(self.operation_schedule@, self.root.value, value) == Ok::<
                    u64,
                    Seq<char>,
                >(v),
                Err(e) => forward(self.operation_schedule@, self.root.value, value) == Err::<
                    u64,
                    Seq<char>,
                >(e@),
            },
    {
        let n: usize = self.operation_schedule.len();
        let mut state: u64 = value;
        let ghost all = self.operation_schedule@;
        assert(all.take(0) =~= Seq::empty());
        for i in 0..n
            invariant
                all == self.operation_schedule@,
                n == self.operation_schedule.len(),
                forward(all.take(i as int), self.root.value, value) == Ok::<u64, Seq<char>>(state),
        {
            assert(all.take(i + 1).drop_last() =~= all.take(i as int));
            match apply_operation(state, self.operation_schedule[i], round_constant(self.root, i)) {
                Ok(next) => {
                    state = next;
                },
                Err(e) => {
                    proof {
                        lemma_forward_fault(all, self.root.value, value, i + 1);
                    }
                    return Err(e);
                },
            }
        }
        assert(all.take(n as int) =~= all);
        Ok(state)
    }

    /// Runs the schedule backwards.
    pub fn apply_inverse(&self, value: u64) -> (r: Result<u64, String>)
        ensures
            match r {
                Ok(v) => backward(self.operation_schedule@, self.root.value, value) == Ok::<
                    u64,
                    Seq<char>,
                >(v),
                Err(e) => backward(self.operation_schedule@, self.root.value, value) == Err::<
                    u64,
                    Seq<char>,
                >(e@),
            },
    {
        let mut k: usize = self.operation_schedule.len();
        let mut state: u64 = value;
        let ghost all = self.operation_schedule@;
        assert(all.take(k as int) =~= all);
        while k > 0
            invariant
                all == self.operation_schedule@,
                k <= self.operation_schedule.len(),
                backward(all, self.root.value, value) == backward(
                    all.take(k as int),
                    self.root.value,
                    state,
                ),
            decreases k,
        {
            assert(all.take(k as int).drop_last() =~= all.take(k - 1));
            let round: usize = k - 1;
            match invert_operation(
                state,
                self.operation_schedule[round],
                round_constant(self.root, round),
            ) {
                Ok(next) => {
                    state = next;
                },
                Err(e) => return Err(e),
            }
            k = round;
        }
        assert(backward(all.take(0), self.root.value, state) == Ok::<u64, Seq<char>>(state));
        Ok(state)
    }
}

/// A schedule of operations that can be undone runs on every word, forwards
/// and backwards, and the two directions undo each other.
pub proof fn law_schedule_is_undone(schedule: Seq<OperationCode>, root: u64, value: u64)
    requires
        all_reversible(schedule),
    ensures
        forward(schedule, root, value) matches Ok(v) && backward(schedule, root, v) == Ok::<
            u64,
            Seq<char>,
        >(value),
        backward(schedule, root, value) matches Ok(v) && forward(schedule, root, v) == Ok::<
            u64,
            Seq<char>,
        >(value),
    decreases schedule.len(),
{
    if schedule.len() > 0 {
        let front = schedule.drop_last();
        let op = schedule.last();
        let c = constant_of(root, (schedule.len() - 1) as nat);
        assert forall|i: int| 0 <= i < front.len() implies is_reversible(#[trigger] front[i]) by {
            assert(front[i] == schedule[i]);
        }
        law_schedule_is_undone(front, root, value);
        law_operation_is_undone(forward(front, root, value)->Ok_0, op, c);
        law_schedule_is_undone(front, root, unapplied(value, op, c));
        law_operation_is_undone(value, op, c);
    }
}

/// A direct operation of the list is one whose entry says so.
proof fn lemma_direct_codes(ops: Seq<OperationSpec>)
    ensures
        forall|k: int|
            0 <= k < direct_codes(ops).len() ==> exists|i: int|
                0 <= i < ops.len() && (#[trigger] ops[i]).safety == SafetyClass::DirectlyReversible
                    && ops[i].code == #[trigger] direct_codes(ops)[k],
    decreases ops.len(),
{
    if ops.len() > 0 {
        let front = ops.drop_last();
        let codes = direct_codes(ops);
        lemma_direct_codes(front);
        assert forall|k: int| 0 <= k < codes.len() implies exists|i: int|
            0 <= i < ops.len() && (#[trigger] ops[i]).safety == SafetyClass::DirectlyReversible
                && ops[i].code == #[trigger] codes[k] by {
            if k < direct_codes(front).len() {
                assert(codes[k] == direct_codes(front)[k]);
                let i = choose|i: int|
                    0 <= i < front.len() && (#[trigger] front[i]).safety
                        == SafetyClass::DirectlyReversible && front[i].code == direct_codes(
                        front,
                    )[k];
                assert(ops[i] == front[i]);
            } else {
                assert(ops[ops.len() - 1] == ops.last());
            }
        }
    }
}

/// Whatever the seed, a schedule generated from the standard base can be
/// undone.
pub proof fn law_generated_schedule_is_reversible(seed: u64)
    ensures
        direct_codes(standard_operations()).len() > 0,
        all_reversible(schedule_of(direct_codes(standard_operations()), seed)),
{
    let ops = standard_operations();
    let codes = direct_codes(ops);
    law_standard_base_is_sound();
    lemma_direct_codes(ops);
    lemma_direct_found(ops, 0);
    let schedule = schedule_of(codes, seed);
    assert forall|i: int| 0 <= i < schedule.len() implies is_reversible(#[trigger] schedule[i]) by {
        let k = (generator_state(seed, (i + 1) as nat) as int) % codes.len() as int;
        assert(schedule[i] == codes[k]);
    }
}

/// A direct operation makes the list of direct operations non-empty.
proof fn lemma_direct_found(ops: Seq<OperationSpec>, i: int)
    requires
        0 <= i < ops.len(),
        ops[i].safety == SafetyClass::DirectlyReversible,
    ensures
        direct_codes(ops).len() > 0,
    decreases ops.len(),
{
    if i < ops.len() - 1 {
        lemma_direct_found(ops.drop_last(), i);
    }
}

/// A base is sound exactly where it has a version, lists no operation and no
/// pattern twice, and has the six operations and the pattern that every base
/// needs.
pub proof fn law_sound_base(version: u8, ops: Seq<OperationSpec>, patterns: Seq<PatternId>)
    ensures
        base_fault(version, ops, patterns) is None <==> {
            &&& version > 0
            &&& forall|i: int, j: int|
                0 <= i < ops.len() && 0 <= j < ops.len() && i != j ==> (#[trigger] ops[i]).code != (
                #[trigger] ops[j]).code
            &&& patterns.no_duplicates()
            &&& lists(ops, OperationCode::Xor)
            &&& lists(ops, OperationCode::RotateLeft)
            &&& lists(ops, OperationCode::Add)
            &&& lists(ops, OperationCode::MultiplyOdd)
            &&& lists(ops, OperationCode::WalshHadamard)
            &&& lists(ops, OperationCode::PhaseReflect)
            &&& patterns.contains(PatternId::SpectralInvolution)
        },
{
    if unique_codes(ops) {
        assert forall|i: int, j: int|
            0 <= i < ops.len() && 0 <= j < ops.len() && i != j implies (#[trigger] ops[i]).code != (
        #[trigger] ops[j]).code by {
            if i < j {
                assert(ops[i].code != ops[j].code);
            } else {
                assert(ops[j].code != ops[i].code);
            }
        }
    }
    if unique_patterns(patterns) {
        assert forall|i: int, j: int|
            0 <= i < patterns.len() && 0 <= j < patterns.len() && i != j implies patterns[i]
            != patterns[j] by {
            if i < j {
                assert(patterns[i] != patterns[j]);
            } else {
                assert(patterns[j] != patterns[i]);
            }
        }
    }
}

/// Every round of a schedule has a parameter of its own, and different roots give
/// a round different parameters.
pub proof fn law_round_constants_differ(left: u64, right: u64, i: nat, j: nat)
    requires
        i < u64::MAX,
        j < u64::MAX,
    ensures
        constant_of(left, i) == constant_of(left, j) ==> i == j,
        constant_of(left, i) == constant_of(right, i) ==> left == right,
{
    let c = 0x9E37_79B9_7F4A_7C15u64;
    let (x, y) = ((i + 1) as u64, (j + 1) as u64);
    let (p, q) = (x.wrapping_mul(c), y.wrapping_mul(c));
    crate::kernel::invert::law_odd_product_is_undone(x, c);
    crate::kernel::invert::law_odd_product_is_undone(y, c);
    if constant_of(left, i) == constant_of(left, j) {
        crate::kernel::topology::law_avalanche_tells_words(
            left.wrapping_add(p),
            left.wrapping_add(q),
        );
    }
    if constant_of(left, i) == constant_of(right, i) {
        crate::kernel::topology::law_avalanche_tells_words(
            left.wrapping_add(p),
            right.wrapping_add(p),
        );
    }
}

} // verus!
