use pack::kernel::base::{
    generate_base_from_root, standard_base, OperationCode, PatternId, RootSeed, SafetyClass,
};

#[test]
fn b_std_is_deterministic_and_contains_required_algebra() {
    let left = standard_base(1).unwrap();
    let right = standard_base(1).unwrap();
    assert_eq!(left, right);
    left.validate().unwrap();
    assert!(left.patterns.contains(&PatternId::SpectralInvolution));
    assert_eq!(
        left.operation(OperationCode::WalshHadamard).unwrap().safety,
        SafetyClass::DirectlyReversible
    );
}

#[test]
fn irreversible_macros_are_restricted_to_feistel_or_phase_context() {
    let base = standard_base(1).unwrap();
    for code in [
        OperationCode::Or,
        OperationCode::And,
        OperationCode::Popcnt,
        OperationCode::CountLeadingZeros,
        OperationCode::CountTrailingZeros,
    ] {
        assert_eq!(
            base.operation(code).unwrap().safety,
            SafetyClass::FeistelOrPhaseOnly
        );
    }
}

#[test]
fn unknown_base_version_is_rejected() {
    assert!(standard_base(0).is_err());
    assert!(standard_base(2).is_err());
}

#[test]
fn k_root_generates_the_same_file_base_for_both_sides() {
    let base = standard_base(1).unwrap();
    let left = generate_base_from_root(&base, RootSeed { value: 0xDEAD_BEEF }).unwrap();
    let right = generate_base_from_root(&base, RootSeed { value: 0xDEAD_BEEF }).unwrap();
    assert_eq!(left, right);
}

#[test]
fn changing_k_root_changes_generated_base_schedule() {
    let base = standard_base(1).unwrap();
    let left = generate_base_from_root(&base, RootSeed { value: 1 }).unwrap();
    let right = generate_base_from_root(&base, RootSeed { value: 2 }).unwrap();
    assert_ne!(left.operation_schedule, right.operation_schedule);
}

#[test]
fn generated_base_schedule_is_executable_and_reversible() {
    let base = standard_base(1).unwrap();
    let generated = generate_base_from_root(
        &base,
        RootSeed {
            value: 0xDEAD_BEEF_CAFE_BABE,
        },
    )
    .unwrap();
    for value in [0, 1, u64::MAX, 0x0123_4567_89AB_CDEF] {
        let encoded = generated.apply_forward(value).unwrap();
        assert_ne!(encoded, value);
        assert_eq!(generated.apply_inverse(encoded).unwrap(), value);
    }
}

#[test]
fn changing_generated_schedule_changes_execution() {
    let base = standard_base(1).unwrap();
    let left = generate_base_from_root(&base, RootSeed { value: 11 }).unwrap();
    let right = generate_base_from_root(&base, RootSeed { value: 12 }).unwrap();
    let value = 0x0123_4567_89AB_CDEF;
    assert_ne!(
        left.apply_forward(value).unwrap(),
        right.apply_forward(value).unwrap()
    );
}
