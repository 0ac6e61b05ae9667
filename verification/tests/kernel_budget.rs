use pack::kernel::budget::{accept_incremental_rule, BitBudget, CompressionPolicy};

#[test]
fn metrics_account_for_k_v_and_overhead_separately() {
    let budget = BitBudget {
        source_bits: 4096,
        key_bits: 256,
        crumb_bits: 3000,
        overhead_bits: 64,
    };
    assert_eq!(budget.encoded_bits().unwrap(), 3320);
    assert_eq!(budget.gain_bits().unwrap(), 776);
    let (crumbs, source) = budget.crumb_ratio().unwrap();
    assert!((crumbs as f64 / source as f64 - 3000.0 / 4096.0).abs() < 1e-12);
}

#[test]
fn hard_constraint_rejects_non_compression_and_less_than_ten_percent_gain() {
    let policy = CompressionPolicy::mvp();
    assert!(!policy
        .accepts(BitBudget {
            source_bits: 4096,
            key_bits: 256,
            crumb_bits: 3776,
            overhead_bits: 64,
        })
        .unwrap());
    assert!(!policy
        .accepts(BitBudget {
            source_bits: 4096,
            key_bits: 256,
            crumb_bits: 3400,
            overhead_bits: 64,
        })
        .unwrap());
    assert!(policy
        .accepts(BitBudget {
            source_bits: 4096,
            key_bits: 256,
            crumb_bits: 3200,
            overhead_bits: 64,
        })
        .unwrap());
}

#[test]
fn hard_constraint_enforces_variable_k_upper_bound() {
    let policy = CompressionPolicy::mvp();
    assert!(!policy
        .accepts(BitBudget {
            source_bits: 4096,
            key_bits: 513,
            crumb_bits: 1,
            overhead_bits: 1,
        })
        .unwrap());
    assert!(!policy
        .accepts(BitBudget {
            source_bits: 1024,
            key_bits: 257,
            crumb_bits: 1,
            overhead_bits: 1,
        })
        .unwrap());
}

#[test]
fn exact_boundary_is_not_accepted_as_strict_compression() {
    let policy = CompressionPolicy {
        minimum_gain_permille: 0,
        ..CompressionPolicy::mvp()
    };
    assert!(!policy
        .accepts(BitBudget {
            source_bits: 1024,
            key_bits: 128,
            crumb_bits: 832,
            overhead_bits: 64,
        })
        .unwrap());
}

#[test]
fn greedy_budget_accepts_only_profitable_rules() {
    assert!(accept_incremental_rule(64, 3000, 16, 2970).unwrap());
    assert!(!accept_incremental_rule(64, 3000, 16, 2985).unwrap());
    assert!(!accept_incremental_rule(64, 3000, 16, 3010).unwrap());
}
