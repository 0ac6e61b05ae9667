use pack::kernel::trajectory::{
    decode_parity_trajectory, encode_parity_trajectory, ParityTrajectory,
};

#[test]
fn v_contains_exact_forward_parity_order_and_reconstructs_backwards() {
    let value = 13_u64;
    let trajectory = encode_parity_trajectory(value, 4).unwrap();
    assert_eq!(trajectory.crumbs, vec![true, false, true, true]);
    assert_eq!(decode_parity_trajectory(&trajectory).unwrap(), value);
}

#[test]
fn every_crumb_is_semantically_required_for_unique_reconstruction() {
    let trajectory = encode_parity_trajectory(0b1011_0110, 8).unwrap();
    let original = decode_parity_trajectory(&trajectory).unwrap();
    for index in 0..trajectory.crumbs.len() {
        let mut changed = trajectory.clone();
        changed.crumbs[index] = !changed.crumbs[index];
        assert_ne!(decode_parity_trajectory(&changed).unwrap(), original);
    }
}

#[test]
fn decoder_requires_only_terminal_and_v_without_hidden_state() {
    let portable = ParityTrajectory {
        terminal: 0x1234,
        crumbs: vec![true, false, true, false],
    };
    assert_eq!(
        decode_parity_trajectory(&portable).unwrap(),
        (0x1234_u64 << 4) | 0b0101
    );
}
