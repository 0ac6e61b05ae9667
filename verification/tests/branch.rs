use pack::branch::{branch_step, parity64, BranchBit, BranchVector};

#[test]
fn branch_vector_roundtrip() {
    let mut v = BranchVector::new();
    let bits = [true, false, true, true, false, true, false, false, true];
    for &b in &bits {
        v.push(BranchBit::from(b));
    }
    assert_eq!(v.len(), bits.len());
    for (i, &b) in bits.iter().enumerate() {
        assert_eq!(v.get(i), BranchBit::from(b), "mismatch at {i}");
    }
    let bytes = v.to_bytes();
    let v2 = BranchVector::from_bytes(&bytes).expect("deserialise");
    for i in 0..bits.len() {
        assert_eq!(v.get(i), v2.get(i), "roundtrip mismatch at {i}");
    }
}

#[test]
fn parity_matches_popcount() {
    for x in [0u64, 1, 0xFF, 0xA5A5A5A5u64, u64::MAX] {
        let expected = BranchBit::from(x.count_ones() % 2 == 1);
        assert_eq!(parity64(x), expected, "parity mismatch for {x:#x}");
    }
}

#[test]
fn branch_step_is_deterministic() {
    let (s1, b1) = branch_step(0xDEADBEEFCAFEBABEu64, 0xFF00FF00FF00FF00u64);
    let (s2, b2) = branch_step(0xDEADBEEFCAFEBABEu64, 0xFF00FF00FF00FF00u64);
    assert_eq!(s1, s2);
    assert_eq!(b1, b2);
}

#[test]
fn v_size_equals_steps_not_block() {
    // Simulate 16 expansion steps on a 4096-bit block.
    // V must be exactly 16 bits regardless of block size.
    let mut v = BranchVector::new();
    let mut state = 0xCAFEBABEDEADBEEFu64;
    let mask = 0xF0F0F0F0F0F0F0F0u64;
    for _ in 0..16 {
        let (new_state, bit) = branch_step(state, mask);
        v.push(bit);
        state = new_state;
    }
    assert_eq!(v.len(), 16, "|V| must equal number of steps");
    // Compare to a "block" that would be 4096 bits
    let block_bits = 4096usize;
    assert!(
        v.byte_len() * 8 < block_bits,
        "|V|={} bits must be << block={block_bits} bits",
        v.byte_len() * 8
    );
}
