use pack::keygen::{index_bits_for, is_profitable, synthesize_k};

#[test]
fn uniform_block_is_profitable() {
    let block = vec![0x3Cu8; 512]; // 512 bytes = 4096 bits
    let (key, v_bits) = synthesize_k(&block, 4096);
    assert!(
        !key.peak_indices.is_empty(),
        "uniform block must yield at least one accepted peak"
    );
    assert!(
        is_profitable(&key, v_bits, 64),
        "|K|={}b + |V|={}b + overhead=64b must < 4096b",
        key.bit_len(),
        v_bits
    );
}

#[test]
fn random_block_may_not_be_profitable() {
    // Pure LCG noise — metagen should not force-compress
    let mut s = 0xBADC0FFEu64;
    let block: Vec<u8> = (0..512)
        .map(|_| {
            s = s.wrapping_mul(6364136223846793005).wrapping_add(1);
            (s >> 56) as u8
        })
        .collect();
    let (key, v_bits) = synthesize_k(&block, 4096);
    // We don't assert this MUST fail — but we assert no silent data loss:
    // either profitable OR key is empty (honest fallback)
    if !is_profitable(&key, v_bits, 64) {
        assert!(
            key.peak_indices.is_empty() || v_bits >= 4096 / 2,
            "unprofitable block must have empty key or large V"
        );
    }
}

#[test]
fn k_size_scales_with_log2_window() {
    // For a 4096-bit window: each peak costs 12 bits
    assert_eq!(index_bits_for(4096), 12);
    // For a 1024-bit window: each peak costs 10 bits
    assert_eq!(index_bits_for(1024), 10);
    // For a 65536-bit window: 16 bits
    assert_eq!(index_bits_for(65536), 16);
}

#[test]
fn estimated_v_never_exceeds_block() {
    for &window in &[1024usize, 4096, 16384] {
        let block = vec![0xAAu8; window / 8];
        let (_, v_bits) = synthesize_k(&block, window);
        assert!(
            v_bits <= window,
            "estimated V={v_bits} must not exceed window={window}"
        );
    }
}

#[test]
fn no_peak_is_kept_where_the_key_does_not_pay() {
    let (key, v_bits) = synthesize_k(&[0xAA; 8], 64);
    assert!(key.peak_indices.is_empty());
    assert_eq!(v_bits, 64);
    for window in [64_usize, 128, 256, 512, 1024, 4096] {
        for pattern in [0x00_u8, 0x3C, 0xAA, 0xF0, 0x5A] {
            let (key, v_bits) = synthesize_k(&vec![pattern; window / 8], window);
            assert_eq!(key.feistel_odd_mul % 2, 1);
            assert!(key.peak_indices.iter().all(|index| 0 < *index && *index < window));
            if key.peak_indices.is_empty() {
                assert_eq!(v_bits, window);
            } else {
                assert!(key.bit_len() + v_bits < window);
            }
        }
    }
    let (key, _) = synthesize_k(&[0x3C; 512], 4096);
    assert!(!key.peak_indices.is_empty());
}
