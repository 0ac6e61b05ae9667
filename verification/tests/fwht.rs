use pack::fwht::{adapt_window, block_peaks, fwht_inplace};

fn entropy_of(peaks: &[(usize, i64)]) -> f64 {
    let norm = peaks.len() as f64;
    let sum_sq: f64 = peaks.iter().map(|&(_, a)| (a as f64 / norm).powi(2)).sum();
    if sum_sq <= 0.0 {
        return 1.0;
    }
    let h: f64 = peaks
        .iter()
        .map(|&(_, a)| (a as f64 / norm).powi(2) / sum_sq)
        .filter(|&p| p > 0.0)
        .map(|p| -p * p.ln())
        .sum();
    (h / norm.ln()).clamp(0.0, 1.0)
}

#[test]
fn fwht_self_inverse() {
    for &n in &[64usize, 128, 256, 1024, 4096] {
        let orig: Vec<i64> = (0..n).map(|i| (i as i64 % 7) - 3).collect();
        let mut data = orig.clone();
        fwht_inplace(&mut data);
        fwht_inplace(&mut data);
        // After two passes: data[i] == orig[i] * n (standard unnormalised WHT)
        for (i, (&got, &src)) in data.iter().zip(orig.iter()).enumerate() {
            assert_eq!(
                got,
                src * n as i64,
                "self-inverse failed at index {i} for n={n}"
            );
        }
    }
}

#[test]
fn uniform_block_has_single_dominant_peak() {
    let data = vec![0x3Cu8; 512]; // 512 bytes = 4096 bits
    let peaks = block_peaks(&data, 4096);
    let entropy = entropy_of(&peaks);
    let top_amp = peaks[0].1.unsigned_abs();
    let second_amp = peaks[1].1.unsigned_abs();
    assert!(
        top_amp > second_amp * 10,
        "uniform block must have dominant single peak, got top={top_amp} second={second_amp}"
    );
    assert!(entropy < 0.1, "uniform block must have very low entropy");
}

#[test]
fn random_block_has_high_entropy() {
    // LCG noise
    let mut s = 0xDEADBEEFu64;
    let data: Vec<u8> = (0..512)
        .map(|_| {
            s = s.wrapping_mul(6364136223846793005).wrapping_add(1);
            (s >> 56) as u8
        })
        .collect();
    let peaks = block_peaks(&data, 4096);
    let entropy = entropy_of(&peaks);
    assert!(
        entropy > 0.5,
        "random block must have high spectral entropy, got {:.3}",
        entropy
    );
}

#[test]
fn window_doubles_on_sharp_spectrum() {
    let new_w = adapt_window(4096, 0.1 < 0.3, 0.1 > 0.7, 64, 1 << 20);
    assert_eq!(new_w, 8192);
}

#[test]
fn window_halves_on_flat_spectrum() {
    let new_w = adapt_window(4096, 0.9 < 0.3, 0.9 > 0.7, 64, 1 << 20);
    assert_eq!(new_w, 2048);
}
