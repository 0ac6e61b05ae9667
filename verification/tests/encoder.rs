use pack::encoder::{Archive, FileEncoder};
use pack::fwht::block_peaks;

fn entropy_of(peaks: &[(usize, i64)]) -> f64 {
    let norm = peaks.len() as f64;
    let sum_sq: f64 = peaks.iter().map(|&(_, a)| (a as f64 / norm).powi(2)).sum();
    if sum_sq <= 0.0 {
        return 1.0;
    }
    let h: f64 = peaks
        .iter()
        .map(|&(_, a)| (a as f64 / norm).powi(2) / sum_sq)
        .filter(|&p| p > 0.0)
        .map(|p| -p * p.ln())
        .sum();
    (h / norm.ln()).clamp(0.0, 1.0)
}

fn encode_file(data: &[u8], start_window_bits: usize, rounds: usize) -> Archive {
    let mut encoder = FileEncoder::new(data, start_window_bits, rounds);
    while let Some((block, window)) = encoder.pending() {
        let entropy = entropy_of(&block_peaks(&block, window));
        encoder.advance(entropy < 0.30, entropy > 0.70);
    }
    encoder.finish()
}

fn ratio(archive: &Archive) -> f64 {
    (archive.original_bytes * 8) as f64 / (archive.compressed_bytes() * 8).max(1) as f64
}

fn lcg_bytes(n: usize) -> Vec<u8> {
    let mut s = 0xDEADBEEFCAFEBABEu64;
    (0..n).map(|_| { s = s.wrapping_mul(6364136223846793005).wrapping_add(1); (s>>56) as u8 }).collect()
}

#[test]
fn uniform_compresses_multi_layer() {
    let data = vec![0x3Cu8; 512];
    let archive = encode_file(&data, 4096, 3);
    assert!(ratio(&archive) > 5.0,
        "uniform 512B must compress >5x, got {:.2}x", ratio(&archive));
    assert!(archive.compressed_bytes() < data.len(),
        "compressed must be smaller than original");
}

#[test]
fn each_layer_reduces_size() {
    let data = lcg_bytes(2048);
    let archive = encode_file(&data, 4096, 3);
    for l in &archive.layers {
        // Every accepted layer must have been profitable at entry
        // (last layer may equal input if it was the stop trigger)
        assert!(
            l.info.output_bytes <= l.info.input_bytes || l.info.layer_idx == archive.layers.len() - 1,
            "layer {} must not expand: in={}B out={}B",
            l.info.layer_idx, l.info.input_bytes, l.info.output_bytes
        );
    }
}

#[test]
fn no_layer_emitted_when_all_noise() {
    // Even for LCG noise, at least 1 profitable layer must exist
    let data = lcg_bytes(512);
    let archive = encode_file(&data, 4096, 3);
    assert!(!archive.layers.is_empty(), "must emit at least 1 layer");
    // Final output must be smaller than input
    assert!(archive.compressed_bytes() < data.len(),
        "even noise must compress: got {}B from {}B",
        archive.compressed_bytes(), data.len());
}

#[test]
fn v_total_equals_peaks_times_rounds() {
    let data = vec![0x3Cu8; 512];
    let archive = encode_file(&data, 4096, 3);
    let layer0 = &archive.layers[0];
    let expected_v: usize = layer0.blocks.iter().map(|b| b.key.peak_indices.len() * 3).sum();
    assert_eq!(
        layer0.info.total_v_bits, expected_v,
        "|V_total|={} must equal sum(peaks*rounds)={}",
        layer0.info.total_v_bits, expected_v
    );
}

#[test]
fn a_layer_that_does_not_shrink_is_refused() {
    let archive = encode_file(&[0; 64], 512, 3);
    assert_eq!(archive.layers.len(), 1);
    assert_eq!(archive.compressed_bytes(), 30);
    for data in [vec![0x3C_u8; 512], vec![0_u8; 2048], lcg_bytes(2048), lcg_bytes(100)] {
        let archive = encode_file(&data, 4096, 3);
        assert!(!archive.layers.is_empty());
        for layer in &archive.layers[1..] {
            assert!(layer.info.output_bytes < layer.info.input_bytes);
        }
    }
}
