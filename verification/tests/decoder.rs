use pack::decoder::decode_file;
use pack::encoder::{Archive, FileEncoder};
use pack::fwht::block_peaks;

fn entropy_of(peaks: &[(usize, i64)]) -> f64 {
    let norm = peaks.len() as f64;
    let sum_sq: f64 = peaks.iter().map(|&(_, a)| (a as f64 / norm).powi(2)).sum();
    if sum_sq <= 0.0 {
        return 1.0;
    }
    let h: f64 = peaks
        .iter()
        .map(|&(_, a)| (a as f64 / norm).powi(2) / sum_sq)
        .filter(|&p| p > 0.0)
        .map(|p| -p * p.ln())
        .sum();
    (h / norm.ln()).clamp(0.0, 1.0)
}

fn encode_file(data: &[u8], start_window_bits: usize, rounds: usize) -> Archive {
    let mut encoder = FileEncoder::new(data, start_window_bits, rounds);
    while let Some((block, window)) = encoder.pending() {
        let entropy = entropy_of(&block_peaks(&block, window));
        encoder.advance(entropy < 0.30, entropy > 0.70);
    }
    encoder.finish()
}

fn lcg_bytes(n: usize) -> Vec<u8> {
    let mut s = 0xCAFEBABEDEADBEEFu64;
    (0..n).map(|_| { s = s.wrapping_mul(6364136223846793005).wrapping_add(1); (s>>56) as u8 }).collect()
}

#[test]
fn roundtrip_uniform() {
    let data = vec![0x3Cu8; 512];
    let archive = encode_file(&data, 4096, 3);
    let recovered = decode_file(&archive);
    assert_eq!(data, recovered, "roundtrip failed for uniform block");
}

#[test]
fn roundtrip_lcg_noise() {
    let data = lcg_bytes(512);
    let archive = encode_file(&data, 4096, 3);
    let recovered = decode_file(&archive);
    assert_eq!(data, recovered, "roundtrip failed for LCG noise");
}

#[test]
fn roundtrip_ascii() {
    let data = b"Hello world! This is a test of the metagen compression engine. \
                 The quick brown fox jumps over the lazy dog. \
                 Pack compresses by logging branch decisions, not XOR residuals."
        .to_vec();
    let padded = {
        let mut v = data.clone();
        while v.len() < 512 { v.push(0); }
        v
    };
    let archive = encode_file(&padded, 4096, 3);
    let recovered = decode_file(&archive);
    assert_eq!(padded, recovered, "roundtrip failed for ascii text");
}

#[test]
fn compressed_smaller_than_original() {
    for &pattern in &[0x3Cu8, 0x00u8, 0xA5u8] {
        let data = vec![pattern; 512];
        let archive = encode_file(&data, 4096, 3);
        assert!(
            archive.compressed_bytes() < data.len(),
            "pattern=0x{pattern:02X}: compressed={}B must < original={}B",
            archive.compressed_bytes(), data.len()
        );
    }
}
