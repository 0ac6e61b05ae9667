use pack::keygen::synthesize_k;
use pack::operator::{audit, decode_block, encode_block};

fn make_block(pattern: u8, size_bytes: usize) -> Vec<u8> {
    vec![pattern; size_bytes]
}

fn make_lcg(n: usize) -> Vec<u8> {
    let mut s = 0xDEADBEEFCAFEBABEu64;
    (0..n)
        .map(|_| {
            s = s.wrapping_mul(6364136223846793005).wrapping_add(1);
            (s >> 56) as u8
        })
        .collect()
}

#[test]
fn encode_decode_lossless_uniform() {
    let block = make_block(0x3C, 512);
    let (key, _) = synthesize_k(&block, 4096);
    let (enc, branch) = encode_block(&block, &key, 3);
    let dec = decode_block(&enc, &key, &branch, 3);
    assert_eq!(block, dec, "lossless roundtrip failed for uniform block");
}

#[test]
fn encode_decode_lossless_lcg() {
    let block = make_lcg(512);
    let (key, _) = synthesize_k(&block, 4096);
    let (enc, branch) = encode_block(&block, &key, 3);
    let dec = decode_block(&enc, &key, &branch, 3);
    assert_eq!(block, dec, "lossless roundtrip failed for LCG noise");
}

#[test]
fn v_size_independent_of_block_size() {
    // Same key structure, different window sizes
    for &(size_bytes, window) in &[(512usize, 4096usize), (2048, 16384)] {
        let block = make_block(0x3C, size_bytes);
        let (key, _) = synthesize_k(&block, window);
        let rounds = 3;
        let (_, branch) = encode_block(&block, &key, rounds);
        let expected_v = key.peak_indices.len() * rounds;
        assert_eq!(
            branch.len(),
            expected_v,
            "|V|={} but expected peaks*rounds={}*{}={}",
            branch.len(), key.peak_indices.len(), rounds, expected_v
        );
    }
}

#[test]
fn compression_audit_passes_for_uniform() {
    let block = make_block(0x3C, 512);
    let (key, _) = synthesize_k(&block, 4096);
    let (_, branch) = encode_block(&block, &key, 3);
    assert!(
        audit(&key, &branch, 64),
        "|K|={}b + |V|={}b + 64b overhead must < 4096b",
        key.bit_len(), branch.len()
    );
}

#[test]
fn encoded_differs_from_original() {
    // Encoding must actually transform the block
    let block = make_block(0xAA, 512);
    let (key, _) = synthesize_k(&block, 4096);
    if key.peak_indices.is_empty() {
        return; // nothing to encode, skip
    }
    let (enc, _) = encode_block(&block, &key, 3);
    let enc_bytes: Vec<u8> = enc.iter().flat_map(|w| w.to_le_bytes()).collect();
    assert_ne!(block, enc_bytes, "encoded block must differ from original");
}
