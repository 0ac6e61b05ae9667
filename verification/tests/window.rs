use pack::window::{decode_adaptive, try_encode_adaptive};

#[test]
fn uniform_block_compresses() {
    let input = vec![0x3Cu8; 512];
    let result = try_encode_adaptive(&input);
    assert!(result.is_some(), "uniform 512-byte block should compress");
    let block = result.unwrap();
    assert!(block.wire.len() < 512);
}

#[test]
fn random_block_returns_none_or_no_expansion_guarantee() {
    // Random data may or may not compress; we just ensure no panic.
    let input: Vec<u8> = (0..512u16).map(|i| ((i * 37 + 11) % 256) as u8).collect();
    let _ = try_encode_adaptive(&input);
}

#[test]
fn window_doubles_until_max() {
    // 1-byte input: no window fits (need >=8 bytes). Should return None.
    let tiny = vec![0xFFu8; 4];
    assert!(try_encode_adaptive(&tiny).is_none());
}

#[test]
fn decode_roundtrip_tag_and_length() {
    let input = vec![0xAAu8; 64];
    if let Some(block) = try_encode_adaptive(&input) {
        let (decoded, consumed) = decode_adaptive(&block.wire).unwrap();
        assert_eq!(consumed, block.wire.len());
        assert_eq!(decoded.window_bits, block.window_bits);
        assert_eq!(decoded.v, block.v);
    }
}
