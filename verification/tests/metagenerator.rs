use pack::metagenerator::{derive_meta_k, MetaK, WalshPeak};

#[test]
fn pack_unpack_roundtrip() {
    let peaks = vec![
        WalshPeak { index: 7, amplitude: 120 },
        WalshPeak { index: 3, amplitude: -80 },
        WalshPeak { index: 15, amplitude: 40 },
    ];
    let k = MetaK::pack(&peaks, 9);
    let (unpacked, log2) = k.unpack();
    assert_eq!(log2, 9);
    assert_eq!(unpacked.len(), 3);
    assert_eq!(unpacked[0].index, 7);
    assert!(unpacked[1].amplitude < 0);
}

#[test]
fn uniform_words_have_single_dominant_peak() {
    let words = vec![0x3C3C3C3C3C3C3C3Cu64; 8];
    let k = derive_meta_k(&words, 9).unwrap();
    assert_eq!(k.window_bits(), 512);
}

#[test]
fn window_bits_matches_log2() {
    for log2 in 6u8..=12 {
        let peaks = vec![WalshPeak { index: 1, amplitude: 1 }];
        let k = MetaK::pack(&peaks, log2);
        assert_eq!(k.window_bits(), 1 << log2);
    }
}
