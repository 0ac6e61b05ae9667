use pack::kernel::reversible::{feistel_forward, feistel_inverse, FeistelKey, FeistelRoundKey};

fn sample_key() -> FeistelKey {
    FeistelKey {
        rounds: vec![
            FeistelRoundKey {
                shift_left: 5,
                shift_right: 11,
                rotate: 7,
                odd_multiplier: 0x9E37_79B1,
                add: 0xA5A5_5A5A,
                mask: 0x0F0F_F0F0,
            },
            FeistelRoundKey {
                shift_left: 13,
                shift_right: 3,
                rotate: 17,
                odd_multiplier: 0x85EB_CA6B,
                add: 0xC2B2_AE35,
                mask: 0x3333_CCCC,
            },
        ],
    }
}

#[test]
fn feistel_arx_fk_roundtrips_many_states() {
    let key = sample_key();
    for index in 0..10_000_u64 {
        let value = index
            .wrapping_mul(0x9E37_79B9_7F4A_7C15)
            .rotate_left((index % 64) as u32);
        let encoded = feistel_forward(value, &key).unwrap();
        let decoded = feistel_inverse(encoded, &key).unwrap();
        assert_eq!(decoded, value);
    }
}

#[test]
fn popcnt_inside_round_does_not_break_feistel_invertibility() {
    let key = sample_key();
    let value = 0xDEAD_BEEF_0123_4567;
    assert_eq!(
        feistel_inverse(feistel_forward(value, &key).unwrap(), &key).unwrap(),
        value
    );
}

#[test]
fn even_multiplier_is_rejected() {
    let mut key = sample_key();
    key.rounds[0].odd_multiplier = 2;
    assert!(feistel_forward(42, &key)
        .unwrap_err()
        .contains("must be odd"));
}
