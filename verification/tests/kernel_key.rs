use pack::kernel::key::{
    ConstantFamily, ConstantLayout, PackedConstantK, RoutingKind, SpectralKey, SpectralPeakCode,
    SpectralProgram, TrajectoryKey,
};

fn sample_layout() -> ConstantLayout {
    ConstantLayout {
        family: ConstantFamily::Hybrid,
        routing: RoutingKind::Butterfly,
        branch_rounds: 6,
        rotate_left: 13,
        rotate_right: 7,
        gf2_shift: 9,
        lane_rotate: 5,
        pivot_seed: 11,
        branch_stride: 3,
        branch_span: 17,
        phase_mask: 0x6996_0579_31EE_C0DE,
        odd_multiplier: 0x9E37_79B9_7F4A_7C15,
        dominant_walsh_mask: 0x8080_8080_8080_8080,
        dominant_walsh_bias: false,
        affine_mask: Some(0xA5A5_5A5A_C3C3_3C3C),
    }
}

#[test]
fn packed_constant_roundtrips_through_variable_length_encoding() {
    let layout = sample_layout();
    let packed = PackedConstantK::from_layout(&layout).unwrap();
    assert!(packed.as_bytes().len() > 8);
    assert_eq!(
        PackedConstantK::parse(packed.as_bytes())
            .unwrap()
            .layout()
            .unwrap(),
        layout
    );
}

#[test]
fn packed_constant_length_depends_on_family_payload() {
    let hybrid = PackedConstantK::from_layout(&sample_layout()).unwrap();
    let mut simple = sample_layout();
    simple.family = ConstantFamily::PhaseXor;
    simple.affine_mask = None;
    let simple = PackedConstantK::from_layout(&simple).unwrap();
    assert!(hybrid.as_bytes().len() > simple.as_bytes().len());
}

#[test]
fn malformed_packed_constant_is_rejected() {
    assert!(PackedConstantK::parse(&[1, 0, 0]).is_err());
    let mut encoded = PackedConstantK::from_layout(&sample_layout())
        .unwrap()
        .into_bytes();
    encoded[0] = 9;
    assert!(PackedConstantK::parse(&encoded).is_err());
}

#[test]
fn non_odd_multiplier_is_rejected() {
    let mut layout = sample_layout();
    layout.odd_multiplier = 4;
    assert!(PackedConstantK::from_layout(&layout).is_err());
}

#[test]
fn spectral_program_roundtrips_through_typed_key() {
    let program = SpectralProgram {
        bit_len: 4096,
        peaks: vec![
            SpectralPeakCode {
                index: 17,
                positive: true,
                amplitude: 31,
            },
            SpectralPeakCode {
                index: 513,
                positive: false,
                amplitude: 7,
            },
            SpectralPeakCode {
                index: 1023,
                positive: true,
                amplitude: 1,
            },
        ],
        tie_bit: true,
    };
    let key = SpectralKey::from_program(&program).unwrap();
    assert_eq!(key.program().unwrap(), program);
    assert_eq!(key.serialize().len(), 8);
}

#[test]
fn trajectory_key_roundtrips_payload_and_steps() {
    let key = TrajectoryKey::from_payload(0x0123_4567_89AB_CDEF, 17).unwrap();
    assert_eq!(key.steps().unwrap(), 17);
    assert_eq!(key.payload(), 0x0123_4567_89AB_CDEF & ((1_u64 << 58) - 1));
}

#[test]
fn malformed_or_non_64_bit_magic_k_is_rejected() {
    assert!(SpectralKey::parse(&[0_u8; 7]).is_err());
    assert!(TrajectoryKey::parse(&[0_u8; 7]).is_err());
}

#[test]
fn zero_amplitude_spectral_program_is_rejected() {
    let program = SpectralProgram {
        bit_len: 512,
        peaks: vec![SpectralPeakCode {
            index: 0,
            positive: true,
            amplitude: 0,
        }],
        tie_bit: false,
    };
    assert!(SpectralKey::from_program(&program).is_err());
}
