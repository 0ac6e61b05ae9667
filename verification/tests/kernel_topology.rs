use pack::kernel::compile::{
    affine_mask_from_signature, compile_spectral_key, compile_topology_to_constant,
    phase_mask_from_signature, select_branch_rounds,
};
use pack::kernel::key::{ConstantFamily, PackedConstantK, MAX_SPECTRAL_PEAKS};
use pack::kernel::strict::compile_strict_operator_key;
use pack::kernel::topology::{
    analyze_topology, circular_bit_derivative, popcnt_profile, shift_correlation,
    WordParityFeature,
};

#[test]
fn derivative_is_xor_with_requested_circular_shift() {
    let bits = [0, 0, 1, 1, 0, 1, 0, 1];
    assert_eq!(
        circular_bit_derivative(&bits, 1).unwrap(),
        vec![0, 1, 0, 1, 1, 1, 1, 1]
    );
}

#[test]
fn shift_correlation_detects_periodic_topology() {
    let bits = [0, 1, 0, 1, 0, 1, 0, 1];
    assert_eq!(
        shift_correlation(&bits, 2).unwrap().matching_bits,
        bits.len()
    );
    assert_eq!(shift_correlation(&bits, 1).unwrap().matching_bits, 0);
}

#[test]
fn popcnt_profile_counts_each_window_exactly() {
    let bytes = [0x00, 0xFF, 0x0F, 0x01];
    assert_eq!(popcnt_profile(&bytes, 2).unwrap(), vec![8, 5]);
}

#[test]
fn topology_compiler_is_deterministic_and_uses_runtime_semantics() {
    let input = [0xAA_u8; 512];
    let signature = analyze_topology(&input).unwrap();
    let first = compile_topology_to_constant(&signature, 4096).unwrap();
    let second = compile_topology_to_constant(&signature, 4096).unwrap();
    assert_eq!(first, second);
    assert!(first.encoded_bit_len() > 64);
    let layout = first.layout().unwrap();
    assert!(matches!(
        layout.family,
        ConstantFamily::PhaseXor | ConstantFamily::OddAffine | ConstantFamily::Hybrid
    ));

    let spectral = compile_spectral_key(&signature).unwrap();
    let program = spectral.spectral_program().unwrap();
    assert_eq!(program.bit_len, signature.bit_len);
    assert_eq!(
        program.peaks.len(),
        signature
            .walsh_peaks
            .iter()
            .filter(|peak| peak.coefficient != 0)
            .count()
            .min(MAX_SPECTRAL_PEAKS)
    );
}

#[test]
fn word_local_parity_feature_is_propagated_into_the_runtime_key() {
    let input = b"ABCDEFGHIJKLMNOPQRSTUVWXYZabcdefghijklmnopqrstuvwxyz0123456789+/".repeat(8);
    let signature = analyze_topology(&input).unwrap();
    assert_eq!(signature.word_parity.matching_words, input.len() / 8);
    let packed = compile_topology_to_constant(&signature, input.len() * 8).unwrap();
    let layout = packed.layout().unwrap();
    assert_eq!(layout.dominant_walsh_mask, signature.word_parity.mask);
    assert_eq!(layout.dominant_walsh_bias, signature.word_parity.bias);
    assert!(u32::from(layout.branch_rounds) <= layout.dominant_walsh_mask.count_ones());
}

#[test]
fn branch_rounds_are_selected_by_economic_estimate_not_mask_popcount() {
    let feature = WordParityFeature {
        mask: 0xFF,
        bias: false,
        matching_words: 0,
    };
    assert_eq!(select_branch_rounds(32, feature), 1);
}

#[test]
fn changing_block_topology_changes_compiled_constant() {
    let left =
        compile_topology_to_constant(&analyze_topology(&[0xAA; 512]).unwrap(), 4096).unwrap();
    let right =
        compile_topology_to_constant(&analyze_topology(&[0xF0; 512]).unwrap(), 4096).unwrap();
    assert_ne!(left.as_bytes(), right.as_bytes());
}

#[test]
fn every_topology_profile_materially_changes_compiled_layout() {
    let signature = analyze_topology(&[0xA5; 512]).unwrap();
    let baseline = compile_topology_to_constant(&signature, 4096).unwrap();

    let mut changed = signature.clone();
    changed.walsh_peaks[0].index = (changed.walsh_peaks[0].index + 1) % changed.bit_len;
    assert_ne!(
        compile_topology_to_constant(&changed, 4096)
            .unwrap()
            .as_bytes(),
        baseline.as_bytes()
    );

    let mut changed = signature.clone();
    changed.shift_scores[0].shift = if changed.shift_scores[0].shift == 32 {
        31
    } else {
        changed.shift_scores[0].shift + 1
    };
    assert_ne!(
        compile_topology_to_constant(&changed, 4096)
            .unwrap()
            .as_bytes(),
        baseline.as_bytes()
    );

    let mut changed = signature.clone();
    changed.derivative[0] ^= 1;
    assert_ne!(
        compile_topology_to_constant(&changed, 4096)
            .unwrap()
            .as_bytes(),
        baseline.as_bytes()
    );

    let mut changed = signature.clone();
    changed.popcnt_profile[0] ^= 0x1F;
    assert_ne!(
        compile_topology_to_constant(&changed, 4096)
            .unwrap()
            .as_bytes(),
        baseline.as_bytes()
    );
}

#[test]
fn packed_constant_is_variable_length_after_compilation() {
    let input = [0xA5_u8; 512];
    let signature = analyze_topology(&input).unwrap();
    let packed = compile_topology_to_constant(&signature, 4096).unwrap();
    let parsed = PackedConstantK::parse(packed.as_bytes()).unwrap();
    assert_eq!(parsed, packed);
    assert!(packed.as_bytes().len() >= 26);
}
#[test]
fn topology_compiler_handles_white_noise_without_panic() {
    let mut state: u64 = 0xFEED_FACE_DEAD_BEEF;
    let input: Vec<u8> = (0..512)
        .map(|_| {
            state ^= state << 13;
            state ^= state >> 7;
            state ^= state << 17;
            (state & 0xFF) as u8
        })
        .collect();
    let signature = analyze_topology(&input).unwrap();
    let packed = compile_topology_to_constant(&signature, 4096).unwrap();
    let parsed = PackedConstantK::parse(packed.as_bytes()).unwrap();
    assert_eq!(parsed, packed);
}

#[test]
fn strict_operator_key_is_variable_length_and_canonical() {
    let input = [0x42_u8; 512];
    let signature = analyze_topology(&input).unwrap();
    let key = compile_strict_operator_key(&signature, input.len() * 8).unwrap();
    assert_eq!(key.bytes.len(), (key.bit_len as usize).div_ceil(8));
    assert!(key.bit_len >= 12);
    assert!(key.bytes.iter().any(|byte| *byte != 0));
}
#[test]
fn phase_mask_and_affine_mask_are_not_trivially_correlated() {
    let input = [0x42u8; 512];
    let sig = analyze_topology(&input).unwrap();
    let pm = phase_mask_from_signature(&sig);
    let am = affine_mask_from_signature(&sig);
    let differing_bits = (pm ^ am).count_ones();
    assert!(
        differing_bits >= 8,
        "phase_mask and affine_mask too similar: XOR has only {} differing bits (want >= 8)",
        differing_bits
    );
}
