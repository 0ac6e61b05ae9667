use pack::codec::alphabet::analyze_block;
use pack::codec::operator::{
    apply_operator_word_u_k, build_operator_codec_key, operator_candidate_family,
    score_operator_key, select_operator_codec_key_from_family, try_encode_operator_block,
};
use pack::codec::palette::{
    best_grouped_trajectory_plan, build_terminal_palette_plan, estimate_plan_bits,
    grouped_trajectory_score, is_better_trajectory_score,
};
use pack::codec::spectral::{apply_spectral_exceptions, encode_spectral_exceptions};
use pack::codec::trajectory::{decode_trajectory_block, try_encode_trajectory_block};
use pack::fold::fold_inplace;
use pack::fwht::{adapt_window, fwht_inplace};
use pack::kernel::base::{generate_base_from_root, standard_base, RootSeed, SafetyClass};
use pack::kernel::compile::{
    compile_spectral_key, compile_topology_to_constant, compile_topology_to_key,
    select_branch_rounds,
};
use pack::kernel::key::{
    GenerativeBlueprint, MagicKey, OperatorBlueprint, PackedConstantK, SpectralKey,
    SpectralPeakCode, SpectralProgram, TrajectoryKey,
};
use pack::kernel::operator::{
    apply_binary_u_k, apply_u_k_with_stream, strongest_binary_word_peaks, BifurcationStream,
    BinaryOperatorKey,
};
use pack::kernel::reversible::{feistel_forward, feistel_inverse, FeistelKey, FeistelRoundKey};
use pack::kernel::spectral::synthesise_spectral_bits;
use pack::kernel::strict::{
    compile_strict_operator_key, compile_strict_operator_steps, parse_strict_key_layout,
};
use pack::kernel::topology::{
    analyze_topology, bytes_to_bits, circular_bit_derivative, popcnt_profile, shift_correlation,
    WordParityFeature,
};
use pack::kernel::trajectory::{decode_parity_trajectory, encode_parity_trajectory};
use pack::keygen::{is_profitable, synthesize_k, MagicKey as WindowKey};
use pack::model::BlockEncoding;
use pack::operator::{decode_block, encode_block};

#[test]
fn bits_are_listed_low_bit_first() {
    assert_eq!(bytes_to_bits(&[0b0000_0101]), vec![1, 0, 1, 0, 0, 0, 0, 0]);
}

#[test]
fn topology_measures_have_their_exact_values() {
    assert_eq!(circular_bit_derivative(&[1, 0, 0, 0], 1), Ok(vec![1, 0, 0, 1]));
    assert_eq!(shift_correlation(&[1, 0, 0, 0], 1).unwrap().matching_bits, 2);
    assert_eq!(popcnt_profile(&[3, 7, 1], 2), Ok(vec![5, 1]));
    let signature = analyze_topology(&[0xFF; 8]).unwrap();
    assert_eq!(signature.bit_len, 64);
    assert_eq!(signature.walsh_peaks[0].index, 0);
    assert_eq!(signature.walsh_peaks[0].coefficient.unsigned_abs(), 64);
    assert!(signature.derivative.iter().all(|bit| *bit == 0));
}

#[test]
fn trajectories_halve_and_are_undone() {
    let path = encode_parity_trajectory(0b1101_0110, 5).unwrap();
    assert_eq!(path.terminal, 0b110);
    assert_eq!(path.crumbs, vec![false, true, true, false, true]);
    assert_eq!(decode_parity_trajectory(&path), Ok(0b1101_0110));
    let path = encode_parity_trajectory(u64::MAX, 64).unwrap();
    assert_eq!(path.terminal, 0);
    assert_eq!(decode_parity_trajectory(&path), Ok(u64::MAX));
    let path = encode_parity_trajectory(9, 0).unwrap();
    assert_eq!(path.terminal, 9);
}

#[test]
fn magic_constants_are_read_back_from_their_bytes() {
    let key = MagicKey::from_trajectory_payload(0xABCD, 9).unwrap();
    let read = MagicKey::parse(&key.serialize()).unwrap();
    assert_eq!(read.raw(), key.raw());
    assert_eq!(read.trajectory_steps(), Ok(9));
    assert_eq!(key.encoded_bit_len(), 64);
    let typed = TrajectoryKey::from_payload(0xABCD, 9).unwrap();
    assert_eq!(typed.raw(), key.raw());
    assert_eq!(TrajectoryKey::parse(&typed.serialize()), Ok(typed));

    let blueprint = OperatorBlueprint {
        dominant_index: 77,
        dominant_positive: true,
        primary_shift: 3,
        shift_match: 511,
        derivative_density: 255,
        popcnt_density: 1,
        secondary_delta: 31,
        tertiary_delta: 0,
        fingerprint_bias: 30,
    };
    let key = MagicKey::from_operator_blueprint(&blueprint).unwrap();
    assert_eq!(key.operator_blueprint(), Ok(blueprint));
    assert_eq!(key.raw() & 0x1FFF, 77);

    let program = SpectralProgram {
        bit_len: 64,
        peaks: vec![SpectralPeakCode {
            index: 5,
            positive: false,
            amplitude: 31,
        }],
        tie_bit: false,
    };
    let key = SpectralKey::from_program(&program).unwrap();
    assert_eq!(SpectralKey::parse(&key.serialize()), Ok(key));
    assert_eq!(key.program(), Ok(program));
}

#[test]
fn a_negative_peak_turns_its_basis_around() {
    let program = SpectralProgram {
        bit_len: 8,
        peaks: vec![SpectralPeakCode {
            index: 1,
            positive: false,
            amplitude: 2,
        }],
        tie_bit: false,
    };
    assert_eq!(
        synthesise_spectral_bits(&program),
        Ok(vec![0, 1, 0, 1, 0, 1, 0, 1])
    );
    let empty = SpectralProgram {
        peaks: vec![],
        ..program.clone()
    };
    assert_eq!(
        synthesise_spectral_bits(&empty),
        Err("spectral program contains no Walsh peaks".to_string())
    );
    let outside = SpectralProgram {
        bit_len: 1,
        ..program
    };
    assert_eq!(
        synthesise_spectral_bits(&outside),
        Err("spectral program peak is outside the block".to_string())
    );
}

#[test]
fn residuals_correct_the_prediction() {
    let predictor = vec![0x0F_u8; 16];
    assert!(encode_spectral_exceptions(&predictor, &predictor)
        .unwrap()
        .is_empty());
    let mut actual = predictor.clone();
    actual[3] ^= 0x10;
    actual[15] ^= 0x01;
    let residual = encode_spectral_exceptions(&actual, &predictor).unwrap();
    assert_eq!(apply_spectral_exceptions(&predictor, &residual, 128), Ok(actual));
}

#[test]
fn the_walsh_transform_has_its_exact_values() {
    let mut data = vec![1_i64, 2, 3, 4];
    fwht_inplace(&mut data);
    assert_eq!(data, vec![10, -2, -4, 0]);
    fwht_inplace(&mut data);
    assert_eq!(data, vec![4, 8, 12, 16]);
}

#[test]
fn the_binary_transform_undoes_itself() {
    let bits: Vec<bool> = (0..64).map(|i| i % 5 == 0 || i % 7 == 2).collect();
    let mut data = bits.clone();
    fold_inplace(&mut data);
    assert_ne!(data, bits);
    fold_inplace(&mut data);
    assert_eq!(data, bits);
    let mut pair = vec![true, true];
    fold_inplace(&mut pair);
    let mut again = pair.clone();
    fold_inplace(&mut again);
    assert_eq!(again, vec![true, true]);
}

#[test]
fn windows_stay_in_their_range() {
    assert_eq!(adapt_window(64, false, true, 64, 1 << 20), 64);
    assert_eq!(adapt_window(1 << 20, true, false, 64, 1 << 20), 1 << 20);
    assert_eq!(adapt_window(256, false, false, 64, 1 << 20), 256);
}

#[test]
fn the_binary_operator_is_an_involution() {
    for (xor_mask, rotate, phase_mask) in [(0, 0, 1), (0x1234, 13, u64::MAX), (u64::MAX, 63, 0xF0)] {
        let key = BinaryOperatorKey {
            xor_mask,
            rotate,
            phase_mask,
        };
        for value in [0, 1, 0xDEAD_BEEF_0123_4567, u64::MAX] {
            let once = apply_binary_u_k(value, key);
            assert_ne!(once, value);
            assert_eq!(apply_binary_u_k(once, key), value);
        }
    }
}

#[test]
fn words_that_differ_differ_behind_the_stream_operator() {
    let blueprint = GenerativeBlueprint {
        hadamard_log_n: 6,
        hadamard_parity: 0xBEEF,
        channel_m0: 3,
        channel_m1: 5,
        channel_m2: 7,
        channel_m3: 11,
        clean_mask: 1,
        reserved: 0,
    };
    let crumbs = [true, false, true];
    let mut left = vec![1_u64, 2, 3, 4];
    let mut right = vec![1_u64, 2, 3, 5];
    let mut stream = BifurcationStream::new(&crumbs);
    apply_u_k_with_stream(&mut left, &blueprint, &mut stream).unwrap();
    assert_eq!(stream.cursor, 2);
    let mut stream = BifurcationStream::new(&crumbs);
    apply_u_k_with_stream(&mut right, &blueprint, &mut stream).unwrap();
    assert_eq!(left[..3], right[..3]);
    assert_ne!(left[3], right[3]);
}

#[test]
fn biased_bits_are_the_strongest() {
    let peaks = strongest_binary_word_peaks(&[0b1001, 0b1000, 0b1010], 2).unwrap();
    assert_eq!(peaks.len(), 2);
    assert_eq!(peaks[0].bias, 3);
    assert!(strongest_binary_word_peaks(&[7], 100).unwrap().len() <= 64);
}

#[test]
fn networks_are_undone() {
    let key = FeistelKey {
        rounds: vec![FeistelRoundKey {
            shift_left: 1,
            shift_right: 31,
            rotate: 9,
            odd_multiplier: 3,
            add: 5,
            mask: 0xFFFF,
        }],
    };
    for value in [0, 1, u64::MAX, 0x0123_4567_89AB_CDEF] {
        let forward = feistel_forward(value, &key).unwrap();
        assert_eq!(forward >> 32, value & 0xFFFF_FFFF);
        assert_eq!(feistel_inverse(forward, &key), Ok(value));
        assert_eq!(feistel_forward(feistel_inverse(value, &key).unwrap(), &key), Ok(value));
    }
}

#[test]
fn generated_schedules_can_be_undone_for_many_seeds() {
    let base = standard_base(1).unwrap();
    for seed in 0..200_u64 {
        let value = seed.wrapping_mul(0x9E37_79B9_7F4A_7C15);
        let generated = generate_base_from_root(&base, RootSeed { value }).unwrap();
        for code in &generated.operation_schedule {
            assert_eq!(
                base.operation(*code).unwrap().safety,
                SafetyClass::DirectlyReversible
            );
        }
        let there = generated.apply_forward(0xFEED).unwrap();
        assert_eq!(generated.apply_inverse(there), Ok(0xFEED));
    }
}

#[test]
fn compiled_keys_are_read_back() {
    let signature = analyze_topology(&[0xC3; 128]).unwrap();
    let constant = compile_topology_to_constant(&signature, 1024).unwrap();
    let layout = constant.layout().unwrap();
    assert_eq!(PackedConstantK::from_layout(&layout), Ok(constant));
    let program = compile_spectral_key(&signature).unwrap().spectral_program().unwrap();
    assert_eq!(program.bit_len, 1024);
    assert!(compile_topology_to_key(&signature).unwrap().operator_blueprint().is_ok());

    let strict = compile_strict_operator_key(&signature, 1024).unwrap();
    let fields = parse_strict_key_layout(strict.bit_len, &strict.bytes).unwrap();
    assert!(fields.phase_bits >= 12);
    let steps = compile_strict_operator_steps(&signature, 1024).unwrap();
    assert!((1..=4).contains(&steps));
}

#[test]
fn rounds_are_bounded_by_the_mask() {
    let feature = WordParityFeature {
        mask: 0xFF,
        bias: false,
        matching_words: 4096,
    };
    let rounds = select_branch_rounds(4096, feature);
    assert!((1..=8).contains(&rounds));
    let single = WordParityFeature { mask: 2, ..feature };
    assert_eq!(select_branch_rounds(4096, single), 1);
}

#[test]
fn plans_are_counted_exactly() {
    let words = [0x10_u64, 0x11, 0x12, 0x13];
    let plan = build_terminal_palette_plan(&words, 4, 256).unwrap().unwrap();
    assert_eq!(plan.terminals, vec![1]);
    assert_eq!(plan.terminal_index_bits, 0);
    assert_eq!(plan.breadcrumbs.len(), 16);
    assert_eq!(estimate_plan_bits(&plan), 64 + 16);
    let best = grouped_trajectory_score(&words).unwrap().unwrap();
    assert!(best.encoded_bits <= 80);
    assert!(best_grouped_trajectory_plan(&words).unwrap().is_some());
    assert!(!is_better_trajectory_score(Some(best), Some(best)));
    assert!(is_better_trajectory_score(Some(best), None));
}

#[test]
fn the_selected_operator_is_the_best_of_its_family() {
    let words: Vec<u64> = (0..32_u64).map(|v| v.wrapping_mul(0x0101_0101) ^ 0xFF00).collect();
    let input: Vec<u8> = words.iter().flat_map(|w| w.to_le_bytes()).collect();
    let signature = analyze_topology(&input).unwrap();
    let family = operator_candidate_family(&signature, &words).unwrap();
    if let Some(found) = select_operator_codec_key_from_family(&input, &words, None).unwrap() {
        let score = score_operator_key(&words, found).unwrap();
        for key in family {
            let other = score_operator_key(&words, key).unwrap();
            assert!(!is_better_trajectory_score(other, score) || other == score);
        }
    }
    let key = build_operator_codec_key(&input).unwrap();
    let once = apply_operator_word_u_k(42, &key.serialize()).unwrap();
    assert_eq!(apply_operator_word_u_k(once, &key.serialize()), Ok(42));
    if let Some(block) = try_encode_operator_block(&input, None).unwrap() {
        assert_eq!(pack::codec::block::decode_block(&block), Ok(input));
    }
}

#[test]
fn trajectory_blocks_are_decoded() {
    let input: Vec<u8> = (0..512_u64).flat_map(|v| (v % 4).to_le_bytes()).collect();
    match try_encode_trajectory_block(&input).unwrap() {
        Some(BlockEncoding::Trajectory(block)) => {
            assert_eq!(decode_trajectory_block(&block), Ok(input));
        }
        other => panic!("expected a trajectory block, got {other:?}"),
    }
}

#[test]
fn analysis_lists_the_bytes_that_occur() {
    assert_eq!(analyze_block(b"banana").unique_sorted_bytes, b"abn".to_vec());
    assert!(analyze_block(&[]).unique_sorted_bytes.is_empty());
}

#[test]
fn the_window_operator_undoes_itself_and_its_log_is_as_long_as_the_peaks() {
    let key = WindowKey {
        window_bits: 128,
        peak_indices: vec![3, 77, 100],
        feistel_s0: 7,
        feistel_s1: 9,
        feistel_odd_mul: 0x9E37_79B9_7F4A_7C15,
        feistel_add: 11,
    };
    let block: Vec<u8> = (0..16).map(|v| v * 13).collect();
    let (once, log) = encode_block(&block, &key, 1);
    assert_eq!(log.len(), 3);
    let once_bytes: Vec<u8> = once.iter().flat_map(|w| w.to_le_bytes()).collect();
    assert_ne!(once_bytes, block);
    assert_eq!(decode_block(&once, &key, &log, 1), block);
    let (twice, log) = encode_block(&block, &key, 2);
    assert_eq!(log.len(), 6);
    let twice_bytes: Vec<u8> = twice.iter().flat_map(|w| w.to_le_bytes()).collect();
    assert_eq!(twice_bytes, block);
    assert_eq!(decode_block(&twice, &key, &log, 2), block);
    let (thrice, log) = encode_block(&block, &key, 3);
    assert_eq!(log.len(), 9);
    assert_eq!(thrice, once);
    assert_eq!(decode_block(&thrice, &key, &log, 3), block);
    let (short, log) = encode_block(&[1, 2, 3], &key, 3);
    let mut filled = vec![1, 2, 3];
    filled.resize(16, 0);
    assert_eq!(decode_block(&short, &key, &log, 3), filled);
}

#[test]
fn keys_count_their_indices_and_the_mixer() {
    let (key, branches) = synthesize_k(&[0x3C; 512], 4096);
    assert_eq!(key.bit_len(), 12 * key.peak_indices.len() + 176);
    assert!(12 * key.peak_indices.len() + key.peak_indices.len() + branches <= 4096);
    assert!(is_profitable(&key, 0, 4095 - key.bit_len()));
    assert!(!is_profitable(&key, 0, 4096 - key.bit_len()));
    assert_eq!(key.byte_len(), (key.bit_len() + 7) / 8);
}
