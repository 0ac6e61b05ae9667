use pack::bitstream::pack_indices;
use pack::codec::alphabet::{analyze_block, try_encode_alphabet_block};
use pack::codec::archive::{
    compress_single_layer_bytes, decompress_single_layer_bytes, parse_archive,
    serialize_single_layer_archive, DEFAULT_BLOCK_SIZE_BYTES,
};
use pack::codec::block::encode_block;
use pack::codec::layers::{
    compress_bytes, compress_bytes_with_outcome, decompress_bytes, inspect_archive, magic_multi,
};
use pack::codec::operator::{
    apply_operator_word_u_k, build_operator_codec_key, decode_operator_block,
    is_better_operator_score, operator_candidate_family, parse_operator_runtime_key,
    score_operator_key, select_operator_codec_key_from_family, try_encode_operator_block,
};
use pack::codec::palette::{
    candidate_steps, grouped_trajectory_score, is_better_trajectory_score, pack_bools,
};
use pack::codec::sparse::{decode_sparse_alphabet_block, try_encode_sparse_alphabet_block};
use pack::codec::spectral::{
    apply_spectral_exceptions, decode_spectral_block, encode_spectral_exceptions,
    synthesise_spectral_bytes,
};
use pack::codec::wire::encoded_size_of;
use pack::kernel::compile::compile_spectral_key;
use pack::kernel::key::MagicKey;
use pack::kernel::operator::{
    apply_binary_u_k, strongest_binary_word_peaks, BinaryOperatorKey,
};
use pack::kernel::topology::analyze_topology;
use pack::kernel::trajectory::encode_parity_trajectory;
use pack::model::{
    Archive, ArchiveHeader, BlockEncoding, OperatorBlock, RawBlock, SpectralBlock,
};

fn walsh_basis_bytes(bit_len: usize, basis_index: usize) -> Vec<u8> {
    let mut out = vec![0_u8; bit_len / 8];
    for position in 0..bit_len {
        if (position & basis_index).count_ones() & 1 == 0 {
            out[position / 8] |= 1 << (position % 8);
        }
    }
    out
}

#[test]
fn roundtrip_ascii_and_binary_data() {
    for input in [
        b"01234567890123456789".repeat(128),
        (0_u32..2048)
            .map(|value| ((value * 37 + 11) % 256) as u8)
            .collect::<Vec<_>>(),
    ] {
        let packed = compress_bytes(&input, Some(512)).unwrap();
        assert_eq!(decompress_bytes(&packed).unwrap(), input);
    }
}

#[test]
fn sparse_alphabet_factors_rare_symbols_out_of_a_dense_core() {
    let core = b"ABCDEFGHIJKLMNOPQRSTUVWXYZabcdefghijklmnopqrstuvwxyz0123456789+/".repeat(32);
    let mut input = Vec::new();
    for chunk in core.chunks(64) {
        input.extend_from_slice(chunk);
        input.push(b'\n');
    }
    let analysis = analyze_block(&input);
    let sparse = match try_encode_sparse_alphabet_block(&input, &analysis).unwrap() {
        Some(BlockEncoding::SparseAlphabet(block)) => block,
        other => panic!("expected sparse alphabet block, got {other:?}"),
    };
    let plain = match try_encode_alphabet_block(&input, &analysis).unwrap() {
        Some(block) => block,
        None => panic!("expected plain alphabet candidate"),
    };
    assert!(sparse.exception_alphabet.contains(&b'\n'));
    assert_eq!(decode_sparse_alphabet_block(&sparse).unwrap(), input);
    assert!(encoded_size_of(&BlockEncoding::SparseAlphabet(sparse.clone())) < input.len());
    assert!(
        encoded_size_of(&BlockEncoding::SparseAlphabet(sparse.clone())) < encoded_size_of(&plain)
    );
}

#[test]
fn recursive_layers_are_used_only_when_the_complete_archive_shrinks() {
    let input = b"0123456789".repeat(5000);
    let outcome = compress_bytes_with_outcome(&input, None).unwrap();
    assert!(!outcome.layer_summaries.is_empty());
    assert_eq!(decompress_bytes(&outcome.archive).unwrap(), input);
    assert!(outcome.archive.len() < input.len() + 29);
}

#[test]
fn inspect_archive_reports_real_input_size_for_single_layer_archives() {
    let input = b"0123456789".repeat(200);
    let packed = compress_single_layer_bytes(&input, 256).unwrap();
    let layers = inspect_archive(&packed).unwrap();
    assert_eq!(layers.len(), 1);
    assert_eq!(layers[0].input_size, input.len() as u64);
    assert_eq!(layers[0].output_size, packed.len() as u64);
}

#[test]
fn mvp_block_size_is_4096_bits() {
    assert_eq!(DEFAULT_BLOCK_SIZE_BYTES, 512);
}

#[test]
fn real_encode_path_emits_spectral_for_a_known_walsh_signal() {
    let input = walsh_basis_bytes(4096, 0b1010_0110_1101);
    let encoded = encode_block(&input).unwrap();
    let spectral = match encoded {
        BlockEncoding::Spectral(block) => block,
        other => panic!("expected spectral block, got {other:?}"),
    };
    assert_eq!(spectral.key.len(), 8);
    assert!(spectral.residual.is_empty());
    assert!(encoded_size_of(&BlockEncoding::Spectral(spectral.clone())) < input.len());
    assert_eq!(decode_spectral_block(&spectral).unwrap(), input);
}

#[test]
fn public_archive_path_serializes_and_decodes_a_real_spectral_block() {
    let input = walsh_basis_bytes(4096, 0b1010_0110_1101);
    let packed = compress_single_layer_bytes(&input, input.len()).unwrap();
    let archive = parse_archive(&packed).unwrap();
    assert!(matches!(
        archive.blocks.as_slice(),
        [BlockEncoding::Spectral(SpectralBlock {
            key,
            residual,
            ..
        })] if key.len() == 8 && residual.is_empty()
    ));
    assert_eq!(decompress_single_layer_bytes(&packed).unwrap(), input);
}

#[test]
fn spectral_magic_constant_expands_the_recorded_walsh_coordinates() {
    let left = walsh_basis_bytes(512, 17);
    let right = walsh_basis_bytes(512, 19);
    let left_key = compile_spectral_key(&analyze_topology(&left).unwrap()).unwrap();
    let right_key = compile_spectral_key(&analyze_topology(&right).unwrap()).unwrap();
    assert_eq!(left_key.serialize().len(), 8);
    assert_ne!(left_key, right_key);
    assert_ne!(
        synthesise_spectral_bytes(left_key).unwrap(),
        synthesise_spectral_bytes(right_key).unwrap()
    );
}

#[test]
fn spectral_exception_stream_is_canonical_and_lossless() {
    let input = walsh_basis_bytes(512, 7);
    let key = compile_spectral_key(&analyze_topology(&input).unwrap()).unwrap();
    let mut changed = input.clone();
    changed[0] ^= 0b0000_0011;
    changed[63] ^= 0b1000_0000;
    let predictor = synthesise_spectral_bytes(key).unwrap();
    let residual = encode_spectral_exceptions(&changed, &predictor).unwrap();
    let block = SpectralBlock {
        original_len: changed.len() as u32,
        key: key.serialize().to_vec(),
        residual,
    };
    assert_eq!(decode_spectral_block(&block).unwrap(), changed);

    let malformed = SpectralBlock {
        residual: vec![0x80, 0x00],
        ..block
    };
    assert!(decode_spectral_block(&malformed).is_err());
}

#[test]
fn dense_spectral_residual_is_used_when_sparse_deltas_are_worse() {
    let predictor = vec![0_u8; 64];
    let actual = vec![0xFF_u8; 64];
    let residual = encode_spectral_exceptions(&actual, &predictor).unwrap();
    assert_eq!(residual.len(), 1 + actual.len());
    assert_eq!(residual[0], 0);
    assert_eq!(
        apply_spectral_exceptions(&predictor, &residual, actual.len() * 8).unwrap(),
        actual
    );
}

#[test]
fn operator_k_is_one_constant_and_u_k_is_an_involution() {
    let source = [0x3C_u8; 64];
    let key = build_operator_codec_key(&source).unwrap();
    assert_eq!(key.serialize().len(), 8);
    for value in [0, 1, u64::MAX, 0x0123_4567_89AB_CDEF] {
        let transformed = apply_operator_word_u_k(value, &key.serialize()).unwrap();
        assert_eq!(
            apply_operator_word_u_k(transformed, &key.serialize()).unwrap(),
            value
        );
    }
}

#[test]
fn operator_codec_runtime_is_direct_binary_u_k() {
    let source = [0x3C_u8; 64];
    let key = build_operator_codec_key(&source).unwrap();
    let runtime = parse_operator_runtime_key(&key.serialize()).unwrap();
    let phase = runtime.phase.seed
        ^ runtime.phase.mask.rotate_left(17)
        ^ runtime.phase.odd_multiplier.rotate_right(11)
        ^ (runtime.phase.shift_left as u64)
        ^ ((runtime.phase.shift_right as u64) << 8);
    let expected = apply_binary_u_k(
        0x0123_4567_89AB_CDEF,
        BinaryOperatorKey {
            xor_mask: runtime.mix.xor_mask as u64,
            rotate: runtime.mix.rotate,
            phase_mask: phase,
        },
    );
    assert_eq!(
        apply_operator_word_u_k(0x0123_4567_89AB_CDEF, &key.serialize()).unwrap(),
        expected
    );
}

#[test]
fn parity_step_search_covers_the_full_runtime_domain() {
    assert_eq!(
        candidate_steps().collect::<Vec<_>>(),
        (1_u8..64).collect::<Vec<_>>()
    );
}

#[test]
fn operator_is_never_accepted_without_strictly_shorter_parity_trajectory() {
    for seed in 0_u64..64 {
        let input = (0..64)
            .flat_map(|index| {
                seed.wrapping_add(index)
                    .wrapping_mul(0x9E37_79B9_7F4A_7C15)
                    .to_le_bytes()
            })
            .collect::<Vec<_>>();
        let original_words = input
            .chunks_exact(8)
            .map(|chunk| u64::from_le_bytes(chunk.try_into().unwrap()))
            .collect::<Vec<_>>();
        if let Some(BlockEncoding::Operator(block)) =
            try_encode_operator_block(&input, None).unwrap()
        {
            let key = MagicKey::parse(&block.key).unwrap();
            let transformed = original_words
                .iter()
                .map(|word| apply_operator_word_u_k(*word, &key.serialize()).unwrap())
                .collect::<Vec<_>>();
            assert!(is_better_trajectory_score(
                grouped_trajectory_score(&transformed).unwrap(),
                grouped_trajectory_score(&original_words).unwrap()
            ));
        }
    }
}

#[test]
fn operator_family_selection_never_returns_a_key_worse_than_the_structural_seed() {
    let input = (0..64_u64)
        .flat_map(|value| {
            value
                .wrapping_mul(0x9E37_79B9_7F4A_7C15)
                .rotate_left((value % 17) as u32)
                .to_le_bytes()
        })
        .collect::<Vec<_>>();
    let words = input
        .chunks_exact(8)
        .map(|chunk| u64::from_le_bytes(chunk.try_into().unwrap()))
        .collect::<Vec<_>>();
    let seed = build_operator_codec_key(&input).unwrap();
    let seed_score = score_operator_key(&words, seed).unwrap();
    if let Some(found) = select_operator_codec_key_from_family(&input, &words, None).unwrap() {
        let found_score = score_operator_key(&words, found).unwrap();
        assert!(is_better_operator_score(found_score, seed_score) || found_score == seed_score);
    }
}

#[test]
fn operator_family_contains_a_blueprint_built_from_binary_runtime_peaks() {
    let words = [
        0x0000_0000_0000_0000_u64,
        0x0000_0000_0000_0000_u64,
        0xFFFF_FFFF_FFFF_FFFF_u64,
        0xFFFF_FFFF_FFFF_FFFF_u64,
        0x0000_0000_0000_0000_u64,
        0xFFFF_FFFF_FFFF_FFFF_u64,
        0x0000_0000_0000_0000_u64,
        0xFFFF_FFFF_FFFF_FFFF_u64,
    ];
    let input = words
        .iter()
        .flat_map(|word| word.to_le_bytes())
        .collect::<Vec<_>>();
    let signature = analyze_topology(&input).unwrap();
    let binary_peak = strongest_binary_word_peaks(&words, 1).unwrap()[0];
    let family = operator_candidate_family(&signature, &words).unwrap();
    assert!(family.iter().any(|key| {
        let blueprint = key.operator_blueprint().unwrap();
        blueprint.dominant_index == binary_peak.bit as u16
            && blueprint.dominant_positive == binary_peak.positive
    }));
}

#[test]
fn malformed_fixed_width_k_is_rejected_by_archive_parser() {
    let archive = Archive {
        header: ArchiveHeader {
            base_version: 1,
            block_size_bytes: 64,
            original_size: 64,
            block_count: 1,
        },
        blocks: vec![BlockEncoding::Spectral(SpectralBlock {
            original_len: 64,
            key: vec![0; 7],
            residual: Vec::new(),
        })],
    };
    assert!(parse_archive(&serialize_single_layer_archive(&archive).unwrap()).is_err());
}

#[test]
fn unsupported_version_trailing_bytes_and_invalid_raw_lengths_are_rejected() {
    let input = b"0123456789".repeat(500);
    let mut archive = compress_bytes(&input, None).unwrap();
    assert!(archive.starts_with(&magic_multi()));
    archive[8] = 2;
    assert!(decompress_bytes(&archive).is_err());

    let mut archive = compress_bytes(&input, None).unwrap();
    archive.push(0xAA);
    assert!(decompress_bytes(&archive).is_err());

    let malformed = Archive {
        header: ArchiveHeader {
            base_version: 1,
            block_size_bytes: 8,
            original_size: 8,
            block_count: 1,
        },
        blocks: vec![BlockEncoding::Raw(RawBlock {
            original_len: 8,
            payload: vec![0; 7],
        })],
    };
    assert!(decompress_single_layer_bytes(
        &serialize_single_layer_archive(&malformed).unwrap()
    )
    .is_err());
}

#[test]
fn operator_wire_format_roundtrips_terminal_palette_steps_and_parity() {
    let source = [0x3C_u8; 64];
    let key = build_operator_codec_key(&source).unwrap();
    let values = [0x0123_4567_89AB_CDEF_u64, 0x1123_4567_89AB_CDEE_u64];
    let transformed = values
        .iter()
        .map(|value| apply_operator_word_u_k(*value, &key.serialize()).unwrap())
        .collect::<Vec<_>>();
    let left = encode_parity_trajectory(transformed[0], 63).unwrap();
    let right = encode_parity_trajectory(transformed[1], 63).unwrap();
    let block = OperatorBlock {
        original_len: 16,
        key: key.serialize().to_vec(),
        terminals: vec![left.terminal, right.terminal],
        terminal_indices: pack_indices(&[0, 1], 1),
        steps: 63,
        breadcrumbs: pack_bools(&[left.crumbs.clone(), right.crumbs.clone()].concat()),
    };
    let expected = values
        .into_iter()
        .flat_map(|value| value.to_le_bytes())
        .collect::<Vec<_>>();
    assert_eq!(decode_operator_block(&block).unwrap(), expected);
}

#[test]
fn encoded_size_of_matches_the_single_block_wire_format() {
    let input = b"0123456789ABCDEFGHIJKLMNOPQRSTUVWXYZabcdefghijklmnopqrstuvwxyz+/".repeat(8);
    for block in [
        BlockEncoding::Raw(RawBlock {
            original_len: input.len() as u32,
            payload: input.clone(),
        }),
        encode_block(&input).unwrap(),
    ] {
        let archive = Archive {
            header: ArchiveHeader {
                base_version: 1,
                block_size_bytes: input.len() as u32,
                original_size: input.len() as u64,
                block_count: 1,
            },
            blocks: vec![block.clone()],
        };
        let wire = serialize_single_layer_archive(&archive).unwrap();
        let header_len = 8 + 1 + 4 + 8 + 4;
        assert_eq!(encoded_size_of(&block), wire.len() - header_len);
    }
}

#[test]
fn codec_compress_decompress_roundtrip_sequential() {
    let input: Vec<u8> = (0u8..=255).cycle().take(1024).collect();
    let compressed = compress_bytes(&input, None).unwrap();
    let decompressed = decompress_bytes(&compressed).unwrap();
    assert_eq!(decompressed, input);
}

#[test]
fn compress_decompress_roundtrip_pseudorandom() {
    let mut state: u64 = 0xDEAD_BEEF_CAFE_1337;
    let input: Vec<u8> = (0..2048)
        .map(|_| {
            state ^= state << 13;
            state ^= state >> 7;
            state ^= state << 17;
            state as u8
        })
        .collect();
    let compressed = compress_bytes(&input, None).unwrap();
    let decompressed = decompress_bytes(&compressed).unwrap();
    assert_eq!(decompressed, input);
}

#[test]
fn uniform_input_compresses_to_smaller_archive() {
    let input = vec![0x42u8; 512];
    let compressed = compress_bytes(&input, None).unwrap();
    assert!(
        compressed.len() < input.len(),
        "uniform input should compress: compressed={} >= original={}",
        compressed.len(),
        input.len()
    );
}

#[test]
fn inspect_archive_single_layer_reports_correct_input_size() {
    let input: Vec<u8> = (0u8..=255).cycle().take(512).collect();
    let compressed = compress_bytes(&input, None).unwrap();
    let layers = inspect_archive(&compressed).unwrap();
    let reconstructed: u64 = layers[0].input_size;
    assert_eq!(reconstructed, input.len() as u64);
}

#[test]
fn operator_transform_is_involution() {
    let block: Vec<u8> = (0u8..64).map(|i| i.wrapping_mul(7) ^ 0xAB).collect();
    let key = build_operator_codec_key(&block).unwrap();
    let original: u64 = 0x0123_4567_89AB_CDEF;
    let transformed = apply_operator_word_u_k(original, &key.serialize()).unwrap();
    let restored = apply_operator_word_u_k(transformed, &key.serialize()).unwrap();
    assert_eq!(
        restored, original,
        "operator must be an involution: apply(apply(x)) == x"
    );
}

#[test]
fn compress_decompress_roundtrip_all_zeros() {
    let input = vec![0u8; 2048];
    let compressed = compress_bytes(&input, None).unwrap();
    let decompressed = decompress_bytes(&compressed).unwrap();
    assert_eq!(decompressed, input);
}

#[test]
fn compress_decompress_roundtrip_all_255() {
    let input = vec![255u8; 2048];
    let compressed = compress_bytes(&input, None).unwrap();
    let decompressed = decompress_bytes(&compressed).unwrap();
    assert_eq!(decompressed, input);
}

#[test]
fn codec_compress_decompress_roundtrip_single_byte() {
    let input = vec![0xABu8];
    let compressed = compress_bytes(&input, None).unwrap();
    let decompressed = decompress_bytes(&compressed).unwrap();
    assert_eq!(decompressed, input);
}

#[test]
fn codec_compress_decompress_roundtrip_empty() {
    let input: Vec<u8> = vec![];
    let compressed = compress_bytes(&input, None).unwrap();
    let decompressed = decompress_bytes(&compressed).unwrap();
    assert_eq!(decompressed, input);
}
