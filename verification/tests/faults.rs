use pack::bitstream::unpack_indices;
use pack::codec::archive::{
    compress_single_layer_bytes, decompress_single_layer_bytes, magic_single, parse_archive,
    serialize_single_layer_archive,
};
use pack::codec::block::decode_block;
use pack::codec::layers::{
    compress_bytes, decompress_bytes, inspect_archive, parse_recursive_archive,
    serialize_recursive_archive, validate_layer_chain,
};
use pack::codec::operator::{decode_operator_block, parse_operator_runtime_key};
use pack::codec::palette::unpack_bools;
use pack::codec::parse::validate_alphabet;
use pack::codec::sparse::decode_sparse_alphabet_block;
use pack::codec::trajectory::{build_trajectory_key, decode_trajectory_block};
use pack::kernel::base::{standard_base, OperationCode, PatternId, StandardBase};
use pack::kernel::budget::{accept_incremental_rule, BitBudget, CompressionPolicy};
use pack::kernel::compile::compile_topology_to_constant;
use pack::kernel::key::{
    ConstantFamily, ConstantLayout, GenerativeBlueprint, MagicKey, MagicKeyKind,
    OperatorBlueprint, PackedConstantK, RoutingKind, TrajectoryKey,
};
use pack::kernel::operator::{apply_u_k_with_stream, strongest_binary_word_peaks, BifurcationStream};
use pack::kernel::reversible::{feistel_forward, FeistelKey, FeistelRoundKey};
use pack::kernel::strict::parse_strict_key_layout;
use pack::kernel::topology::{
    analyze_topology, block_fingerprint, circular_bit_derivative, popcnt_profile,
    shift_correlation,
};
use pack::kernel::trajectory::encode_parity_trajectory;
use pack::model::{
    AdaptiveWindowBlock, AlphabetBlock, Archive, ArchiveHeader, BlockEncoding, LayerSummary,
    OperatorBlock, RawBlock, SparseAlphabetBlock, TrajectoryBlock,
};
use pack::varint::{decode_position_deltas, decode_uleb128};
use pack::window::{decode_adaptive, try_encode_adaptive};

fn fails<T>(result: Result<T, String>, message: &str) {
    match result {
        Ok(_) => panic!("expected the fault {message:?}"),
        Err(error) => assert_eq!(error, message),
    }
}

fn layer(block_size_bytes: u32, input_size: u64, output_size: u64) -> LayerSummary {
    LayerSummary {
        block_size_bytes,
        input_size,
        output_size,
    }
}

fn archive_of(block: BlockEncoding, original_size: u64) -> Vec<u8> {
    serialize_single_layer_archive(&Archive {
        header: ArchiveHeader {
            base_version: 1,
            block_size_bytes: 64,
            original_size,
            block_count: 1,
        },
        blocks: vec![block],
    })
    .unwrap()
}

#[test]
fn truncated_streams_are_refused() {
    fails(
        unpack_indices(&[0xFF], 3, 3),
        "packed breadcrumb stream is truncated",
    );
    fails(
        unpack_indices(&[0xFF, 0xFF], 9, 1),
        "packed breadcrumb width exceeds one byte",
    );
    fails(
        unpack_bools(&[0xFF], 9),
        "packed breadcrumb stream is truncated",
    );
    assert!(decode_uleb128(&[0x80], 0).is_err());
    assert!(decode_uleb128(&[0xFF; 11], 0).is_err());
    assert!(decode_uleb128(&[0x80, 0x00], 0).is_err());
    fails(
        decode_position_deltas(&[0x00]),
        "position delta must be positive",
    );
    let mut far = vec![0xFF; 9];
    far.push(0x01);
    far.push(0x02);
    fails(decode_position_deltas(&far), "position delta overflow");
}

#[test]
fn archive_headers_are_checked() {
    let good = compress_single_layer_bytes(&[1, 2, 3, 4], 4).unwrap();
    fails(
        parse_archive(&good[..7]),
        "archive is too short for magic header",
    );
    fails(parse_archive(&good[..12]), "unexpected end of archive");
    fails(
        decompress_bytes(&good[..7]),
        "archive is too short for magic header",
    );
    fails(
        inspect_archive(&[]),
        "archive is too short for magic header",
    );
    fails(decompress_bytes(&[0; 40]), "invalid archive magic");
    fails(parse_archive(&[0; 40]), "invalid archive magic");

    let mut bad = good.clone();
    bad[8] = 9;
    fails(parse_archive(&bad), "unsupported base version: 9");

    let mut bad = good.clone();
    bad[9] = 0;
    fails(parse_archive(&bad), "block size must be greater than zero");

    let mut bad = good.clone();
    bad[24] = 0xFF;
    fails(parse_archive(&bad), "block count exceeds archive size");

    let mut bad = good.clone();
    bad.push(0);
    fails(parse_archive(&bad), "archive contains trailing bytes");

    let mut bad = good.clone();
    bad[13] = 9;
    fails(
        decompress_single_layer_bytes(&bad),
        "decoded size does not match archive header",
    );
    fails(parse_archive(&good[..good.len() - 1]), "unexpected end of archive");
    assert_eq!(&good[..8], &magic_single());
}

#[test]
fn block_bodies_are_checked() {
    let raw = BlockEncoding::Raw(RawBlock {
        original_len: 5,
        payload: vec![0; 4],
    });
    fails(
        parse_archive(&archive_of(raw, 5)),
        "raw payload length does not match original length",
    );
    let alphabet = |alphabet: Vec<u8>, bit_width: u8, breadcrumbs: Vec<u8>| {
        archive_of(
            BlockEncoding::Alphabet(AlphabetBlock {
                original_len: 8,
                alphabet,
                bit_width,
                breadcrumbs,
            }),
            8,
        )
    };
    fails(
        parse_archive(&alphabet(vec![], 0, vec![])),
        "alphabet must not be empty",
    );
    fails(
        parse_archive(&alphabet(vec![2, 1], 1, vec![0])),
        "alphabet must be sorted and contain unique bytes",
    );
    fails(
        parse_archive(&alphabet(vec![1, 2], 2, vec![0])),
        "alphabet bit width is not canonical",
    );
    fails(
        parse_archive(&alphabet(vec![1, 2], 1, vec![0, 0])),
        "alphabet breadcrumb payload length is not canonical",
    );
    fails(
        decompress_bytes(&alphabet(vec![1, 2, 3], 2, vec![0xFF, 0xFF])),
        "decoded alphabet index is out of range",
    );
    fails(validate_alphabet(&[1, 1], 1), "alphabet must be sorted and contain unique bytes");
    assert_eq!(validate_alphabet(&[1, 5, 9], 2), Ok(()));

    let adaptive = BlockEncoding::Adaptive(AdaptiveWindowBlock {
        original_len: 8,
        meta_k: 0,
        v: vec![],
    });
    assert_eq!(adaptive.mode(), 6);
    assert!(decode_block(&adaptive)
        .unwrap_err()
        .starts_with("unknown block mode"));
    assert!(parse_archive(&archive_of(adaptive, 8)).is_err());
}

#[test]
fn sparse_blocks_are_checked() {
    let good = SparseAlphabetBlock {
        original_len: 4,
        dense_alphabet: vec![1, 2],
        dense_bit_width: 1,
        dense_breadcrumbs: vec![0b101],
        exception_alphabet: vec![9],
        exception_indices: vec![],
        exception_positions: vec![2],
    };
    assert_eq!(decode_sparse_alphabet_block(&good), Ok(vec![2, 9, 1, 2]));
    let mut bad = good.clone();
    bad.original_len = 0;
    fails(
        decode_sparse_alphabet_block(&bad),
        "sparse alphabet exception count exceeds block length",
    );
    let mut bad = good.clone();
    bad.exception_positions = vec![9];
    assert!(parse_archive(&archive_of(BlockEncoding::SparseAlphabet(bad), 4)).is_err());
    let mut bad = good.clone();
    bad.exception_alphabet = vec![];
    fails(
        decode_sparse_alphabet_block(&bad),
        "sparse alphabet exception index is out of range",
    );
    let mut bad = good.clone();
    bad.dense_alphabet = vec![1];
    fails(
        decode_sparse_alphabet_block(&bad),
        "dense sparse-alphabet index is out of range",
    );
}

#[test]
fn word_blocks_are_checked() {
    let key = build_trajectory_key(&[0x3C; 64], 4).unwrap().serialize();
    let good = TrajectoryBlock {
        original_len: 8,
        key: key.to_vec(),
        terminals: vec![5],
        terminal_indices: vec![],
        steps: 4,
        breadcrumbs: vec![0],
    };
    assert_eq!(decode_trajectory_block(&good), Ok((5_u64 << 4).to_le_bytes().to_vec()));
    let mut bad = good.clone();
    bad.original_len = 7;
    fails(
        decode_trajectory_block(&bad),
        "trajectory block length must be divisible by word size",
    );
    let mut bad = good.clone();
    bad.steps = 5;
    fails(
        decode_trajectory_block(&bad),
        "trajectory K does not match the encoded step count",
    );
    let mut bad = good.clone();
    bad.terminals = vec![];
    fails(
        parse_archive(&archive_of(BlockEncoding::Trajectory(bad), 8)),
        "trajectory terminal palette must not be empty",
    );

    let operator = OperatorBlock {
        original_len: 8,
        key: vec![0, 0x40, 0, 0, 0, 0, 0, 0],
        terminals: vec![5],
        terminal_indices: vec![],
        steps: 64,
        breadcrumbs: vec![0],
    };
    fails(
        decode_operator_block(&operator),
        "operator parity step count must be in 1..64",
    );
    let mut bad = operator.clone();
    bad.original_len = 9;
    fails(
        decode_operator_block(&bad),
        "operator block length must be divisible by 8",
    );
    let mut bad = operator.clone();
    bad.terminals = vec![];
    fails(
        parse_archive(&archive_of(BlockEncoding::Operator(bad), 8)),
        "operator terminal palette must not be empty",
    );
    assert!(parse_operator_runtime_key(&[0; 7]).is_err());
    fails(
        parse_operator_runtime_key(&[0; 8]),
        "operator K stores an invalid shift",
    );
    fails(
        parse_operator_runtime_key(&[0xFF; 8]),
        "operator K contains unused bits",
    );
}

#[test]
fn layer_chains_are_checked() {
    assert_eq!(validate_layer_chain(3, &[], 3), Ok(()));
    fails(
        validate_layer_chain(4, &[], 3),
        "raw recursive payload size does not match original size",
    );
    fails(
        validate_layer_chain(4, &[layer(1, 5, 3)], 3),
        "first layer input size does not match original size",
    );
    fails(
        validate_layer_chain(5, &[layer(0, 5, 3)], 3),
        "recursive layer metadata violates compression invariants",
    );
    fails(
        validate_layer_chain(5, &[layer(1, 5, 5)], 5),
        "recursive layer metadata violates compression invariants",
    );
    fails(
        validate_layer_chain(9, &[layer(1, 9, 7), layer(1, 6, 3)], 3),
        "recursive layer size chain is inconsistent",
    );
    fails(
        validate_layer_chain(5, &[layer(1, 5, 3)], 4),
        "final payload size does not match last layer",
    );
}

#[test]
fn recursive_archives_are_checked() {
    let layers = vec![layer(1, 100, 90); 17];
    fails(
        parse_recursive_archive(&serialize_recursive_archive(100, &layers, &[])),
        "layer count exceeds configured maximum",
    );
    let mut bad = serialize_recursive_archive(3, &[], &[1, 2, 3]);
    bad.push(0);
    fails(
        parse_recursive_archive(&bad),
        "archive contains trailing bytes",
    );
    let mut bad = serialize_recursive_archive(3, &[], &[1, 2, 3]);
    bad[8] = 200;
    fails(
        parse_recursive_archive(&bad),
        "unsupported base version: 200",
    );

    let inner = compress_single_layer_bytes(&[7; 200], 200).unwrap();
    let size = inner.len() as u64;
    let wire = serialize_recursive_archive(200, &[layer(200, 200, size)], &inner);
    assert_eq!(decompress_bytes(&wire), Ok(vec![7; 200]));
    let wire = serialize_recursive_archive(199, &[layer(200, 199, size)], &inner);
    fails(
        decompress_bytes(&wire),
        "layer input size does not match recursive metadata",
    );
    assert!(decompress_bytes(&compress_bytes(&[], None).unwrap()[..20]).is_err());
}

#[test]
fn bases_are_checked() {
    fails(standard_base(7), "unsupported standard base version: 7");
    let base = standard_base(1).unwrap();
    let mut bad = base.clone();
    bad.version = 0;
    fails(bad.validate(), "base version must be non-zero");
    let mut bad = base.clone();
    bad.operations.push(bad.operations[0]);
    fails(bad.validate(), "operation codes must be unique");
    let mut bad = base.clone();
    bad.patterns.push(PatternId::Raw);
    fails(bad.validate(), "pattern ids must be unique");
    let bad = StandardBase {
        version: 1,
        operations: vec![],
        patterns: vec![],
    };
    assert!(bad.operation(OperationCode::Xor).is_none());
    assert!(OperationCode::try_from(200)
        .unwrap_err()
        .starts_with("unknown operation code"));
    for spec in &base.operations {
        assert_eq!(OperationCode::try_from(spec.code.code()), Ok(spec.code));
    }
}

#[test]
fn budgets_are_checked() {
    let empty = BitBudget {
        source_bits: 0,
        key_bits: 0,
        crumb_bits: 0,
        overhead_bits: 0,
    };
    fails(empty.crumb_ratio(), "source bit length must be non-zero");
    fails(
        CompressionPolicy::mvp().accepts(empty),
        "source bit length must be non-zero",
    );
    let huge = BitBudget {
        source_bits: 1,
        key_bits: u64::MAX,
        crumb_bits: 1,
        overhead_bits: 0,
    };
    fails(huge.encoded_bits(), "bit budget overflow");
    fails(huge.gain_bits(), "bit budget overflow");
    let loose = CompressionPolicy {
        max_key_permille: 1000,
        ..CompressionPolicy::mvp()
    };
    fails(
        loose.accepts(BitBudget {
            source_bits: 8,
            key_bits: 0,
            crumb_bits: 0,
            overhead_bits: 0,
        }),
        "compression policy fractions must be inside [0, 1)",
    );
    fails(
        accept_incremental_rule(u64::MAX, 10, 1, 5),
        "key growth overflow",
    );
}

#[test]
fn topologies_are_checked() {
    fails(
        circular_bit_derivative(&[0, 1], 2),
        "derivative shift must be inside the bit vector",
    );
    fails(
        circular_bit_derivative(&[0, 2], 1),
        "bit vector contains values other than zero or one",
    );
    fails(
        shift_correlation(&[0, 1], 2),
        "correlation shift must be inside the bit vector",
    );
    fails(popcnt_profile(&[1], 0), "popcnt window must be non-zero");
    fails(
        popcnt_profile(&[0xFF; 64], 64),
        "popcnt window exceeds u8 profile range",
    );
    fails(
        block_fingerprint(&[]),
        "block fingerprint requires non-empty input",
    );
    fails(
        analyze_topology(&[0; 3]),
        "topology analyzer requires a power-of-two bit block",
    );
    let signature = analyze_topology(&[0xA5; 64]).unwrap();
    fails(
        compile_topology_to_constant(&signature, 1024),
        "signature bit length does not match the selected window",
    );
    let mut bare = signature.clone();
    bare.walsh_peaks.clear();
    fails(
        compile_topology_to_constant(&bare, 512),
        "signature lacks required topology features",
    );
}

#[test]
fn keys_are_checked() {
    fails(
        MagicKey::parse(&[0; 9]),
        "K must be exactly one 64-bit magic constant",
    );
    fails(
        TrajectoryKey::from_payload(1, 64),
        "trajectory step count must be in 1..64",
    );
    fails(
        MagicKey::from_operator_blueprint(&OperatorBlueprint {
            dominant_index: 8192,
            dominant_positive: true,
            primary_shift: 1,
            shift_match: 0,
            derivative_density: 0,
            popcnt_density: 0,
            secondary_delta: 0,
            tertiary_delta: 0,
            fingerprint_bias: 0,
        }),
        "operator blueprint field is out of range",
    );
    let key = MagicKey::from_trajectory_payload(1, 3).unwrap();
    assert!(key.require_kind(MagicKeyKind::Spectral).is_err());
    assert_eq!(key.require_kind(MagicKeyKind::Trajectory), Ok(key));
    fails(
        encode_parity_trajectory(1, 65),
        "u64 trajectory cannot contain more than 64 parity steps",
    );
    fails(
        strongest_binary_word_peaks(&[], 1),
        "binary word analysis requires at least one word",
    );
}

fn layout() -> ConstantLayout {
    ConstantLayout {
        family: ConstantFamily::OddAffine,
        routing: RoutingKind::Butterfly,
        branch_rounds: 1,
        rotate_left: 1,
        rotate_right: 1,
        gf2_shift: 1,
        lane_rotate: 1,
        pivot_seed: 1,
        branch_stride: 1,
        branch_span: 1,
        phase_mask: 0,
        odd_multiplier: 1,
        dominant_walsh_mask: 1,
        dominant_walsh_bias: false,
        affine_mask: Some(0),
    }
}

#[test]
fn layouts_are_checked() {
    assert!(PackedConstantK::from_layout(&layout()).is_ok());
    let spoil = |change: fn(&mut ConstantLayout), message: &str| {
        let mut bad = layout();
        change(&mut bad);
        fails(PackedConstantK::from_layout(&bad), message);
    };
    spoil(|l| l.branch_rounds = 0, "branch round budget must be in 1..=16");
    spoil(|l| l.branch_rounds = 17, "branch round budget must be in 1..=16");
    spoil(|l| l.rotate_left = 0, "left rotation must be in 1..63");
    spoil(|l| l.rotate_right = 64, "right rotation must be in 1..63");
    spoil(|l| l.gf2_shift = 0, "GF(2) shift must be in 1..63");
    spoil(|l| l.branch_stride = 0, "branch stride must be non-zero");
    spoil(|l| l.branch_span = 0, "branch span must be non-zero");
    spoil(|l| l.odd_multiplier = 2, "odd multiplier must stay odd");
    spoil(|l| l.dominant_walsh_mask = 0, "dominant Walsh mask must be non-zero");
    spoil(
        |l| l.branch_rounds = 2,
        "branch rounds exceed the independent pivots in the Walsh mask",
    );
    spoil(|l| l.affine_mask = None, "affine families must carry an affine mask");
    spoil(
        |l| l.family = ConstantFamily::PhaseXor,
        "phase-xor family must not carry an affine mask",
    );
    let mut bytes = PackedConstantK::from_layout(&layout()).unwrap().into_bytes();
    fails(
        PackedConstantK::parse(&bytes[..10]),
        "packed constant is shorter than the fixed header",
    );
    bytes.pop();
    fails(
        PackedConstantK::parse(&bytes),
        "affine packed constant must contain exactly one affine payload",
    );
}

#[test]
fn networks_and_streams_are_checked() {
    fails(
        feistel_forward(1, &FeistelKey { rounds: vec![] }),
        "Feistel key must contain rounds",
    );
    let round = FeistelRoundKey {
        shift_left: 1,
        shift_right: 1,
        rotate: 0,
        odd_multiplier: 1,
        add: 0,
        mask: 0,
    };
    let with = |round: FeistelRoundKey| FeistelKey {
        rounds: vec![round],
    };
    assert!(feistel_forward(1, &with(round)).is_ok());
    fails(
        feistel_forward(1, &with(FeistelRoundKey { shift_left: 32, ..round })),
        "left shift must be in 1..32",
    );
    fails(
        feistel_forward(1, &with(FeistelRoundKey { shift_right: 0, ..round })),
        "right shift must be in 1..32",
    );
    fails(
        feistel_forward(1, &with(FeistelRoundKey { rotate: 32, ..round })),
        "rotate must be below 32",
    );
    let blueprint = GenerativeBlueprint {
        hadamard_log_n: 0,
        hadamard_parity: 1,
        channel_m0: 1,
        channel_m1: 2,
        channel_m2: 3,
        channel_m3: 4,
        clean_mask: 0,
        reserved: 0,
    };
    let crumbs = [true];
    let mut words = vec![1, 2];
    let mut stream = BifurcationStream::new(&crumbs);
    fails(
        apply_u_k_with_stream(&mut words, &blueprint, &mut stream),
        "invalid blueprint hardware bounds",
    );
    let open = GenerativeBlueprint {
        hadamard_log_n: 6,
        ..blueprint
    };
    fails(
        apply_u_k_with_stream(&mut words, &open, &mut stream),
        "bifurcation stream exhausted",
    );
    assert!(stream.read_bit().is_err());
}

#[test]
fn strict_keys_are_checked() {
    fails(
        parse_strict_key_layout(16, &[0]),
        "strict operator K byte length is not canonical",
    );
    fails(
        parse_strict_key_layout(4, &[0]),
        "strict operator K is too short for the required header",
    );
    fails(
        parse_strict_key_layout(14, &[0, 0x80]),
        "strict operator K has non-canonical trailing padding bits",
    );
    fails(
        parse_strict_key_layout(14, &[0, 0]),
        "strict operator K field widths exceed the declared key bit length",
    );
}

#[test]
fn windows_are_checked() {
    fails(
        decode_adaptive(&[0; 5]),
        "adaptive block: wire too short for frame",
    );
    fails(decode_adaptive(&[0xFF; 13]), "adaptive block: bad tag");
    let mut wire = try_encode_adaptive(&[0x3C; 512]).unwrap().wire;
    wire[9] = wire[9].wrapping_add(1);
    fails(
        decode_adaptive(&wire),
        "adaptive block: wire truncated before end of V",
    );
}
