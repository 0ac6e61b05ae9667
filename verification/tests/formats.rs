use pack::bitstream::{bit_width_for_cardinality, ceil_div_u64, pack_indices, unpack_indices};
use pack::branch::{branch_step, parity64, BranchBit, BranchVector};
use pack::codec::alphabet::analyze_block;
use pack::codec::archive::{
    compress_single_layer_bytes, decompress_single_layer_bytes, magic_single, parse_archive,
    serialize_single_layer_archive,
};
use pack::codec::block::{decode_block, encode_block};
use pack::codec::layers::{
    choose_best_single_layer, compress_bytes, compress_bytes_with_outcome, decompress_bytes,
    inspect_archive, magic_multi, parse_recursive_archive, serialize_recursive_archive,
};
use pack::codec::palette::{pack_bools, unpack_bools};
use pack::codec::sizes::{
    candidate_block_sizes, largest_power_of_two_probe, powers_of_two_between,
};
use pack::codec::sparse::try_encode_sparse_alphabet_block;
use pack::codec::wire::{append_serialized_block, encoded_size_of};
use pack::metagenerator::{MetaK, WalshPeak};
use pack::model::{
    AlphabetBlock, Archive, ArchiveHeader, BlockEncoding, LayerSummary, RawBlock,
};
use pack::varint::{
    decode_position_deltas, decode_uleb128, encode_position_deltas, encode_uleb128,
};
use pack::window::{decode_adaptive, try_encode_adaptive};

fn raw(payload: &[u8]) -> BlockEncoding {
    BlockEncoding::Raw(RawBlock {
        original_len: payload.len() as u32,
        payload: payload.to_vec(),
    })
}

#[test]
fn indices_are_packed_low_bit_first() {
    assert_eq!(pack_indices(&[1, 2, 3], 2), vec![0b0011_1001]);
    assert_eq!(pack_indices(&[0xAB, 0xCD], 8), vec![0xAB, 0xCD]);
    assert_eq!(unpack_indices(&[0b0011_1001], 2, 3), Ok(vec![1, 2, 3]));
    assert_eq!(ceil_div_u64(17, 8), 3);
    assert_eq!(ceil_div_u64(16, 8), 2);
    assert_eq!(bit_width_for_cardinality(0), 0);
    assert_eq!(bit_width_for_cardinality(257), 9);
}

#[test]
fn numbers_are_written_seven_bits_at_a_time() {
    let mut out = Vec::new();
    encode_uleb128(300, &mut out);
    assert_eq!(out, vec![0xAC, 0x02]);
    encode_uleb128(u64::MAX, &mut out);
    assert_eq!(decode_uleb128(&out, 0), Ok((300, 2)));
    assert_eq!(decode_uleb128(&out, 2), Ok((u64::MAX, out.len())));
}

#[test]
fn positions_are_written_as_gaps() {
    let out = encode_position_deltas(&[0, 1, 200]);
    assert_eq!(out, vec![1, 1, 0xC7, 0x01]);
    assert_eq!(decode_position_deltas(&out), Ok(vec![0, 1, 200]));
}

#[test]
fn crumbs_are_packed_low_bit_first() {
    let bits = [true, false, false, true, false, false, false, false, true];
    assert_eq!(pack_bools(&bits), vec![0x09, 0x01]);
    assert_eq!(unpack_bools(&[0x09, 0x01], 9), Ok(bits.to_vec()));
}

#[test]
fn a_raw_block_is_its_mode_its_length_and_its_payload() {
    let block = raw(&[7, 8, 9]);
    let mut out = vec![0xEE];
    append_serialized_block(&mut out, &block);
    assert_eq!(out, vec![0xEE, 0, 3, 0, 0, 0, 3, 0, 0, 0, 7, 8, 9]);
    assert_eq!(encoded_size_of(&block), 12);
    assert_eq!(block.mode(), 0);
}

#[test]
fn a_uniform_block_needs_no_breadcrumbs() {
    let encoded = encode_block(&[5_u8; 100]).unwrap();
    assert_eq!(
        encoded,
        BlockEncoding::Alphabet(AlphabetBlock {
            original_len: 100,
            alphabet: vec![5],
            bit_width: 0,
            breadcrumbs: Vec::new(),
        })
    );
    assert_eq!(decode_block(&encoded), Ok(vec![5_u8; 100]));
}

#[test]
fn the_encoding_is_never_longer_than_the_raw_block() {
    for input in [
        (0_u32..64).map(|v| (v * v * 31 % 251) as u8).collect::<Vec<u8>>(),
        b"abababab".repeat(16),
        vec![1, 2, 3],
    ] {
        let encoded = encode_block(&input).unwrap();
        assert!(encoded_size_of(&encoded) <= encoded_size_of(&raw(&input)));
        assert_eq!(decode_block(&encoded), Ok(input));
    }
}

#[test]
fn a_written_archive_is_read_back() {
    let archive = Archive {
        header: ArchiveHeader {
            base_version: 1,
            block_size_bytes: 4,
            original_size: 6,
            block_count: 2,
        },
        blocks: vec![raw(&[1, 2, 3, 4]), raw(&[5, 6])],
    };
    let wire = serialize_single_layer_archive(&archive).unwrap();
    assert_eq!(&wire[..8], &magic_single());
    assert_eq!(&wire[8..25], &[1, 4, 0, 0, 0, 6, 0, 0, 0, 0, 0, 0, 0, 2, 0, 0, 0]);
    assert_eq!(wire.len(), 25 + 13 + 11);
    assert_eq!(parse_archive(&wire), Ok(archive));
    assert_eq!(decompress_single_layer_bytes(&wire), Ok(vec![1, 2, 3, 4, 5, 6]));
    assert_eq!(decompress_bytes(&wire), Ok(vec![1, 2, 3, 4, 5, 6]));
}

#[test]
fn a_written_archive_of_layers_is_read_back() {
    let layers = vec![
        LayerSummary {
            block_size_bytes: 64,
            input_size: 1000,
            output_size: 100,
        },
        LayerSummary {
            block_size_bytes: 32,
            input_size: 100,
            output_size: 3,
        },
    ];
    let wire = serialize_recursive_archive(1000, &layers, &[9, 9, 9]);
    assert_eq!(wire.len(), 29 + 2 * 20 + 3);
    assert_eq!(&wire[..8], &magic_multi());
    let read = parse_recursive_archive(&wire).unwrap();
    assert_eq!(read.original_size, 1000);
    assert_eq!(read.layer_summaries, layers);
    assert_eq!(read.final_payload, vec![9, 9, 9]);
    assert_eq!(inspect_archive(&wire), Ok(layers));
}

#[test]
fn an_empty_input_is_an_archive_without_layers() {
    let outcome = compress_bytes_with_outcome(&[], None).unwrap();
    assert!(outcome.layer_summaries.is_empty());
    assert_eq!(outcome.archive.len(), 29);
    assert_eq!(decompress_bytes(&outcome.archive), Ok(Vec::new()));
    assert_eq!(inspect_archive(&outcome.archive), Ok(Vec::new()));
}

#[test]
fn layers_form_a_shrinking_chain_from_the_input_to_the_payload() {
    let input = b"0123456789".repeat(3000);
    let outcome = compress_bytes_with_outcome(&input, None).unwrap();
    let layers = inspect_archive(&outcome.archive).unwrap();
    assert_eq!(layers, outcome.layer_summaries);
    assert_eq!(layers[0].input_size, input.len() as u64);
    for layer in &layers {
        assert!(layer.output_size < layer.input_size);
    }
    for pair in layers.windows(2) {
        assert_eq!(pair[0].output_size, pair[1].input_size);
    }
    assert_eq!(
        outcome.archive.len() as u64,
        29 + 20 * layers.len() as u64 + layers[layers.len() - 1].output_size
    );
}

#[test]
fn every_block_size_gives_the_input_back() {
    let input: Vec<u8> = (0_u32..700).map(|v| (v * 7 % 19) as u8).collect();
    for size in [1, 2, 8, 63, 64, 512, 700, 4096] {
        let packed = compress_single_layer_bytes(&input, size).unwrap();
        assert_eq!(decompress_bytes(&packed), Ok(input.clone()));
        let packed = compress_bytes(&input, Some(size)).unwrap();
        assert_eq!(decompress_bytes(&packed), Ok(input.clone()));
    }
    let packed = compress_bytes(&input, Some(0)).unwrap();
    assert_eq!(decompress_bytes(&packed), Ok(input));
}

#[test]
fn the_best_layer_is_the_shortest_of_the_candidates() {
    let input = b"abcdabcdabcdabcd".repeat(40);
    let sizes = [64, 128, 512];
    let best = choose_best_single_layer(&input, &sizes).unwrap();
    let lengths: Vec<usize> = sizes
        .iter()
        .map(|size| compress_single_layer_bytes(&input, *size).unwrap().len())
        .collect();
    assert_eq!(Some(&best.output.len()), lengths.iter().min());
    assert!(sizes.contains(&best.block_size));
}

#[test]
fn candidate_sizes_surround_the_hint_and_end_at_the_input() {
    assert_eq!(powers_of_two_between(5, 40), vec![8, 16, 32]);
    assert_eq!(powers_of_two_between(9, 15), vec![16]);
    assert_eq!(powers_of_two_between(0, 0), vec![1]);
    assert_eq!(largest_power_of_two_probe(1000), Some(512));
    assert_eq!(largest_power_of_two_probe(7), None);
    assert_eq!(largest_power_of_two_probe(100_000), Some(8192));
    assert_eq!(
        candidate_block_sizes(&[0; 4096], Some(96)),
        vec![24, 48, 96, 192, 384, 4096]
    );
    assert_eq!(candidate_block_sizes(&[], Some(1)), vec![1, 2, 4, 64]);
    assert_eq!(
        candidate_block_sizes(&[0; 300], None),
        vec![64, 128, 256, 300]
    );
}

#[test]
fn branch_logs_are_read_back() {
    let mut log = BranchVector::new();
    assert!(log.is_empty());
    for i in 0..13 {
        log.push(BranchBit::from(i % 3 == 0));
    }
    let bytes = log.to_bytes();
    assert_eq!(log.byte_len(), 2);
    let back = BranchVector::from_bytes(&bytes).unwrap();
    assert_eq!(back.len(), 13);
    for i in 0..13 {
        assert_eq!(back.get(i), BranchBit::from(i % 3 == 0));
    }
    assert!(BranchVector::from_bytes(&bytes[..bytes.len() - 1]).is_none());
    assert!(BranchVector::from_bytes(&[1, 0]).is_none());
}

#[test]
fn a_branch_step_can_be_undone_with_its_decision() {
    for state in [0_u64, 1, 0xDEAD_BEEF, u64::MAX] {
        for mask in [0_u64, 0xFF, 0xF0F0_F0F0_F0F0_F0F0] {
            let (next, bit) = branch_step(state, mask);
            assert_eq!(bit, parity64(state & mask));
            let (other, _) = branch_step(state ^ 1, mask);
            assert_ne!(next, other);
        }
    }
}

#[test]
fn a_packed_constant_holds_its_peaks_and_its_window() {
    let peaks = [
        WalshPeak {
            index: 7,
            amplitude: 127,
        },
        WalshPeak {
            index: 3,
            amplitude: -127,
        },
    ];
    let constant = MetaK::pack(&peaks, 10);
    assert_eq!(constant.window_bits(), 1024);
    assert_eq!(constant.primary_walsh_index(), 7);
    let (read, log2) = constant.unpack();
    assert_eq!(log2, 10);
    assert_eq!(read[0].index, 7);
    assert_eq!(read[1].index, 3);
    assert!(read[0].amplitude > 0);
    assert!(read[1].amplitude < 0);
}

#[test]
fn an_encoded_window_is_shorter_and_is_read_back() {
    let input = vec![0x3C_u8; 512];
    let block = try_encode_adaptive(&input).unwrap();
    assert!(block.wire.len() < block.window_bits / 8);
    assert_eq!(block.wire.len(), 13 + block.v.len());
    let mut wire = block.wire.clone();
    wire.extend_from_slice(&[1, 2, 3]);
    let (read, used) = decode_adaptive(&wire).unwrap();
    assert_eq!(used, block.wire.len());
    assert_eq!(read.k, block.k);
    assert_eq!(read.v, block.v);
    assert_eq!(read.window_bits, block.window_bits);
}

#[test]
fn what_was_read_is_written_as_it_was() {
    let inputs: [Vec<u8>; 4] = [
        b"0123456789".repeat(90),
        (0_u32..512).map(|v| (v * v * 31 % 251) as u8).collect(),
        (0_u64..64).flat_map(|v| (v % 4).to_le_bytes()).collect(),
        Vec::new(),
    ];
    for input in inputs {
        let packed = compress_single_layer_bytes(&input, 128).unwrap();
        let archive = parse_archive(&packed).unwrap();
        assert_eq!(archive.header.block_count as usize, archive.blocks.len());
        assert_eq!(serialize_single_layer_archive(&archive), Ok(packed));
        let packed = compress_bytes(&input, None).unwrap();
        let archive = parse_recursive_archive(&packed).unwrap();
        assert_eq!(
            serialize_recursive_archive(
                archive.original_size,
                &archive.layer_summaries,
                &archive.final_payload
            ),
            packed
        );
    }
}

#[test]
fn tails_and_other_versions_are_refused() {
    let input = b"0123456789".repeat(300);
    for archive in [
        compress_bytes(&input, None).unwrap(),
        compress_single_layer_bytes(&input, 512).unwrap(),
    ] {
        for tail in [vec![0_u8], vec![0xAA; 40], archive.clone()] {
            let mut longer = archive.clone();
            longer.extend_from_slice(&tail);
            assert_eq!(
                decompress_bytes(&longer),
                Err("archive contains trailing bytes".to_string())
            );
            assert!(inspect_archive(&longer).is_err());
        }
        for version in [0_u8, 2, 255] {
            let mut other = archive.clone();
            other[8] = version;
            assert_eq!(
                decompress_bytes(&other),
                Err(format!("unsupported base version: {version}"))
            );
            assert!(inspect_archive(&other).is_err());
        }
    }
}

#[test]
fn layers_are_used_only_where_the_archive_gets_shorter() {
    for input in [
        b"0123456789".repeat(400),
        vec![1, 2, 3],
        (0_u32..300).map(|v| (v * v * 31 % 251) as u8).collect::<Vec<u8>>(),
    ] {
        let outcome = compress_bytes_with_outcome(&input, None).unwrap();
        if outcome.layer_summaries.is_empty() {
            assert_eq!(outcome.archive.len(), input.len() + 29);
        } else {
            assert!(outcome.archive.len() < input.len() + 29);
        }
    }
}

#[test]
fn sparse_forms_exist_from_two_to_131_symbols() {
    for symbols in [0_usize, 1, 2, 3, 129, 130, 131, 132, 256] {
        let mut input: Vec<u8> = Vec::new();
        for symbol in 0..symbols {
            for _ in 0..(1 + (symbol * 7) % 5) {
                input.push(symbol as u8);
            }
        }
        let analysis = analyze_block(&input);
        let form = try_encode_sparse_alphabet_block(&input, &analysis).unwrap();
        match form {
            None => assert!(!(2..=131).contains(&symbols)),
            Some(BlockEncoding::SparseAlphabet(block)) => {
                assert!((2..=131).contains(&symbols));
                assert!((1..=3).contains(&block.exception_alphabet.len()));
                let mut all = block.dense_alphabet.clone();
                all.extend_from_slice(&block.exception_alphabet);
                all.sort();
                assert_eq!(all, analysis.unique_sorted_bytes);
                let count = |b: u8| input.iter().filter(|x| **x == b).count();
                for rare in &block.exception_alphabet {
                    for dense in &block.dense_alphabet {
                        assert!(count(*rare) <= count(*dense));
                    }
                }
            }
            Some(other) => panic!("expected a sparse block, got {other:?}"),
        }
    }
}
