use pack::bitstream::{bit_width_for_cardinality, pack_indices, unpack_indices};

#[test]
fn roundtrip_pack_unpack_indices() {
    let input = vec![0_u8, 1, 2, 3, 0, 2, 1, 3, 1, 0];
    let packed = pack_indices(&input, 2);
    let unpacked = unpack_indices(&packed, 2, input.len()).unwrap();
    assert_eq!(input, unpacked);
}

#[test]
fn computes_bit_width() {
    assert_eq!(bit_width_for_cardinality(1), 0);
    assert_eq!(bit_width_for_cardinality(2), 1);
    assert_eq!(bit_width_for_cardinality(3), 2);
    assert_eq!(bit_width_for_cardinality(10), 4);
    assert_eq!(bit_width_for_cardinality(17), 5);
}

#[test]
fn singleton_alphabet_requires_no_breadcrumb_bits() {
    let input = vec![0_u8; 4096];
    let packed = pack_indices(&input, 0);
    let unpacked = unpack_indices(&packed, 0, input.len()).unwrap();
    assert!(packed.is_empty());
    assert_eq!(input, unpacked);
}
