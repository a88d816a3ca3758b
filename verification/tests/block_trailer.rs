use docstore::error::{ErrorKind, StoreError};
use docstore::store::{read_block_trailer, write_block_trailer, BlockFieldRemap};

#[test]
fn empty_remap_roundtrip() {
    let mut buf = Vec::new();
    let remap = BlockFieldRemap::new();
    write_block_trailer(&mut buf, &remap).unwrap();
    assert_eq!(buf.len(), 4, "empty trailer should be just the u32 length");
    assert_eq!(buf, [4u8, 0, 0, 0]);
    let (back, n) = read_block_trailer(&buf).unwrap();
    assert_eq!(n, 4);
    assert!(back.is_empty());
}

#[test]
fn non_empty_remap_roundtrip() {
    let remap = BlockFieldRemap::from_pairs(vec![(0u32, 7u32), (1, 4), (3, 3)]);
    let mut buf = Vec::new();
    write_block_trailer(&mut buf, &remap).unwrap();
    let (back, n) = read_block_trailer(&buf).unwrap();
    assert_eq!(n, buf.len());
    assert_eq!(back.lookup(0), 7);
    assert_eq!(back.lookup(1), 4);
    assert_eq!(back.lookup(3), 3);
    assert_eq!(back.lookup(42), 42);
}

#[test]
fn lookup_default_is_identity() {
    let remap = BlockFieldRemap::new();
    for &id in &[0u32, 1, 5, 999] {
        assert_eq!(remap.lookup(id), id);
    }
}

#[test]
fn serialization_is_deterministic_across_insertion_orders() {
    let pairs_a = vec![(5u32, 1u32), (2, 7), (9, 0), (1, 3), (12, 4)];
    let mut pairs_b = pairs_a.clone();
    pairs_b.reverse();
    let remap_a = BlockFieldRemap::from_pairs(pairs_a);
    let remap_b = BlockFieldRemap::from_pairs(pairs_b);
    let mut buf_a = Vec::new();
    let mut buf_b = Vec::new();
    write_block_trailer(&mut buf_a, &remap_a).unwrap();
    write_block_trailer(&mut buf_b, &remap_b).unwrap();
    assert_eq!(
        buf_a, buf_b,
        "trailer bytes must be independent of HashMap iteration order"
    );
}

#[test]
fn trailer_bytes_are_sorted_varints() {
    let remap = BlockFieldRemap::from_pairs(vec![(300, 2), (1, 129)]);
    let mut buf = vec![0xAAu8];
    write_block_trailer(&mut buf, &remap).unwrap();
    // Count, then the entries by field id; the last byte of a number has its top bit set.
    assert_eq!(
        buf,
        [0xAA, 0x82, 0x81, 0x01, 0x81, 0x2C, 0x82, 0x82, 11, 0, 0, 0]
    );
    let (back, n) = read_block_trailer(&buf).unwrap();
    assert_eq!(n, 11);
    assert_eq!(buf.len() - n, 1);
    assert_eq!(back.len(), 2);
    assert_eq!(back.lookup(300), 2);
}

#[test]
fn later_pairs_replace_earlier_ones() {
    let remap = BlockFieldRemap::from_pairs(vec![(1, 2), (1, 3)]);
    assert_eq!(remap.len(), 1);
    assert_eq!(remap.lookup(1), 3);
    assert_eq!(remap.pairs(), vec![(1, 3)]);
}

#[test]
fn identity_entries_are_recognised() {
    assert!(BlockFieldRemap::new().is_identity());
    let identity = BlockFieldRemap::from_pairs(vec![(3, 3), (8, 8)]);
    assert!(identity.is_identity());
    assert!(!identity.is_empty());
    assert!(!BlockFieldRemap::from_pairs(vec![(3, 3), (8, 9)]).is_identity());
}

#[test]
fn composition_looks_up_twice() {
    let inner = BlockFieldRemap::from_pairs(vec![(0, 5), (1, 6)]);
    let outer = BlockFieldRemap::from_pairs(vec![(5, 9), (2, 7), (0, 3)]);
    let composed = inner.compose(&outer);
    for field in 0..10u32 {
        assert_eq!(composed.lookup(field), outer.lookup(inner.lookup(field)));
    }
    assert_eq!(composed.lookup(0), 9);
    assert_eq!(composed.lookup(1), 6);
    assert_eq!(composed.lookup(2), 7);
}

#[test]
fn malformed_trailers_are_rejected() {
    let short = read_block_trailer(&[1, 2, 3]).err().unwrap();
    assert_eq!(short, StoreError::BlockTooShort);
    assert_eq!(short.kind(), ErrorKind::UnexpectedEof);

    let too_long = read_block_trailer(&[9, 0, 0, 0]).err().unwrap();
    assert_eq!(
        too_long,
        StoreError::InvalidTrailerLength { trailer_byte_len: 9, block_len: 4 }
    );
    assert_eq!(too_long.kind(), ErrorKind::InvalidData);

    let too_small = read_block_trailer(&[0, 0, 0, 0]).err().unwrap();
    assert_eq!(
        too_small,
        StoreError::InvalidTrailerLength { trailer_byte_len: 0, block_len: 4 }
    );

    // One entry is announced, and none follows.
    let cut_off = read_block_trailer(&[0x81, 5, 0, 0, 0]).err().unwrap();
    assert_eq!(cut_off, StoreError::TruncatedVInt);

    // A number without a last byte.
    let mut endless = vec![0x01u8; 11];
    endless.extend_from_slice(&[15, 0, 0, 0]);
    assert_eq!(
        read_block_trailer(&endless).err().unwrap(),
        StoreError::OverlongVInt
    );
}
