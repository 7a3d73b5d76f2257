use rogue::engine::asset::repr::world::voxel::encode_thc;

#[test]
fn thc_encodes_header_nodes_and_blocks() {
    let ids = vec![7u8];
    let nodes = vec![(5u32, 0x0000_0002_0000_0001u64)];
    let lookups = vec![(7u8, vec![(9u32, 3u64)])];
    let raws = vec![(7u8, vec![0xAABB_CCDDu32])];
    let bytes = encode_thc(4, &ids, &nodes, &lookups, &raws);
    let mut expected: Vec<u8> = b"THC ".to_vec();
    expected.extend_from_slice(&1u32.to_le_bytes());
    expected.extend_from_slice(&4u32.to_le_bytes());
    expected.extend_from_slice(&1u32.to_le_bytes());
    // attachment 7: lookup block at 16 + 9 + 4 + 12 = 41, raw block at 41 + 16 = 57
    expected.push(7);
    expected.extend_from_slice(&41u32.to_le_bytes());
    expected.extend_from_slice(&57u32.to_le_bytes());
    expected.extend_from_slice(&1u32.to_le_bytes());
    expected.extend_from_slice(&5u32.to_le_bytes());
    expected.extend_from_slice(&1u32.to_le_bytes());
    expected.extend_from_slice(&2u32.to_le_bytes());
    assert_eq!(expected.len(), 41);
    expected.extend_from_slice(&1u32.to_le_bytes());
    expected.extend_from_slice(&9u32.to_le_bytes());
    expected.extend_from_slice(&3u32.to_le_bytes());
    expected.extend_from_slice(&0u32.to_le_bytes());
    assert_eq!(expected.len(), 57);
    expected.extend_from_slice(&1u32.to_le_bytes());
    expected.extend_from_slice(&0xAABB_CCDDu32.to_le_bytes());
    assert_eq!(bytes, expected);
}

#[test]
fn thc_attachment_without_blocks_points_at_zero() {
    let bytes = encode_thc(2, &vec![3u8], &vec![], &vec![], &vec![]);
    assert_eq!(bytes.len(), 16 + 9 + 4);
    assert_eq!(&bytes[16..25], &[3, 0, 0, 0, 0, 0, 0, 0, 0]);
    assert_eq!(&bytes[25..29], &[0, 0, 0, 0]);
}

use rogue::engine::asset::repr::world::voxel_read::{decode_thc, ThcReadError};

#[test]
fn thc_reads_back_what_was_written() {
    let ids = vec![7u8, 9u8, 3u8];
    let nodes = vec![(5u32, 0x0000_0002_0000_0001u64), (0u32, u64::MAX)];
    let lookups = vec![(9u8, vec![(1u32, 2u64), (3u32, 0xFFFF_0000_0000_FFFFu64)]), (7u8, vec![])];
    let raws = vec![(7u8, vec![0xAABB_CCDDu32, 1]), (3u8, vec![42])];
    let bytes = encode_thc(16, &ids, &nodes, &lookups, &raws);
    let model = decode_thc(&bytes).expect("version 1").expect("well formed");
    assert_eq!(model.side_length, 16);
    assert_eq!(model.ids, ids);
    assert_eq!(model.nodes, nodes);
    assert_eq!(model.lookups, lookups);
    assert_eq!(model.raws, raws);
}

#[test]
fn thc_reading_checks_header_and_length() {
    let bytes = encode_thc(2, &vec![3u8], &vec![(1, 1)], &vec![(3u8, vec![(4, 5)])], &vec![]);
    let mut bad = bytes.clone();
    bad[0] = b'X';
    assert!(matches!(decode_thc(&bad), Some(Err(ThcReadError::BadHeader))));
    assert!(matches!(decode_thc(&bytes[..3].to_vec()), Some(Err(ThcReadError::Truncated))));
    assert!(matches!(decode_thc(&bytes[..bytes.len() - 1].to_vec()), Some(Err(ThcReadError::Truncated))));
    let mut v2 = bytes.clone();
    v2[4] = 2;
    assert!(decode_thc(&v2).is_none());
}

#[test]
fn thc_short_raw_data_is_refused_outright() {
    let bytes = encode_thc(2, &vec![3u8], &vec![], &vec![], &vec![(3u8, vec![1, 2])]);
    assert!(decode_thc(&bytes).unwrap().is_ok());
    assert!(decode_thc(&bytes[..bytes.len() - 4].to_vec()).is_none());
}
