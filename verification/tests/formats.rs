use std::io::Cursor;
use trident::formats::binary::btree::{BtreeBinaryMetadata, BtreeBinaryReader, BtreeBinaryWriter};
use trident::formats::{
    compute_crc32, validate_crc32, BinaryReader, BinaryWriter, ChecksumValidator, FormatError,
    FormatHeader, IndexType, FORMAT_VERSION, TRIDENT_MAGIC,
};

#[test]
fn test_format_header_roundtrip() {
    let header = FormatHeader::new(IndexType::Lsm, 256);
    let bytes = header.to_bytes();
    let decoded = FormatHeader::from_bytes(&bytes).unwrap();

    assert_eq!(decoded.magic, TRIDENT_MAGIC);
    assert_eq!(decoded.version, FORMAT_VERSION);
    assert_eq!(decoded.index_type, IndexType::Lsm);
    assert_eq!(decoded.metadata_offset, 256);
}

#[test]
fn test_crc32_validation() {
    let data = b"hello world";
    let crc = compute_crc32(data);
    assert!(validate_crc32(data, crc));
    assert!(!validate_crc32(data, crc + 1));
}

#[test]
fn test_index_type_conversion() {
    for (value, expected) in [
        (1u32, IndexType::Lsm),
        (2, IndexType::Btree),
        (3, IndexType::Adjacency),
        (4, IndexType::Hnsw),
    ] {
        let idx_type = IndexType::from_u32(value).unwrap();
        assert_eq!(idx_type, expected);
        assert_eq!(idx_type.to_u32(), value);
    }

    assert!(IndexType::from_u32(99).is_none());
}

#[test]
fn test_binary_writer() {
    let cursor = Cursor::new(Vec::<u8>::new());
    let mut writer = BinaryWriter::new(cursor);

    writer.write_u32(12345).unwrap();
    writer.write_u64(67890).unwrap();
    writer.write_u16(100).unwrap();
    writer.write_u8(42).unwrap();

    let buffer = writer.take_buffer();
    assert_eq!(buffer.len(), 4 + 8 + 2 + 1);
}

#[test]
fn test_binary_reader() {
    let data = vec![
        123, 45, 0, 0, // u32 = 11643
        200, 10, 0, 0, 0, 0, 0, 0, // u64
        50, 0, // u16 = 50
        99, // u8
    ];

    let mut reader = BinaryReader::new(data);

    let v1 = reader.read_u32().unwrap();
    assert_eq!(v1, 11643);

    let _v2 = reader.read_u64().unwrap();
    let v3 = reader.read_u16().unwrap();
    assert_eq!(v3, 50);

    let v4 = reader.read_u8().unwrap();
    assert_eq!(v4, 99);
}

#[test]
fn binary_reader_reports_end_of_data() {
    let mut reader = BinaryReader::new(vec![1, 2, 3]);
    assert_eq!(reader.read_u32(), Err(FormatError::UnexpectedEof));
    assert_eq!(reader.read_u16().unwrap(), 0x0201);
    assert_eq!(reader.read_bytes(1).unwrap(), vec![3]);
}

#[test]
fn header_bytes_are_little_endian() {
    let mut header = FormatHeader::new(IndexType::Hnsw, 0x0102);
    header.crc32 = 0xAABBCCDD;
    header.timestamp = 7;
    let bytes = header.to_bytes();
    assert_eq!(&bytes[0..4], &[0x44, 0x49, 0x52, 0x54]);
    assert_eq!(&bytes[4..6], &[1, 0]);
    assert_eq!(&bytes[6..10], &[4, 0, 0, 0]);
    assert_eq!(&bytes[10..14], &[0xDD, 0xCC, 0xBB, 0xAA]);
    assert_eq!(&bytes[14..22], &[2, 1, 0, 0, 0, 0, 0, 0]);
    assert_eq!(&bytes[22..30], &[7, 0, 0, 0, 0, 0, 0, 0]);
}

#[test]
fn header_refuses_bad_fields() {
    let mut bytes = FormatHeader::new(IndexType::Btree, 32).to_bytes();
    bytes[0] ^= 1;
    assert!(matches!(FormatHeader::from_bytes(&bytes), Err(FormatError::InvalidMagic(_))));
    let mut bytes = FormatHeader::new(IndexType::Btree, 32).to_bytes();
    bytes[4] = 2;
    assert_eq!(FormatHeader::from_bytes(&bytes).unwrap_err(), FormatError::UnsupportedVersion(2));
    let mut bytes = FormatHeader::new(IndexType::Btree, 32).to_bytes();
    bytes[6] = 9;
    assert_eq!(FormatHeader::from_bytes(&bytes).unwrap_err(), FormatError::InvalidIndexType(9));
}

#[test]
fn checksum_validator_matches_one_shot() {
    let mut v = ChecksumValidator::new();
    v.update(b"hello ");
    v.update(b"world");
    assert_eq!(v.finalize(), compute_crc32(b"hello world"));
    // The CRC-32 (IEEE) of "123456789".
    assert_eq!(compute_crc32(b"123456789"), 0xCBF43926);
}

#[test]
fn test_btree_binary_roundtrip() {
    let mut writer = BtreeBinaryWriter::new(32, 3, 1000, 5, 12345);

    writer.write_node(0, 1000).unwrap();
    writer.write_node(1, 2000).unwrap();
    writer.write_node(2, 3000).unwrap();
    let buffer = writer.finish();

    let reader = BtreeBinaryReader::open(&buffer).unwrap();

    assert_eq!(reader.node_count(), 3);
    assert_eq!(reader.get_rid(0), Some(1000));
    assert_eq!(reader.get_rid(1), Some(2000));
    assert_eq!(reader.get_rid(2), Some(3000));
    assert_eq!(reader.root_rid(), 1000);
    assert_eq!(reader.height(), 3);
    assert_eq!(reader.order(), 32);
}

#[test]
fn test_btree_binary_metadata() {
    let metadata = BtreeBinaryMetadata {
        order: 64,
        height: 5,
        node_count: 1000,
        root_rid: 5000,
        generation: 42,
        sequence: 99999,
    };

    let bytes = metadata.to_bytes();
    let decoded = BtreeBinaryMetadata::from_bytes(&bytes).unwrap();

    assert_eq!(decoded.order, 64);
    assert_eq!(decoded.height, 5);
    assert_eq!(decoded.node_count, 1000);
    assert_eq!(decoded.root_rid, 5000);
    assert_eq!(decoded.generation, 42);
}

#[test]
fn btree_metadata_keeps_low_sequence_bits() {
    let metadata = BtreeBinaryMetadata {
        order: 1,
        height: 1,
        node_count: 0,
        root_rid: 0,
        generation: 0,
        sequence: 0x1_0000_0005,
    };
    let decoded = BtreeBinaryMetadata::from_bytes(&metadata.to_bytes()).unwrap();
    assert_eq!(decoded.sequence, 5);
    assert_eq!(BtreeBinaryMetadata::from_bytes(&[0u8; 31]).unwrap_err(), FormatError::MetadataTooShort);
}

#[test]
fn test_btree_binary_corruption_detection() {
    let mut writer = BtreeBinaryWriter::new(32, 2, 500, 1, 111);
    writer.write_node(0, 100).unwrap();
    let mut buffer = writer.finish();

    // Corrupt CRC
    if buffer.len() >= 14 {
        buffer[10] ^= 0xFF;
    }

    let result = BtreeBinaryReader::open(&buffer);
    assert!(result.is_err());
    let err_str = result.unwrap_err().message();
    assert!(err_str.contains("CRC32") || err_str.contains("mismatch"));
}

#[test]
fn test_btree_binary_empty() {
    let writer = BtreeBinaryWriter::new(32, 1, 0, 0, 0);
    let buffer = writer.finish();

    let reader = BtreeBinaryReader::open(&buffer).unwrap();
    assert_eq!(reader.node_count(), 0);
    assert_eq!(reader.root_rid(), 0);
}

#[test]
fn test_btree_binary_large_tree() {
    let mut writer = BtreeBinaryWriter::new(128, 10, 99999, 123, 456789);

    for i in 0..1000 {
        writer.write_node(i, i * 100).unwrap();
    }
    let buffer = writer.finish();

    let reader = BtreeBinaryReader::open(&buffer).unwrap();

    assert_eq!(reader.node_count(), 1000);
    assert_eq!(reader.order(), 128);
    assert_eq!(reader.height(), 10);

    for i in 0..1000 {
        assert_eq!(reader.get_rid(i), Some(i * 100));
    }
}

#[test]
fn btree_binary_orders_nodes_and_keeps_last_duplicate() {
    let mut writer = BtreeBinaryWriter::new(4, 1, 0, 0, 0);
    writer.write_node(9, 1).unwrap();
    writer.write_node(3, 2).unwrap();
    writer.write_node(9, 3).unwrap();
    let buffer = writer.finish();
    // Entries start after the header (32) and metadata (32), ordered by page id.
    assert_eq!(&buffer[64..72], &3u64.to_le_bytes());
    assert_eq!(&buffer[80..88], &9u64.to_le_bytes());
    assert_eq!(&buffer[88..96], &1u64.to_le_bytes());
    let reader = BtreeBinaryReader::open(&buffer).unwrap();
    assert_eq!(reader.get_rid(9), Some(3));
    assert_eq!(reader.get_rid(3), Some(2));
    assert_eq!(reader.get_rid(4), None);
}

#[test]
fn btree_binary_reader_errors() {
    let mut writer = BtreeBinaryWriter::new(4, 1, 0, 0, 0);
    writer.write_node(1, 1).unwrap();
    let buffer = writer.finish();
    assert_eq!(BtreeBinaryReader::open(&buffer[..31]).unwrap_err(), FormatError::UnexpectedEof);
    // A header of another index type.
    let mut other = buffer.clone();
    other[6] = 4;
    assert_eq!(
        BtreeBinaryReader::open(&other).unwrap_err(),
        FormatError::IndexTypeMismatch(IndexType::Btree)
    );
    // A truncated file fails its checksum.
    let short = &buffer[..buffer.len() - 1];
    assert!(matches!(
        BtreeBinaryReader::open(short),
        Err(FormatError::ChecksumMismatch { .. })
    ));
}

#[test]
fn checksums_match_their_standard_check_values() {
    assert_eq!(trident::formats::compute_crc32(b"123456789"), 0xCBF4_3926);
    assert_eq!(trident::io::checksum::crc32c(b"123456789"), 0xE306_9283);
    let mut data = b"payload bytes".to_vec();
    let before = trident::formats::compute_crc32(&data);
    data[3] ^= 0x10;
    assert_ne!(trident::formats::compute_crc32(&data), before);
}
