use trident::formats::binary::adjacency::{AdjacencyBinaryReader, AdjacencyBinaryWriter};
use trident::formats::binary::hnsw::{HnswBinaryReader, HnswBinaryWriter};

#[test]
fn test_hnsw_binary_roundtrip() {
    let mut writer = HnswBinaryWriter::new(128, 1, 1, 100);

    writer.add_vector(1, 1000, 2).unwrap();
    writer.add_vector(2, 2000, 2).unwrap();
    writer.add_vector(3, 3000, 1).unwrap();

    let buffer = writer.finish();

    let reader = HnswBinaryReader::open(&buffer).unwrap();

    assert_eq!(reader.vector_count(), 3);
    assert_eq!(reader.vector_dim(), 128);
    assert_eq!(reader.get_vector(1).unwrap().rid, 1000);
}

#[test]
fn test_hnsw_binary_empty() {
    let writer = HnswBinaryWriter::new(256, 0, 5, 50);
    let buffer = writer.finish();

    let reader = HnswBinaryReader::open(&buffer).unwrap();
    assert_eq!(reader.vector_count(), 0);
}

#[test]
fn test_hnsw_binary_corruption_detection() {
    let mut writer = HnswBinaryWriter::new(64, 1, 1, 1);
    writer.add_vector(1, 100, 0).unwrap();
    let mut buffer = writer.finish();

    // Corrupt CRC
    if buffer.len() >= 14 {
        buffer[10] ^= 0xFF;
    }

    let result = HnswBinaryReader::open(&buffer);
    assert!(result.is_err());
    let err_str = result.err().unwrap().message();
    assert!(err_str.contains("CRC32") || err_str.contains("mismatch"));
}

#[test]
fn hnsw_entry_point_and_missing_vector() {
    let mut writer = HnswBinaryWriter::new(8, 2, 1, 1);
    writer.add_vector(2, 77, 0).unwrap();
    writer.add_vector(5, 99, 3).unwrap();
    let buffer = writer.finish();
    let reader = HnswBinaryReader::open(&buffer).unwrap();
    assert_eq!(reader.entry_point_rid(), Some(77));
    assert!(reader.get_vector(3).is_none());
    assert_eq!(reader.get_vector(5).unwrap().layer, 3);
}

#[test]
fn test_adjacency_binary_roundtrip() {
    let mut writer = AdjacencyBinaryWriter::new(1, 100);

    writer.write_edge(1, 2, 200).unwrap();
    writer.write_edge(1, 3, 300).unwrap();
    writer.write_edge(2, 1, 100).unwrap();
    writer.write_edge(2, 4, 400).unwrap();
    let buffer = writer.finish();

    let reader = AdjacencyBinaryReader::open(&buffer).unwrap();

    assert_eq!(reader.node_count(), 2);
    assert_eq!(reader.edge_count(), 4);

    let edges_1 = reader.get_edges(1).unwrap();
    assert_eq!(edges_1.len(), 2);
    assert!(edges_1.iter().any(|e| e.neighbor_node == 2 && e.neighbor_rid == 200));
    assert!(edges_1.iter().any(|e| e.neighbor_node == 3 && e.neighbor_rid == 300));

    let neighbors_2 = reader.get_neighbors(2).unwrap();
    assert_eq!(neighbors_2, vec![1, 4]);
}

#[test]
fn test_adjacency_binary_empty() {
    let writer = AdjacencyBinaryWriter::new(5, 50);
    let buffer = writer.finish();

    let reader = AdjacencyBinaryReader::open(&buffer).unwrap();
    assert_eq!(reader.node_count(), 0);
    assert_eq!(reader.edge_count(), 0);
}

#[test]
fn test_adjacency_binary_corruption_detection() {
    let mut writer = AdjacencyBinaryWriter::new(2, 200);
    writer.write_edge(1, 2, 100).unwrap();
    let mut buffer = writer.finish();

    // Corrupt CRC
    if buffer.len() >= 14 {
        buffer[10] ^= 0xFF;
    }

    let result = AdjacencyBinaryReader::open(&buffer);
    assert!(result.is_err());
    let err_str = result.err().unwrap().message();
    assert!(err_str.contains("CRC32") || err_str.contains("mismatch"));
}

#[test]
fn adjacency_edges_of_unknown_node() {
    let mut writer = AdjacencyBinaryWriter::new(1, 1);
    writer.write_edge(7, 8, 80).unwrap();
    let buffer = writer.finish();
    let reader = AdjacencyBinaryReader::open(&buffer).unwrap();
    assert!(reader.get_edges(9).is_none());
    assert!(reader.get_neighbors(9).is_none());
}
