use trident::errors::TridentError;
use trident::index::hnsw_format::{
    decode_hnsw_snapshot, encode_hnsw_snapshot, is_hnsw_snapshot, HnswGraphPayload, HnswNodePayload,
    HnswSnapshotPayload,
};

fn sample() -> HnswSnapshotPayload {
    HnswSnapshotPayload {
        config: (16, 64, 64, 16),
        graphs: vec![
            HnswGraphPayload {
                dim: 2,
                entry: Some(1),
                max_level: 1,
                nodes: vec![
                    HnswNodePayload {
                        rid: 10,
                        vector: vec![1.0f32.to_bits(), 0.5f32.to_bits()],
                        level: 0,
                        neighbors: vec![vec![1]],
                    },
                    HnswNodePayload {
                        rid: 11,
                        vector: vec![0.0f32.to_bits(), (-2.0f32).to_bits()],
                        level: 1,
                        neighbors: vec![vec![0], vec![]],
                    },
                ],
            },
            HnswGraphPayload { dim: 3, entry: None, max_level: 0, nodes: vec![] },
        ],
    }
}

fn reason(e: TridentError) -> String {
    match e {
        TridentError::Corrupt { reason, .. } => reason,
        other => panic!("unexpected error {:?}", other),
    }
}

#[test]
fn hnsw_snapshot_roundtrip() {
    let bytes = encode_hnsw_snapshot(&sample());
    assert!(is_hnsw_snapshot(&bytes));
    assert_eq!(&bytes[0..4], &0x484e_5332u32.to_le_bytes());
    assert_eq!(bytes[4], 1);
    let back = decode_hnsw_snapshot(&bytes, "v.hnsw").unwrap();
    assert_eq!(back.config, (16, 64, 64, 16));
    assert_eq!(back.graphs.len(), 2);
    let g = &back.graphs[0];
    assert_eq!((g.dim, g.entry, g.max_level), (2, Some(1), 1));
    assert_eq!(g.nodes[1].rid, 11);
    assert_eq!(f32::from_bits(g.nodes[1].vector[1]), -2.0);
    assert_eq!(g.nodes[1].neighbors, vec![vec![0], vec![]]);
    assert_eq!(back.graphs[1].entry, None);
    assert!(back.graphs[1].nodes.is_empty());
}

#[test]
fn hnsw_snapshot_refusals() {
    let bytes = encode_hnsw_snapshot(&sample());
    assert_eq!(reason(decode_hnsw_snapshot(&bytes[..10], "v").err().unwrap()), "truncated HNSW snapshot header");
    let mut bad = bytes.clone();
    bad[0] ^= 1;
    assert!(!is_hnsw_snapshot(&bad));
    assert_eq!(reason(decode_hnsw_snapshot(&bad, "v").err().unwrap()), "bad HNSW snapshot magic");
    let mut bad = bytes.clone();
    bad[4] = 7;
    assert_eq!(reason(decode_hnsw_snapshot(&bad, "v").err().unwrap()), "unsupported HNSW snapshot version 7");
    assert_eq!(
        reason(decode_hnsw_snapshot(&bytes[..bytes.len() - 1], "v").err().unwrap()),
        "truncated HNSW snapshot payload"
    );
    let mut bad = bytes.clone();
    let last = bad.len() - 1;
    bad[last] ^= 0xff;
    assert!(reason(decode_hnsw_snapshot(&bad, "v").err().unwrap()).starts_with("HNSW snapshot checksum mismatch"));
}

#[test]
fn hnsw_snapshot_bad_entry_tag() {
    let empty = HnswSnapshotPayload {
        config: (1, 2, 3, 4),
        graphs: vec![HnswGraphPayload { dim: 1, entry: Some(0), max_level: 0, nodes: vec![] }],
    };
    let bytes = encode_hnsw_snapshot(&empty);
    // The entry tag sits after the configuration (25 bytes), the graph count (4) and the dimension (4).
    let mut payload = bytes[13..].to_vec();
    payload[33] = 5;
    let mut framed = bytes[..9].to_vec();
    framed.extend_from_slice(&trident::io::checksum::crc32c(&payload).to_le_bytes());
    framed.extend_from_slice(&payload);
    assert_eq!(
        reason(decode_hnsw_snapshot(&framed, "v").err().unwrap()),
        "invalid HNSW entry-point tag 5"
    );
}
