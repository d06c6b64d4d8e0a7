use trident::errors::TridentError;
use trident::index::adjacency::AdjacencyIndex;
use trident::index::bm25::Bm25Index;
use trident::index::btree::BTreeIndex;
use trident::index::graph::GraphIndex;
use trident::index::lsm::LsmIndex;
use trident::index::time_series::{TimePartition, TimeSeriesIndex};
use trident::index::specialized::{SpecializedEngineContract, SpecializedEngineRegistry};
use trident::index::versions::Version;
use trident::index::IndexPlugin;
use trident::kernel::{EngineCapability, PhysicalEngineKind};
use trident::store::RecordId;

fn rid(n: u64) -> RecordId {
    RecordId(n)
}

fn keys(rows: &[(Vec<u8>, RecordId)]) -> Vec<Vec<u8>> {
    rows.iter().map(|r| r.0.clone()).collect()
}

#[test]
fn graph_bfs_visits_nearer_first_within_hops() {
    let mut g = GraphIndex::default();
    g.add_edge(rid(1), rid(2));
    g.add_edge(rid(1), rid(3));
    g.add_edge(rid(2), rid(4));
    g.add_edge(rid(4), rid(5));
    g.add_edge(rid(3), rid(1));
    assert_eq!(g.bfs(&rid(1), 0), vec![rid(1)]);
    assert_eq!(g.bfs(&rid(1), 1), vec![rid(1), rid(2), rid(3)]);
    assert_eq!(g.bfs(&rid(1), 2), vec![rid(1), rid(2), rid(3), rid(4)]);
    assert_eq!(g.bfs(&rid(1), 10), vec![rid(1), rid(2), rid(3), rid(4), rid(5)]);
    assert_eq!(g.bfs(&rid(9), 3), vec![rid(9)]);
}

#[test]
fn graph_shortest_path_and_missing_path() {
    let mut g = GraphIndex::default();
    g.add_edge(rid(1), rid(2));
    g.add_edge(rid(2), rid(3));
    g.add_edge(rid(1), rid(4));
    g.add_edge(rid(4), rid(3));
    g.add_edge(rid(3), rid(5));
    assert_eq!(g.shortest_path(&rid(1), &rid(5)).unwrap(), vec![rid(1), rid(2), rid(3), rid(5)]);
    assert_eq!(g.shortest_path(&rid(2), &rid(2)).unwrap(), vec![rid(2)]);
    match g.shortest_path(&rid(5), &rid(1)) {
        Err(TridentError::Query(m)) => assert_eq!(m, "path not found"),
        other => panic!("unexpected {:?}", other),
    }
}

#[test]
fn graph_remove_record_drops_edges_both_ways() {
    let mut g = GraphIndex::default();
    g.add_edge(rid(1), rid(2));
    g.add_edge(rid(2), rid(3));
    g.add_edge(rid(3), rid(2));
    g.remove_record(&rid(2));
    assert_eq!(g.successors(rid(1)), Vec::<RecordId>::new());
    assert_eq!(g.successors(rid(2)), Vec::<RecordId>::new());
    assert_eq!(g.successors(rid(3)), Vec::<RecordId>::new());
    assert_eq!(g.bfs(&rid(1), 5), vec![rid(1)]);
}

#[test]
fn bm25_insert_remove_and_counts() {
    let mut b = Bm25Index::default();
    b.insert(rid(1), "Hello world, hello!");
    b.insert(rid(2), "world peace");
    assert_eq!(b.doc_count(), 2);
    assert_eq!(b.posting_len("hello"), 1);
    assert_eq!(b.posting_len("WORLD"), 2);
    assert_eq!(b.posting_len("absent"), 0);
    b.insert(rid(1), "peace");
    assert_eq!(b.doc_count(), 2);
    assert_eq!(b.posting_len("hello"), 0);
    assert_eq!(b.posting_len("peace"), 2);
    b.remove(&rid(2));
    assert_eq!(b.doc_count(), 1);
    assert_eq!(b.posting_len("world"), 0);
    assert_eq!(b.posting_len("peace"), 1);
    b.remove(&rid(7));
    assert_eq!(b.doc_count(), 1);
}

#[test]
fn btree_put_get_delete_and_versions() {
    let mut t = BTreeIndex::with_dir("users", "");
    t.put(b"b", rid(2)).unwrap();
    t.put(b"a", rid(1)).unwrap();
    assert_eq!(t.get(b"a"), Some(rid(1)));
    assert_eq!(t.get(b"b"), Some(rid(2)));
    assert_eq!(t.get(b"c"), None);
    t.put(b"a", rid(10)).unwrap();
    assert_eq!(t.get(b"a"), Some(rid(10)));
    assert_eq!(t.get_at(b"a", 2), Some(rid(1)));
    assert_eq!(t.get_at(b"a", 0), None);
    t.delete(b"b").unwrap();
    assert_eq!(t.get(b"b"), None);
    assert_eq!(t.get_at(b"b", 1), Some(rid(2)));
    let s = t.stats();
    assert_eq!(s.live_keys, 1);
    assert_eq!(s.versions, 4);
    assert_eq!(t.name(), "users");
    assert_eq!(t.snapshot_file_name(), "users.btidx");
}

#[test]
fn btree_put_with_sequence_reads_at_snapshots() {
    let mut t = BTreeIndex::with_dir("seq", "");
    t.put_with_sequence(b"k", rid(1), 10).unwrap();
    t.put_with_sequence(b"k", rid(2), 20).unwrap();
    t.delete_with_sequence(b"k", 30).unwrap();
    assert_eq!(t.get_at(b"k", 5), None);
    assert_eq!(t.get_at(b"k", 10), Some(rid(1)));
    assert_eq!(t.get_at(b"k", 25), Some(rid(2)));
    assert_eq!(t.get_at(b"k", 30), None);
    t.put(b"k", rid(3)).unwrap();
    assert_eq!(t.get_at(b"k", 31), Some(rid(3)));
}

#[test]
fn btree_range_is_ordered_and_half_open() {
    let mut t = BTreeIndex::with_dir("r", "");
    for (k, v) in [(b"d", 4u64), (b"a", 1), (b"c", 3), (b"b", 2)] {
        t.put(k, rid(v)).unwrap();
    }
    t.delete(b"c").unwrap();
    let all = t.range(None, None);
    assert_eq!(keys(&all), vec![b"a".to_vec(), b"b".to_vec(), b"d".to_vec()]);
    assert_eq!(all[2].1, rid(4));
    let mid = t.range(Some(b"b"), Some(b"d"));
    assert_eq!(keys(&mid), vec![b"b".to_vec()]);
    let tail = t.range(Some(b"bb"), None);
    assert_eq!(keys(&tail), vec![b"d".to_vec()]);
}

#[test]
fn btree_pages_group_live_keys() {
    let mut t = BTreeIndex::with_dir("p", "");
    for i in 0..300u64 {
        let key = format!("k{:04}", i);
        t.put(key.as_bytes(), rid(i)).unwrap();
    }
    let pages = t.page_metadata();
    assert_eq!(pages.len(), 3);
    assert_eq!(pages[0].page_id, 0);
    assert_eq!(pages[0].key_count, 128);
    assert_eq!(pages[0].min_key, b"k0000".to_vec());
    assert_eq!(pages[0].max_key, b"k0127".to_vec());
    assert_eq!(pages[2].page_id, 2);
    assert_eq!(pages[2].key_count, 44);
    assert_eq!(pages[2].max_key, b"k0299".to_vec());
    t.delete(b"k0000").unwrap();
    assert_eq!(t.page_metadata()[0].min_key, b"k0001".to_vec());
}

#[test]
fn btree_compact_keeps_latest_reads() {
    let mut t = BTreeIndex::with_dir("c", "");
    t.put(b"a", rid(1)).unwrap();
    t.put(b"a", rid(2)).unwrap();
    t.put(b"b", rid(3)).unwrap();
    t.delete(b"b").unwrap();
    t.compact().unwrap();
    assert_eq!(t.get(b"a"), Some(rid(2)));
    assert_eq!(t.get(b"b"), None);
    let s = t.stats();
    assert_eq!(s.live_keys, 1);
    assert_eq!(s.versions, 1);
}

#[test]
fn btree_snapshot_roundtrip() {
    let mut t = BTreeIndex::with_dir("snap", "/tmp/x");
    t.put(b"alpha", rid(7)).unwrap();
    t.put(b"beta", rid(8)).unwrap();
    t.delete(b"beta").unwrap();
    let bytes = t.snapshot_bytes();
    assert_eq!(&bytes[0..4], &0x4254_5232u32.to_le_bytes());
    assert_eq!(bytes[4], 1);
    let u = BTreeIndex::from_snapshot("snap", "/tmp/x", &bytes, "snap.btidx").unwrap();
    assert_eq!(u.get(b"alpha"), Some(rid(7)));
    assert_eq!(u.get(b"beta"), None);
    assert_eq!(u.get_at(b"beta", 2), Some(rid(8)));
    assert_eq!(u.stats(), t.stats());
    assert_eq!(u.snapshot_bytes(), bytes);
}

#[test]
fn btree_snapshot_errors_name_the_fault() {
    let t = BTreeIndex::with_dir("e", "");
    let mut bytes = t.snapshot_bytes();
    let reason = |r: trident::errors::Result<BTreeIndex>| match r {
        Err(TridentError::Corrupt { path, reason }) => {
            assert_eq!(path, "src");
            reason
        }
        _ => panic!("expected a corrupt snapshot"),
    };
    assert_eq!(reason(BTreeIndex::from_snapshot("e", "", &bytes[..5], "src")), "truncated B-tree snapshot header");
    let mut bad = bytes.clone();
    bad[0] ^= 1;
    assert_eq!(reason(BTreeIndex::from_snapshot("e", "", &bad, "src")), "bad B-tree snapshot magic");
    let mut v = bytes.clone();
    v[4] = 9;
    assert_eq!(reason(BTreeIndex::from_snapshot("e", "", &v, "src")), "unsupported B-tree snapshot version 9");
    let n = bytes.len();
    assert_eq!(reason(BTreeIndex::from_snapshot("e", "", &bytes[..n - 1], "src")), "truncated B-tree snapshot payload");
    bytes[13] ^= 0xff;
    let m = reason(BTreeIndex::from_snapshot("e", "", &bytes, "src"));
    assert!(m.starts_with("B-tree snapshot checksum mismatch: expected 0x"));
}

#[test]
fn lsm_scan_membership_and_fences() {
    let mut l = LsmIndex::with_dir("lsm", "");
    assert_eq!(l.fence_bounds(), (None, None));
    l.put(b"m", rid(1)).unwrap();
    l.put(b"c", rid(2)).unwrap();
    l.put(b"x", rid(3)).unwrap();
    l.delete(b"x").unwrap();
    assert!(l.may_contain_key(b"m"));
    assert!(!l.may_contain_key(b"x"));
    assert!(!l.may_contain_key(b"q"));
    assert_eq!(l.fence_bounds(), (Some(b"c".to_vec()), Some(b"m".to_vec())));
    let rows = l.scan(Some(b"d"), None);
    assert_eq!(rows, vec![(b"m".to_vec(), rid(1))]);
    assert_eq!(l.get_at(b"x", 3), Some(rid(3)));
    assert_eq!(l.next_sequence(), 4);
    assert_eq!(l.snapshot_file_name(), "lsm.lsm");
}

#[test]
fn lsm_rows_rebuild_with_later_rows_winning() {
    let rows = vec![
        (b"b".to_vec(), vec![Version { sequence: 1, rid: Some(rid(1)) }]),
        (b"a".to_vec(), vec![Version { sequence: 2, rid: Some(rid(2)) }]),
        (b"b".to_vec(), vec![Version { sequence: 3, rid: Some(rid(3)) }]),
        (b"c".to_vec(), vec![]),
    ];
    let l = LsmIndex::from_rows("r", "", 3, &rows);
    assert_eq!(l.get(b"b"), Some(rid(3)));
    assert_eq!(l.get_at(b"b", 1), None);
    assert_eq!(l.get(b"a"), Some(rid(2)));
    assert_eq!(l.get(b"c"), None);
    let back = l.snapshot_rows();
    assert_eq!(back.len(), 2);
    assert_eq!(back[0].0, b"a".to_vec());
    assert_eq!(back[1].1, vec![Version { sequence: 3, rid: Some(rid(3)) }]);
}

#[test]
fn specialized_defaults_are_pointer_engines() {
    let v = SpecializedEngineContract::shipping_defaults();
    assert_eq!(v.len(), 9);
    assert_eq!(v[0].engine.name, "art");
    assert_eq!(v[0].engine.kind, PhysicalEngineKind::Art);
    assert_eq!(v[0].engine.capabilities, vec![EngineCapability::PointLookup, EngineCapability::PrefixScan]);
    assert_eq!(v[0].format.structure, "art_index");
    assert_eq!(v[0].format.checksum, "crc32c");
    assert_eq!(v[8].engine.name, "log_stream");
    assert_eq!(v[8].format.structure, "log_stream_segment");
    let r = SpecializedEngineRegistry::shipping_defaults();
    assert!(r.all_pointer_oriented());
    assert_eq!(r.contracts().len(), 9);
    assert!(SpecializedEngineRegistry::default().all_pointer_oriented());
}

#[test]
fn adjacency_edges_dedupe_and_reverse_index() {
    let mut a = AdjacencyIndex::with_dir("g", "");
    a.add_edge_simple(rid(1), b"follows", rid(2)).unwrap();
    a.add_edge_simple(rid(1), b"follows", rid(2)).unwrap();
    a.add_edge(rid(1), b"likes", rid(2), b"{\"weight\":2.0}".to_vec()).unwrap();
    a.add_edge_simple(rid(3), b"follows", rid(2)).unwrap();
    let n = a.neighbors(rid(1));
    assert_eq!(n.len(), 2);
    assert_eq!(n[0].properties, b"{}".to_vec());
    assert_eq!(n[1].properties, b"{\"weight\":2.0}".to_vec());
    assert_eq!(a.inbound_neighbors(rid(2)), vec![rid(1), rid(1), rid(3)]);
    assert_eq!(a.neighbors_with_label(rid(1), b"likes"), vec![rid(2)]);
    a.remove_edges(rid(1), rid(2));
    assert!(a.neighbors(rid(1)).is_empty());
    assert_eq!(a.inbound_neighbors(rid(2)), vec![rid(3)]);
    a.remove_edges(rid(3), rid(2));
    assert!(a.inbound_neighbors(rid(2)).is_empty());
    assert_eq!(a.snapshot_file_name(), "g.adjidx");
}

#[test]
fn adjacency_traversals() {
    let mut a = AdjacencyIndex::with_dir("t", "");
    a.add_bidirectional_edge(rid(1), b"r", rid(2), b"r").unwrap();
    a.add_edge_simple(rid(1), b"r", rid(3)).unwrap();
    a.add_edge_simple(rid(2), b"r", rid(4)).unwrap();
    a.add_edge_simple(rid(4), b"r", rid(3)).unwrap();
    assert_eq!(a.bfs(rid(1), 1), vec![rid(1), rid(2), rid(3)]);
    assert_eq!(a.bfs(rid(1), 5), vec![rid(1), rid(2), rid(3), rid(4)]);
    assert_eq!(a.dfs(rid(1), 5), vec![rid(1), rid(2), rid(4), rid(3)]);
    assert_eq!(a.dfs(rid(1), 1), vec![rid(1), rid(2), rid(3)]);
    assert_eq!(a.shortest_path(rid(2), rid(3)).unwrap(), vec![rid(2), rid(1), rid(3)]);
    assert_eq!(a.shortest_path(rid(4), rid(4)).unwrap(), vec![rid(4)]);
    assert!(a.shortest_path(rid(3), rid(1)).is_err());
}

#[test]
fn adjacency_snapshot_roundtrip_and_rebuilt_inbound() {
    let mut a = AdjacencyIndex::with_dir("s", "/tmp/adj");
    a.add_edge_simple(rid(5), b"x", rid(1)).unwrap();
    a.add_edge(rid(2), b"y", rid(1), b"{\"weight\":2.0}".to_vec()).unwrap();
    a.add_edge_simple(rid(2), b"x", rid(5)).unwrap();
    let bytes = a.snapshot_bytes();
    assert_eq!(&bytes[0..4], &0x4144_4a32u32.to_le_bytes());
    assert_eq!(bytes[4], 2);
    let b = AdjacencyIndex::from_snapshot("s", "/tmp/adj", &bytes, "s.adjidx").unwrap();
    assert_eq!(b.neighbors(rid(2)), a.neighbors(rid(2)));
    assert_eq!(b.neighbors(rid(5)), a.neighbors(rid(5)));
    assert_eq!(b.inbound_neighbors(rid(1)), vec![rid(5), rid(2)]);
    assert_eq!(b.snapshot_bytes(), bytes);

    // A version 1 snapshot: one node, no properties, no inbound lists.
    let mut payload = Vec::new();
    payload.extend_from_slice(&1u32.to_le_bytes());
    payload.extend_from_slice(&7u64.to_le_bytes());
    payload.extend_from_slice(&1u32.to_le_bytes());
    payload.extend_from_slice(&9u64.to_le_bytes());
    payload.extend_from_slice(&1u32.to_le_bytes());
    payload.push(b'z');
    let mut v1 = Vec::new();
    v1.extend_from_slice(&0x4144_4a32u32.to_le_bytes());
    v1.push(1);
    v1.extend_from_slice(&(payload.len() as u32).to_le_bytes());
    v1.extend_from_slice(&trident::io::checksum::crc32c(&payload).to_le_bytes());
    v1.extend_from_slice(&payload);
    let c = AdjacencyIndex::from_snapshot("v1", "", &v1, "v1.adjidx").unwrap();
    let n = c.neighbors(rid(7));
    assert_eq!(n.len(), 1);
    assert_eq!(n[0].to, rid(9));
    assert_eq!(n[0].properties, b"{}".to_vec());
    assert_eq!(c.inbound_neighbors(rid(9)), vec![rid(7)]);

    let mut bad = bytes.clone();
    bad[4] = 3;
    match AdjacencyIndex::from_snapshot("s", "", &bad, "src") {
        Err(TridentError::Corrupt { reason, .. }) => assert_eq!(reason, "unsupported adjacency snapshot version 3"),
        _ => panic!("expected a corrupt snapshot"),
    }
}

#[test]
fn bidirectional_edge_fills_both_directions_and_repeats_change_nothing() {
    let mut a = AdjacencyIndex::with_dir("b", "");
    a.add_bidirectional_edge(rid(1), b"knows", rid(2), b"known_by").unwrap();
    assert_eq!(a.neighbors_with_label(rid(1), b"knows"), vec![rid(2)]);
    assert_eq!(a.neighbors_with_label(rid(2), b"known_by"), vec![rid(1)]);
    assert_eq!(a.inbound_neighbors(rid(2)), vec![rid(1)]);
    assert_eq!(a.inbound_neighbors(rid(1)), vec![rid(2)]);
    assert_eq!(a.neighbors(rid(1))[0].properties, b"{}".to_vec());
    a.add_bidirectional_edge(rid(1), b"knows", rid(2), b"known_by").unwrap();
    assert_eq!(a.neighbors(rid(1)).len(), 1);
    assert_eq!(a.neighbors(rid(2)).len(), 1);
    assert_eq!(a.inbound_neighbors(rid(2)), vec![rid(1)]);
    assert_eq!(a.inbound_neighbors(rid(1)), vec![rid(2)]);
}

#[test]
fn bm25_remove_after_insert_restores_and_repeats_are_harmless() {
    let mut b = Bm25Index::default();
    b.insert(rid(1), "alpha beta");
    b.insert(rid(2), "beta gamma gamma");
    b.remove(&rid(2));
    assert_eq!(b.doc_count(), 1);
    assert_eq!(b.total_terms(), 2);
    assert_eq!(b.posting_len("gamma"), 0);
    assert_eq!(b.posting_len("beta"), 1);
    b.remove(&rid(2));
    assert_eq!(b.doc_count(), 1);
    assert_eq!(b.total_terms(), 2);
    assert_eq!(b.posting_len("beta"), 1);
}

#[test]
fn graph_removed_record_is_unreachable() {
    let mut g = GraphIndex::default();
    g.add_edge(rid(1), rid(2));
    g.add_edge(rid(1), rid(3));
    g.add_edge(rid(2), rid(3));
    g.add_edge(rid(3), rid(4));
    g.remove_record(&rid(3));
    assert_eq!(g.successors(rid(1)), vec![rid(2)]);
    assert_eq!(g.bfs(&rid(1), 5), vec![rid(1), rid(2)]);
    assert_eq!(g.bfs(&rid(3), 5), vec![rid(3)]);
}

#[test]
fn lsm_reads_see_last_update_at_sequence_and_fences_cover_live_keys() {
    let mut l = LsmIndex::with_dir("l", "");
    l.put_with_sequence(b"k", rid(1), 10).unwrap();
    l.delete_with_sequence(b"k", 20).unwrap();
    l.put_with_sequence(b"k", rid(2), 30).unwrap();
    l.put_with_sequence(b"a", rid(5), 5).unwrap();
    assert_eq!(l.get_at(b"k", 9), None);
    assert_eq!(l.get_at(b"k", 15), Some(rid(1)));
    assert_eq!(l.get_at(b"k", 25), None);
    assert_eq!(l.get_at(b"k", 30), Some(rid(2)));
    assert_eq!(l.get(b"k"), Some(rid(2)));
    assert_eq!(l.fence_bounds(), (Some(b"a".to_vec()), Some(b"k".to_vec())));
    l.delete(b"k").unwrap();
    assert!(!l.may_contain_key(b"k"));
    assert!(l.may_contain_key(b"a"));
    assert_eq!(l.fence_bounds(), (Some(b"a".to_vec()), Some(b"a".to_vec())));
}

#[test]
fn btree_pages_are_chunks_of_live_keys() {
    let mut t = BTreeIndex::with_dir("p", "");
    for i in 0..130u64 {
        let key = format!("k{:03}", i);
        t.put(key.as_bytes(), rid(i)).unwrap();
    }
    let pages = t.page_metadata();
    assert_eq!(pages.len(), 2);
    assert_eq!(pages[0].key_count, 128);
    assert_eq!(pages[0].min_key, b"k000".to_vec());
    assert_eq!(pages[0].max_key, b"k127".to_vec());
    assert_eq!(pages[1].page_id, 1);
    assert_eq!(pages[1].key_count, 2);
    assert_eq!(pages[1].min_key, b"k128".to_vec());
    assert_eq!(pages[1].max_key, b"k129".to_vec());
}

#[test]
fn time_series_range_spans_partitions_in_time_order() {
    let mut idx = TimeSeriesIndex::new().with_partition_duration(10);
    idx.insert(25, rid(3));
    idx.insert(3, rid(1));
    idx.insert(12, rid(2));
    idx.insert(12, rid(4));
    idx.insert(9, rid(5));
    assert_eq!(idx.len(), 5);
    assert_eq!(idx.partition_count(), 3);
    assert_eq!(idx.range(0, 100), vec![rid(1), rid(5), rid(2), rid(4), rid(3)]);
    assert_eq!(idx.range(9, 12), vec![rid(5), rid(2), rid(4)]);
    assert_eq!(idx.count_range(9, 12), 3);
    assert_eq!(idx.range(13, 24), Vec::<RecordId>::new());
}

#[test]
fn time_partition_insert_counts_and_orders() {
    let mut p = TimePartition::new(0, 99);
    assert!(p.insert(50, rid(1)));
    assert!(p.insert(10, rid(2)));
    assert!(!p.insert(100, rid(3)));
    assert!(p.insert(50, rid(4)));
    assert_eq!(p.len(), 3);
    assert_eq!(p.range(50, 50), vec![rid(1), rid(4)]);
    assert_eq!(p.oldest(3), vec![rid(2), rid(1), rid(4)]);
}
