use trident::errors::TridentError;
use trident::index::inverted::InvertedIndex;
use trident::index::IndexPlugin;
use trident::store::RecordId;

fn rid(n: u64) -> RecordId {
    RecordId(n)
}

fn reason(e: TridentError) -> String {
    match e {
        TridentError::Corrupt { reason, .. } => reason,
        other => panic!("unexpected error {:?}", other),
    }
}

#[test]
fn test_basic_index_and_search() {
    let mut idx = InvertedIndex::new("test");
    idx.index_text("hello world", rid(1));
    idx.index_text("hello rust", rid(2));
    idx.index_text("goodbye world", rid(3));

    let results = idx.search("hello");
    assert_eq!(results.len(), 2);
    assert!(results.contains(&rid(1)));
    assert!(results.contains(&rid(2)));

    let results = idx.search("world");
    assert_eq!(results.len(), 2);
}

#[test]
fn test_field_search() {
    let mut idx = InvertedIndex::new("test");
    idx.index_field_text("title", "hello world", rid(1));
    idx.index_field_text("body", "hello rust", rid(2));

    let results = idx.search_field("title", "hello");
    assert_eq!(results.len(), 1);
    assert_eq!(results[0], rid(1));

    let results = idx.search_field("body", "rust");
    assert_eq!(results.len(), 1);
    assert_eq!(results[0], rid(2));
}

#[test]
fn test_binary_snapshot_roundtrip() {
    let dir = "snapshots";
    {
        let mut idx = InvertedIndex::with_dir("snap", dir);
        idx.index_text("hello world", rid(1));
        idx.index_field_text("title", "rust lang", rid(2));
        idx.index_text("goodbye", rid(3));
        idx.flush().unwrap();
        let bytes = idx.take_staged().unwrap();
        let idx = InvertedIndex::from_snapshot("snap", dir, &bytes, "snapshots/snap.invidx").unwrap();
        assert_eq!(idx.doc_count(), 3);
        let results = idx.search("hello");
        assert_eq!(results.len(), 1);
        assert_eq!(results[0], rid(1));
        let results = idx.search_field("title", "rust");
        assert_eq!(results.len(), 1);
        assert_eq!(results[0], rid(2));
    }
}

#[test]
fn test_no_persistence_without_dir() {
    let mut idx = InvertedIndex::new("mem");
    idx.index_text("test", rid(1));
    idx.flush().unwrap();
    assert_eq!(idx.search("test").len(), 1);
}

#[test]
fn test_delete_removes_bm25_data() {
    let mut idx = InvertedIndex::new("test");
    idx.index_text("hello world", rid(1));
    assert_eq!(idx.doc_count(), 1);
    idx.delete(b"hello").unwrap();
    assert_eq!(idx.doc_count(), 0);
}

#[test]
fn test_reindex_updates_bm25() {
    let mut idx = InvertedIndex::new("test");
    idx.index_text("hello", rid(1));
    assert_eq!(idx.doc_count(), 1);
    idx.index_text("hello world", rid(1));
    assert_eq!(idx.doc_count(), 1);
    assert_eq!(idx.doc_length(rid(1)).unwrap(), 2);
}

#[test]
fn flush_without_dir_stages_nothing() {
    let mut idx = InvertedIndex::new("mem");
    idx.index_text("test", rid(1));
    idx.flush().unwrap();
    assert!(idx.take_staged().is_none());
}

#[test]
fn snapshot_frame_starts_with_magic_and_version() {
    let mut idx = InvertedIndex::with_dir("snap", "d");
    idx.index_text("a", rid(7));
    let bytes = idx.encode_snapshot();
    assert_eq!(&bytes[0..4], &[0x32, 0x56, 0x4E, 0x49]);
    assert_eq!(bytes[4], 1);
    let len = u32::from_le_bytes([bytes[5], bytes[6], bytes[7], bytes[8]]) as usize;
    assert_eq!(bytes.len(), 13 + len);
    assert_eq!(idx.snapshot_file_name(), "snap.invidx");
    assert_eq!(idx.dir(), "d");
}

#[test]
fn snapshot_errors_name_the_fault() {
    let mut idx = InvertedIndex::with_dir("snap", "d");
    idx.index_field_text("Title", "Rust Guide", rid(4));
    let bytes = idx.encode_snapshot();

    let e = InvertedIndex::from_snapshot("snap", "d", &bytes[..12], "f").unwrap_err();
    assert_eq!(reason(e), "truncated inverted index snapshot header");

    let mut bad = bytes.clone();
    bad[0] ^= 1;
    let e = InvertedIndex::from_snapshot("snap", "d", &bad, "f").unwrap_err();
    assert_eq!(reason(e), "bad inverted index snapshot magic");

    let mut bad = bytes.clone();
    bad[4] = 9;
    let e = InvertedIndex::from_snapshot("snap", "d", &bad, "f").unwrap_err();
    assert_eq!(reason(e), "unsupported inverted index snapshot version 9");

    let e = InvertedIndex::from_snapshot("snap", "d", &bytes[..bytes.len() - 1], "f").unwrap_err();
    assert_eq!(reason(e), "truncated inverted index snapshot payload");

    let mut bad = bytes.clone();
    let last = bad.len() - 1;
    bad[last] ^= 0xff;
    let e = InvertedIndex::from_snapshot("snap", "d", &bad, "f").unwrap_err();
    let r = reason(e);
    assert!(r.starts_with("inverted index snapshot checksum mismatch: expected 0x"), "{r}");
    assert!(r.contains(", got 0x"));
}

#[test]
fn snapshot_roundtrip_keeps_statistics_and_fields() {
    let mut idx = InvertedIndex::with_dir("s", "d");
    idx.index_field_text("Title", "Rust rust Guide", rid(9));
    idx.index_text("one two", rid(3));
    let bytes = idx.encode_snapshot();
    let back = InvertedIndex::from_snapshot("s", "d", &bytes, "f").unwrap();
    assert_eq!(back.doc_count(), 2);
    assert_eq!(back.total_terms(), 5);
    assert_eq!(back.doc_length(rid(9)), Some(3));
    assert_eq!(back.doc_length(rid(3)), Some(2));
    assert_eq!(back.search_field("title", "guide"), vec![rid(9)]);
    assert_eq!(back.term_dictionary(), idx.term_dictionary());
    assert_eq!(back.encode_snapshot(), bytes);
}

#[test]
fn plugin_keys_are_lower_cased_terms() {
    let mut idx = InvertedIndex::new("p");
    idx.put(b"Hello", rid(5)).unwrap();
    idx.put(b"hello", rid(2)).unwrap();
    assert_eq!(idx.get(b"HELLO"), Some(rid(2)));
    assert_eq!(idx.get(b"other"), None);
    assert_eq!(idx.name(), "p");
    assert_eq!(idx.doc_count(), 0);
    idx.put(&[0xff, b'A'], rid(1)).unwrap();
    assert_eq!(idx.postings("\u{fffd}a"), vec![rid(1)]);
}

#[test]
fn delete_drops_term_from_fields_and_stats() {
    let mut idx = InvertedIndex::new("t");
    idx.index_field_text("body", "hello there", rid(1));
    idx.index_text("hello again", rid(2));
    idx.index_text("unrelated", rid(3));
    assert_eq!(idx.document_frequency("hello"), 2);
    idx.delete(b"HELLO").unwrap();
    assert!(idx.search("hello").is_empty());
    assert!(idx.search_field("body", "hello").is_empty());
    assert_eq!(idx.search_field("body", "there"), vec![rid(1)]);
    assert_eq!(idx.doc_count(), 1);
    assert_eq!(idx.total_terms(), 1);
    assert_eq!(idx.doc_length(rid(1)), None);
}

#[test]
fn stats_count_terms_and_entries() {
    let mut idx = InvertedIndex::new("t");
    idx.index_field_text("f", "a b", rid(1));
    idx.index_text("a", rid(2));
    let s = idx.stats();
    assert_eq!(s.live_keys, 2);
    assert_eq!(s.versions, 3 + 2);
    assert_eq!(idx.term_dictionary(), vec![b"a".to_vec(), b"b".to_vec()]);
    assert_eq!(idx.field_postings("F", "A"), vec![rid(1)]);
}
