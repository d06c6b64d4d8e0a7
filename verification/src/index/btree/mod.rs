//! The B-tree index: byte-string keys to records, with versioned updates
//! read at a sequence, ordered range scans, and page metadata that groups
//! the live keys, in order, into pages of a fixed number of keys.
//! The versioned B-tree's pages and the manager that allocates and splits
//! them live in the submodules.
pub mod manager;
pub mod page;
pub mod snapshot;

use crate::errors::Result;
use crate::index::btree::snapshot::{
    btree_fits, btree_frame, btree_payload, decode_btree_snapshot, encode_btree_payload,
    frame_btree_snapshot, lemma_btree_snapshot_roundtrip, parse_btree_snapshot, BTreeSnapshot,
    BTreeSnapshotPayload, PageRow,
};
use crate::index::versions::{histories_from, histories_view, lemma_histories_from_sorted, lemma_live_keys};
use crate::bytes_order::bytes_lt;
use crate::io::parse::is_corrupt_at;
use crate::index::bitmap::IndexStats;
use crate::index::versions::{
    compacted, histories_wf, lemma_compacted_versions, lemma_record_versions, lemma_record_wf,
    live_keys, live_rows, record_version, versions_of, visible, History, KeyHistories, Version,
};
use crate::index::IndexPlugin;
use crate::index::keyed_sets::range_valid;
use crate::io::binary::copy_bytes;
use crate::store::RecordId;
use crate::text::concat_str;
use vstd::prelude::*;

verus! {

broadcast use vstd::seq_lib::group_seq_lib_default;

/// How many live keys a page holds unless a snapshot says otherwise.
pub const DEFAULT_PAGE_SIZE: usize = 128;

/// One page of live keys: its number, how many keys it holds, and its
/// smallest and largest key.
#[derive(Clone, Debug, PartialEq, Eq)]
pub struct BTreePageMetadata {
    pub page_id: u64,
    pub key_count: usize,
    pub min_key: Vec<u8>,
    pub max_key: Vec<u8>,
}

/// A page as plain values: number, key count, smallest and largest key.
pub type PageSummary = (u64, usize, Seq<u8>, Seq<u8>);

/// A page's summary.
pub open spec fn page_summary(m: BTreePageMetadata) -> PageSummary {
    (m.page_id, m.key_count, m.min_key@, m.max_key@)
}

/// The summaries of a list of pages.
pub open spec fn summaries(v: Seq<BTreePageMetadata>) -> Seq<PageSummary> {
    v.map_values(|m: BTreePageMetadata| page_summary(m))
}

/// The pages over `keys`, numbered from `id`: `size` keys each, in order,
/// the last page holding what is left.
pub open spec fn pages_from(keys: Seq<Seq<u8>>, size: nat, id: nat) -> Seq<PageSummary>
    decreases keys.len(),
{
    if keys.len() == 0 || size == 0 {
        Seq::empty()
    } else {
        let n = if size < keys.len() {
            size
        } else {
            keys.len()
        };
        seq![(id as u64, n as usize, keys[0], keys[n - 1])] + pages_from(keys.skip(n as int), size, id + 1)
    }
}

/// The pages of the live keys of histories `v`.
pub open spec fn pages_of(v: Seq<History>, size: nat) -> Seq<PageSummary> {
    pages_from(live_keys(v), size, 0)
}

/// The keys of scanned rows.
pub open spec fn row_keys(rows: Seq<(Vec<u8>, RecordId)>) -> Seq<Seq<u8>> {
    rows.map_values(|r: (Vec<u8>, RecordId)| r.0@)
}

/// Group the keys of `rows`, in order, into pages of `size` keys.
fn group_pages(rows: &Vec<(Vec<u8>, RecordId)>, size: usize) -> (out: Vec<BTreePageMetadata>)
    requires
        size > 0,
    ensures
        summaries(out@) == pages_from(row_keys(rows@), size as nat, 0),
{
    let ghost keys = row_keys(rows@);
    let mut out: Vec<BTreePageMetadata> = Vec::new();
    let mut start: usize = 0;
    proof {
        assert(keys.skip(0) =~= keys);
        assert(summaries(out@) =~= Seq::<PageSummary>::empty());
    }
    while start < rows.len()
        invariant
            keys == row_keys(rows@),
            size > 0,
            start <= rows@.len(),
            out@.len() <= start,
            summaries(out@) + pages_from(keys.skip(start as int), size as nat, out@.len() as nat)
                == pages_from(keys, size as nat, 0),
        decreases rows@.len() - start,
    {
        let left = rows.len() - start;
        let n = if size < left {
            size
        } else {
            left
        };
        let ghost rest = keys.skip(start as int);
        let ghost before = summaries(out@);
        proof {
            assert(rest.skip(n as int) =~= keys.skip(start + n));
            assert(rest[0] == keys[start as int]);
            assert(rest[n - 1] == keys[start + n - 1]);
        }
        let page = BTreePageMetadata {
            page_id: out.len() as u64,
            key_count: n,
            min_key: copy_bytes(rows[start].0.as_slice()),
            max_key: copy_bytes(rows[start + n - 1].0.as_slice()),
        };
        out.push(page);
        proof {
            assert(summaries(out@) =~= before.push(page_summary(page)));
            assert(pages_from(rest, size as nat, (out@.len() - 1) as nat) == seq![page_summary(page)]
                + pages_from(keys.skip(start + n), size as nat, out@.len() as nat));
            assert(before.push(page_summary(page)) + pages_from(keys.skip(start + n), size as nat, out@.len() as nat)
                =~= before + (seq![page_summary(page)] + pages_from(keys.skip(start + n), size as nat, out@.len() as nat)));
        }
        start = start + n;
    }
    proof {
        assert(keys.skip(start as int).len() == 0);
        assert(summaries(out@) + Seq::<PageSummary>::empty() =~= summaries(out@));
    }
    out
}

/// A B-tree key-to-record index with ordered range scans.
pub struct BTreeIndex {
    name: String,
    dir: String,
    history: KeyHistories,
    next_sequence: u64,
    page_size: usize,
    pages: Vec<BTreePageMetadata>,
}

impl BTreeIndex {
    /// The index's name.
    pub closed spec fn spec_name(&self) -> Seq<char> {
        self.name@
    }

    /// Where the index's snapshot goes.
    pub closed spec fn spec_dir(&self) -> Seq<char> {
        self.dir@
    }

    /// The keys with their updates, in key order.
    pub closed spec fn histories(&self) -> Seq<History> {
        self.history@
    }

    /// The last sequence number handed out or seen.
    pub closed spec fn last_sequence(&self) -> u64 {
        self.next_sequence
    }

    /// How many live keys a page holds.
    pub closed spec fn spec_page_size(&self) -> usize {
        self.page_size
    }

    /// Histories in key order, a positive page size, and the pages of the
    /// live keys.
    pub closed spec fn wf(&self) -> bool {
        &&& self.history.wf()
        &&& self.page_size > 0
        &&& summaries(self.pages@) == pages_of(self.history@, self.page_size as nat)
    }

    /// The well-formedness facts, for callers outside this module.
    pub proof fn lemma_wf(&self)
        requires
            self.wf(),
        ensures
            histories_wf(self.histories()),
            self.spec_page_size() > 0,
    {
    }

    /// An empty index named `name` whose snapshot goes to `dir`.
    pub fn with_dir(name: &str, dir: &str) -> (idx: BTreeIndex)
        ensures
            idx.wf(),
            idx.spec_name() == name@,
            idx.spec_dir() == dir@,
            idx.histories() == Seq::<History>::empty(),
            idx.last_sequence() == 0,
            idx.spec_page_size() == DEFAULT_PAGE_SIZE,
    {
        let idx = BTreeIndex {
            name: String::from_str(name),
            dir: String::from_str(dir),
            history: KeyHistories::new(),
            next_sequence: 0,
            page_size: DEFAULT_PAGE_SIZE,
            pages: Vec::new(),
        };
        proof {
            assert(live_rows(idx.history@, None, None) =~= Seq::<(Seq<u8>, RecordId)>::empty());
            assert(live_keys(idx.history@) =~= Seq::<Seq<u8>>::empty());
            assert(summaries(idx.pages@) =~= Seq::<PageSummary>::empty());
        }
        idx
    }

    /// The live keys in `[lower, upper)` with their records, in key order;
    /// a missing bound is no bound. Two bounds must not be reversed.
    pub fn range(&self, lower: Option<&[u8]>, upper: Option<&[u8]>) -> (out: Vec<(Vec<u8>, RecordId)>)
        requires
            lower matches Some(l) && upper matches Some(h) ==> range_valid(l@, true, h@, false),
        ensures
            out@.map_values(|r: (Vec<u8>, RecordId)| (r.0@, r.1)) == live_rows(
                self.histories(),
                match lower {
                    Some(l) => Some(l@),
                    None => None,
                },
                match upper {
                    Some(h) => Some(h@),
                    None => None,
                },
            ),
    {
        self.history.live_range(lower, upper)
    }

    /// The pages over the live keys, in key order.
    pub fn page_metadata(&self) -> (out: &[BTreePageMetadata])
        requires
            self.wf(),
        ensures
            summaries(out@) == pages_of(self.histories(), self.spec_page_size() as nat),
    {
        self.pages.as_slice()
    }

    /// Regroup the live keys into pages.
    fn refresh_pages(&mut self)
        requires
            old(self).history.wf(),
            old(self).page_size > 0,
        ensures
            final(self).wf(),
            final(self).history == old(self).history,
            final(self).name == old(self).name,
            final(self).dir == old(self).dir,
            final(self).next_sequence == old(self).next_sequence,
            final(self).page_size == old(self).page_size,
    {
        let rows = self.history.live_range(None, None);
        self.pages = group_pages(&rows, self.page_size);
        proof {
            assert(row_keys(rows@) =~= live_keys(self.history@)) by {
                let m = rows@.map_values(|r: (Vec<u8>, RecordId)| (r.0@, r.1));
                assert(m == live_rows(self.history@, None, None));
                assert forall|i: int| 0 <= i < rows@.len() implies row_keys(rows@)[i] == live_keys(self.history@)[i] by {
                    assert(m[i] == (rows@[i].0@, rows@[i].1));
                }
            }
        }
    }

    /// The next sequence number, one past the last (wrapping to 0 after
    /// `u64::MAX`).
    fn next_seq(&mut self) -> (s: u64)
        ensures
            s == if old(self).next_sequence < u64::MAX {
                (old(self).next_sequence + 1) as u64
            } else {
                0
            },
            final(self).next_sequence == s,
            final(self).history == old(self).history,
            final(self).name == old(self).name,
            final(self).dir == old(self).dir,
            final(self).page_size == old(self).page_size,
            final(self).pages == old(self).pages,
    {
        self.next_sequence = self.next_sequence.wrapping_add(1);
        self.next_sequence
    }

    /// Record that `key` points to `rid` from sequence `sequence` on.
    pub fn put_with_sequence(&mut self, key: &[u8], rid: RecordId, sequence: u64) -> (r: Result<()>)
        requires
            old(self).wf(),
        ensures
            r is Ok,
            final(self).wf(),
            final(self).histories() == record_version(
                old(self).histories(),
                key@,
                Version { sequence, rid: Some(rid) },
            ),
            final(self).last_sequence() == if sequence > old(self).last_sequence() {
                sequence
            } else {
                old(self).last_sequence()
            },
            final(self).spec_name() == old(self).spec_name(),
            final(self).spec_dir() == old(self).spec_dir(),
            final(self).spec_page_size() == old(self).spec_page_size(),
    {
        if sequence > self.next_sequence {
            self.next_sequence = sequence;
        }
        self.history.record(key, Version { sequence, rid: Some(rid) });
        self.refresh_pages();
        Ok(())
    }

    /// Record that `key` is deleted from sequence `sequence` on.
    pub fn delete_with_sequence(&mut self, key: &[u8], sequence: u64) -> (r: Result<()>)
        requires
            old(self).wf(),
        ensures
            r is Ok,
            final(self).wf(),
            final(self).histories() == record_version(
                old(self).histories(),
                key@,
                Version { sequence, rid: None },
            ),
            final(self).last_sequence() == if sequence > old(self).last_sequence() {
                sequence
            } else {
                old(self).last_sequence()
            },
            final(self).spec_name() == old(self).spec_name(),
            final(self).spec_dir() == old(self).spec_dir(),
            final(self).spec_page_size() == old(self).spec_page_size(),
    {
        if sequence > self.next_sequence {
            self.next_sequence = sequence;
        }
        self.history.record(key, Version { sequence, rid: None });
        self.refresh_pages();
        Ok(())
    }

    /// What a read of `key` at sequence `sequence` sees.
    pub fn get_at(&self, key: &[u8], sequence: u64) -> (r: Option<RecordId>)
        requires
            self.wf(),
        ensures
            r == visible(versions_of(self.histories(), key@), sequence),
    {
        self.history.get_at(key, sequence)
    }

    /// Keep each key's newest update, drop the keys whose newest update is
    /// a delete, and regroup the pages.
    pub fn compact(&mut self) -> (r: Result<()>)
        requires
            old(self).wf(),
        ensures
            r is Ok,
            final(self).wf(),
            final(self).histories() == compacted(old(self).histories()),
            final(self).last_sequence() == old(self).last_sequence(),
            final(self).spec_name() == old(self).spec_name(),
            final(self).spec_dir() == old(self).spec_dir(),
            final(self).spec_page_size() == old(self).spec_page_size(),
    {
        self.history.compact();
        self.refresh_pages();
        Ok(())
    }

    /// The number of live keys, and of updates over all keys (capped at
    /// `u64::MAX`).
    pub fn stats(&self) -> (s: IndexStats)
        requires
            self.wf(),
        ensures
            s.live_keys == live_keys(self.histories()).len(),
            s.versions == if crate::index::versions::versions_total(self.histories()) <= u64::MAX {
                crate::index::versions::versions_total(self.histories())
            } else {
                u64::MAX as nat
            },
    {
        let n = self.history.live_count();
        IndexStats { live_keys: n as u64, versions: self.history.version_count() }
    }


    /// The snapshot of the index: its last sequence number, page size,
    /// histories and pages.
    pub open spec fn snapshot(&self) -> BTreeSnapshot {
        BTreeSnapshot {
            next_sequence: self.last_sequence(),
            page_size: self.spec_page_size() as u64,
            entries: self.histories(),
            pages: page_rows(pages_of(self.histories(), self.spec_page_size() as nat)),
        }
    }

    /// The snapshot's bytes: the checksummed frame around its payload.
    pub fn snapshot_bytes(&self) -> (out: Vec<u8>)
        requires
            self.wf(),
        ensures
            out@ == btree_frame(btree_payload(self.snapshot())),
    {
        let entries = self.history.rows();
        let mut pages: Vec<(u64, u64, Vec<u8>, Vec<u8>)> = Vec::new();
        let mut i: usize = 0;
        let ghost sv = summaries(self.pages@);
        while i < self.pages.len()
            invariant
                sv == summaries(self.pages@),
                i <= self.pages@.len(),
                crate::index::btree::snapshot::page_rows_view(pages@) == page_rows(sv.take(i as int)),
            decreases self.pages@.len() - i,
        {
            let pg = &self.pages[i];
            let ghost before = crate::index::btree::snapshot::page_rows_view(pages@);
            let row = (pg.page_id, pg.key_count as u64, copy_bytes(pg.min_key.as_slice()), copy_bytes(pg.max_key.as_slice()));
            let ghost rv = (row.0, row.1, row.2@, row.3@);
            pages.push(row);
            proof {
                assert(sv[i as int] == page_summary(*pg));
                assert(crate::index::btree::snapshot::page_rows_view(pages@) =~= before.push(rv));
                assert(page_rows(sv.take(i + 1)) =~= page_rows(sv.take(i as int)).push(rv));
                assert(sv.take(i + 1) =~= sv.take(i as int).push(sv[i as int]));
                assert(crate::index::btree::snapshot::page_rows_view(pages@) =~= page_rows(sv.take(i + 1)));
            }
            i = i + 1;
        }
        proof {
            assert(sv.take(i as int) =~= sv);
        }
        let s = BTreeSnapshotPayload {
            next_sequence: self.next_sequence,
            page_size: self.page_size as u64,
            entries,
            pages,
        };
        proof {
            assert(crate::index::btree::snapshot::entry_rows_view(s.entries@) =~= histories_view(s.entries@));
            assert(s@ == self.snapshot());
        }
        let payload = encode_btree_payload(&s);
        frame_btree_snapshot(payload.as_slice())
    }

    /// An index from snapshot bytes: the entries rebuild the histories in
    /// order (a later entry for a key replacing an earlier one, an entry
    /// without updates removing it), the snapshot's page size and last
    /// sequence number are taken, and the pages are regrouped from the
    /// live keys. Bytes that do not read as a snapshot are refused as
    /// corrupt at `source`.
    pub fn from_snapshot(name: &str, dir: &str, bytes: &[u8], source: &str) -> (r: Result<BTreeIndex>)
        requires
            parse_btree_snapshot(bytes@) matches Ok(s) ==> s.page_size as usize > 0,
        ensures
            match (r, parse_btree_snapshot(bytes@)) {
                (Ok(idx), Ok(s)) => {
                    &&& idx.wf()
                    &&& idx.spec_name() == name@
                    &&& idx.spec_dir() == dir@
                    &&& idx.histories() == histories_from(s.entries)
                    &&& idx.last_sequence() == s.next_sequence
                    &&& idx.spec_page_size() == s.page_size as usize
                },
                (Err(e), Err(m)) => is_corrupt_at(e, source@, m),
                _ => false,
            },
    {
        let s = decode_btree_snapshot(bytes, source)?;
        let history = KeyHistories::from_rows(&s.entries);
        proof {
            assert(histories_view(s.entries@) =~= crate::index::btree::snapshot::entry_rows_view(s.entries@));
        }
        let mut idx = BTreeIndex {
            name: String::from_str(name),
            dir: String::from_str(dir),
            history,
            next_sequence: s.next_sequence,
            page_size: #[verifier::truncate] (s.page_size as usize),
            pages: Vec::new(),
        };
        idx.refresh_pages();
        Ok(idx)
    }

    /// The snapshot's file name: the index name with `.btidx` after it.
    pub fn snapshot_file_name(&self) -> (s: String)
        ensures
            s@ == self.spec_name() + ".btidx"@,
    {
        concat_str(self.name.as_str(), ".btidx")
    }

    /// The snapshot directory.
    pub fn dir(&self) -> (d: &str)
        ensures
            d@ == self.spec_dir(),
    {
        self.dir.as_str()
    }
}

impl IndexPlugin for BTreeIndex {
    open spec fn inv(&self) -> bool {
        self.wf()
    }

    fn name(&self) -> (n: &str)
        ensures
            n@ == self.spec_name(),
    {
        self.name.as_str()
    }

    /// Record `rid` for `key` at the next sequence number.
    fn put(&mut self, key: &[u8], rid: RecordId) -> (r: Result<()>)
        ensures
            r is Ok,
            final(self).histories() == record_version(
                old(self).histories(),
                key@,
                Version { sequence: final(self).last_sequence(), rid: Some(rid) },
            ),
            final(self).last_sequence() == if old(self).last_sequence() < u64::MAX {
                (old(self).last_sequence() + 1) as u64
            } else {
                0
            },
    {
        let sequence = self.next_seq();
        self.put_with_sequence(key, rid, sequence)
    }

    /// The record `key` points to now.
    fn get(&self, key: &[u8]) -> (r: Option<RecordId>)
        ensures
            r == visible(versions_of(self.histories(), key@), u64::MAX),
    {
        self.get_at(key, u64::MAX)
    }

    /// Record a delete of `key` at the next sequence number.
    fn delete(&mut self, key: &[u8]) -> (r: Result<()>)
        ensures
            r is Ok,
            final(self).histories() == record_version(
                old(self).histories(),
                key@,
                Version { sequence: final(self).last_sequence(), rid: None },
            ),
            final(self).last_sequence() == if old(self).last_sequence() < u64::MAX {
                (old(self).last_sequence() + 1) as u64
            } else {
                0
            },
    {
        let sequence = self.next_seq();
        self.delete_with_sequence(key, sequence)
    }

    /// Nothing changes here: the caller writes `snapshot_bytes` to the
    /// snapshot file.
    fn flush(&mut self) -> (r: Result<()>)
        ensures
            r is Ok,
            *final(self) == *old(self),
    {
        Ok(())
    }
}


/// Page summaries as the rows a snapshot holds.
pub open spec fn page_rows(v: Seq<PageSummary>) -> Seq<PageRow> {
    v.map_values(|p: PageSummary| (p.0, p.1 as u64, p.2, p.3))
}

/// A snapshot read back rebuilds the index it was taken from: the bytes
/// read as the snapshot, and its entries rebuild the same histories.
pub proof fn lemma_snapshot_restores(idx: BTreeIndex)
    requires
        idx.wf(),
        btree_fits(idx.snapshot()),
    ensures
        parse_btree_snapshot(btree_frame(btree_payload(idx.snapshot()))) == core::result::Result::<
            BTreeSnapshot,
            Seq<char>,
        >::Ok(idx.snapshot()),
        histories_from(idx.snapshot().entries) == idx.histories(),
        idx.snapshot().page_size as usize == idx.spec_page_size(),
{
    idx.lemma_wf();
    lemma_btree_snapshot_roundtrip(idx.snapshot());
    lemma_histories_from_sorted(idx.histories());
}

/// After `put_with_sequence(k, rid, s)`, a read of `k` at any sequence from
/// `s` on sees `rid`, and a read of any other key sees what it saw before.
pub proof fn lemma_put_then_get(v: Seq<History>, k: Seq<u8>, rid: RecordId, s: u64, k2: Seq<u8>, at: u64)
    requires
        histories_wf(v),
        s <= at,
    ensures
        visible(versions_of(record_version(v, k, Version { sequence: s, rid: Some(rid) }), k), at) == Some(rid),
        k2 != k ==> versions_of(record_version(v, k, Version { sequence: s, rid: Some(rid) }), k2) == versions_of(v, k2),
{
    lemma_record_versions(v, k, Version { sequence: s, rid: Some(rid) }, k);
    lemma_record_versions(v, k, Version { sequence: s, rid: Some(rid) }, k2);
}

/// After `delete_with_sequence(k, s)`, a read of `k` at any sequence from
/// `s` on sees nothing, and a read of any other key sees what it saw
/// before.
pub proof fn lemma_delete_then_get(v: Seq<History>, k: Seq<u8>, s: u64, k2: Seq<u8>, at: u64)
    requires
        histories_wf(v),
        s <= at,
    ensures
        visible(versions_of(record_version(v, k, Version { sequence: s, rid: None }), k), at) is None,
        k2 != k ==> versions_of(record_version(v, k, Version { sequence: s, rid: None }), k2) == versions_of(v, k2),
{
    lemma_record_versions(v, k, Version { sequence: s, rid: None }, k);
    lemma_record_versions(v, k, Version { sequence: s, rid: None }, k2);
}

/// Compaction changes no read at the newest sequence.
pub proof fn lemma_compact_keeps_latest(v: Seq<History>, k: Seq<u8>)
    requires
        histories_wf(v),
    ensures
        visible(versions_of(compacted(v), k), u64::MAX) == visible(versions_of(v, k), u64::MAX),
{
    lemma_compacted_versions(v, k);
    let vs = versions_of(v, k);
    if vs.len() > 0 && vs.last().rid is Some {
        assert(seq![vs.last()].last() == vs.last());
    }
}


/// Page `i` of the pages over `keys` numbered from `id`: keys `i * size`
/// up to the next `size` or the end, with the first and the last of them.
pub open spec fn chunk_summary(keys: Seq<Seq<u8>>, size: nat, id: nat, i: int) -> PageSummary {
    let lo = i * size;
    let hi = if lo + size < keys.len() {
        lo + size
    } else {
        keys.len() as int
    };
    ((id + i) as u64, (hi - lo) as usize, keys[lo], keys[hi - 1])
}

/// Page `i` of `ps` is chunk `i` of `keys`, which starts inside `keys`.
pub open spec fn is_chunk(ps: Seq<PageSummary>, keys: Seq<Seq<u8>>, size: nat, id: nat, i: int) -> bool {
    i * size < keys.len() && ps[i] == chunk_summary(keys, size, id, i)
}

/// The pages over `keys` are its consecutive chunks of `size` keys, the
/// last one holding what is left, and together they cover every key.
pub proof fn lemma_pages_chunks(keys: Seq<Seq<u8>>, size: nat, id: nat)
    requires
        size > 0,
    ensures
        keys.len() <= pages_from(keys, size, id).len() * size,
        forall|i: int|
            0 <= i < pages_from(keys, size, id).len() ==> #[trigger] is_chunk(pages_from(keys, size, id), keys, size, id, i),
    decreases keys.len(),
{
    let ps = pages_from(keys, size, id);
    if keys.len() > 0 {
        let n: int = if size < keys.len() { size as int } else { keys.len() as int };
        let rest = keys.skip(n);
        let rs = pages_from(rest, size, id + 1);
        lemma_pages_chunks(rest, size, id + 1);
        assert(ps == seq![(id as u64, n as usize, keys[0], keys[n - 1])] + rs);
        assert(ps.len() * size == rs.len() * size + size) by (nonlinear_arith)
            requires ps.len() == rs.len() + 1;
        assert forall|i: int| 0 <= i < ps.len() implies #[trigger] is_chunk(ps, keys, size, id, i) by {
            if i == 0 {
                assert(0 * size == 0) by (nonlinear_arith);
            } else {
                let j = i - 1;
                assert(ps[i] == rs[j]);
                assert(is_chunk(rs, rest, size, id + 1, j));
                assert(i * size == j * size + size) by (nonlinear_arith)
                    requires i == j + 1;
                assert(n == size);
                let lo = j * size;
                let hi: int = if lo + size < rest.len() { lo + size } else { rest.len() as int };
                assert(0 <= lo < hi <= rest.len());
                assert(rest.len() == keys.len() - size);
                assert(rest[lo] == keys[lo + size]);
                assert(rest[hi - 1] == keys[hi - 1 + size]);
                let lo2 = i * size;
                let hi2: int = if lo2 + size < keys.len() { lo2 + size } else { keys.len() as int };
                assert(lo2 == lo + size);
                assert(hi2 == hi + size);
                assert(chunk_summary(rest, size, id + 1, j) == chunk_summary(keys, size, id, i));
            }
        }
    }
}

/// The pages of well-formed histories are the consecutive chunks of
/// `size` live keys, the live keys being in increasing order.
pub proof fn lemma_pages_are_chunks(v: Seq<History>, size: nat)
    requires
        histories_wf(v),
        size > 0,
    ensures
        forall|i: int, j: int| 0 <= i < j < live_keys(v).len() ==> bytes_lt(live_keys(v)[i], live_keys(v)[j]),
        live_keys(v).len() <= pages_of(v, size).len() * size,
        forall|i: int| 0 <= i < pages_of(v, size).len() ==> #[trigger] is_chunk(pages_of(v, size), live_keys(v), size, 0, i),
{
    lemma_live_keys(v);
    lemma_pages_chunks(live_keys(v), size, 0);
}

} // verus!
