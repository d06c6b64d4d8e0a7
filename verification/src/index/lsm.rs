//! The LSM-style index: byte-string keys to records, each key with its
//! updates (a record, or a delete) in the order written; a read at a
//! sequence sees the newest update stamped no later. Membership and the
//! fence bounds are answered from the live keys.
use crate::errors::Result;
use crate::index::bitmap::IndexStats;
use crate::index::versions::{
    compacted, histories_from, histories_view, histories_wf, live_keys, live_rows, record_version,
    versions_of, versions_total, visible, History, KeyHistories, Version, lemma_live_keys,
};
use crate::bytes_order::bytes_lt;
use crate::index::IndexPlugin;
use crate::io::binary::copy_bytes;
use crate::store::RecordId;
use crate::text::concat_str;
use vstd::prelude::*;

verus! {

broadcast use vstd::seq_lib::group_seq_lib_default;

/// An LSM-style key-to-record index with reads at a sequence.
pub struct LsmIndex {
    name: String,
    dir: String,
    history: KeyHistories,
    next_sequence: u64,
}

impl LsmIndex {
    /// The index's name.
    pub closed spec fn spec_name(&self) -> Seq<char> {
        self.name@
    }

    /// Where the index's snapshot goes.
    pub closed spec fn spec_dir(&self) -> Seq<char> {
        self.dir@
    }

    /// The keys with their updates, in key order.
    pub closed spec fn histories(&self) -> Seq<History> {
        self.history@
    }

    /// The last sequence number handed out or seen.
    pub closed spec fn last_sequence(&self) -> u64 {
        self.next_sequence
    }

    /// The histories are in key order, each key with an update.
    pub closed spec fn wf(&self) -> bool {
        self.history.wf()
    }

    /// The well-formedness fact, for callers outside this module.
    pub proof fn lemma_wf(&self)
        requires
            self.wf(),
        ensures
            histories_wf(self.histories()),
    {
    }

    /// An empty index named `name` whose snapshot goes to `dir`.
    pub fn with_dir(name: &str, dir: &str) -> (idx: LsmIndex)
        ensures
            idx.wf(),
            idx.spec_name() == name@,
            idx.spec_dir() == dir@,
            idx.histories() == Seq::<History>::empty(),
            idx.last_sequence() == 0,
    {
        LsmIndex {
            name: String::from_str(name),
            dir: String::from_str(dir),
            history: KeyHistories::new(),
            next_sequence: 0,
        }
    }

    /// An index from a snapshot's rows, in order, a later row for a key
    /// replacing an earlier one.
    pub fn from_rows(name: &str, dir: &str, next_sequence: u64, rows: &Vec<(Vec<u8>, Vec<Version>)>) -> (idx: LsmIndex)
        ensures
            idx.wf(),
            idx.spec_name() == name@,
            idx.spec_dir() == dir@,
            idx.histories() == histories_from(histories_view(rows@)),
            idx.last_sequence() == next_sequence,
    {
        LsmIndex {
            name: String::from_str(name),
            dir: String::from_str(dir),
            history: KeyHistories::from_rows(rows),
            next_sequence,
        }
    }

    /// The keys with their updates, in key order, as a snapshot holds them.
    pub fn snapshot_rows(&self) -> (out: Vec<(Vec<u8>, Vec<Version>)>)
        ensures
            histories_view(out@) == self.histories(),
    {
        self.history.rows()
    }

    /// The last sequence number handed out or seen.
    pub fn next_sequence(&self) -> (s: u64)
        ensures
            s == self.last_sequence(),
    {
        self.next_sequence
    }

    /// The live keys in `[start, end)` with their records, in key order; a
    /// missing bound is no bound.
    pub fn scan(&self, start: Option<&[u8]>, end: Option<&[u8]>) -> (out: Vec<(Vec<u8>, RecordId)>)
        ensures
            out@.map_values(|r: (Vec<u8>, RecordId)| (r.0@, r.1)) == live_rows(
                self.histories(),
                match start {
                    Some(l) => Some(l@),
                    None => None,
                },
                match end {
                    Some(h) => Some(h@),
                    None => None,
                },
            ),
    {
        self.history.live_range(start, end)
    }

    /// Whether `key` is live: its newest update is a record.
    pub fn may_contain_key(&self, key: &[u8]) -> (r: bool)
        requires
            self.wf(),
        ensures
            r == visible(versions_of(self.histories(), key@), u64::MAX) is Some,
    {
        self.history.get_at(key, u64::MAX).is_some()
    }

    /// The smallest and the largest live key, or neither when no key is
    /// live.
    pub fn fence_bounds(&self) -> (r: (Option<Vec<u8>>, Option<Vec<u8>>))
        ensures
            match r {
                (Some(lo), Some(hi)) => {
                    &&& live_keys(self.histories()).len() > 0
                    &&& lo@ == live_keys(self.histories())[0]
                    &&& hi@ == live_keys(self.histories()).last()
                },
                (None, None) => live_keys(self.histories()).len() == 0,
                _ => false,
            },
    {
        let rows = self.history.live_range(None, None);
        let ghost m = rows@.map_values(|r: (Vec<u8>, RecordId)| (r.0@, r.1));
        if rows.len() == 0 {
            (None, None)
        } else {
            let n = rows.len();
            proof {
                assert(m[0] == (rows@[0].0@, rows@[0].1));
                assert(m[n - 1] == (rows@[n - 1].0@, rows@[n - 1].1));
            }
            (Some(copy_bytes(rows[0].0.as_slice())), Some(copy_bytes(rows[n - 1].0.as_slice())))
        }
    }

    /// The next sequence number, one past the last (wrapping to 0 after
    /// `u64::MAX`).
    fn next_seq(&mut self) -> (s: u64)
        ensures
            s == if old(self).next_sequence < u64::MAX {
                (old(self).next_sequence + 1) as u64
            } else {
                0
            },
            final(self).next_sequence == s,
            final(self).history == old(self).history,
            final(self).name == old(self).name,
            final(self).dir == old(self).dir,
    {
        self.next_sequence = self.next_sequence.wrapping_add(1);
        self.next_sequence
    }

    /// Record that `key` points to `rid` from sequence `sequence` on.
    pub fn put_with_sequence(&mut self, key: &[u8], rid: RecordId, sequence: u64) -> (r: Result<()>)
        requires
            old(self).wf(),
        ensures
            r is Ok,
            final(self).wf(),
            final(self).histories() == record_version(
                old(self).histories(),
                key@,
                Version { sequence, rid: Some(rid) },
            ),
            final(self).last_sequence() == if sequence > old(self).last_sequence() {
                sequence
            } else {
                old(self).last_sequence()
            },
            final(self).spec_name() == old(self).spec_name(),
            final(self).spec_dir() == old(self).spec_dir(),
    {
        if sequence > self.next_sequence {
            self.next_sequence = sequence;
        }
        self.history.record(key, Version { sequence, rid: Some(rid) });
        Ok(())
    }

    /// Record that `key` is deleted from sequence `sequence` on.
    pub fn delete_with_sequence(&mut self, key: &[u8], sequence: u64) -> (r: Result<()>)
        requires
            old(self).wf(),
        ensures
            r is Ok,
            final(self).wf(),
            final(self).histories() == record_version(
                old(self).histories(),
                key@,
                Version { sequence, rid: None },
            ),
            final(self).last_sequence() == if sequence > old(self).last_sequence() {
                sequence
            } else {
                old(self).last_sequence()
            },
            final(self).spec_name() == old(self).spec_name(),
            final(self).spec_dir() == old(self).spec_dir(),
    {
        if sequence > self.next_sequence {
            self.next_sequence = sequence;
        }
        self.history.record(key, Version { sequence, rid: None });
        Ok(())
    }

    /// What a read of `key` at sequence `sequence` sees.
    pub fn get_at(&self, key: &[u8], sequence: u64) -> (r: Option<RecordId>)
        requires
            self.wf(),
        ensures
            r == visible(versions_of(self.histories(), key@), sequence),
    {
        self.history.get_at(key, sequence)
    }

    /// Keep each key's newest update and drop the keys whose newest update
    /// is a delete.
    pub fn compact(&mut self) -> (r: Result<()>)
        requires
            old(self).wf(),
        ensures
            r is Ok,
            final(self).wf(),
            final(self).histories() == compacted(old(self).histories()),
            final(self).last_sequence() == old(self).last_sequence(),
            final(self).spec_name() == old(self).spec_name(),
            final(self).spec_dir() == old(self).spec_dir(),
    {
        self.history.compact();
        Ok(())
    }

    /// The number of live keys, and of updates over all keys (capped at
    /// `u64::MAX`).
    pub fn stats(&self) -> (s: IndexStats)
        requires
            self.wf(),
        ensures
            s.live_keys == live_keys(self.histories()).len(),
            s.versions == if versions_total(self.histories()) <= u64::MAX {
                versions_total(self.histories())
            } else {
                u64::MAX as nat
            },
    {
        let n = self.history.live_count();
        IndexStats { live_keys: n as u64, versions: self.history.version_count() }
    }

    /// The snapshot's file name: the index name with `.lsm` after it.
    pub fn snapshot_file_name(&self) -> (s: String)
        ensures
            s@ == self.spec_name() + ".lsm"@,
    {
        concat_str(self.name.as_str(), ".lsm")
    }

    /// The snapshot directory.
    pub fn dir(&self) -> (d: &str)
        ensures
            d@ == self.spec_dir(),
    {
        self.dir.as_str()
    }
}

impl IndexPlugin for LsmIndex {
    open spec fn inv(&self) -> bool {
        self.wf()
    }

    fn name(&self) -> (n: &str)
        ensures
            n@ == self.spec_name(),
    {
        self.name.as_str()
    }

    /// Record `rid` for `key` at the next sequence number.
    fn put(&mut self, key: &[u8], rid: RecordId) -> (r: Result<()>)
        ensures
            r is Ok,
            final(self).histories() == record_version(
                old(self).histories(),
                key@,
                Version { sequence: final(self).last_sequence(), rid: Some(rid) },
            ),
            final(self).last_sequence() == if old(self).last_sequence() < u64::MAX {
                (old(self).last_sequence() + 1) as u64
            } else {
                0
            },
    {
        let sequence = self.next_seq();
        self.put_with_sequence(key, rid, sequence)
    }

    /// The record `key` points to now.
    fn get(&self, key: &[u8]) -> (r: Option<RecordId>)
        ensures
            r == visible(versions_of(self.histories(), key@), u64::MAX),
    {
        self.get_at(key, u64::MAX)
    }

    /// Record a delete of `key` at the next sequence number.
    fn delete(&mut self, key: &[u8]) -> (r: Result<()>)
        ensures
            r is Ok,
            final(self).histories() == record_version(
                old(self).histories(),
                key@,
                Version { sequence: final(self).last_sequence(), rid: None },
            ),
            final(self).last_sequence() == if old(self).last_sequence() < u64::MAX {
                (old(self).last_sequence() + 1) as u64
            } else {
                0
            },
    {
        let sequence = self.next_seq();
        self.delete_with_sequence(key, sequence)
    }

    /// Nothing is staged: the snapshot is written by the caller from
    /// `snapshot_rows`.
    fn flush(&mut self) -> (r: Result<()>)
        ensures
            r is Ok,
            *final(self) == *old(self),
    {
        Ok(())
    }
}


/// Whatever operations led to a well-formed index: a key may be contained
/// exactly when a read finds a record for it, and the fence bounds are the
/// smallest and the largest of those keys.
pub proof fn lemma_fences_and_membership(idx: &LsmIndex, k: Seq<u8>)
    requires
        idx.wf(),
    ensures
        live_keys(idx.histories()).contains(k) <==> visible(versions_of(idx.histories(), k), u64::MAX) is Some,
        live_keys(idx.histories()).contains(k) ==> {
            let lk = live_keys(idx.histories());
            &&& (k == lk[0] || bytes_lt(lk[0], k))
            &&& (k == lk.last() || bytes_lt(k, lk.last()))
        },
{
    idx.lemma_wf();
    let h = idx.histories();
    lemma_live_keys(h);
    let lk = live_keys(h);
    if lk.contains(k) {
        let m = choose|m: int| 0 <= m < lk.len() && lk[m] == k;
        if m > 0 {
            assert(bytes_lt(lk[0], lk[m]));
        }
        if m < lk.len() - 1 {
            assert(bytes_lt(lk[m], lk[lk.len() - 1]));
        }
    }
}

} // verus!
