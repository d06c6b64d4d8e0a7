//! A bitmap index: each key with the set of records that have it.
use crate::errors::Result;
use crate::index::keyed_sets::{
    ids_of, remove_key, scalar_insert, total_ids, KeyedSets, ValueEntry,
};
use crate::index::IndexPlugin;
use crate::store::RecordId;
use vstd::prelude::*;

verus! {

/// Counts of an index's contents.
#[derive(Clone, Copy, Debug, PartialEq, Eq, Structural)]
pub struct IndexStats {
    /// The number of keys.
    pub live_keys: u64,
    /// The number of (key, record) pairs.
    pub versions: u64,
}

/// A bitmap index: each key with the set of records that have it.
#[derive(Debug)]
pub struct BitmapIndex {
    name: String,
    map: KeyedSets,
}

impl View for BitmapIndex {
    /// The keys in order, each with its records in order.
    type V = Seq<ValueEntry>;

    closed spec fn view(&self) -> Seq<ValueEntry> {
        self.map@
    }
}

impl BitmapIndex {
    /// The index's name.
    pub closed spec fn spec_name(&self) -> Seq<char> {
        self.name@
    }

    /// The keys are in order with their records.
    pub closed spec fn wf(&self) -> bool {
        self.map.wf()
    }

    pub fn new(name: &str) -> (b: BitmapIndex)
        ensures
            b.wf(),
            b@ == Seq::<ValueEntry>::empty(),
            b.spec_name() == name@,
    {
        BitmapIndex { name: name.to_owned(), map: KeyedSets::new() }
    }

    /// Whether `rid` has `key`.
    pub fn contains(&self, key: &[u8], rid: RecordId) -> (b: bool)
        requires
            self.wf(),
        ensures
            b == ids_of(self@, key@).contains(rid),
    {
        self.map.contains(key, rid)
    }

    /// The records that have `key`, in order.
    pub fn postings(&self, key: &[u8]) -> (out: Vec<RecordId>)
        requires
            self.wf(),
        ensures
            out@ == ids_of(self@, key@),
    {
        self.map.equals(key)
    }

    /// The number of keys and of (key, record) pairs.
    pub fn stats(&self) -> (s: IndexStats)
        requires
            self.wf(),
        ensures
            s.live_keys == self@.len(),
            s.versions == total_ids(self@),
    {
        let keys = self.map.key_count();
        let pairs = self.map.len();
        IndexStats { live_keys: keys as u64, versions: pairs as u64 }
    }
}

impl IndexPlugin for BitmapIndex {
    open spec fn inv(&self) -> bool {
        self.wf()
    }

    fn name(&self) -> (n: &str)
        ensures
            n@ == self.spec_name(),
    {
        self.name.as_str()
    }

    /// File `rid` under `key`; with `usize::MAX` pairs already filed,
    /// nothing changes.
    fn put(&mut self, key: &[u8], rid: RecordId) -> (r: Result<()>)
        ensures
            r is Ok,
            final(self).spec_name() == old(self).spec_name(),
            final(self)@ == if total_ids(old(self)@) < usize::MAX {
                scalar_insert(old(self)@, key@, rid)
            } else {
                old(self)@
            },
    {
        if self.map.len() < usize::MAX {
            self.map.insert(key, rid);
        }
        Ok(())
    }

    /// The smallest record filed under `key`.
    fn get(&self, key: &[u8]) -> (r: Option<RecordId>)
        ensures
            r == (if ids_of(self@, key@).len() > 0 {
                Some(ids_of(self@, key@)[0])
            } else {
                None::<RecordId>
            }),
    {
        self.map.first(key)
    }

    /// Drop `key` with its records.
    fn delete(&mut self, key: &[u8]) -> (r: Result<()>)
        ensures
            r is Ok,
            final(self).spec_name() == old(self).spec_name(),
            final(self)@ == remove_key(old(self)@, key@),
    {
        self.map.remove_key(key);
        Ok(())
    }

    /// Nothing to persist.
    fn flush(&mut self) -> (r: Result<()>)
        ensures
            r is Ok,
            final(self)@ == old(self)@,
            final(self).spec_name() == old(self).spec_name(),
    {
        Ok(())
    }
}

} // verus!
