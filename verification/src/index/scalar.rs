//! A scalar index: string values, in order, each with the set of records
//! that hold it; equality and range queries. Values are ordered as `str`
//! orders them, by their UTF-8 bytes.
use crate::index::keyed_sets::{
    ids_of, range_ids, range_valid, scalar_insert, scalar_remove, total_ids, BoundKind, KeyedSets,
    ValueEntry,
};
use crate::store::RecordId;
use vstd::prelude::*;
use vstd::string::*;

verus! {

/// A scalar index: each string value, as its UTF-8 bytes, with the records
/// that hold it.
#[derive(Debug)]
pub struct ScalarIndex {
    values: KeyedSets,
}

impl View for ScalarIndex {
    /// The values' UTF-8 bytes in order, each with its records in order.
    type V = Seq<ValueEntry>;

    closed spec fn view(&self) -> Seq<ValueEntry> {
        self.values@
    }
}

impl Default for ScalarIndex {
    fn default() -> (s: ScalarIndex)
        ensures
            s@ == Seq::<ValueEntry>::empty(),
            s.wf(),
    {
        ScalarIndex { values: KeyedSets::new() }
    }
}

impl ScalarIndex {
    /// The values are in order with their records.
    pub closed spec fn wf(&self) -> bool {
        self.values.wf()
    }

    /// Record that `id` holds `value`.
    pub fn insert(&mut self, value: &str, id: RecordId)
        requires
            old(self).wf(),
            total_ids(old(self)@) < usize::MAX,
        ensures
            final(self).wf(),
            final(self)@ == scalar_insert(old(self)@, value.spec_bytes(), id),
    {
        self.values.insert(value.as_bytes(), id);
    }

    /// Record that `id` no longer holds `value`; a value left with no record
    /// is dropped.
    pub fn remove(&mut self, value: &str, id: &RecordId)
        requires
            old(self).wf(),
        ensures
            final(self).wf(),
            final(self)@ == scalar_remove(old(self)@, value.spec_bytes(), *id),
    {
        self.values.remove(value.as_bytes(), id);
    }

    /// The records that hold `value`, in order.
    pub fn equals(&self, value: &str) -> (out: Vec<RecordId>)
        requires
            self.wf(),
        ensures
            out@ == ids_of(self@, value.spec_bytes()),
    {
        self.values.equals(value.as_bytes())
    }

    /// The records whose value lies between `low` and `high`, each bound
    /// inclusive or not, in value order.
    pub fn range(&self, low: &str, high: &str, low_inclusive: bool, high_inclusive: bool) -> (out: Vec<RecordId>)
        requires
            self.wf(),
            range_valid(low.spec_bytes(), low_inclusive, high.spec_bytes(), high_inclusive),
        ensures
            out@ == range_ids(
                self@,
                low.spec_bytes(),
                if low_inclusive {
                    BoundKind::Included
                } else {
                    BoundKind::Excluded
                },
                high.spec_bytes(),
                if high_inclusive {
                    BoundKind::Included
                } else {
                    BoundKind::Excluded
                },
            ),
    {
        self.values.range(low.as_bytes(), high.as_bytes(), low_inclusive, high_inclusive)
    }

    /// The records whose value sorts after `bound`.
    pub fn greater_than(&self, bound: &str) -> (out: Vec<RecordId>)
        requires
            self.wf(),
        ensures
            out@ == range_ids(
                self@,
                bound.spec_bytes(),
                BoundKind::Excluded,
                bound.spec_bytes(),
                BoundKind::Unbounded,
            ),
    {
        self.values.greater_than(bound.as_bytes())
    }

    /// The records whose value is `bound` or sorts after it.
    pub fn greater_than_or_equal(&self, bound: &str) -> (out: Vec<RecordId>)
        requires
            self.wf(),
        ensures
            out@ == range_ids(
                self@,
                bound.spec_bytes(),
                BoundKind::Included,
                bound.spec_bytes(),
                BoundKind::Unbounded,
            ),
    {
        self.values.greater_than_or_equal(bound.as_bytes())
    }

    /// The records whose value sorts before `bound`.
    pub fn less_than(&self, bound: &str) -> (out: Vec<RecordId>)
        requires
            self.wf(),
        ensures
            out@ == range_ids(
                self@,
                bound.spec_bytes(),
                BoundKind::Unbounded,
                bound.spec_bytes(),
                BoundKind::Excluded,
            ),
    {
        self.values.less_than(bound.as_bytes())
    }

    /// The records whose value is `bound` or sorts before it.
    pub fn less_than_or_equal(&self, bound: &str) -> (out: Vec<RecordId>)
        requires
            self.wf(),
        ensures
            out@ == range_ids(
                self@,
                bound.spec_bytes(),
                BoundKind::Unbounded,
                bound.spec_bytes(),
                BoundKind::Included,
            ),
    {
        self.values.less_than_or_equal(bound.as_bytes())
    }

    /// The number of (value, record) pairs.
    pub fn len(&self) -> (n: usize)
        requires
            self.wf(),
        ensures
            n == total_ids(self@),
    {
        self.values.len()
    }

    /// Whether no value is indexed.
    pub fn is_empty(&self) -> (b: bool)
        ensures
            b == (self@.len() == 0),
    {
        self.values.is_empty()
    }
}

} // verus!
