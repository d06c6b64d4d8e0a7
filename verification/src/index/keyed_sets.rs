//! Byte-string keys in order, each with the ordered set of records filed
//! under it: the structure behind the scalar and bitmap indexes.
use crate::bytes_order::{
    bytes_lt, compare_bytes, lemma_bytes_lt_asymmetric, lemma_bytes_lt_irreflexive,
    lemma_bytes_lt_total, lemma_bytes_lt_transitive,
};
use crate::seqs::{lemma_filter_all, lemma_filter_none, lemma_filter_prefix};
use crate::store::RecordId;
use vstd::prelude::*;
use crate::io::binary::copy_bytes;

verus! {

broadcast use vstd::seq_lib::group_seq_lib_default;

/// The order of keys.
pub open spec fn value_lt(a: Seq<u8>, b: Seq<u8>) -> bool {
    bytes_lt(a, b)
}

/// A key and the records filed under it.
pub type ValueEntry = (Seq<u8>, Seq<RecordId>);

/// The records appear in strictly increasing order.
pub open spec fn ids_sorted(s: Seq<RecordId>) -> bool {
    forall|i: int, j: int| 0 <= i < j < s.len() ==> s[i].0 < s[j].0
}

/// The number of records over all values.
pub open spec fn total_ids(v: Seq<ValueEntry>) -> nat
    decreases v.len(),
{
    if v.len() == 0 {
        0
    } else {
        total_ids(v.drop_last()) + v.last().1.len()
    }
}

/// The records of the values, value by value.
pub open spec fn flatten(v: Seq<ValueEntry>) -> Seq<RecordId>
    decreases v.len(),
{
    if v.len() == 0 {
        Seq::empty()
    } else {
        flatten(v.drop_last()) + v.last().1
    }
}

/// Values in strictly increasing order, each with a non-empty, strictly
/// increasing set of records.
pub open spec fn scalar_wf(v: Seq<ValueEntry>) -> bool {
    &&& forall|i: int, j: int| 0 <= i < j < v.len() ==> value_lt(v[i].0, v[j].0)
    &&& forall|i: int| 0 <= i < v.len() ==> ids_sorted(#[trigger] v[i].1) && v[i].1.len() > 0
    &&& total_ids(v) <= usize::MAX
}

/// The predicate "the value sorts before `k`".
pub open spec fn before_value(k: Seq<u8>) -> spec_fn(ValueEntry) -> bool {
    |e: ValueEntry| value_lt(e.0, k)
}

/// Where the value `k` is, or goes.
pub open spec fn value_pos(v: Seq<ValueEntry>, k: Seq<u8>) -> int {
    v.filter(before_value(k)).len() as int
}

/// The value `k` is present.
pub open spec fn has_value(v: Seq<ValueEntry>, k: Seq<u8>) -> bool {
    value_pos(v, k) < v.len() && v[value_pos(v, k)].0 == k
}

/// The records that hold `k`, in order.
pub open spec fn ids_of(v: Seq<ValueEntry>, k: Seq<u8>) -> Seq<RecordId> {
    if has_value(v, k) {
        v[value_pos(v, k)].1
    } else {
        Seq::empty()
    }
}

/// The predicate "the record sorts before `x`".
pub open spec fn id_before(x: RecordId) -> spec_fn(RecordId) -> bool {
    |r: RecordId| r.0 < x.0
}

/// The ordered set of records with `x` added.
pub open spec fn set_insert(s: Seq<RecordId>, x: RecordId) -> Seq<RecordId> {
    if s.contains(x) {
        s
    } else {
        s.insert(s.filter(id_before(x)).len() as int, x)
    }
}

/// The predicate "the record is not `x`".
pub open spec fn other_than(x: RecordId) -> spec_fn(RecordId) -> bool {
    |r: RecordId| r != x
}

/// The ordered set of records without `x`.
pub open spec fn set_remove(s: Seq<RecordId>, x: RecordId) -> Seq<RecordId> {
    s.filter(other_than(x))
}

/// The values after `id` is recorded for `k`.
pub open spec fn scalar_insert(v: Seq<ValueEntry>, k: Seq<u8>, id: RecordId) -> Seq<ValueEntry> {
    let p = value_pos(v, k);
    if has_value(v, k) {
        v.update(p, (k, set_insert(v[p].1, id)))
    } else {
        v.insert(p, (k, seq![id]))
    }
}

/// The values after `id` is dropped from `k`; a value left with no record
/// goes.
pub open spec fn scalar_remove(v: Seq<ValueEntry>, k: Seq<u8>, id: RecordId) -> Seq<ValueEntry> {
    let p = value_pos(v, k);
    if has_value(v, k) {
        if set_remove(v[p].1, id).len() == 0 {
            v.remove(p)
        } else {
            v.update(p, (k, set_remove(v[p].1, id)))
        }
    } else {
        v
    }
}

/// A bound of a range: none, inclusive or exclusive.
#[derive(Clone, Copy, Debug, PartialEq, Eq, Structural)]
pub enum BoundKind {
    Unbounded,
    Included,
    Excluded,
}

/// `k` lies above the lower bound `low`.
pub open spec fn above(k: Seq<u8>, low: Seq<u8>, mode: BoundKind) -> bool {
    match mode {
        BoundKind::Unbounded => true,
        BoundKind::Included => !value_lt(k, low),
        BoundKind::Excluded => value_lt(low, k),
    }
}

/// `k` lies below the upper bound `high`.
pub open spec fn below(k: Seq<u8>, high: Seq<u8>, mode: BoundKind) -> bool {
    match mode {
        BoundKind::Unbounded => true,
        BoundKind::Included => !value_lt(high, k),
        BoundKind::Excluded => value_lt(k, high),
    }
}

/// The predicate "the value lies within the bounds".
pub open spec fn within(low: Seq<u8>, lm: BoundKind, high: Seq<u8>, hm: BoundKind) -> spec_fn(
    ValueEntry,
) -> bool {
    |e: ValueEntry| above(e.0, low, lm) && below(e.0, high, hm)
}

/// The records of the values within the bounds, in value order.
pub open spec fn range_ids(v: Seq<ValueEntry>, low: Seq<u8>, lm: BoundKind, high: Seq<u8>, hm: BoundKind) -> Seq<
    RecordId,
> {
    flatten(v.filter(within(low, lm, high, hm)))
}

/// A range with both bounds is valid (a `BTreeMap` range would not panic):
/// the start does not sort after the end, and they are not equal with both
/// excluded.
pub open spec fn range_valid(low: Seq<u8>, low_inclusive: bool, high: Seq<u8>, high_inclusive: bool) -> bool {
    &&& !value_lt(high, low)
    &&& !(low == high && !low_inclusive && !high_inclusive)
}

/// Facts of the value order.
proof fn lemma_value_order(a: Seq<u8>, b: Seq<u8>, c: Seq<u8>)
    ensures
        !value_lt(a, a),
        value_lt(a, b) && value_lt(b, c) ==> value_lt(a, c),
        value_lt(a, b) ==> !value_lt(b, a),
        a == b || value_lt(a, b) || value_lt(b, a),
{
    lemma_bytes_lt_irreflexive(a);
    if value_lt(a, b) && value_lt(b, c) {
        lemma_bytes_lt_transitive(a, b, c);
    }
    if value_lt(a, b) {
        lemma_bytes_lt_asymmetric(a, b);
    }
    lemma_bytes_lt_total(a, b);
}

/// Byte-string keys, each with the records filed under it.
#[derive(Debug)]
pub struct KeyedSets {
    values: Vec<(Vec<u8>, Vec<RecordId>)>,
    total: usize,
}

impl View for KeyedSets {
    type V = Seq<ValueEntry>;

    closed spec fn view(&self) -> Seq<ValueEntry> {
        self.values@.map_values(|e: (Vec<u8>, Vec<RecordId>)| (e.0@, e.1@))
    }
}

impl KeyedSets {
    pub fn new() -> (s: KeyedSets)
        ensures
            s@ == Seq::<ValueEntry>::empty(),
            s.wf(),
    {
        let s = KeyedSets { values: Vec::new(), total: 0 };
        proof {
            assert(s@ =~= Seq::<ValueEntry>::empty());
        }
        s
    }

    /// The values are in order with their records.
    pub closed spec fn wf(&self) -> bool {
        scalar_wf(self@) && self.total == total_ids(self@)
    }

    /// Where `key` is, or goes, and whether it is there.
    fn find(&self, key: &[u8]) -> (r: (usize, bool))
        requires
            self.wf(),
        ensures
            r.0 == value_pos(self@, key@),
            r.1 == has_value(self@, key@),
            r.0 <= self@.len(),
    {
        let ghost v = self@;
        let mut i: usize = 0;
        while i < self.values.len()
            invariant
                v == self@,
                self.wf(),
                v.len() == self.values@.len(),
                i <= v.len(),
                forall|j: int| 0 <= j < i ==> value_lt(#[trigger] v[j].0, key@),
            ensures
                i <= v.len(),
                forall|j: int| 0 <= j < i ==> value_lt(#[trigger] v[j].0, key@),
                i < v.len() ==> !value_lt(v[i as int].0, key@),
            decreases v.len() - i,
        {
            let c = compare_bytes(self.values[i].0.as_slice(), key);
            proof {
                assert(v[i as int].0 == self.values@[i as int].0@);
            }
            if c != -1 {
                break;
            }
            i = i + 1;
        }
        proof {
            assert forall|j: int| i <= j < v.len() implies !value_lt(#[trigger] v[j].0, key@) by {
                if j > i {
                    lemma_value_order(v[i as int].0, v[j].0, key@);
                    lemma_value_order(v[j].0, key@, v[i as int].0);
                    lemma_value_order(v[i as int].0, key@, key@);
                    if value_lt(v[j].0, key@) {
                        lemma_value_order(v[i as int].0, v[j].0, key@);
                    }
                }
            }
            lemma_filter_prefix(v, before_value(key@), i as int);
        }
        if i < self.values.len() {
            let c = compare_bytes(self.values[i].0.as_slice(), key);
            proof {
                assert(v[i as int].0 == self.values@[i as int].0@);
            }
            (i, c == 0)
        } else {
            (i, false)
        }
    }

    /// The records that hold `value`, in order.
    pub fn equals(&self, value: &[u8]) -> (out: Vec<RecordId>)
        requires
            self.wf(),
        ensures
            out@ == ids_of(self@, value@),
    {
        let (p, found) = self.find(value);
        if found {
            let ids = &self.values[p].1;
            let mut out: Vec<RecordId> = Vec::new();
            let mut i: usize = 0;
            while i < ids.len()
                invariant
                    i <= ids@.len(),
                    out@ == ids@.take(i as int),
                decreases ids@.len() - i,
            {
                out.push(ids[i]);
                i = i + 1;
                proof {
                    assert(out@ =~= ids@.take(i as int));
                }
            }
            proof {
                assert(ids@.take(i as int) =~= ids@);
                assert(self@[p as int].1 == ids@);
            }
            out
        } else {
            Vec::new()
        }
    }

    /// The number of (value, record) pairs.
    pub fn len(&self) -> (n: usize)
        requires
            self.wf(),
        ensures
            n == total_ids(self@),
    {
        self.total
    }

    /// Whether no value is indexed.
    pub fn is_empty(&self) -> (b: bool)
        ensures
            b == (self@.len() == 0),
    {
        self.values.len() == 0
    }

    /// The records of the values within the bounds, in value order.
    fn collect(&self, low: &[u8], lm: BoundKind, high: &[u8], hm: BoundKind) -> (out: Vec<RecordId>)
        requires
            self.wf(),
        ensures
            out@ == range_ids(self@, low@, lm, high@, hm),
    {
        let ghost v = self@;
        let ghost w = within(low@, lm, high@, hm);
        let mut out: Vec<RecordId> = Vec::new();
        let mut i: usize = 0;
        proof {
            assert(v.take(0) =~= Seq::<ValueEntry>::empty());
            lemma_filter_none(Seq::<ValueEntry>::empty(), w);
        }
        while i < self.values.len()
            invariant
                v == self@,
                w == within(low@, lm, high@, hm),
                v.len() == self.values@.len(),
                i <= v.len(),
                out@ == flatten(v.take(i as int).filter(w)),
            decreases v.len() - i,
        {
            let key = self.values[i].0.as_slice();
            proof {
                assert(v[i as int].0 == key@);
                assert(v[i as int].1 == self.values@[i as int].1@);
                assert(v.take(i + 1) =~= v.take(i as int).push(v[i as int]));
                v.take(i as int).lemma_filter_push(v[i as int], w);
            }
            let lo_ok = match lm {
                BoundKind::Unbounded => true,
                BoundKind::Included => compare_bytes(key, low) != -1,
                BoundKind::Excluded => compare_bytes(low, key) == -1,
            };
            let hi_ok = match hm {
                BoundKind::Unbounded => true,
                BoundKind::Included => compare_bytes(high, key) != -1,
                BoundKind::Excluded => compare_bytes(key, high) == -1,
            };
            if lo_ok && hi_ok {
                let ids = &self.values[i].1;
                let ghost before = out@;
                let mut k: usize = 0;
                while k < ids.len()
                    invariant
                        k <= ids@.len(),
                        out@ == before + ids@.take(k as int),
                    decreases ids@.len() - k,
                {
                    out.push(ids[k]);
                    k = k + 1;
                    proof {
                        assert(out@ =~= before + ids@.take(k as int));
                    }
                }
                proof {
                    assert(ids@.take(k as int) =~= ids@);
                    let f = v.take(i as int).filter(w);
                    assert(f.push(v[i as int]).drop_last() =~= f);
                }
            }
            i = i + 1;
        }
        proof {
            assert(v.take(i as int) =~= v);
        }
        out
    }

    /// The records whose value lies between `low` and `high`, each bound
    /// inclusive or not, in value order.
    pub fn range(&self, low: &[u8], high: &[u8], low_inclusive: bool, high_inclusive: bool) -> (out: Vec<RecordId>)
        requires
            self.wf(),
            range_valid(low@, low_inclusive, high@, high_inclusive),
        ensures
            out@ == range_ids(
                self@,
                low@,
                if low_inclusive {
                    BoundKind::Included
                } else {
                    BoundKind::Excluded
                },
                high@,
                if high_inclusive {
                    BoundKind::Included
                } else {
                    BoundKind::Excluded
                },
            ),
    {
        let lm = if low_inclusive {
            BoundKind::Included
        } else {
            BoundKind::Excluded
        };
        let hm = if high_inclusive {
            BoundKind::Included
        } else {
            BoundKind::Excluded
        };
        self.collect(low, lm, high, hm)
    }

    /// The records whose value sorts after `bound`.
    pub fn greater_than(&self, bound: &[u8]) -> (out: Vec<RecordId>)
        requires
            self.wf(),
        ensures
            out@ == range_ids(self@, bound@, BoundKind::Excluded, bound@, BoundKind::Unbounded),
    {
        self.collect(bound, BoundKind::Excluded, bound, BoundKind::Unbounded)
    }

    /// The records whose value is `bound` or sorts after it.
    pub fn greater_than_or_equal(&self, bound: &[u8]) -> (out: Vec<RecordId>)
        requires
            self.wf(),
        ensures
            out@ == range_ids(self@, bound@, BoundKind::Included, bound@, BoundKind::Unbounded),
    {
        self.collect(bound, BoundKind::Included, bound, BoundKind::Unbounded)
    }

    /// The records whose value sorts before `bound`.
    pub fn less_than(&self, bound: &[u8]) -> (out: Vec<RecordId>)
        requires
            self.wf(),
        ensures
            out@ == range_ids(self@, bound@, BoundKind::Unbounded, bound@, BoundKind::Excluded),
    {
        self.collect(bound, BoundKind::Unbounded, bound, BoundKind::Excluded)
    }

    /// The records whose value is `bound` or sorts before it.
    pub fn less_than_or_equal(&self, bound: &[u8]) -> (out: Vec<RecordId>)
        requires
            self.wf(),
        ensures
            out@ == range_ids(self@, bound@, BoundKind::Unbounded, bound@, BoundKind::Included),
    {
        self.collect(bound, BoundKind::Unbounded, bound, BoundKind::Included)
    }
}

/// The records of a prefix of the values are no more than those of all.
proof fn lemma_total_ids_prefix(v: Seq<ValueEntry>, i: int)
    requires
        0 <= i <= v.len(),
    ensures
        total_ids(v.take(i)) <= total_ids(v),
    decreases v.len(),
{
    if i == v.len() {
        assert(v.take(i) =~= v);
    } else {
        lemma_total_ids_prefix(v.drop_last(), i);
        assert(v.drop_last().take(i) =~= v.take(i));
    }
}


/// The records of two runs of values together.
proof fn lemma_total_ids_concat(a: Seq<ValueEntry>, b: Seq<ValueEntry>)
    ensures
        total_ids(a + b) == total_ids(a) + total_ids(b),
    decreases b.len(),
{
    if b.len() > 0 {
        lemma_total_ids_concat(a, b.drop_last());
        assert((a + b).drop_last() =~= a + b.drop_last());
    } else {
        assert(a + b =~= a);
    }
}

/// One value holds its own records.
proof fn lemma_total_ids_single(e: ValueEntry)
    ensures
        total_ids(seq![e]) == e.1.len(),
{
    assert(seq![e].drop_last() =~= Seq::<ValueEntry>::empty());
    assert(total_ids(Seq::<ValueEntry>::empty()) == 0);
}

/// Replacing, adding or removing a value at `p` changes the count of
/// records by the records involved.
proof fn lemma_total_ids_edit(v: Seq<ValueEntry>, p: int, e: ValueEntry)
    requires
        0 <= p <= v.len(),
    ensures
        p < v.len() ==> total_ids(v.update(p, e)) + v[p].1.len() == total_ids(v) + e.1.len(),
        total_ids(v.insert(p, e)) == total_ids(v) + e.1.len(),
        p < v.len() ==> total_ids(v.remove(p)) + v[p].1.len() == total_ids(v),
{
    let a = v.take(p);
    lemma_total_ids_single(e);
    if p < v.len() {
        let b = v.skip(p + 1);
        assert(v =~= a + seq![v[p]] + b);
        assert(v.update(p, e) =~= a + seq![e] + b);
        assert(v.remove(p) =~= a + b);
        lemma_total_ids_single(v[p]);
        lemma_total_ids_concat(a + seq![v[p]], b);
        lemma_total_ids_concat(a, seq![v[p]]);
        lemma_total_ids_concat(a + seq![e], b);
        lemma_total_ids_concat(a, seq![e]);
        lemma_total_ids_concat(a, b);
    }
    let c = v.skip(p);
    assert(v =~= a + c);
    assert(v.insert(p, e) =~= a + seq![e] + c);
    lemma_total_ids_concat(a + seq![e], c);
    lemma_total_ids_concat(a, seq![e]);
    lemma_total_ids_concat(a, c);
}

/// Add `x` to an ordered set of records.
fn set_insert_exec(ids: &mut Vec<RecordId>, x: RecordId)
    requires
        ids_sorted(old(ids)@),
    ensures
        ids_sorted(final(ids)@),
        final(ids)@ == set_insert(old(ids)@, x),
        final(ids)@.len() <= old(ids)@.len() + 1,
        final(ids)@.len() > 0,
{
    let ghost s = ids@;
    let mut j: usize = 0;
    while j < ids.len() && ids[j].0 < x.0
        invariant
            s == ids@,
            j <= s.len(),
            forall|k: int| 0 <= k < j ==> s[k].0 < x.0,
        decreases s.len() - j,
    {
        j = j + 1;
    }
    proof {
        assert forall|k: int| j <= k < s.len() implies !id_before(x)(#[trigger] s[k]) by {
            if k > j {
                assert(s[j as int].0 < s[k].0);
            }
        }
        assert forall|k: int| 0 <= k < j implies id_before(x)(#[trigger] s[k]) by {}
        lemma_filter_prefix(s, id_before(x), j as int);
    }
    if j < ids.len() && ids[j].0 == x.0 {
        proof {
            assert(s[j as int] == x);
            assert(s.contains(x));
        }
    } else {
        proof {
            if s.contains(x) {
                let k = choose|k: int| 0 <= k < s.len() && s[k] == x;
                if k < j {
                } else if k > j {
                    assert(s[j as int].0 < s[k].0);
                }
            }
        }
        ids.insert(j, x);
        proof {
            let t = ids@;
            assert forall|a: int, b: int| 0 <= a < b < t.len() implies t[a].0 < t[b].0 by {
                if b < j {
                } else if b == j {
                } else if a < j {
                    assert(t[b] == s[b - 1]);
                } else if a == j {
                    assert(t[b] == s[b - 1]);
                } else {
                    assert(t[a] == s[a - 1] && t[b] == s[b - 1]);
                }
            }
        }
    }
}

/// Drop `x` from an ordered set of records.
#[verifier::spinoff_prover]
fn set_remove_exec(ids: &mut Vec<RecordId>, x: RecordId)
    requires
        ids_sorted(old(ids)@),
    ensures
        ids_sorted(final(ids)@),
        final(ids)@ == set_remove(old(ids)@, x),
{
    let ghost s = ids@;
    let ghost p = other_than(x);
    let mut j: usize = 0;
    while j < ids.len() && ids[j].0 != x.0
        invariant
            s == ids@,
            j <= s.len(),
            forall|k: int| 0 <= k < j ==> s[k].0 != x.0,
        decreases s.len() - j,
    {
        j = j + 1;
    }
    if j < ids.len() {
        ids.remove(j);
        proof {
            let a = s.take(j as int);
            let b = s.skip(j + 1);
            assert(s =~= a + seq![s[j as int]] + b);
            assert(ids@ =~= a + b);
            assert forall|k: int| 0 <= k < a.len() implies p(#[trigger] a[k]) by {
                assert(a[k] == s[k]);
            }
            lemma_filter_all(a, p);
            assert forall|k: int| 0 <= k < b.len() implies p(#[trigger] b[k]) by {
                assert(b[k] == s[j + 1 + k]);
            }
            lemma_filter_all(b, p);
            assert(s[j as int] == x);
            assert(!p(s[j as int]));
            lemma_filter_none(seq![s[j as int]], p);
            Seq::filter_distributes_over_add(a + seq![s[j as int]], b, p);
            Seq::filter_distributes_over_add(a, seq![s[j as int]], p);
            assert(Seq::<RecordId>::empty() + b =~= b);
            assert(a + Seq::<RecordId>::empty() =~= a);
            let t = ids@;
            assert forall|u: int, w: int| 0 <= u < w < t.len() implies t[u].0 < t[w].0 by {
                if w < j {
                } else if u < j {
                    assert(t[w] == s[w + 1]);
                } else {
                    assert(t[u] == s[u + 1] && t[w] == s[w + 1]);
                }
            }
        }
    } else {
        proof {
            assert forall|k: int| 0 <= k < s.len() implies p(#[trigger] s[k]) by {}
            lemma_filter_all(s, p);
        }
    }
}

impl KeyedSets {
    /// Record that `id` holds `value`.
    pub fn insert(&mut self, value: &[u8], id: RecordId)
        requires
            old(self).wf(),
            total_ids(old(self)@) < usize::MAX,
        ensures
            final(self).wf(),
            final(self)@ == scalar_insert(old(self)@, value@, id),
            total_ids(final(self)@) <= total_ids(old(self)@) + 1,
    {
        let ghost v = self@;
        let (p, found) = self.find(value);
        if found {
            let (k, mut ids) = self.values.remove(p);
            proof {
                assert(v[p as int] == (k@, ids@));
                assert(ids_sorted(v[p as int].1));
            }
            let old_len = ids.len();
            set_insert_exec(&mut ids, id);
            let new_len = ids.len();
            let ghost e = (k@, ids@);
            self.values.insert(p, (k, ids));
            proof {
                assert(self@ =~= v.update(p as int, e));
                lemma_total_ids_edit(v, p as int, e);
            }
            self.total = self.total - old_len + new_len;
            proof {
                let w = self@;
                assert forall|a: int, b: int| 0 <= a < b < w.len() implies value_lt(w[a].0, w[b].0) by {
                    assert(w[a].0 == v[a].0 && w[b].0 == v[b].0);
                }
                assert forall|a: int| 0 <= a < w.len() implies ids_sorted(#[trigger] w[a].1) && w[a].1.len() > 0 by {
                    if a != p {
                        assert(w[a] == v[a]);
                    }
                }
            }
        } else {
            let mut ids: Vec<RecordId> = Vec::new();
            ids.push(id);
            let k = copy_bytes(value);
            let ghost e = (k@, ids@);
            proof {
                assert(ids@ =~= seq![id]);
            }
            self.values.insert(p, (k, ids));
            proof {
                assert(self@ =~= v.insert(p as int, e));
                lemma_total_ids_edit(v, p as int, e);
            }
            self.total = self.total + 1;
            proof {
                lemma_filter_prefix_props(v, value@, p as int);
                let w = self@;
                assert forall|a: int, b: int| 0 <= a < b < w.len() implies value_lt(w[a].0, w[b].0) by {
                    if b < p {
                        assert(w[a] == v[a] && w[b] == v[b]);
                    } else if b == p {
                        assert(w[a] == v[a]);
                    } else if a == p {
                        assert(w[b] == v[b - 1]);
                    } else if a < p {
                        assert(w[a] == v[a] && w[b] == v[b - 1]);
                    } else {
                        assert(w[a] == v[a - 1] && w[b] == v[b - 1]);
                    }
                }
                assert forall|a: int| 0 <= a < w.len() implies ids_sorted(#[trigger] w[a].1) && w[a].1.len() > 0 by {
                    if a < p {
                        assert(w[a] == v[a]);
                    } else if a > p {
                        assert(w[a] == v[a - 1]);
                    }
                }
            }
        }
    }

    /// Record that `id` no longer holds `value`; a value left with no record
    /// is dropped.
    pub fn remove(&mut self, value: &[u8], id: &RecordId)
        requires
            old(self).wf(),
        ensures
            final(self).wf(),
            final(self)@ == scalar_remove(old(self)@, value@, *id),
    {
        let ghost v = self@;
        let (p, found) = self.find(value);
        if found {
            let (k, mut ids) = self.values.remove(p);
            proof {
                assert(v[p as int] == (k@, ids@));
                assert(ids_sorted(v[p as int].1));
                assert(self@ =~= v.remove(p as int));
            }
            let old_len = ids.len();
            set_remove_exec(&mut ids, *id);
            proof {
                v[p as int].1.lemma_filter_len(other_than(*id));
                lemma_total_ids_edit(v, p as int, (k@, ids@));
            }
            self.total = self.total - old_len + ids.len();
            if ids.len() > 0 {
                let ghost e = (k@, ids@);
                self.values.insert(p, (k, ids));
                proof {
                    assert(self@ =~= v.update(p as int, e));
                    let w = self@;
                    assert forall|a: int, b: int| 0 <= a < b < w.len() implies value_lt(w[a].0, w[b].0) by {
                        assert(w[a].0 == v[a].0 && w[b].0 == v[b].0);
                    }
                    assert forall|a: int| 0 <= a < w.len() implies ids_sorted(#[trigger] w[a].1) && w[a].1.len() > 0 by {
                        if a != p {
                            assert(w[a] == v[a]);
                        }
                    }
                }
            } else {
                proof {
                    let w = self@;
                    assert forall|a: int, b: int| 0 <= a < b < w.len() implies value_lt(w[a].0, w[b].0) by {
                        if b < p {
                            assert(w[a] == v[a] && w[b] == v[b]);
                        } else if a < p {
                            assert(w[a] == v[a] && w[b] == v[b + 1]);
                        } else {
                            assert(w[a] == v[a + 1] && w[b] == v[b + 1]);
                        }
                    }
                    assert forall|a: int| 0 <= a < w.len() implies ids_sorted(#[trigger] w[a].1) && w[a].1.len() > 0 by {
                        if a < p {
                            assert(w[a] == v[a]);
                        } else {
                            assert(w[a] == v[a + 1]);
                        }
                    }
                }
            }
        }
    }
}

/// Where a value that is absent goes: after the values that sort before
/// it, before those that sort after it.
proof fn lemma_filter_prefix_props(v: Seq<ValueEntry>, k: Seq<u8>, p: int)
    requires
        scalar_wf(v),
        p == value_pos(v, k),
        !has_value(v, k),
        0 <= p <= v.len(),
    ensures
        forall|j: int| 0 <= j < p ==> value_lt(#[trigger] v[j].0, k),
        forall|j: int| p <= j < v.len() ==> value_lt(k, #[trigger] v[j].0),
{
    let f = before_value(k);
    // The values that sort before `k` form a prefix, since the values are
    // in order; its length is `p`.
    assert forall|a: int, b: int| #![trigger v[a], v[b]] 0 <= a < b < v.len() && f(v[b]) implies f(v[a]) by {
        lemma_value_order(v[a].0, v[b].0, k);
    }
    lemma_prefix_count(v, f, p);
    assert forall|j: int| p <= j < v.len() implies value_lt(k, #[trigger] v[j].0) by {
        lemma_value_order(v[j].0, k, k);
        if j > p {
            lemma_value_order(v[p].0, v[j].0, k);
            lemma_value_order(k, v[p].0, v[j].0);
        }
    }
}

/// When a predicate holds on a downward-closed set of positions, the
/// positions it holds on are those before the count of its matches.
proof fn lemma_prefix_count<A>(s: Seq<A>, f: spec_fn(A) -> bool, p: int)
    requires
        p == s.filter(f).len(),
        forall|a: int, b: int| #![trigger s[a], s[b]] 0 <= a < b < s.len() && f(s[b]) ==> f(s[a]),
    ensures
        forall|j: int| 0 <= j < p ==> f(#[trigger] s[j]),
        forall|j: int| p <= j < s.len() ==> !f(#[trigger] s[j]),
    decreases s.len(),
{
    reveal(Seq::filter);
    if s.len() > 0 {
        let t = s.drop_last();
        let n = s.len() - 1;
        assert forall|a: int, b: int| #![trigger t[a], t[b]] 0 <= a < b < t.len() && f(t[b]) implies f(t[a]) by {
            assert(t[a] == s[a] && t[b] == s[b]);
        }
        let pt = t.filter(f).len() as int;
        lemma_prefix_count(t, f, pt);
        if f(s[n]) {
            assert forall|j: int| 0 <= j < t.len() implies f(#[trigger] t[j]) by {
                assert(t[j] == s[j]);
                assert(f(s[j]));
            }
            lemma_filter_all(t, f);
            assert(s.filter(f) == t.filter(f).push(s[n]));
            assert forall|j: int| 0 <= j < p implies f(#[trigger] s[j]) by {
                if j < n {
                    assert(t[j] == s[j]);
                }
            }
        } else {
            assert(s.filter(f) == t.filter(f));
            assert forall|j: int| 0 <= j < p implies f(#[trigger] s[j]) by {
                assert(t[j] == s[j]);
            }
            assert forall|j: int| p <= j < s.len() implies !f(#[trigger] s[j]) by {
                if j < n {
                    assert(t[j] == s[j]);
                }
            }
        }
    }
}


/// The keys without `k`.
pub open spec fn remove_key(v: Seq<ValueEntry>, k: Seq<u8>) -> Seq<ValueEntry> {
    if has_value(v, k) {
        v.remove(value_pos(v, k))
    } else {
        v
    }
}

impl KeyedSets {
    /// Drop `key` with all its records.
    pub fn remove_key(&mut self, key: &[u8])
        requires
            old(self).wf(),
        ensures
            final(self).wf(),
            final(self)@ == remove_key(old(self)@, key@),
            total_ids(final(self)@) <= total_ids(old(self)@),
    {
        let ghost v = self@;
        let (p, found) = self.find(key);
        if found {
            let (_, ids) = self.values.remove(p);
            proof {
                assert(self@ =~= v.remove(p as int));
                lemma_total_ids_edit(v, p as int, v[p as int]);
                assert(v[p as int].1 == ids@);
            }
            self.total = self.total - ids.len();
            proof {
                let w = self@;
                assert forall|a: int, b: int| 0 <= a < b < w.len() implies value_lt(w[a].0, w[b].0) by {
                    if b < p {
                        assert(w[a] == v[a] && w[b] == v[b]);
                    } else if a < p {
                        assert(w[a] == v[a] && w[b] == v[b + 1]);
                    } else {
                        assert(w[a] == v[a + 1] && w[b] == v[b + 1]);
                    }
                }
                assert forall|a: int| 0 <= a < w.len() implies ids_sorted(#[trigger] w[a].1) && w[a].1.len() > 0 by {
                    if a < p {
                        assert(w[a] == v[a]);
                    } else {
                        assert(w[a] == v[a + 1]);
                    }
                }
            }
        }
    }

    /// Whether `rid` is filed under `key`.
    pub fn contains(&self, key: &[u8], rid: RecordId) -> (b: bool)
        requires
            self.wf(),
        ensures
            b == ids_of(self@, key@).contains(rid),
    {
        let (p, found) = self.find(key);
        if !found {
            return false;
        }
        let ids = &self.values[p].1;
        proof {
            assert(self@[p as int].1 == ids@);
            assert(ids_of(self@, key@) == ids@);
        }
        let mut i: usize = 0;
        while i < ids.len()
            invariant
                i <= ids@.len(),
                ids_of(self@, key@) == ids@,
                forall|j: int| 0 <= j < i ==> ids@[j] != rid,
            decreases ids@.len() - i,
        {
            if ids[i].0 == rid.0 {
                proof {
                    assert(ids@[i as int] == rid);
                }
                return true;
            }
            i = i + 1;
        }
        false
    }

    /// The first (smallest) record filed under `key`, if any.
    pub fn first(&self, key: &[u8]) -> (r: Option<RecordId>)
        requires
            self.wf(),
        ensures
            r == (if ids_of(self@, key@).len() > 0 {
                Some(ids_of(self@, key@)[0])
            } else {
                None::<RecordId>
            }),
    {
        let (p, found) = self.find(key);
        if !found {
            return None;
        }
        proof {
            assert(self@[p as int].1 == self.values@[p as int].1@);
        }
        if self.values[p].1.len() > 0 {
            Some(self.values[p].1[0])
        } else {
            None
        }
    }

    /// The number of keys.
    pub fn key_count(&self) -> (n: usize)
        ensures
            n == self@.len(),
    {
        self.values.len()
    }
}


/// The numbers of records.
pub open spec fn id_words(s: Seq<RecordId>) -> Seq<u64> {
    s.map_values(|r: RecordId| r.0)
}

/// Each key with the numbers of its records.
pub open spec fn term_rows_of(v: Seq<ValueEntry>) -> Seq<(Seq<u8>, Seq<u64>)> {
    v.map_values(|e: ValueEntry| (e.0, id_words(e.1)))
}

/// The numbers of the records, in order.
pub fn record_words(ids: &Vec<RecordId>) -> (out: Vec<u64>)
    ensures
        out@ == id_words(ids@),
{
    let mut out: Vec<u64> = Vec::new();
    let mut i: usize = 0;
    while i < ids.len()
        invariant
            i <= ids@.len(),
            out@ =~= id_words(ids@.take(i as int)),
        decreases ids@.len() - i,
    {
        out.push(ids[i].0);
        i = i + 1;
        proof {
            assert(id_words(ids@.take(i as int)) =~= id_words(ids@.take(i - 1)).push(ids@[i - 1].0));
        }
    }
    proof {
        assert(ids@.take(i as int) =~= ids@);
    }
    out
}

/// The keys, in order.
pub open spec fn keys_in(v: Seq<ValueEntry>) -> Seq<Seq<u8>> {
    v.map_values(|e: ValueEntry| e.0)
}

impl KeyedSets {
    /// Well-formed sets are in key order, each with records in order.
    pub proof fn lemma_wf_scalar(&self)
        requires
            self.wf(),
        ensures
            scalar_wf(self@),
    {
    }

    /// Every key of well-formed sets has a record.
    pub proof fn lemma_nonempty_sets(&self)
        requires
            self.wf(),
        ensures
            forall|j: int| 0 <= j < self@.len() ==> (#[trigger] self@[j]).1.len() > 0,
    {
    }

    /// The keys, in order.
    pub fn keys(&self) -> (out: Vec<Vec<u8>>)
        ensures
            out@.map_values(|k: Vec<u8>| k@) == keys_in(self@),
    {
        let mut out: Vec<Vec<u8>> = Vec::new();
        let mut i: usize = 0;
        while i < self.values.len()
            invariant
                i <= self.values@.len(),
                out@.len() == i,
                forall|j: int| 0 <= j < i ==> (#[trigger] out@[j])@ == self.values@[j].0@,
            decreases self.values@.len() - i,
        {
            out.push(copy_bytes(self.values[i].0.as_slice()));
            i = i + 1;
        }
        proof {
            assert(out@.map_values(|k: Vec<u8>| k@) =~= keys_in(self@));
        }
        out
    }

    /// Each key with the numbers of its records, in order.
    pub fn id_rows(&self) -> (out: Vec<(Vec<u8>, Vec<u64>)>)
        ensures
            out@.map_values(|e: (Vec<u8>, Vec<u64>)| (e.0@, e.1@)) == term_rows_of(self@),
    {
        let mut out: Vec<(Vec<u8>, Vec<u64>)> = Vec::new();
        let mut i: usize = 0;
        while i < self.values.len()
            invariant
                i <= self.values@.len(),
                out@.len() == i,
                forall|j: int|
                    0 <= j < i ==> (#[trigger] out@[j]).0@ == self.values@[j].0@ && out@[j].1@
                        == id_words(self.values@[j].1@),
            decreases self.values@.len() - i,
        {
            let words = record_words(&self.values[i].1);
            out.push((copy_bytes(self.values[i].0.as_slice()), words));
            i = i + 1;
        }
        proof {
            assert(out@.map_values(|e: (Vec<u8>, Vec<u64>)| (e.0@, e.1@)) =~= term_rows_of(self@));
        }
        out
    }
}


} // verus!
