//! Postings by field, then by term: the field-level postings of the
//! inverted index, kept in (field, term) order.
use crate::bytes_order::{
    bytes_lt, compare_bytes, lemma_bytes_lt_asymmetric, lemma_bytes_lt_irreflexive,
    lemma_bytes_lt_total, lemma_bytes_lt_transitive,
};
use crate::index::keyed_sets::{
    id_words, ids_of, remove_key, scalar_insert, scalar_wf, term_rows_of, total_ids, KeyedSets,
    ValueEntry,
};
use crate::io::binary::copy_bytes;
use crate::store::RecordId;
use vstd::prelude::*;

verus! {

/// A field with its terms' postings.
pub type FieldEntry = (Seq<u8>, Seq<ValueEntry>);

/// Fields in strictly increasing byte order, none without terms.
pub open spec fn fields_sorted(v: Seq<FieldEntry>) -> bool {
    &&& forall|i: int, j: int| 0 <= i < j < v.len() ==> bytes_lt(v[i].0, v[j].0)
    &&& forall|i: int| 0 <= i < v.len() ==> (#[trigger] v[i].1).len() > 0
}

/// Where field `f` is, or goes: after the fields that sort before it.
pub open spec fn field_pos(v: Seq<FieldEntry>, f: Seq<u8>) -> int {
    v.filter(|e: FieldEntry| bytes_lt(e.0, f)).len() as int
}

/// Field `f` is present.
pub open spec fn has_field(v: Seq<FieldEntry>, f: Seq<u8>) -> bool {
    exists|i: int| 0 <= i < v.len() && v[i].0 == f
}

/// The terms' postings of field `f` (none if absent).
pub open spec fn field_terms(v: Seq<FieldEntry>, f: Seq<u8>) -> Seq<ValueEntry> {
    if has_field(v, f) {
        v[choose|i: int| 0 <= i < v.len() && v[i].0 == f].1
    } else {
        Seq::empty()
    }
}

/// The records filed under (`f`, `t`).
pub open spec fn field_ids(v: Seq<FieldEntry>, f: Seq<u8>, t: Seq<u8>) -> Seq<RecordId> {
    ids_of(field_terms(v, f), t)
}

/// The fields after `rid` is filed under (`f`, `t`).
pub open spec fn field_insert(v: Seq<FieldEntry>, f: Seq<u8>, t: Seq<u8>, rid: RecordId) -> Seq<FieldEntry> {
    let p = field_pos(v, f);
    if has_field(v, f) {
        v.update(p, (f, scalar_insert(v[p].1, t, rid)))
    } else {
        v.insert(p, (f, scalar_insert(Seq::empty(), t, rid)))
    }
}

/// The fields after term `t` is dropped from each; fields left without
/// terms go.
pub open spec fn field_remove_term(v: Seq<FieldEntry>, t: Seq<u8>) -> Seq<FieldEntry>
    decreases v.len(),
{
    if v.len() == 0 {
        Seq::empty()
    } else {
        let rest = field_remove_term(v.drop_last(), t);
        let e = (v.last().0, remove_key(v.last().1, t));
        if e.1.len() == 0 {
            rest
        } else {
            rest.push(e)
        }
    }
}

/// The number of (field, term, record) triples.
pub open spec fn field_total(v: Seq<FieldEntry>) -> nat
    decreases v.len(),
{
    if v.len() == 0 {
        0
    } else {
        field_total(v.drop_last()) + total_ids(v.last().1)
    }
}

/// Postings by field, then by term.
#[derive(Debug)]
pub struct FieldSets {
    fields: Vec<(Vec<u8>, KeyedSets)>,
}

impl View for FieldSets {
    type V = Seq<FieldEntry>;

    closed spec fn view(&self) -> Seq<FieldEntry> {
        self.fields@.map_values(|e: (Vec<u8>, KeyedSets)| (e.0@, e.1@))
    }
}

impl FieldSets {
    /// Fields in order, each with well-formed postings.
    pub closed spec fn wf(&self) -> bool {
        &&& fields_sorted(self@)
        &&& field_total(self@) <= usize::MAX
        &&& forall|i: int| 0 <= i < self.fields@.len() ==> (#[trigger] self.fields@[i]).1.wf()
    }

    pub fn new() -> (s: FieldSets)
        ensures
            s.wf(),
            s@ == Seq::<FieldEntry>::empty(),
    {
        let s = FieldSets { fields: Vec::new() };
        proof {
            assert(s@ =~= Seq::<FieldEntry>::empty());
        }
        s
    }

    /// Where `f` is, and whether it is there.
    fn find(&self, f: &[u8]) -> (r: (usize, bool))
        requires
            self.wf(),
        ensures
            r.0 <= self@.len(),
            r.0 == field_pos(self@, f@),
            r.1 == has_field(self@, f@),
            r.1 ==> r.0 < self@.len() && self@[r.0 as int].0 == f@,
            !r.1 ==> forall|j: int| r.0 <= j < self@.len() ==> bytes_lt(f@, #[trigger] self@[j].0),
            forall|j: int| 0 <= j < r.0 ==> bytes_lt(#[trigger] self@[j].0, f@),
    {
        let ghost v = self@;
        let mut i: usize = 0;
        while i < self.fields.len()
            invariant
                v == self@,
                self.wf(),
                v.len() == self.fields@.len(),
                i <= v.len(),
                forall|j: int| 0 <= j < i ==> bytes_lt(#[trigger] v[j].0, f@),
            ensures
                i <= v.len(),
                forall|j: int| 0 <= j < i ==> bytes_lt(#[trigger] v[j].0, f@),
                i < v.len() ==> !bytes_lt(v[i as int].0, f@),
            decreases v.len() - i,
        {
            let c = compare_bytes(self.fields[i].0.as_slice(), f);
            proof {
                assert(v[i as int].0 == self.fields@[i as int].0@);
            }
            if c != -1 {
                break;
            }
            i = i + 1;
        }
        let found = if i < self.fields.len() {
            proof {
                assert(v[i as int].0 == self.fields@[i as int].0@);
            }
            compare_bytes(self.fields[i].0.as_slice(), f) == 0
        } else {
            false
        };
        proof {
            assert forall|j: int| i <= j < v.len() implies !bytes_lt(#[trigger] v[j].0, f@) by {
                if j > i {
                    lemma_bytes_lt_asymmetric(v[i as int].0, v[j].0);
                    lemma_bytes_lt_total(v[i as int].0, f@);
                    if bytes_lt(v[j].0, f@) {
                        lemma_bytes_lt_transitive(v[i as int].0, v[j].0, f@);
                        if v[i as int].0 != f@ {
                            lemma_bytes_lt_asymmetric(v[i as int].0, f@);
                        } else {
                            lemma_bytes_lt_irreflexive(f@);
                        }
                    }
                }
            }
            crate::seqs::lemma_filter_prefix(v, |e: FieldEntry| bytes_lt(e.0, f@), i as int);
            if !found {
                assert forall|j: int| i <= j < v.len() implies bytes_lt(f@, #[trigger] v[j].0) by {
                    lemma_bytes_lt_total(v[j].0, f@);
                    if j > i && v[j].0 == f@ {
                        lemma_bytes_lt_total(v[i as int].0, f@);
                        lemma_bytes_lt_asymmetric(v[i as int].0, v[j].0);
                    }
                }
                if has_field(v, f@) {
                    let k = choose|k: int| 0 <= k < v.len() && v[k].0 == f@;
                    if k < i {
                        lemma_bytes_lt_irreflexive(f@);
                    } else {
                        lemma_bytes_lt_irreflexive(f@);
                    }
                }
            }
        }
        (i, found)
    }

    /// The records filed under (`f`, `t`), in order.
    pub fn get(&self, f: &[u8], t: &[u8]) -> (out: Vec<RecordId>)
        requires
            self.wf(),
        ensures
            out@ == field_ids(self@, f@, t@),
    {
        let (p, found) = self.find(f);
        if found {
            proof {
                let v = self@;
                let k = choose|k: int| 0 <= k < v.len() && v[k].0 == f@;
                if k != p {
                    if k < p {
                        lemma_bytes_lt_irreflexive(f@);
                    } else {
                        lemma_bytes_lt_irreflexive(v[p as int].0);
                        assert(bytes_lt(v[p as int].0, v[k].0));
                    }
                }
                assert(self.fields@[p as int].1@ == v[p as int].1);
                assert(self.fields@[p as int].1.wf());
            }
            self.fields[p].1.equals(t)
        } else {
            Vec::new()
        }
    }
}


/// The triples of a prefix of the fields are no more than those of all;
/// one field's are among them.
proof fn lemma_field_total(v: Seq<FieldEntry>, i: int)
    requires
        0 <= i < v.len(),
    ensures
        total_ids(v[i].1) <= field_total(v),
        field_total(v.take(i)) + total_ids(v[i].1) <= field_total(v),
    decreases v.len(),
{
    if i == v.len() - 1 {
        assert(v.drop_last() =~= v.take(i));
    } else {
        lemma_field_total(v.drop_last(), i);
        assert(v.drop_last()[i] == v[i]);
        assert(v.drop_last().take(i) =~= v.take(i));
    }
}

/// The triples of two runs of fields together.
proof fn lemma_field_total_concat(a: Seq<FieldEntry>, b: Seq<FieldEntry>)
    ensures
        field_total(a + b) == field_total(a) + field_total(b),
    decreases b.len(),
{
    if b.len() > 0 {
        lemma_field_total_concat(a, b.drop_last());
        assert((a + b).drop_last() =~= a + b.drop_last());
    } else {
        assert(a + b =~= a);
    }
}

proof fn lemma_field_total_single(e: FieldEntry)
    ensures
        field_total(seq![e]) == total_ids(e.1),
{
    assert(seq![e].drop_last() =~= Seq::<FieldEntry>::empty());
    assert(field_total(Seq::<FieldEntry>::empty()) == 0);
    assert(seq![e].last() == e);
}

/// Inserting one triple adds one to the count at most.
proof fn lemma_field_total_insert(v: Seq<FieldEntry>, p: int, e: FieldEntry, replace: bool)
    requires
        0 <= p <= v.len(),
        replace ==> p < v.len() && total_ids(e.1) <= total_ids(v[p].1) + 1,
        !replace ==> total_ids(e.1) <= 1,
    ensures
        field_total(if replace {
            v.update(p, e)
        } else {
            v.insert(p, e)
        }) <= field_total(v) + 1,
{
    let a = v.take(p);
    lemma_field_total_single(e);
    if replace {
        let b = v.skip(p + 1);
        assert(v =~= a + seq![v[p]] + b);
        assert(v.update(p, e) =~= a + seq![e] + b);
        lemma_field_total_single(v[p]);
        lemma_field_total_concat(a + seq![v[p]], b);
        lemma_field_total_concat(a, seq![v[p]]);
        lemma_field_total_concat(a + seq![e], b);
        lemma_field_total_concat(a, seq![e]);
    } else {
        let c = v.skip(p);
        assert(v =~= a + c);
        assert(v.insert(p, e) =~= a + seq![e] + c);
        lemma_field_total_concat(a + seq![e], c);
        lemma_field_total_concat(a, seq![e]);
        lemma_field_total_concat(a, c);
    }
}

impl FieldSets {
    /// File `rid` under (`f`, `t`).
    pub fn insert(&mut self, f: &[u8], t: &[u8], rid: RecordId)
        requires
            old(self).wf(),
            field_total(old(self)@) < usize::MAX,
        ensures
            final(self).wf(),
            final(self)@ == field_insert(old(self)@, f@, t@, rid),
            field_total(final(self)@) <= field_total(old(self)@) + 1,
    {
        let ghost v = self@;
        let (p, found) = self.find(f);
        if found {
            proof {
                assert(self@.len() == self.fields@.len());
            }
            let (k, mut inner) = self.fields.remove(p);
            proof {
                assert(v[p as int] == (k@, inner@));
                lemma_field_total(v, p as int);
                assert(old(self).fields@[p as int].1.wf());
            }
            inner.insert(t, rid);
            let ghost e = (k@, inner@);
            let ghost ops = self.fields@;
            self.fields.insert(p, (k, inner));
            proof {
                assert(self@ =~= v.update(p as int, e));
                lemma_field_total_insert(v, p as int, e, true);
                let w = self@;
                assert forall|a: int, b: int| 0 <= a < b < w.len() implies bytes_lt(w[a].0, w[b].0) by {
                    assert(w[a].0 == v[a].0 && w[b].0 == v[b].0);
                }
                assert forall|a: int| 0 <= a < w.len() implies (#[trigger] w[a].1).len() > 0 by {
                    if a != p {
                        assert(w[a] == v[a]);
                    }
                }
                assert forall|a: int| 0 <= a < self.fields@.len() implies (#[trigger] self.fields@[a]).1.wf() by {
                    if a < p {
                        assert(self.fields@[a] == old(self).fields@[a]);
                    } else if a > p {
                        assert(self.fields@[a] == old(self).fields@[a]);
                    }
                }
            }
        } else {
            let mut inner = KeyedSets::new();
            inner.insert(t, rid);
            let key = copy_bytes(f);
            let ghost e = (key@, inner@);
            self.fields.insert(p, (key, inner));
            proof {
                assert(self@ =~= v.insert(p as int, e));
                lemma_field_total_insert(v, p as int, e, false);
                let w = self@;
                assert forall|a: int, b: int| 0 <= a < b < w.len() implies bytes_lt(w[a].0, w[b].0) by {
                    if b < p {
                        assert(w[a] == v[a] && w[b] == v[b]);
                    } else if b == p {
                        assert(w[a] == v[a]);
                    } else if a == p {
                        assert(w[b] == v[b - 1]);
                    } else if a < p {
                        assert(w[a] == v[a] && w[b] == v[b - 1]);
                        lemma_bytes_lt_transitive(v[a].0, f@, v[b - 1].0);
                    } else {
                        assert(w[a] == v[a - 1] && w[b] == v[b - 1]);
                    }
                }
                assert forall|a: int| 0 <= a < w.len() implies (#[trigger] w[a].1).len() > 0 by {
                    if a < p {
                        assert(w[a] == v[a]);
                    } else if a > p {
                        assert(w[a] == v[a - 1]);
                    }
                }
                assert forall|a: int| 0 <= a < self.fields@.len() implies (#[trigger] self.fields@[a]).1.wf() by {
                    if a < p {
                        assert(self.fields@[a] == old(self).fields@[a]);
                    } else if a > p {
                        assert(self.fields@[a] == old(self).fields@[a - 1]);
                    }
                }
            }
        }
    }

    /// Drop term `t` from every field; fields left without terms go.
    pub fn remove_term(&mut self, t: &[u8])
        requires
            old(self).wf(),
        ensures
            final(self).wf(),
            final(self)@ == field_remove_term(old(self)@, t@),
            field_total(final(self)@) <= field_total(old(self)@),
    {
        let ghost v = self@;
        let mut rest: Vec<(Vec<u8>, KeyedSets)> = Vec::new();
        std::mem::swap(&mut rest, &mut self.fields);
        let ghost orig = rest@;
        let mut out: Vec<(Vec<u8>, KeyedSets)> = Vec::new();
        let mut i: usize = 0;
        let n = rest.len();
        proof {
            assert(v.take(0) =~= Seq::<FieldEntry>::empty());
            assert(orig.skip(0) =~= orig);
        }
        while i < n
            invariant
                n == orig.len() == v.len(),
                v == orig.map_values(|e: (Vec<u8>, KeyedSets)| (e.0@, e.1@)),
                fields_sorted(v),
                forall|a: int| 0 <= a < orig.len() ==> (#[trigger] orig[a]).1.wf(),
                i <= n,
                rest@ == orig.skip(i as int),
                out@.map_values(|e: (Vec<u8>, KeyedSets)| (e.0@, e.1@)) == field_remove_term(v.take(i as int), t@),
                forall|a: int| 0 <= a < out@.len() ==> (#[trigger] out@[a]).1.wf(),
                forall|a: int| 0 <= a < out@.len() ==> exists|k: int| 0 <= k < i && (#[trigger] out@[a]).0@ == v[k].0,
                fields_sorted(out@.map_values(|e: (Vec<u8>, KeyedSets)| (e.0@, e.1@))),
                field_total(out@.map_values(|e: (Vec<u8>, KeyedSets)| (e.0@, e.1@))) <= field_total(v.take(i as int)),
            decreases n - i,
        {
            let (k, mut inner) = rest.remove(0);
            proof {
                assert(orig[i as int] == (k, inner));
                assert(v[i as int] == (k@, inner@));
                assert(rest@ =~= orig.skip(i + 1));
                assert(v.take(i + 1).drop_last() =~= v.take(i as int));
                assert(v.take(i + 1).last() == v[i as int]);
            }
            inner.remove_key(t);
            let ghost ov = out@.map_values(|e: (Vec<u8>, KeyedSets)| (e.0@, e.1@));
            let ghost oo = out@;
            proof {
                assert(field_total(ov) <= field_total(v.take(i as int)));
            }
            proof {
                lemma_field_total(v.take(i + 1), i as int);
            }
            if inner.key_count() > 0 {
                let ghost e = (k@, inner@);
                out.push((k, inner));
                proof {
                    let nv = out@.map_values(|e: (Vec<u8>, KeyedSets)| (e.0@, e.1@));
                    assert(nv =~= ov.push(e));
                    assert forall|a: int| 0 <= a < out@.len() implies (#[trigger] out@[a]).1.wf() by {
                        if a < oo.len() {
                            assert(out@[a] == oo[a]);
                        }
                    }
                    assert forall|a: int| 0 <= a < out@.len() implies exists|kk: int| 0 <= kk < i + 1 && (#[trigger] out@[a]).0@ == v[kk].0 by {
                        if a < oo.len() {
                            assert(out@[a] == oo[a]);
                        } else {
                            assert(out@[a].0@ == v[i as int].0);
                        }
                    }
                    assert forall|a: int, b: int| 0 <= a < b < nv.len() implies bytes_lt(nv[a].0, nv[b].0) by {
                        if b == nv.len() - 1 {
                            assert(out@[a] == oo[a]);
                            let kk = choose|kk: int| 0 <= kk < i && oo[a].0@ == v[kk].0;
                            assert(bytes_lt(v[kk].0, v[i as int].0));
                        } else {
                            assert(nv[a] == ov[a] && nv[b] == ov[b]);
                        }
                    }
                    assert(ov.push(e) =~= ov + seq![e]);
                    lemma_field_total_concat(ov, seq![e]);
                    lemma_field_total_single(e);
                    assert(total_ids(e.1) <= total_ids(v[i as int].1));
                    assert(field_total(nv) == field_total(ov) + total_ids(e.1));
                    lemma_field_total_concat(v.take(i as int), seq![v[i as int]]);
                    lemma_field_total_single(v[i as int]);
                    assert(v.take(i as int) + seq![v[i as int]] =~= v.take(i + 1));
                }
            } else {
                proof {
                    lemma_field_total_concat(v.take(i as int), seq![v[i as int]]);
                    lemma_field_total_single(v[i as int]);
                    assert(v.take(i as int) + seq![v[i as int]] =~= v.take(i + 1));
                    assert forall|a: int| 0 <= a < out@.len() implies exists|kk: int| 0 <= kk < i + 1 && (#[trigger] out@[a]).0@ == v[kk].0 by {
                        let kk = choose|kk: int| 0 <= kk < i && out@[a].0@ == v[kk].0;
                    }
                }
            }
            i = i + 1;
        }
        proof {
            assert(v.take(i as int) =~= v);
        }
        self.fields = out;
    }
}



/// The triples of a prefix of the fields are no more than those of all.
proof fn lemma_prefix_total(v: Seq<FieldEntry>, i: int)
    requires
        0 <= i <= v.len(),
    ensures
        field_total(v.take(i)) <= field_total(v),
    decreases v.len(),
{
    if i == v.len() {
        assert(v.take(i) =~= v);
    } else {
        lemma_prefix_total(v.drop_last(), i);
        assert(v.drop_last().take(i) =~= v.take(i));
    }
}


/// The rows of one field: the field, each term, the numbers of its records.
pub open spec fn field_rows(f: Seq<u8>, kv: Seq<ValueEntry>) -> Seq<(Seq<u8>, Seq<u8>, Seq<u64>)> {
    kv.map_values(|e: ValueEntry| (f, e.0, id_words(e.1)))
}

/// Every (field, term) pair with the numbers of its records, in order.
pub open spec fn pair_rows_of(v: Seq<FieldEntry>) -> Seq<(Seq<u8>, Seq<u8>, Seq<u64>)>
    decreases v.len(),
{
    if v.len() == 0 {
        Seq::empty()
    } else {
        pair_rows_of(v.drop_last()) + field_rows(v.last().0, v.last().1)
    }
}

/// The fields after the pair (`f`, `t`) is dropped; a field left without
/// terms goes.
pub open spec fn field_remove_pair(v: Seq<FieldEntry>, f: Seq<u8>, t: Seq<u8>) -> Seq<FieldEntry> {
    let p = field_pos(v, f);
    if has_field(v, f) {
        if remove_key(v[p].1, t).len() == 0 {
            v.remove(p)
        } else {
            v.update(p, (f, remove_key(v[p].1, t)))
        }
    } else {
        v
    }
}

impl FieldSets {
    /// The number of (field, term, record) triples.
    pub fn total(&self) -> (n: usize)
        requires
            self.wf(),
        ensures
            n == field_total(self@),
    {
        let ghost v = self@;
        let mut n: usize = 0;
        let mut i: usize = 0;
        while i < self.fields.len()
            invariant
                v == self@,
                self.wf(),
                v.len() == self.fields@.len(),
                i <= v.len(),
                n == field_total(v.take(i as int)),
            decreases v.len() - i,
        {
            proof {
                assert(v.take(i + 1).drop_last() =~= v.take(i as int));
                assert(v[i as int] == (self.fields@[i as int].0@, self.fields@[i as int].1@));
                assert(self.fields@[i as int].1.wf());
                lemma_field_total(v.take(i + 1), i as int);
                lemma_prefix_total(v, i + 1);
            }
            n = n + self.fields[i].1.len();
            i = i + 1;
        }
        proof {
            assert(v.take(i as int) =~= v);
        }
        n
    }

    /// Well-formed fields are in name order, each with well-formed terms.
    pub proof fn lemma_wf_fields(&self)
        requires
            self.wf(),
        ensures
            fields_sorted(self@),
            forall|i: int| 0 <= i < self@.len() ==> scalar_wf(#[trigger] self@[i].1),
    {
        assert forall|i: int| 0 <= i < self@.len() implies scalar_wf(#[trigger] self@[i].1) by {
            assert(self@[i] == (self.fields@[i].0@, self.fields@[i].1@));
            assert(self.fields@[i].1.wf());
            self.fields@[i].1.lemma_wf_scalar();
        }
    }

    /// Every (field, term) pair with the numbers of its records, in order.
    pub fn pair_rows(&self) -> (out: Vec<(Vec<u8>, Vec<u8>, Vec<u64>)>)
        ensures
            out@.map_values(|e: (Vec<u8>, Vec<u8>, Vec<u64>)| (e.0@, e.1@, e.2@)) == pair_rows_of(
                self@,
            ),
    {
        let ghost v = self@;
        let mut out: Vec<(Vec<u8>, Vec<u8>, Vec<u64>)> = Vec::new();
        let mut i: usize = 0;
        proof {
            assert(v.take(0) =~= Seq::<FieldEntry>::empty());
        }
        while i < self.fields.len()
            invariant
                v == self@,
                v.len() == self.fields@.len(),
                i <= v.len(),
                out@.map_values(|e: (Vec<u8>, Vec<u8>, Vec<u64>)| (e.0@, e.1@, e.2@)) == pair_rows_of(
                    v.take(i as int),
                ),
            decreases v.len() - i,
        {
            let f = &self.fields[i].0;
            let rows = self.fields[i].1.id_rows();
            let ghost fr = field_rows(f@, self.fields@[i as int].1@);
            let ghost base = out@.map_values(|e: (Vec<u8>, Vec<u8>, Vec<u64>)| (e.0@, e.1@, e.2@));
            proof {
                assert(v[i as int] == (f@, self.fields@[i as int].1@));
                let kv = self.fields@[i as int].1@;
                let rv = rows@.map_values(|e: (Vec<u8>, Vec<u64>)| (e.0@, e.1@));
                assert(rv.len() == term_rows_of(kv).len());
                assert forall|a: int| 0 <= a < rows@.len() implies (#[trigger] fr[a]) == (f@, rows@[a].0@, rows@[a].1@) by {
                    assert(rv[a] == term_rows_of(kv)[a]);
                }
            }
            let mut j: usize = 0;
            while j < rows.len()
                invariant
                    j <= rows@.len(),
                    rows@.len() == fr.len(),
                    forall|a: int| 0 <= a < rows@.len() ==> (#[trigger] fr[a]) == (f@, rows@[a].0@, rows@[a].1@),
                    out@.map_values(|e: (Vec<u8>, Vec<u8>, Vec<u64>)| (e.0@, e.1@, e.2@)) == base + fr.take(j as int),
                decreases rows@.len() - j,
            {
                let ghost before = out@.map_values(|e: (Vec<u8>, Vec<u8>, Vec<u64>)| (e.0@, e.1@, e.2@));
                out.push((copy_bytes(f.as_slice()), copy_bytes(rows[j].0.as_slice()), copy_u64s(&rows[j].1)));
                proof {
                    assert(out@.map_values(|e: (Vec<u8>, Vec<u8>, Vec<u64>)| (e.0@, e.1@, e.2@)) =~= before.push(fr[j as int]));
                    assert(fr.take(j + 1) =~= fr.take(j as int).push(fr[j as int]));
                }
                j = j + 1;
            }
            proof {
                assert(fr.take(j as int) =~= fr);
                assert(v.take(i + 1).drop_last() =~= v.take(i as int));
            }
            i = i + 1;
        }
        proof {
            assert(v.take(i as int) =~= v);
        }
        out
    }

    /// Drop the pair (`f`, `t`); a field left without terms goes.
    pub fn remove_pair(&mut self, f: &[u8], t: &[u8])
        requires
            old(self).wf(),
        ensures
            final(self).wf(),
            final(self)@ == field_remove_pair(old(self)@, f@, t@),
            field_total(final(self)@) <= field_total(old(self)@),
    {
        let ghost v = self@;
        let (p, found) = self.find(f);
        if found {
            proof {
                assert(self@.len() == self.fields@.len());
            }
            let (k, mut inner) = self.fields.remove(p);
            proof {
                assert(v[p as int] == (k@, inner@));
                assert(self@ =~= v.remove(p as int));
            }
            let ghost old_inner = inner@;
            proof {
                assert(inner.wf()) by {
                    assert(old(self).fields@[p as int] == (k, inner));
                }
            }
            inner.remove_key(t);
            proof {
                lemma_field_total(v, p as int);
                let a = v.take(p as int);
                let b = v.skip(p + 1);
                assert(v =~= a + seq![v[p as int]] + b);
                assert(v.remove(p as int) =~= a + b);
                lemma_field_total_single(v[p as int]);
                lemma_field_total_concat(a + seq![v[p as int]], b);
                lemma_field_total_concat(a, seq![v[p as int]]);
                lemma_field_total_concat(a, b);
            }
            if inner.key_count() > 0 {
                let ghost e = (k@, inner@);
                let ghost w0 = self.fields@;
                self.fields.insert(p, (k, inner));
                proof {
                    let w = self@;
                    assert(w =~= v.update(p as int, e));
                    lemma_field_total_insert(v, p as int, e, true);
                    let a = v.take(p as int);
                    let b = v.skip(p + 1);
                    assert(v.update(p as int, e) =~= a + seq![e] + b);
                    lemma_field_total_single(e);
                    lemma_field_total_concat(a + seq![e], b);
                    lemma_field_total_concat(a, seq![e]);
                    assert forall|x: int, y: int| 0 <= x < y < w.len() implies bytes_lt(w[x].0, w[y].0) by {
                        assert(w[x].0 == v[x].0 && w[y].0 == v[y].0);
                    }
                    assert forall|x: int| 0 <= x < self.fields@.len() implies (#[trigger] self.fields@[x]).1.wf() by {
                        if x != p {
                            assert(self.fields@[x] == old(self).fields@[x]);
                        }
                    }
                }
            } else {
                proof {
                    let w = self@;
                    assert forall|x: int, y: int| 0 <= x < y < w.len() implies bytes_lt(w[x].0, w[y].0) by {
                        if y < p {
                            assert(w[x] == v[x] && w[y] == v[y]);
                        } else if x < p {
                            assert(w[x] == v[x] && w[y] == v[y + 1]);
                        } else {
                            assert(w[x] == v[x + 1] && w[y] == v[y + 1]);
                        }
                    }
                    assert forall|x: int| 0 <= x < w.len() implies (#[trigger] w[x].1).len() > 0 by {
                        if x < p {
                            assert(w[x] == v[x]);
                        } else {
                            assert(w[x] == v[x + 1]);
                        }
                    }
                    assert forall|x: int| 0 <= x < self.fields@.len() implies (#[trigger] self.fields@[x]).1.wf() by {
                        if x < p {
                            assert(self.fields@[x] == old(self).fields@[x]);
                        } else {
                            assert(self.fields@[x] == old(self).fields@[x + 1]);
                        }
                    }
                }
            }
        }
    }
}

/// A copy of `v`.
fn copy_u64s(v: &Vec<u64>) -> (out: Vec<u64>)
    ensures
        out@ == v@,
{
    let mut out: Vec<u64> = Vec::new();
    let mut i: usize = 0;
    while i < v.len()
        invariant
            i <= v@.len(),
            out@ =~= v@.take(i as int),
        decreases v@.len() - i,
    {
        out.push(v[i]);
        i = i + 1;
        proof {
            assert(v@.take(i as int) =~= v@.take(i - 1).push(v@[i - 1]));
        }
    }
    proof {
        assert(v@.take(i as int) =~= v@);
    }
    out
}

} // verus!
