//! An inverted index: the records of each term, globally and per field,
//! with the per-document statistics that BM25 ranking reads.
use crate::bytes_order::{
    bytes_equal, bytes_lt, compare_bytes, lemma_bytes_lt_asymmetric, lemma_bytes_lt_irreflexive,
    lemma_bytes_lt_total, lemma_bytes_lt_transitive,
};
use crate::errors::Result;
use crate::index::field_sets::{
    field_ids, field_insert, field_remove_term, field_total, has_field, FieldEntry, FieldSets,
};
use crate::index::inverted_format::{
    decode_snapshot, encode_payload, frame_snapshot, freq_list_view, freq_rows_view,
    lemma_parse_bounds, lemma_snapshot_roundtrip, pair_row_ids, pair_rows_view, parse_snapshot,
    payload_bytes, rows_fit, rows_total, snapshot_bytes, term_row_ids, term_rows_view,
    SnapshotPayload, SnapshotRows,
};
use crate::index::inverted_rows::{
    assign_pair, assign_term, bm25_sorted, build_bm25, build_freq_list, build_map, build_pairs,
    build_pairs_from, build_terms, field_name_bytes, freq_list_fix, freq_put_exec, freqs_sorted,
    in_key_order, insert_field_ids, insert_ids, key_rows, lemma_build_bm25, lemma_build_pairs,
    lemma_build_terms, length_fix, names_valid, rows_of,
};
use crate::io::parse::is_corrupt_at;
use crate::maps::entries_in_order;
use crate::index::IndexPlugin;
use crate::index::bitmap::IndexStats;
use crate::text::{concat_str, from_utf8_lossy, utf8_lossy};
use crate::index::field_sets::fields_sorted;
use crate::index::keyed_sets::{
    ids_of, remove_key, scalar_insert, total_ids, KeyedSets, ValueEntry,
};
use crate::index::tokenize::{ascii_lower_seq, normalize, terms_of, terms_view, tokenize};
use crate::io::binary::copy_bytes;
use crate::seqs::{lemma_filter_none, lemma_filter_prefix};
use crate::store::RecordId;
use std::collections::BTreeMap;
use vstd::prelude::*;
use vstd::string::*;
use vstd::utf8::{decode_utf8, encode_utf8, valid_utf8};

verus! {

broadcast use vstd::seq_lib::group_seq_lib_default;

/// The predicate "the term is `k`".
pub open spec fn is_term(k: Seq<u8>) -> spec_fn(Seq<u8>) -> bool {
    |t: Seq<u8>| t == k
}

/// How often term `k` occurs among the terms.
pub open spec fn count_of(ts: Seq<Seq<u8>>, k: Seq<u8>) -> nat {
    ts.filter(is_term(k)).len()
}

/// `fl` lists each distinct term of `ts` once, in byte order, with the
/// number of times it occurs.
pub open spec fn is_freq_list(ts: Seq<Seq<u8>>, fl: Seq<(Seq<u8>, u32)>) -> bool {
    &&& forall|i: int, j: int| 0 <= i < j < fl.len() ==> bytes_lt(fl[i].0, fl[j].0)
    &&& forall|i: int| 0 <= i < fl.len() ==> (#[trigger] fl[i]).1 == count_of(ts, fl[i].0)
    &&& forall|j: int| 0 <= j < ts.len() ==> has_key(fl, #[trigger] ts[j])
}

/// Some entry of the list has term `k`.
pub open spec fn has_key(fl: Seq<(Seq<u8>, u32)>, k: Seq<u8>) -> bool {
    exists|i: int| 0 <= i < fl.len() && fl[i].0 == k
}

/// The terms of a frequency list.
pub open spec fn keys_of(fl: Seq<(Seq<u8>, u32)>) -> Seq<Seq<u8>> {
    fl.map_values(|e: (Seq<u8>, u32)| e.0)
}

/// The postings after `rid` is filed under each of the terms, in order.
pub open spec fn insert_keys(v: Seq<ValueEntry>, keys: Seq<Seq<u8>>, rid: RecordId) -> Seq<ValueEntry>
    decreases keys.len(),
{
    if keys.len() == 0 {
        v
    } else {
        scalar_insert(insert_keys(v, keys.drop_last(), rid), keys.last(), rid)
    }
}

/// The field postings after `rid` is filed under field `f` and each term.
pub open spec fn insert_field_keys(v: Seq<FieldEntry>, f: Seq<u8>, keys: Seq<Seq<u8>>, rid: RecordId) -> Seq<FieldEntry>
    decreases keys.len(),
{
    if keys.len() == 0 {
        v
    } else {
        field_insert(insert_field_keys(v, f, keys.drop_last(), rid), f, keys.last(), rid)
    }
}

/// The per-document statistics: document lengths, term frequencies, the
/// document count and the total number of terms.
pub struct Bm25State {
    pub doc_lengths: Map<u64, u32>,
    pub term_frequencies: Map<u64, Seq<(Seq<u8>, u32)>>,
    pub doc_count: u32,
    pub total_terms: u64,
}

/// The statistics without those of record `rid`.
pub open spec fn bm25_removed(b: Bm25State, rid: u64) -> Bm25State {
    if b.doc_lengths.contains_key(rid) {
        Bm25State {
            doc_lengths: b.doc_lengths.remove(rid),
            term_frequencies: b.term_frequencies.remove(rid),
            doc_count: if b.doc_count == 0 {
                0
            } else {
                (b.doc_count - 1) as u32
            },
            total_terms: if b.total_terms < b.doc_lengths[rid] {
                0
            } else {
                (b.total_terms - b.doc_lengths[rid]) as u64
            },
        }
    } else {
        Bm25State { term_frequencies: b.term_frequencies.remove(rid), ..b }
    }
}

/// The statistics after record `rid` is indexed with terms `ts`, whose
/// frequency list is `fl`.
pub open spec fn bm25_indexed(b: Bm25State, rid: u64, ts: Seq<Seq<u8>>, fl: Seq<(Seq<u8>, u32)>) -> Bm25State {
    let r = bm25_removed(b, rid);
    Bm25State {
        doc_lengths: r.doc_lengths.insert(rid, ts.len() as u32),
        term_frequencies: if fl.len() == 0 {
            r.term_frequencies
        } else {
            r.term_frequencies.insert(rid, fl)
        },
        doc_count: (r.doc_count + 1) as u32,
        total_terms: (r.total_terms + ts.len()) as u64,
    }
}

/// Indexing `ts` for `rid` keeps the counters in range.
pub open spec fn bm25_room(b: Bm25State, rid: u64, ts: Seq<Seq<u8>>) -> bool {
    &&& bm25_removed(b, rid).doc_count < u32::MAX
    &&& bm25_removed(b, rid).total_terms + ts.len() <= u64::MAX
    &&& ts.len() <= u32::MAX
}

/// The frequency list of a prefix of the terms, built one term at a time.
pub(crate) fn term_counts(tokens: &Vec<Vec<u8>>) -> (fl: Vec<(Vec<u8>, u32)>)
    requires
        tokens@.len() <= u32::MAX,
    ensures
        is_freq_list(terms_view(tokens@), fl@.map_values(|e: (Vec<u8>, u32)| (e.0@, e.1))),
        fl@.len() <= tokens@.len(),
{
    let ghost ts = terms_view(tokens@);
    let mut fl: Vec<(Vec<u8>, u32)> = Vec::new();
    let mut n: usize = 0;
    proof {
        assert(ts.take(0) =~= Seq::<Seq<u8>>::empty());
    }
    while n < tokens.len()
        invariant
            ts == terms_view(tokens@),
            ts.len() <= u32::MAX,
            n <= ts.len(),
            fl@.len() <= n,
            is_freq_list(ts.take(n as int), fl@.map_values(|e: (Vec<u8>, u32)| (e.0@, e.1))),
        decreases ts.len() - n,
    {
        let t = &tokens[n];
        let ghost fv = fl@.map_values(|e: (Vec<u8>, u32)| (e.0@, e.1));
        let ghost pre = ts.take(n as int);
        let ghost next = ts.take(n + 1);
        proof {
            assert(ts[n as int] == t@);
            assert(next =~= pre.push(t@));
        }
        let mut p: usize = 0;
        while p < fl.len() && compare_bytes(fl[p].0.as_slice(), t.as_slice()) == -1
            invariant
                fv == fl@.map_values(|e: (Vec<u8>, u32)| (e.0@, e.1)),
                p <= fl@.len(),
                forall|j: int| 0 <= j < p ==> bytes_lt(#[trigger] fv[j].0, t@),
            decreases fl@.len() - p,
        {
            proof {
                assert(fv[p as int].0 == fl@[p as int].0@);
            }
            p = p + 1;
        }
        let found = if p < fl.len() {
            proof {
                assert(fv[p as int].0 == fl@[p as int].0@);
            }
            compare_bytes(fl[p].0.as_slice(), t.as_slice()) == 0
        } else {
            false
        };
        proof {
            lemma_count_facts(pre, t@);
        }
        if found {
            let (k, c) = fl.remove(p);
            proof {
                assert(fv[p as int] == (k@, c));
                assert(c == count_of(pre, t@));
                assert(c <= pre.len()) by {
                    pre.lemma_filter_len(is_term(t@));
                }
            }
            let ghost e = (k@, (c + 1) as u32);
            fl.insert(p, (k, c + 1));
            proof {
                let nv = fl@.map_values(|e: (Vec<u8>, u32)| (e.0@, e.1));
                assert(nv =~= fv.update(p as int, e));
                assert forall|a: int, b: int| 0 <= a < b < nv.len() implies bytes_lt(nv[a].0, nv[b].0) by {
                    assert(nv[a].0 == fv[a].0 && nv[b].0 == fv[b].0);
                }
                assert forall|i: int| 0 <= i < nv.len() implies (#[trigger] nv[i]).1 == count_of(next, nv[i].0) by {
                    lemma_count_push(pre, t@, nv[i].0);
                    if i != p {
                        assert(nv[i] == fv[i]);
                        if nv[i].0 == t@ {
                            lemma_bytes_lt_total(fv[i].0, fv[p as int].0);
                            if i < p {
                                lemma_bytes_lt_irreflexive(t@);
                            } else {
                                lemma_bytes_lt_irreflexive(t@);
                            }
                        }
                    }
                }
                assert forall|j: int| 0 <= j < next.len() implies has_key(nv, #[trigger] next[j]) by {
                    if j < pre.len() {
                        assert(next[j] == pre[j]);
                        assert(has_key(fv, pre[j]));
                        let i = choose|i: int| 0 <= i < fv.len() && fv[i].0 == pre[j];
                        assert(nv[i].0 == fv[i].0);
                    } else {
                        assert(nv[p as int].0 == t@);
                    }
                }
            }
        } else {
            let k = copy_bytes(t.as_slice());
            let ghost e = (k@, 1u32);
            fl.insert(p, (k, 1));
            proof {
                let nv = fl@.map_values(|e: (Vec<u8>, u32)| (e.0@, e.1));
                assert(nv =~= fv.insert(p as int, e));
                assert forall|j: int| p <= j < fv.len() implies bytes_lt(t@, #[trigger] fv[j].0) by {
                    lemma_bytes_lt_total(fv[j].0, t@);
                    if j > p {
                        lemma_bytes_lt_total(fv[p as int].0, t@);
                        lemma_bytes_lt_asymmetric(fv[p as int].0, fv[j].0);
                        if bytes_lt(fv[j].0, t@) {
                            lemma_bytes_lt_transitive(fv[p as int].0, fv[j].0, t@);
                        }
                        if fv[p as int].0 != t@ && bytes_lt(t@, fv[p as int].0) {
                            lemma_bytes_lt_transitive(t@, fv[p as int].0, fv[j].0);
                        }
                    }
                }
                assert forall|a: int, b: int| 0 <= a < b < nv.len() implies bytes_lt(nv[a].0, nv[b].0) by {
                    if b < p {
                        assert(nv[a] == fv[a] && nv[b] == fv[b]);
                    } else if b == p {
                        assert(nv[a] == fv[a]);
                    } else if a == p {
                        assert(nv[b] == fv[b - 1]);
                    } else if a < p {
                        assert(nv[a] == fv[a] && nv[b] == fv[b - 1]);
                        lemma_bytes_lt_transitive(fv[a].0, t@, fv[b - 1].0);
                    } else {
                        assert(nv[a] == fv[a - 1] && nv[b] == fv[b - 1]);
                    }
                }
                assert(!has_key(fv, t@)) by {
                    if has_key(fv, t@) {
                        let i = choose|i: int| 0 <= i < fv.len() && fv[i].0 == t@;
                        if i < p {
                            lemma_bytes_lt_irreflexive(t@);
                        } else if i > p {
                            lemma_bytes_lt_irreflexive(t@);
                        }
                    }
                }
                assert forall|j: int| 0 <= j < pre.len() implies pre[j] != t@ by {
                    assert(has_key(fv, pre[j]));
                }
                lemma_filter_none(pre, is_term(t@));
                assert forall|i: int| 0 <= i < nv.len() implies (#[trigger] nv[i]).1 == count_of(next, nv[i].0) by {
                    lemma_count_push(pre, t@, nv[i].0);
                }
                assert forall|j: int| 0 <= j < next.len() implies has_key(nv, #[trigger] next[j]) by {
                    if j < pre.len() {
                        assert(next[j] == pre[j]);
                        assert(has_key(fv, pre[j]));
                        let i = choose|i: int| 0 <= i < fv.len() && fv[i].0 == pre[j];
                        if i < p {
                            assert(nv[i].0 == fv[i].0);
                        } else {
                            assert(nv[i + 1].0 == fv[i].0);
                        }
                    } else {
                        assert(nv[p as int].0 == t@);
                    }
                }
            }
        }
        proof {
            let nv = fl@.map_values(|e: (Vec<u8>, u32)| (e.0@, e.1));
            assert(forall|i: int, j: int| 0 <= i < j < nv.len() ==> bytes_lt(nv[i].0, nv[j].0));
            assert(forall|i: int| 0 <= i < nv.len() ==> (#[trigger] nv[i]).1 == count_of(next, nv[i].0));
            assert(forall|j: int| 0 <= j < next.len() ==> has_key(nv, #[trigger] next[j]));
        }
        n = n + 1;
    }
    proof {
        assert(ts.take(n as int) =~= ts);
    }
    fl
}

/// Counting after one more term.
proof fn lemma_count_push(pre: Seq<Seq<u8>>, t: Seq<u8>, k: Seq<u8>)
    ensures
        count_of(pre.push(t), k) == count_of(pre, k) + if t == k {
            1nat
        } else {
            0nat
        },
{
    pre.lemma_filter_push(t, is_term(k));
}

/// A count is at most the number of terms.
proof fn lemma_count_facts(pre: Seq<Seq<u8>>, k: Seq<u8>)
    ensures
        count_of(pre, k) <= pre.len(),
{
    pre.lemma_filter_len(is_term(k));
}


/// Dropping a record's statistics keeps every frequency list in order.
proof fn lemma_removed_sorted(b: Bm25State, rid: u64)
    requires
        bm25_sorted(b),
    ensures
        bm25_sorted(bm25_removed(b, rid)),
{
}

/// Filing a record under a field with a UTF-8 name keeps every field name
/// UTF-8.
proof fn lemma_names_valid_insert(v: Seq<FieldEntry>, f: Seq<u8>, t: Seq<u8>, rid: RecordId)
    requires
        fields_sorted(v),
        names_valid(v),
        valid_utf8(f),
    ensures
        names_valid(field_insert(v, f, t, rid)),
{
    if has_field(v, f) {
        let i = choose|i: int| 0 <= i < v.len() && v[i].0 == f;
        lemma_bytes_lt_irreflexive(f);
        assert forall|j: int| 0 <= j < i implies bytes_lt(#[trigger] v[j].0, f) by {}
        assert forall|j: int| i <= j < v.len() implies !bytes_lt(#[trigger] v[j].0, f) by {
            if j > i {
                lemma_bytes_lt_asymmetric(f, v[j].0);
            }
        }
        lemma_filter_prefix(v, |e: FieldEntry| bytes_lt(e.0, f), i);
    }
}

/// The normal form of a term or field name: lower-cased in ASCII, as UTF-8.
pub open spec fn normal_bytes(s: Seq<char>) -> Seq<u8> {
    encode_utf8(ascii_lower_seq(s))
}

/// A copy of a frequency list.
fn copy_freq_list(fl: &Vec<(Vec<u8>, u32)>) -> (out: Vec<(Vec<u8>, u32)>)
    ensures
        freq_list_view(out@) == freq_list_view(fl@),
{
    let mut out: Vec<(Vec<u8>, u32)> = Vec::new();
    let mut i: usize = 0;
    while i < fl.len()
        invariant
            i <= fl@.len(),
            out@.len() == i,
            forall|j: int| 0 <= j < i ==> (#[trigger] out@[j]).0@ == fl@[j].0@ && out@[j].1 == fl@[j].1,
        decreases fl@.len() - i,
    {
        out.push((copy_bytes(fl[i].0.as_slice()), fl[i].1));
        i = i + 1;
    }
    proof {
        assert(freq_list_view(out@) =~= freq_list_view(fl@));
    }
    out
}

/// An inverted index, in memory, with the directory its snapshot goes to
/// (empty when it is not persisted).
#[derive(Debug)]
pub struct InvertedIndex {
    name: String,
    dir: String,
    terms: KeyedSets,
    field_terms: FieldSets,
    term_frequencies: BTreeMap<u64, Vec<(Vec<u8>, u32)>>,
    doc_lengths: BTreeMap<u64, u32>,
    doc_count: u32,
    total_terms: u64,
    staged: Option<Vec<u8>>,
}


/// The count a frequency list gives term `t`: that of its last entry for
/// `t`, or 0.
pub open spec fn freq_lookup(fl: Seq<(Seq<u8>, u32)>, t: Seq<u8>) -> u32
    decreases fl.len(),
{
    if fl.len() == 0 {
        0
    } else if fl.last().0 == t {
        fl.last().1
    } else {
        freq_lookup(fl.drop_last(), t)
    }
}

/// A frequency list as plain values.
pub open spec fn freq_view(v: Vec<(Vec<u8>, u32)>) -> Seq<(Seq<u8>, u32)> {
    freq_list_view(v@)
}

impl InvertedIndex {
    /// The index's name.
    pub closed spec fn spec_name(&self) -> Seq<char> {
        self.name@
    }

    /// The snapshot directory; empty when the index is not persisted.
    pub closed spec fn spec_dir(&self) -> Seq<char> {
        self.dir@
    }

    /// The snapshot bytes that the last `flush` left for writing, if any.
    pub closed spec fn staged_bytes(&self) -> Option<Seq<u8>> {
        match self.staged {
            Some(b) => Some(b@),
            None => None,
        }
    }

    /// The global postings: each term with its records.
    pub closed spec fn terms_view(&self) -> Seq<ValueEntry> {
        self.terms@
    }

    /// The field postings.
    pub closed spec fn fields_view(&self) -> Seq<FieldEntry> {
        self.field_terms@
    }

    /// The per-document statistics.
    pub closed spec fn bm25(&self) -> Bm25State {
        Bm25State {
            doc_lengths: self.doc_lengths@,
            term_frequencies: self.term_frequencies@.map_values(|v: Vec<(Vec<u8>, u32)>| freq_view(v)),
            doc_count: self.doc_count,
            total_terms: self.total_terms,
        }
    }

    /// The postings are well formed, field names are UTF-8, and every
    /// frequency list is in term order.
    pub closed spec fn wf(&self) -> bool {
        &&& self.terms.wf()
        &&& self.field_terms.wf()
        &&& names_valid(self.field_terms@)
        &&& bm25_sorted(self.bm25())
    }

    /// A new in-memory index, not persisted.
    pub fn new(name: &str) -> (idx: InvertedIndex)
        ensures
            idx.wf(),
            idx.spec_name() == name@,
            idx.spec_dir() == Seq::<char>::empty(),
            idx.staged_bytes() is None,
            idx.terms_view() == Seq::<ValueEntry>::empty(),
            idx.fields_view() == Seq::<FieldEntry>::empty(),
            idx.bm25() == (Bm25State {
                doc_lengths: Map::empty(),
                term_frequencies: Map::empty(),
                doc_count: 0,
                total_terms: 0,
            }),
    {
        proof {
            reveal_strlit("");
        }
        InvertedIndex::with_dir(name, "")
    }

    /// A new empty index whose snapshot goes to `dir`.
    pub fn with_dir(name: &str, dir: &str) -> (idx: InvertedIndex)
        ensures
            idx.wf(),
            idx.spec_name() == name@,
            idx.spec_dir() == dir@,
            idx.staged_bytes() is None,
            idx.terms_view() == Seq::<ValueEntry>::empty(),
            idx.fields_view() == Seq::<FieldEntry>::empty(),
            idx.bm25() == (Bm25State {
                doc_lengths: Map::empty(),
                term_frequencies: Map::empty(),
                doc_count: 0,
                total_terms: 0,
            }),
    {
        let idx = InvertedIndex {
            name: name.to_owned(),
            dir: dir.to_owned(),
            terms: KeyedSets::new(),
            field_terms: FieldSets::new(),
            term_frequencies: BTreeMap::new(),
            doc_lengths: BTreeMap::new(),
            doc_count: 0,
            total_terms: 0,
            staged: None,
        };
        proof {
            assert(idx.bm25().term_frequencies =~= Map::<u64, Seq<(Seq<u8>, u32)>>::empty());
        }
        idx
    }

    /// Drop the statistics of record `rid`.
    fn remove_bm25(&mut self, rid: RecordId)
        ensures
            final(self).bm25() == bm25_removed(old(self).bm25(), rid.0),
            final(self).staged == old(self).staged,
            final(self).terms == old(self).terms,
            final(self).field_terms == old(self).field_terms,
            final(self).name == old(self).name,
            final(self).dir == old(self).dir,
    {
        let ghost b = self.bm25();
        match self.doc_lengths.remove(&rid.0) {
            Some(old_len) => {
                self.doc_count = self.doc_count.saturating_sub(1);
                self.total_terms = self.total_terms.saturating_sub(old_len as u64);
            },
            None => {},
        }
        let _ = self.term_frequencies.remove(&rid.0);
        proof {
            assert(self.bm25().term_frequencies =~= b.term_frequencies.remove(rid.0));
            assert(self.bm25().doc_lengths =~= bm25_removed(b, rid.0).doc_lengths);
        }
    }

    /// Record the statistics of `rid` for terms `tokens` with frequency list
    /// `fl`, after dropping its old ones.
    fn add_bm25(&mut self, rid: RecordId, tokens: &Vec<Vec<u8>>, fl: &Vec<(Vec<u8>, u32)>)
        requires
            bm25_room(old(self).bm25(), rid.0, terms_view(tokens@)),
        ensures
            final(self).bm25() == bm25_indexed(old(self).bm25(), rid.0, terms_view(tokens@), freq_view(*fl)),
            final(self).terms == old(self).terms,
            final(self).field_terms == old(self).field_terms,
            final(self).name == old(self).name,
            final(self).dir == old(self).dir,
    {
        self.remove_bm25(rid);
        self.doc_count = self.doc_count + 1;
        self.total_terms = self.total_terms + tokens.len() as u64;
        let _ = self.doc_lengths.insert(rid.0, tokens.len() as u32);
        let ghost r = self.bm25();
        if fl.len() > 0 {
            let copy = copy_freq_list(fl);
            let ghost cv = freq_view(copy);
            let _ = self.term_frequencies.insert(rid.0, copy);
            proof {
                assert(self.bm25().term_frequencies =~= r.term_frequencies.insert(rid.0, cv));
            }
        }
        proof {
            assert(self.bm25().doc_lengths =~= bm25_indexed(old(self).bm25(), rid.0, terms_view(tokens@), freq_view(*fl)).doc_lengths);
        }
    }

    /// File `rid` under each term of the list, in order.
    fn insert_terms(&mut self, fl: &Vec<(Vec<u8>, u32)>, rid: RecordId)
        requires
            old(self).wf(),
            total_ids(old(self).terms_view()) + fl@.len() < usize::MAX,
        ensures
            final(self).wf(),
            final(self).terms_view() == insert_keys(old(self).terms_view(), keys_of(freq_view(*fl)), rid),
            total_ids(final(self).terms_view()) <= total_ids(old(self).terms_view()) + fl@.len(),
            final(self).bm25() == old(self).bm25(),
            final(self).fields_view() == old(self).fields_view(),
            final(self).spec_name() == old(self).spec_name(),
            final(self).spec_dir() == old(self).spec_dir(),
    {
        let ghost keys = keys_of(freq_view(*fl));
        let mut i: usize = 0;
        proof {
            assert(keys.take(0) =~= Seq::<Seq<u8>>::empty());
        }
        while i < fl.len()
            invariant
                keys == keys_of(freq_view(*fl)),
                i <= fl@.len(),
                self.wf(),
                self.terms_view() == insert_keys(old(self).terms_view(), keys.take(i as int), rid),
                total_ids(self.terms_view()) <= total_ids(old(self).terms_view()) + i,
                total_ids(old(self).terms_view()) + fl@.len() < usize::MAX,
                self.bm25() == old(self).bm25(),
                self.fields_view() == old(self).fields_view(),
                self.spec_name() == old(self).spec_name(),
                self.spec_dir() == old(self).spec_dir(),
            decreases fl@.len() - i,
        {
            self.terms.insert(fl[i].0.as_slice(), rid);
            proof {
                assert(keys.take(i + 1).drop_last() =~= keys.take(i as int));
                assert(keys.take(i + 1).last() == fl@[i as int].0@);
            }
            i = i + 1;
        }
        proof {
            assert(keys.take(i as int) =~= keys);
        }
    }

    /// File `rid` under field `f` and each term of the list, in order.
    fn insert_field_terms(&mut self, f: &[u8], fl: &Vec<(Vec<u8>, u32)>, rid: RecordId)
        requires
            old(self).wf(),
            valid_utf8(f@),
            field_total(old(self).fields_view()) + fl@.len() < usize::MAX,
        ensures
            final(self).wf(),
            final(self).fields_view() == insert_field_keys(old(self).fields_view(), f@, keys_of(freq_view(*fl)), rid),
            final(self).bm25() == old(self).bm25(),
            final(self).terms_view() == old(self).terms_view(),
            final(self).spec_name() == old(self).spec_name(),
            final(self).spec_dir() == old(self).spec_dir(),
    {
        let ghost keys = keys_of(freq_view(*fl));
        let mut i: usize = 0;
        proof {
            assert(keys.take(0) =~= Seq::<Seq<u8>>::empty());
        }
        while i < fl.len()
            invariant
                keys == keys_of(freq_view(*fl)),
                i <= fl@.len(),
                self.wf(),
                self.fields_view() == insert_field_keys(old(self).fields_view(), f@, keys.take(i as int), rid),
                field_total(self.fields_view()) <= field_total(old(self).fields_view()) + i,
                field_total(old(self).fields_view()) + fl@.len() < usize::MAX,
                valid_utf8(f@),
                self.bm25() == old(self).bm25(),
                self.terms_view() == old(self).terms_view(),
                self.spec_name() == old(self).spec_name(),
                self.spec_dir() == old(self).spec_dir(),
            decreases fl@.len() - i,
        {
            proof {
                self.field_terms.lemma_wf_fields();
                lemma_names_valid_insert(self.field_terms@, f@, fl@[i as int].0@, rid);
            }
            self.field_terms.insert(f, fl[i].0.as_slice(), rid);
            proof {
                assert(keys.take(i + 1).drop_last() =~= keys.take(i as int));
                assert(keys.take(i + 1).last() == fl@[i as int].0@);
            }
            i = i + 1;
        }
        proof {
            assert(keys.take(i as int) =~= keys);
        }
    }

    /// Index free text under `rid`: its statistics are replaced, and `rid`
    /// is filed under each distinct term of the text (records filed under
    /// terms of an earlier text stay).
    pub fn index_text(&mut self, text: &str, rid: RecordId)
        requires
            old(self).wf(),
            bm25_room(old(self).bm25(), rid.0, terms_of(text@)),
            total_ids(old(self).terms_view()) + terms_of(text@).len() < usize::MAX,
        ensures
            final(self).wf(),
            final(self).spec_name() == old(self).spec_name(),
            final(self).spec_dir() == old(self).spec_dir(),
            final(self).fields_view() == old(self).fields_view(),
            exists|fl: Seq<(Seq<u8>, u32)>|
                #![auto]
                {
                    &&& is_freq_list(terms_of(text@), fl)
                    &&& final(self).terms_view() == insert_keys(old(self).terms_view(), keys_of(fl), rid)
                    &&& final(self).bm25() == bm25_indexed(old(self).bm25(), rid.0, terms_of(text@), fl)
                },
    {
        let tokens = tokenize(text);
        let fl = term_counts(&tokens);
        self.add_bm25(rid, &tokens, &fl);
        self.insert_terms(&fl, rid);
    }

    /// Index text under field `field` (normalized to ASCII lower case) and
    /// `rid`: as `index_text`, and `rid` is also filed under the field and
    /// each distinct term.
    pub fn index_field_text(&mut self, field: &str, text: &str, rid: RecordId)
        requires
            old(self).wf(),
            bm25_room(old(self).bm25(), rid.0, terms_of(text@)),
            total_ids(old(self).terms_view()) + terms_of(text@).len() < usize::MAX,
            field_total(old(self).fields_view()) + terms_of(text@).len() < usize::MAX,
        ensures
            final(self).wf(),
            final(self).spec_name() == old(self).spec_name(),
            final(self).spec_dir() == old(self).spec_dir(),
            exists|fl: Seq<(Seq<u8>, u32)>|
                #![auto]
                {
                    &&& is_freq_list(terms_of(text@), fl)
                    &&& final(self).terms_view() == insert_keys(old(self).terms_view(), keys_of(fl), rid)
                    &&& final(self).fields_view() == insert_field_keys(
                        old(self).fields_view(),
                        normal_bytes(field@),
                        keys_of(fl),
                        rid,
                    )
                    &&& final(self).bm25() == bm25_indexed(old(self).bm25(), rid.0, terms_of(text@), fl)
                },
    {
        let f = normalize(field);
        let fb = copy_bytes(f.as_str().as_bytes());
        proof {
            vstd::utf8::encode_utf8_valid_utf8(f@);
        }
        let tokens = tokenize(text);
        let fl = term_counts(&tokens);
        self.add_bm25(rid, &tokens, &fl);
        self.insert_terms(&fl, rid);
        self.insert_field_terms(fb.as_slice(), &fl, rid);
    }

    /// The records filed under `term` (normalized), in order.
    pub fn search(&self, term: &str) -> (out: Vec<RecordId>)
        requires
            self.wf(),
        ensures
            out@ == ids_of(self.terms_view(), normal_bytes(term@)),
    {
        let t = normalize(term);
        self.terms.equals(t.as_str().as_bytes())
    }

    /// The records filed under `term` in `field` (both normalized), in order.
    pub fn search_field(&self, field: &str, term: &str) -> (out: Vec<RecordId>)
        requires
            self.wf(),
        ensures
            out@ == field_ids(self.fields_view(), normal_bytes(field@), normal_bytes(term@)),
    {
        let f = normalize(field);
        let t = normalize(term);
        self.field_terms.get(f.as_str().as_bytes(), t.as_str().as_bytes())
    }

    /// The postings of `term`: the same as `search`.
    pub fn postings(&self, term: &str) -> (out: Vec<RecordId>)
        requires
            self.wf(),
        ensures
            out@ == ids_of(self.terms_view(), normal_bytes(term@)),
    {
        self.search(term)
    }

    /// The postings of `term` in `field`: the same as `search_field`.
    pub fn field_postings(&self, field: &str, term: &str) -> (out: Vec<RecordId>)
        requires
            self.wf(),
        ensures
            out@ == field_ids(self.fields_view(), normal_bytes(field@), normal_bytes(term@)),
    {
        self.search_field(field, term)
    }

    /// Every term, in byte order.
    pub fn term_dictionary(&self) -> (out: Vec<Vec<u8>>)
        ensures
            out@.map_values(|k: Vec<u8>| k@) == crate::index::keyed_sets::keys_in(self.terms_view()),
    {
        self.terms.keys()
    }

    /// The number of records filed under `term` (normalized).
    pub fn document_frequency(&self, term: &str) -> (n: usize)
        requires
            self.wf(),
        ensures
            n == ids_of(self.terms_view(), normal_bytes(term@)).len(),
    {
        let ids = self.search(term);
        ids.len()
    }

    /// The number of indexed documents.
    pub fn doc_count(&self) -> (n: u32)
        ensures
            n == self.bm25().doc_count,
    {
        self.doc_count
    }

    /// The total number of terms over the indexed documents.
    pub fn total_terms(&self) -> (n: u64)
        ensures
            n == self.bm25().total_terms,
    {
        self.total_terms
    }

    /// The number of terms recorded for `rid`, if it is indexed.
    /// The count of `term` (as given) in record `rid`, 0 when the record
    /// or the term is not there.
    pub fn term_frequency(&self, rid: RecordId, term: &[u8]) -> (n: u32)
        ensures
            n == (if self.bm25().term_frequencies.contains_key(rid.0) {
                freq_lookup(self.bm25().term_frequencies[rid.0], term@)
            } else {
                0
            }),
    {
        match self.term_frequencies.get(&rid.0) {
            Some(fl) => {
                let ghost v = freq_view(*fl);
                let mut i: usize = fl.len();
                proof {
                    assert(v.take(v.len() as int) =~= v);
                    assert(self.bm25().term_frequencies[rid.0] == v);
                }
                while i > 0
                    invariant
                        v == freq_view(*fl),
                        self.bm25().term_frequencies.contains_key(rid.0),
                        self.bm25().term_frequencies[rid.0] == v,
                        i <= v.len(),
                        freq_lookup(v, term@) == freq_lookup(v.take(i as int), term@),
                    decreases i,
                {
                    proof {
                        assert(v.take(i as int).drop_last() =~= v.take(i - 1));
                        assert(v.take(i as int).last() == v[i - 1]);
                        assert(v[i - 1] == (fl@[i - 1].0@, fl@[i - 1].1));
                    }
                    if bytes_equal(fl[i - 1].0.as_slice(), term) {
                        proof {
                            assert(freq_lookup(v.take(i as int), term@) == v[i - 1].1);
                        }
                        return fl[i - 1].1;
                    }
                    i = i - 1;
                }
                0
            },
            None => 0,
        }
    }

    pub fn doc_length(&self, rid: RecordId) -> (n: Option<u32>)
        ensures
            n == (if self.bm25().doc_lengths.contains_key(rid.0) {
                Some(self.bm25().doc_lengths[rid.0])
            } else {
                None::<u32>
            }),
    {
        match self.doc_lengths.get(&rid.0) {
            Some(v) => Some(*v),
            None => None,
        }
    }
}

impl InvertedIndex {
    /// The index's state as snapshot rows: its terms, its field pairs, and
    /// the statistics of each record in increasing record order.
    pub fn snapshot_rows(&self) -> (out: SnapshotPayload)
        ensures
            exists|tk: Seq<u64>, dk: Seq<u64>|
                {
                    &&& in_key_order(tk, self.bm25().term_frequencies)
                    &&& in_key_order(dk, self.bm25().doc_lengths)
                    &&& out@ == rows_of(self.terms_view(), self.fields_view(), self.bm25(), tk, dk)
                },
    {
        let terms = self.terms.id_rows();
        let pairs = self.field_terms.pair_rows();
        let tfe = entries_in_order(&self.term_frequencies);
        let mut freqs: Vec<(u64, Vec<(Vec<u8>, u32)>)> = Vec::new();
        let mut i: usize = 0;
        while i < tfe.len()
            invariant
                i <= tfe@.len(),
                freqs@.len() == i,
                forall|j: int|
                    0 <= j < i ==> (#[trigger] freqs@[j]).0 == tfe@[j].0 && freq_list_view(
                        freqs@[j].1@,
                    ) == freq_list_view(tfe@[j].1@),
            decreases tfe@.len() - i,
        {
            let fl = copy_freq_list(tfe[i].1);
            freqs.push((tfe[i].0, fl));
            i = i + 1;
        }
        let dle = entries_in_order(&self.doc_lengths);
        let mut lengths: Vec<(u64, u32)> = Vec::new();
        let mut i: usize = 0;
        while i < dle.len()
            invariant
                i <= dle@.len(),
                lengths@.len() == i,
                forall|j: int|
                    0 <= j < i ==> (#[trigger] lengths@[j]).0 == dle@[j].0 && lengths@[j].1
                        == *dle@[j].1,
            decreases dle@.len() - i,
        {
            lengths.push((dle[i].0, *dle[i].1));
            i = i + 1;
        }
        let out = SnapshotPayload {
            doc_count: self.doc_count,
            total_terms: self.total_terms,
            terms,
            pairs,
            freqs,
            lengths,
        };
        proof {
            let b = self.bm25();
            let tk = tfe@.map_values(|e: (u64, &Vec<(Vec<u8>, u32)>)| e.0);
            let dk = dle@.map_values(|e: (u64, &u32)| e.0);
            assert forall|k: u64| #[trigger] b.term_frequencies.contains_key(k) implies tk.contains(k) by {
                let j = choose|j: int| 0 <= j < tfe@.len() && tfe@[j].0 == k;
                assert(tk[j] == k);
            }
            assert forall|k: u64| #[trigger] b.doc_lengths.contains_key(k) implies dk.contains(k) by {
                let j = choose|j: int| 0 <= j < dle@.len() && dle@[j].0 == k;
                assert(dk[j] == k);
            }
            assert(in_key_order(tk, b.term_frequencies));
            assert(in_key_order(dk, b.doc_lengths));
            assert(out@.freqs =~= key_rows(tk, b.term_frequencies)) by {
                assert forall|j: int| 0 <= j < tk.len() implies out@.freqs[j] == key_rows(
                    tk,
                    b.term_frequencies,
                )[j] by {
                    assert(self.term_frequencies@.contains_key(tk[j]));
                }
            }
            assert(out@.lengths =~= key_rows(dk, b.doc_lengths));
            assert(out@ == rows_of(self.terms_view(), self.fields_view(), b, tk, dk));
        }
        out
    }

    /// The index's snapshot bytes: its rows, framed with a checksum.
    pub fn encode_snapshot(&self) -> (out: Vec<u8>)
        ensures
            exists|tk: Seq<u64>, dk: Seq<u64>|
                {
                    &&& in_key_order(tk, self.bm25().term_frequencies)
                    &&& in_key_order(dk, self.bm25().doc_lengths)
                    &&& out@ == snapshot_bytes(
                        payload_bytes(
                            rows_of(self.terms_view(), self.fields_view(), self.bm25(), tk, dk),
                        ),
                    )
                },
    {
        let rows = self.snapshot_rows();
        let payload = encode_payload(&rows);
        frame_snapshot(payload.as_slice())
    }
}

/// Adding a row to a prefix adds its count to the running total.
proof fn lemma_rows_total_step<T>(rows: Seq<T>, n: spec_fn(T) -> nat, i: int)
    requires
        0 <= i < rows.len(),
    ensures
        rows_total(rows.take(i + 1), n) == rows_total(rows.take(i), n) + n(rows[i]),
        rows_total(rows.take(i + 1), n) <= rows_total(rows, n),
    decreases rows.len(),
{
    assert(rows.take(i + 1).drop_last() =~= rows.take(i));
    if i + 1 < rows.len() {
        lemma_rows_total_step(rows.drop_last(), n, i);
        assert(rows.drop_last().take(i + 1) =~= rows.take(i + 1));
        assert(rows.drop_last().take(i) =~= rows.take(i));
    } else {
        assert(rows.take(i + 1) =~= rows);
    }
}

impl InvertedIndex {
    /// An index named `name`, persisted to `dir`, rebuilt from snapshot rows.
    fn from_rows(name: &str, dir: &str, s: &SnapshotPayload) -> (idx: InvertedIndex)
        requires
            rows_total(s@.terms, term_row_ids()) <= usize::MAX,
            rows_total(s@.pairs, pair_row_ids()) <= usize::MAX,
        ensures
            idx.wf(),
            idx.spec_name() == name@,
            idx.spec_dir() == dir@,
            idx.terms_view() == build_terms(s@.terms),
            idx.fields_view() == build_pairs(s@.pairs),
            idx.bm25() == build_bm25(s@),
    {
        let ghost sv = s@;
        let mut terms = KeyedSets::new();
        let mut i: usize = 0;
        proof {
            assert(sv.terms.take(0) =~= Seq::<(Seq<u8>, Seq<u64>)>::empty());
        }
        while i < s.terms.len()
            invariant
                sv == s@,
                i <= sv.terms.len(),
                terms.wf(),
                terms@ == build_terms(sv.terms.take(i as int)),
                total_ids(terms@) <= rows_total(sv.terms.take(i as int), term_row_ids()),
                rows_total(sv.terms, term_row_ids()) <= usize::MAX,
            decreases sv.terms.len() - i,
        {
            let t = &s.terms[i].0;
            let ids = &s.terms[i].1;
            let ghost before = terms@;
            proof {
                assert(sv.terms[i as int] == (t@, ids@));
                lemma_rows_total_step(sv.terms, term_row_ids(), i as int);
            }
            terms.remove_key(t.as_slice());
            let mut j: usize = 0;
            proof {
                assert(ids@.take(0) =~= Seq::<u64>::empty());
            }
            while j < ids.len()
                invariant
                    sv == s@,
                    i < sv.terms.len(),
                    sv.terms[i as int] == (t@, ids@),
                    j <= ids@.len(),
                    terms.wf(),
                    terms@ == insert_ids(remove_key(before, t@), t@, ids@.take(j as int)),
                    total_ids(terms@) + ids@.len() <= rows_total(sv.terms.take(i as int), term_row_ids())
                        + ids@.len() + j,
                    rows_total(sv.terms.take(i as int), term_row_ids()) + ids@.len() <= usize::MAX,
                decreases ids@.len() - j,
            {
                terms.insert(t.as_slice(), RecordId(ids[j]));
                proof {
                    assert(ids@.take(j + 1).drop_last() =~= ids@.take(j as int));
                }
                j = j + 1;
            }
            proof {
                assert(ids@.take(j as int) =~= ids@);
                assert(sv.terms.take(i + 1).drop_last() =~= sv.terms.take(i as int));
            }
            i = i + 1;
        }
        proof {
            assert(sv.terms.take(i as int) =~= sv.terms);
        }
        let mut fields = FieldSets::new();
        let mut i: usize = 0;
        proof {
            assert(sv.pairs.take(0) =~= Seq::<(Seq<u8>, Seq<u8>, Seq<u64>)>::empty());
        }
        while i < s.pairs.len()
            invariant
                sv == s@,
                i <= sv.pairs.len(),
                fields.wf(),
                names_valid(fields@),
                fields@ == build_pairs(sv.pairs.take(i as int)),
                field_total(fields@) <= rows_total(sv.pairs.take(i as int), pair_row_ids()),
                rows_total(sv.pairs, pair_row_ids()) <= usize::MAX,
            decreases sv.pairs.len() - i,
        {
            let f = field_name_bytes(s.pairs[i].0.as_slice());
            let t = &s.pairs[i].1;
            let ids = &s.pairs[i].2;
            let ghost before = fields@;
            proof {
                assert(sv.pairs[i as int] == (s.pairs@[i as int].0@, t@, ids@));
                lemma_rows_total_step(sv.pairs, pair_row_ids(), i as int);
                fields.lemma_wf_fields();
            }
            fields.remove_pair(f.as_slice(), t.as_slice());
            proof {
                assert(names_valid(fields@)) by {
                    lemma_names_valid_remove_pair(before, f@, t@);
                }
            }
            let mut j: usize = 0;
            proof {
                assert(ids@.take(0) =~= Seq::<u64>::empty());
            }
            while j < ids.len()
                invariant
                    sv == s@,
                    i < sv.pairs.len(),
                    sv.pairs[i as int] == (s.pairs@[i as int].0@, t@, ids@),
                    valid_utf8(f@),
                    j <= ids@.len(),
                    fields.wf(),
                    names_valid(fields@),
                    fields@ == insert_field_ids(
                        crate::index::field_sets::field_remove_pair(before, f@, t@),
                        f@,
                        t@,
                        ids@.take(j as int),
                    ),
                    field_total(fields@) + ids@.len() <= rows_total(sv.pairs.take(i as int), pair_row_ids())
                        + ids@.len() + j,
                    rows_total(sv.pairs.take(i as int), pair_row_ids()) + ids@.len() <= usize::MAX,
                decreases ids@.len() - j,
            {
                proof {
                    fields.lemma_wf_fields();
                    lemma_names_valid_insert(fields@, f@, t@, RecordId(ids@[j as int]));
                }
                fields.insert(f.as_slice(), t.as_slice(), RecordId(ids[j]));
                proof {
                    assert(ids@.take(j + 1).drop_last() =~= ids@.take(j as int));
                }
                j = j + 1;
            }
            proof {
                assert(ids@.take(j as int) =~= ids@);
                assert(sv.pairs.take(i + 1).drop_last() =~= sv.pairs.take(i as int));
            }
            i = i + 1;
        }
        proof {
            assert(sv.pairs.take(i as int) =~= sv.pairs);
        }
        let mut term_frequencies: BTreeMap<u64, Vec<(Vec<u8>, u32)>> = BTreeMap::new();
        let mut i: usize = 0;
        proof {
            assert(sv.freqs.take(0) =~= Seq::<(u64, Seq<(Seq<u8>, u32)>)>::empty());
            assert(term_frequencies@.map_values(|v: Vec<(Vec<u8>, u32)>| freq_view(v)) =~= Map::<
                u64,
                Seq<(Seq<u8>, u32)>,
            >::empty());
        }
        while i < s.freqs.len()
            invariant
                sv == s@,
                i <= sv.freqs.len(),
                term_frequencies@.map_values(|v: Vec<(Vec<u8>, u32)>| freq_view(v)) == build_map(
                    sv.freqs.take(i as int),
                    freq_list_fix(),
                ),
                forall|k: u64| #[trigger]
                    term_frequencies@.contains_key(k) ==> freqs_sorted(
                        freq_view(term_frequencies@[k]),
                    ),
            decreases sv.freqs.len() - i,
        {
            let rid = s.freqs[i].0;
            let es = &s.freqs[i].1;
            let ghost ev = freq_list_view(es@);
            proof {
                assert(sv.freqs[i as int] == (rid, ev));
            }
            let mut fl: Vec<(Vec<u8>, u32)> = Vec::new();
            let mut j: usize = 0;
            proof {
                assert(ev.take(0) =~= Seq::<(Seq<u8>, u32)>::empty());
                assert(freq_list_view(fl@) =~= Seq::<(Seq<u8>, u32)>::empty());
            }
            while j < es.len()
                invariant
                    ev == freq_list_view(es@),
                    j <= es@.len(),
                    freq_list_view(fl@) == build_freq_list(ev.take(j as int)),
                    freqs_sorted(freq_list_view(fl@)),
                decreases es@.len() - j,
            {
                let t = copy_bytes(es[j].0.as_slice());
                freq_put_exec(&mut fl, t, es[j].1);
                proof {
                    assert(ev.take(j + 1).drop_last() =~= ev.take(j as int));
                    assert(ev[j as int] == (es@[j as int].0@, es@[j as int].1));
                }
                j = j + 1;
            }
            proof {
                assert(ev.take(j as int) =~= ev);
            }
            let ghost fv = freq_view(fl);
            let ghost prev = term_frequencies@.map_values(|v: Vec<(Vec<u8>, u32)>| freq_view(v));
            let _ = term_frequencies.insert(rid, fl);
            proof {
                assert(sv.freqs.take(i + 1).drop_last() =~= sv.freqs.take(i as int));
                assert(term_frequencies@.map_values(|v: Vec<(Vec<u8>, u32)>| freq_view(v)) =~= prev.insert(rid, fv));
            }
            i = i + 1;
        }
        proof {
            assert(sv.freqs.take(i as int) =~= sv.freqs);
        }
        let mut doc_lengths: BTreeMap<u64, u32> = BTreeMap::new();
        let mut i: usize = 0;
        proof {
            assert(sv.lengths.take(0) =~= Seq::<(u64, u32)>::empty());
            assert(doc_lengths@ =~= Map::<u64, u32>::empty());
        }
        while i < s.lengths.len()
            invariant
                sv == s@,
                i <= sv.lengths.len(),
                doc_lengths@ == build_map(sv.lengths.take(i as int), length_fix()),
            decreases sv.lengths.len() - i,
        {
            let _ = doc_lengths.insert(s.lengths[i].0, s.lengths[i].1);
            proof {
                assert(sv.lengths.take(i + 1).drop_last() =~= sv.lengths.take(i as int));
                assert(doc_lengths@ =~= build_map(sv.lengths.take(i + 1), length_fix()));
            }
            i = i + 1;
        }
        proof {
            assert(sv.lengths.take(i as int) =~= sv.lengths);
        }
        let idx = InvertedIndex {
            name: name.to_owned(),
            dir: dir.to_owned(),
            terms,
            field_terms: fields,
            term_frequencies,
            doc_lengths,
            doc_count: s.doc_count,
            total_terms: s.total_terms,
            staged: None,
        };
        proof {
            assert(idx.bm25() == build_bm25(sv));
        }
        idx
    }

    /// An index named `name`, persisted to `dir`, read from its snapshot
    /// bytes; `source` names the bytes in errors.
    pub fn from_snapshot(name: &str, dir: &str, bytes: &[u8], source: &str) -> (r: Result<InvertedIndex>)
        ensures
            match (r, parse_snapshot(bytes@)) {
                (Ok(idx), Ok(s)) => {
                    &&& idx.wf()
                    &&& idx.spec_name() == name@
                    &&& idx.spec_dir() == dir@
                    &&& idx.terms_view() == build_terms(s.terms)
                    &&& idx.fields_view() == build_pairs(s.pairs)
                    &&& idx.bm25() == build_bm25(s)
                },
                (Err(e), Err(m)) => is_corrupt_at(e, source@, m),
                _ => false,
            },
    {
        let rows = decode_snapshot(bytes, source)?;
        let n = bytes.len();
        proof {
            lemma_parse_bounds(bytes@);
        }
        Ok(InvertedIndex::from_rows(name, dir, &rows))
    }
}

/// In sorted fields, a present field is where `field_pos` says.
proof fn lemma_field_pos_found(v: Seq<FieldEntry>, f: Seq<u8>)
    requires
        fields_sorted(v),
        has_field(v, f),
    ensures
        0 <= crate::index::field_sets::field_pos(v, f) < v.len(),
        v[crate::index::field_sets::field_pos(v, f)].0 == f,
{
    let i = choose|i: int| 0 <= i < v.len() && v[i].0 == f;
    lemma_bytes_lt_irreflexive(f);
    assert forall|j: int| 0 <= j < i implies bytes_lt(#[trigger] v[j].0, f) by {}
    assert forall|j: int| i <= j < v.len() implies !bytes_lt(#[trigger] v[j].0, f) by {
        if j > i {
            lemma_bytes_lt_asymmetric(f, v[j].0);
        }
    }
    lemma_filter_prefix(v, |e: FieldEntry| bytes_lt(e.0, f), i);
}

/// Dropping a pair keeps every field name UTF-8.
proof fn lemma_names_valid_remove_pair(v: Seq<FieldEntry>, f: Seq<u8>, t: Seq<u8>)
    requires
        fields_sorted(v),
        names_valid(v),
    ensures
        names_valid(crate::index::field_sets::field_remove_pair(v, f, t)),
{
    let w = crate::index::field_sets::field_remove_pair(v, f, t);
    let p = crate::index::field_sets::field_pos(v, f);
    if has_field(v, f) {
        lemma_field_pos_found(v, f);
        assert forall|i: int| 0 <= i < w.len() implies valid_utf8(#[trigger] w[i].0) by {
            if remove_key(v[p].1, t).len() == 0 {
                if i < p {
                    assert(w[i] == v[i]);
                } else {
                    assert(w[i] == v[i + 1]);
                }
            } else {
                assert(w[i].0 == v[i].0);
            }
        }
    }
}
/// Law: an index's snapshot bytes read back as its own rows, and those
/// rows rebuild its terms, field postings and statistics; so `from_snapshot`
/// of what `encode_snapshot` wrote gives the same index back (when every
/// count fits the format's `u32` fields).
pub proof fn lemma_snapshot_restores(idx: &InvertedIndex, tk: Seq<u64>, dk: Seq<u64>)
    requires
        idx.wf(),
        in_key_order(tk, idx.bm25().term_frequencies),
        in_key_order(dk, idx.bm25().doc_lengths),
        rows_fit(rows_of(idx.terms_view(), idx.fields_view(), idx.bm25(), tk, dk)),
    ensures
        ({
            let s = rows_of(idx.terms_view(), idx.fields_view(), idx.bm25(), tk, dk);
            &&& parse_snapshot(snapshot_bytes(payload_bytes(s))) == core::result::Result::<
                SnapshotRows,
                Seq<char>,
            >::Ok(s)
            &&& build_terms(s.terms) == idx.terms_view()
            &&& build_pairs(s.pairs) == idx.fields_view()
            &&& build_bm25(s) == idx.bm25()
        }),
{
    let s = rows_of(idx.terms_view(), idx.fields_view(), idx.bm25(), tk, dk);
    lemma_snapshot_roundtrip(s);
    idx.terms.lemma_wf_scalar();
    lemma_build_terms(idx.terms_view());
    idx.field_terms.lemma_wf_fields();
    lemma_build_pairs(idx.fields_view());
    lemma_build_bm25(idx.bm25(), tk, dk);
    assert(build_bm25(s) == build_bm25(rows_of(Seq::empty(), Seq::empty(), idx.bm25(), tk, dk)));
}

/// The statistics without those of each of the records, in turn.
pub open spec fn bm25_remove_all(b: Bm25State, ids: Seq<RecordId>) -> Bm25State
    decreases ids.len(),
{
    if ids.len() == 0 {
        b
    } else {
        bm25_removed(bm25_remove_all(b, ids.drop_last()), ids.last().0)
    }
}

/// The term a plugin key stands for: its text (invalid UTF-8 replaced as
/// `String::from_utf8_lossy` does) lower-cased in ASCII.
pub open spec fn key_term(key: Seq<u8>) -> Seq<u8> {
    if valid_utf8(key) {
        normal_bytes(decode_utf8(key))
    } else {
        normal_bytes(utf8_lossy(key))
    }
}

/// The term a plugin key stands for.
fn key_term_bytes(key: &[u8]) -> (out: Vec<u8>)
    ensures
        out@ == key_term(key@),
{
    let s = from_utf8_lossy(key);
    let n = normalize(s.as_str());
    copy_bytes(n.as_str().as_bytes())
}

/// Dropping a term from every field keeps every field name UTF-8.
proof fn lemma_names_valid_remove_term(v: Seq<FieldEntry>, t: Seq<u8>)
    requires
        names_valid(v),
    ensures
        names_valid(field_remove_term(v, t)),
    decreases v.len(),
{
    if v.len() > 0 {
        assert forall|i: int| 0 <= i < v.drop_last().len() implies valid_utf8(#[trigger] v.drop_last()[i].0) by {
            assert(v.drop_last()[i] == v[i]);
        }
        lemma_names_valid_remove_term(v.drop_last(), t);
        assert(v[v.len() - 1] == v.last());
    }
}

impl InvertedIndex {
    /// The snapshot file's name: the index's name with `.invidx`.
    pub fn snapshot_file_name(&self) -> (s: String)
        ensures
            s@ == self.spec_name() + ".invidx"@,
    {
        concat_str(self.name.as_str(), ".invidx")
    }

    /// The snapshot directory; empty when the index is not persisted.
    pub fn dir(&self) -> (d: &str)
        ensures
            d@ == self.spec_dir(),
    {
        self.dir.as_str()
    }

    /// Hand over the snapshot bytes that the last `flush` left for writing.
    pub fn take_staged(&mut self) -> (out: Option<Vec<u8>>)
        ensures
            match out {
                Some(b) => old(self).staged_bytes() == Some(b@),
                None => old(self).staged_bytes() is None,
            },
            final(self).staged_bytes() is None,
            final(self).wf() == old(self).wf(),
            final(self).terms_view() == old(self).terms_view(),
            final(self).fields_view() == old(self).fields_view(),
            final(self).bm25() == old(self).bm25(),
            final(self).spec_name() == old(self).spec_name(),
            final(self).spec_dir() == old(self).spec_dir(),
    {
        let mut out: Option<Vec<u8>> = None;
        std::mem::swap(&mut out, &mut self.staged);
        out
    }

    /// The number of terms, and of (term, record) and (field, term, record)
    /// entries together (saturating, which no index in memory reaches).
    pub fn stats(&self) -> (s: IndexStats)
        requires
            self.wf(),
        ensures
            s.live_keys == self.terms_view().len(),
            s.versions == if total_ids(self.terms_view()) + field_total(self.fields_view()) <= u64::MAX {
                total_ids(self.terms_view()) + field_total(self.fields_view())
            } else {
                u64::MAX as nat
            },
    {
        let keys = self.terms.key_count();
        let a = self.terms.len();
        let b = self.field_terms.total();
        IndexStats { live_keys: keys as u64, versions: (a as u64).saturating_add(b as u64) }
    }
}

impl IndexPlugin for InvertedIndex {
    open spec fn inv(&self) -> bool {
        self.wf()
    }

    fn name(&self) -> (n: &str)
        ensures
            n@ == self.spec_name(),
    {
        self.name.as_str()
    }

    /// File `rid` under the key's term (no statistics change); with
    /// `usize::MAX` pairs already filed, nothing changes.
    fn put(&mut self, key: &[u8], rid: RecordId) -> (r: Result<()>)
        ensures
            r is Ok,
            final(self).terms_view() == if total_ids(old(self).terms_view()) < usize::MAX {
                scalar_insert(old(self).terms_view(), key_term(key@), rid)
            } else {
                old(self).terms_view()
            },
            final(self).fields_view() == old(self).fields_view(),
            final(self).bm25() == old(self).bm25(),
            final(self).spec_name() == old(self).spec_name(),
            final(self).spec_dir() == old(self).spec_dir(),
            final(self).staged_bytes() == old(self).staged_bytes(),
    {
        let term = key_term_bytes(key);
        if self.terms.len() < usize::MAX {
            self.terms.insert(term.as_slice(), rid);
        }
        Ok(())
    }

    /// The smallest record filed under the key's term.
    fn get(&self, key: &[u8]) -> (r: Option<RecordId>)
        ensures
            r == (if ids_of(self.terms_view(), key_term(key@)).len() > 0 {
                Some(ids_of(self.terms_view(), key_term(key@))[0])
            } else {
                None::<RecordId>
            }),
    {
        let term = key_term_bytes(key);
        self.terms.first(term.as_slice())
    }

    /// Drop the key's term: the statistics of each record filed under it,
    /// the term with its records, and the term from every field.
    fn delete(&mut self, key: &[u8]) -> (r: Result<()>)
        ensures
            r is Ok,
            final(self).bm25() == bm25_remove_all(
                old(self).bm25(),
                ids_of(old(self).terms_view(), key_term(key@)),
            ),
            final(self).terms_view() == remove_key(old(self).terms_view(), key_term(key@)),
            final(self).fields_view() == field_remove_term(old(self).fields_view(), key_term(key@)),
            final(self).spec_name() == old(self).spec_name(),
            final(self).spec_dir() == old(self).spec_dir(),
            final(self).staged_bytes() == old(self).staged_bytes(),
    {
        let term = key_term_bytes(key);
        let rids = self.terms.equals(term.as_slice());
        let ghost ids = rids@;
        let mut i: usize = 0;
        proof {
            assert(ids.take(0) =~= Seq::<RecordId>::empty());
        }
        while i < rids.len()
            invariant
                ids == rids@,
                i <= ids.len(),
                self.wf(),
                self.bm25() == bm25_remove_all(old(self).bm25(), ids.take(i as int)),
                self.terms == old(self).terms,
                self.field_terms == old(self).field_terms,
                self.name == old(self).name,
                self.dir == old(self).dir,
                self.staged == old(self).staged,
            decreases ids.len() - i,
        {
            proof {
                lemma_removed_sorted(self.bm25(), rids@[i as int].0);
                assert(ids.take(i + 1).drop_last() =~= ids.take(i as int));
            }
            self.remove_bm25(rids[i]);
            i = i + 1;
        }
        proof {
            assert(ids.take(i as int) =~= ids);
            lemma_names_valid_remove_term(self.field_terms@, term@);
        }
        self.terms.remove_key(term.as_slice());
        self.field_terms.remove_term(term.as_slice());
        Ok(())
    }

    /// Leave the snapshot bytes for writing to the index's directory; an
    /// index without a directory keeps nothing.
    fn flush(&mut self) -> (r: Result<()>)
        ensures
            r is Ok,
            final(self).terms_view() == old(self).terms_view(),
            final(self).fields_view() == old(self).fields_view(),
            final(self).bm25() == old(self).bm25(),
            final(self).spec_name() == old(self).spec_name(),
            final(self).spec_dir() == old(self).spec_dir(),
            old(self).spec_dir().len() == 0 ==> final(self).staged_bytes() == old(self).staged_bytes(),
            old(self).spec_dir().len() > 0 ==> exists|tk: Seq<u64>, dk: Seq<u64>|
                {
                    &&& in_key_order(tk, old(self).bm25().term_frequencies)
                    &&& in_key_order(dk, old(self).bm25().doc_lengths)
                    &&& final(self).staged_bytes() == Some(
                        snapshot_bytes(
                            payload_bytes(
                                rows_of(
                                    old(self).terms_view(),
                                    old(self).fields_view(),
                                    old(self).bm25(),
                                    tk,
                                    dk,
                                ),
                            ),
                        ),
                    )
                },
    {
        let n = self.dir.as_str().as_bytes().len();
        proof {
            assert(self.dir@.len() > 0 ==> encode_utf8(self.dir@).len() > 0);
            assert(n == encode_utf8(self.dir@).len());
        }
        if n == 0 {
            return Ok(());
        }
        let bytes = self.encode_snapshot();
        self.staged = Some(bytes);
        Ok(())
    }
}

} // verus!
