//! The postings a BM25 ranking reads: each term with the frequency of the
//! term in every document that has it, and each document's length.
use crate::bytes_order::{
    bytes_lt, compare_bytes, lemma_bytes_lt_asymmetric, lemma_bytes_lt_irreflexive,
    lemma_bytes_lt_total, lemma_bytes_lt_transitive,
};
use crate::index::inverted::{is_freq_list, normal_bytes, term_counts};
use crate::index::inverted_format::freq_list_view;
use crate::index::tokenize::{normalize, terms_of, terms_view, tokenize};
use crate::io::binary::copy_bytes;
use crate::seqs::{
    lemma_filter_all, lemma_filter_insert_fail, lemma_filter_none, lemma_filter_prefix, lemma_filter_twice,
    lemma_filter_update_fail,
};
use crate::store::RecordId;
use std::collections::BTreeMap;
use vstd::prelude::*;

verus! {

broadcast use vstd::seq_lib::group_seq_lib_default;

/// The documents that have a term, each with the term's frequency there,
/// in increasing record order.
pub type Posting = Seq<(u64, u32)>;

/// A term with its posting.
pub type TermPosting = (Seq<u8>, Posting);

/// Records in strictly increasing order.
pub open spec fn rids_sorted(p: Posting) -> bool {
    forall|i: int, j: int| 0 <= i < j < p.len() ==> p[i].0 < p[j].0
}

/// Terms in strictly increasing byte order, each with a non-empty posting
/// in record order.
pub open spec fn postings_wf(v: Seq<TermPosting>) -> bool {
    &&& forall|i: int, j: int| 0 <= i < j < v.len() ==> bytes_lt(v[i].0, v[j].0)
    &&& forall|i: int| 0 <= i < v.len() ==> rids_sorted(#[trigger] v[i].1) && v[i].1.len() > 0
}

/// The predicate "the term sorts before `t`".
pub open spec fn posting_before(t: Seq<u8>) -> spec_fn(TermPosting) -> bool {
    |e: TermPosting| bytes_lt(e.0, t)
}

/// Where term `t` is, or goes.
pub open spec fn term_pos(v: Seq<TermPosting>, t: Seq<u8>) -> int {
    v.filter(posting_before(t)).len() as int
}

/// Term `t` has a posting.
pub open spec fn has_term(v: Seq<TermPosting>, t: Seq<u8>) -> bool {
    term_pos(v, t) < v.len() && v[term_pos(v, t)].0 == t
}

/// The posting of `t` (empty when absent).
pub open spec fn posting_of(v: Seq<TermPosting>, t: Seq<u8>) -> Posting {
    if has_term(v, t) {
        v[term_pos(v, t)].1
    } else {
        Seq::empty()
    }
}

/// The predicate "the record sorts before `id`".
pub open spec fn rid_before(id: u64) -> spec_fn((u64, u32)) -> bool {
    |p: (u64, u32)| p.0 < id
}

/// A posting with document `id` at frequency `f`.
pub open spec fn posting_put(p: Posting, id: u64, f: u32) -> Posting {
    let k = p.filter(rid_before(id)).len() as int;
    if k < p.len() && p[k].0 == id {
        p.update(k, (id, f))
    } else {
        p.insert(k, (id, f))
    }
}

/// The postings with document `id` at frequency `f` for term `t`.
pub open spec fn term_put(v: Seq<TermPosting>, t: Seq<u8>, id: u64, f: u32) -> Seq<TermPosting> {
    let k = term_pos(v, t);
    if has_term(v, t) {
        v.update(k, (t, posting_put(v[k].1, id, f)))
    } else {
        v.insert(k, (t, seq![(id, f)]))
    }
}

/// The postings with document `id` at each term of the frequency list.
pub open spec fn put_all(v: Seq<TermPosting>, fl: Seq<(Seq<u8>, u32)>, id: u64) -> Seq<TermPosting>
    decreases fl.len(),
{
    if fl.len() == 0 {
        v
    } else {
        term_put(put_all(v, fl.drop_last(), id), fl.last().0, id, fl.last().1)
    }
}

/// The predicate "the entry is not document `id`".
pub open spec fn other_doc(id: u64) -> spec_fn((u64, u32)) -> bool {
    |p: (u64, u32)| p.0 != id
}

/// The postings without document `id`; terms left without documents go.
pub open spec fn drop_doc(v: Seq<TermPosting>, id: u64) -> Seq<TermPosting>
    decreases v.len(),
{
    if v.len() == 0 {
        Seq::empty()
    } else {
        let rest = drop_doc(v.drop_last(), id);
        let p = v.last().1.filter(other_doc(id));
        if p.len() == 0 {
            rest
        } else {
            rest.push((v.last().0, p))
        }
    }
}

/// What a BM25 index holds.
pub struct Bm25View {
    pub postings: Seq<TermPosting>,
    pub doc_lengths: Map<u64, u32>,
    pub doc_count: u32,
    pub total_terms: u64,
}

/// The index without document `id`: nothing changes when it is unknown.
pub open spec fn bm25_without(b: Bm25View, id: u64) -> Bm25View {
    if b.doc_lengths.contains_key(id) {
        Bm25View {
            postings: drop_doc(b.postings, id),
            doc_lengths: b.doc_lengths.remove(id),
            doc_count: if b.doc_count == 0 {
                0
            } else {
                (b.doc_count - 1) as u32
            },
            total_terms: if b.total_terms < b.doc_lengths[id] {
                0
            } else {
                (b.total_terms - b.doc_lengths[id]) as u64
            },
        }
    } else {
        b
    }
}

/// The postings and statistics that BM25 ranking reads.
#[derive(Debug)]
pub struct Bm25Index {
    postings: Vec<(Vec<u8>, Vec<(u64, u32)>)>,
    doc_lengths: BTreeMap<u64, u32>,
    doc_count: u32,
    total_terms: u64,
}

/// Postings as plain values.
pub open spec fn postings_view(v: Seq<(Vec<u8>, Vec<(u64, u32)>)>) -> Seq<TermPosting> {
    v.map_values(|e: (Vec<u8>, Vec<(u64, u32)>)| (e.0@, e.1@))
}

impl View for Bm25Index {
    type V = Bm25View;

    closed spec fn view(&self) -> Bm25View {
        Bm25View {
            postings: postings_view(self.postings@),
            doc_lengths: self.doc_lengths@,
            doc_count: self.doc_count,
            total_terms: self.total_terms,
        }
    }
}

impl Default for Bm25Index {
    fn default() -> (b: Self)
        ensures
            b.wf(),
            b@ == (Bm25View {
                postings: Seq::empty(),
                doc_lengths: Map::empty(),
                doc_count: 0,
                total_terms: 0,
            }),
    {
        let b = Bm25Index {
            postings: Vec::new(),
            doc_lengths: BTreeMap::new(),
            doc_count: 0,
            total_terms: 0,
        };
        proof {
            assert(postings_view(b.postings@) =~= Seq::<TermPosting>::empty());
        }
        b
    }
}

/// Dropping one document from a posting keeps it in record order.
proof fn lemma_filter_sorted(p: Posting, id: u64)
    requires
        rids_sorted(p),
    ensures
        rids_sorted(p.filter(other_doc(id))),
        forall|j: int| 0 <= j < p.filter(other_doc(id)).len() ==> p.contains(#[trigger] p.filter(other_doc(id))[j]),
    decreases p.len(),
{
    reveal(Seq::filter);
    if p.len() > 0 {
        let q = p.drop_last();
        assert forall|i: int, j: int| 0 <= i < j < q.len() implies q[i].0 < q[j].0 by {
            assert(q[i] == p[i] && q[j] == p[j]);
        }
        lemma_filter_sorted(q, id);
        let fq = q.filter(other_doc(id));
        assert forall|j: int| 0 <= j < fq.len() implies p.contains(#[trigger] fq[j]) by {
            let k = choose|k: int| 0 <= k < q.len() && q[k] == fq[j];
            assert(p[k] == q[k]);
        }
        assert(p =~= q.push(p.last()));
        let fp = p.filter(other_doc(id));
        assert forall|j: int| 0 <= j < fp.len() implies p.contains(#[trigger] fp[j]) by {
            if j < fq.len() {
                assert(fp[j] == fq[j]);
            } else {
                assert(fp[j] == p.last());
                assert(p[p.len() - 1] == p.last());
            }
        }
        assert forall|i: int, j: int| 0 <= i < j < fp.len() implies fp[i].0 < fp[j].0 by {
            if j >= fq.len() {
                assert(fp[i] == fq[i]);
                let k = choose|k: int| 0 <= k < q.len() && q[k] == fq[i];
                assert(p[k] == q[k]);
                assert(p[p.len() - 1] == p.last());
            } else {
                assert(fp[i] == fq[i] && fp[j] == fq[j]);
            }
        }
    }
}

impl Bm25Index {
    /// The postings are in term order, each in record order and non-empty.
    pub closed spec fn wf(&self) -> bool {
        postings_wf(postings_view(self.postings@))
    }

    /// The number of indexed documents.
    pub fn doc_count(&self) -> (n: u32)
        ensures
            n == self@.doc_count,
    {
        self.doc_count
    }

    /// Where term `t` is, or goes, and whether it is there.
    fn find(&self, t: &[u8]) -> (r: (usize, bool))
        requires
            self.wf(),
        ensures
            r.0 == term_pos(self@.postings, t@),
            r.1 == has_term(self@.postings, t@),
            r.0 <= self@.postings.len(),
            forall|j: int| 0 <= j < r.0 ==> bytes_lt(#[trigger] self@.postings[j].0, t@),
            forall|j: int| r.0 <= j < self@.postings.len() ==> !bytes_lt(#[trigger] self@.postings[j].0, t@),
    {
        let ghost v = self@.postings;
        let mut i: usize = 0;
        while i < self.postings.len()
            invariant
                v == self@.postings,
                postings_wf(v),
                i <= v.len(),
                v.len() == self.postings@.len(),
                forall|j: int| 0 <= j < i ==> bytes_lt(#[trigger] v[j].0, t@),
            ensures
                i <= v.len(),
                forall|j: int| 0 <= j < i ==> bytes_lt(#[trigger] v[j].0, t@),
                i < v.len() ==> !bytes_lt(v[i as int].0, t@),
            decreases v.len() - i,
        {
            proof {
                assert(v[i as int].0 == self.postings@[i as int].0@);
            }
            if compare_bytes(self.postings[i].0.as_slice(), t) != -1 {
                break;
            }
            i = i + 1;
        }
        proof {
            assert forall|j: int| i <= j < v.len() implies !bytes_lt(#[trigger] v[j].0, t@) by {
                if j > i {
                    assert(bytes_lt(v[i as int].0, v[j].0));
                    if bytes_lt(v[j].0, t@) {
                        lemma_bytes_lt_transitive(v[i as int].0, v[j].0, t@);
                    }
                }
            }
            lemma_filter_prefix(v, posting_before(t@), i as int);
            assert(v.take(i as int).len() == i);
        }
        let found = if i < self.postings.len() {
            proof {
                assert(v[i as int].0 == self.postings@[i as int].0@);
            }
            compare_bytes(self.postings[i].0.as_slice(), t) == 0
        } else {
            false
        };
        (i, found)
    }

    /// The documents that have `term` as given (no case folding), each
    /// with the term's count in it, in record order.
    pub fn posting(&self, term: &[u8]) -> (out: Vec<(u64, u32)>)
        requires
            self.wf(),
        ensures
            out@ == posting_of(self@.postings, term@),
    {
        let (p, found) = self.find(term);
        if found {
            proof {
                assert(self@.postings[p as int] == (self.postings@[p as int].0@, self.postings@[p as int].1@));
            }
            let src = &self.postings[p].1;
            let mut out: Vec<(u64, u32)> = Vec::new();
            let mut i: usize = 0;
            while i < src.len()
                invariant
                    i <= src@.len(),
                    out@ == src@.take(i as int),
                decreases src@.len() - i,
            {
                out.push(src[i]);
                proof {
                    assert(src@.take(i + 1) =~= src@.take(i as int).push(src@[i as int]));
                }
                i = i + 1;
            }
            proof {
                assert(src@.take(i as int) =~= src@);
            }
            out
        } else {
            Vec::new()
        }
    }

    /// The length in terms of document `id`, if it is indexed.
    pub fn doc_length(&self, id: RecordId) -> (n: Option<u32>)
        ensures
            n == (if self@.doc_lengths.contains_key(id.0) {
                Some(self@.doc_lengths[id.0])
            } else {
                None::<u32>
            }),
    {
        match self.doc_lengths.get(&id.0) {
            Some(v) => Some(*v),
            None => None,
        }
    }

    /// The number of terms over all indexed documents.
    pub fn total_terms(&self) -> (n: u64)
        ensures
            n == self@.total_terms,
    {
        self.total_terms
    }

    /// The number of documents that have `term` (lower-cased in ASCII).
    pub fn posting_len(&self, term: &str) -> (n: usize)
        requires
            self.wf(),
        ensures
            n == posting_of(self@.postings, normal_bytes(term@)).len(),
    {
        let t = normalize(term);
        let (p, found) = self.find(t.as_str().as_bytes());
        if found {
            proof {
                assert(self@.postings[p as int] == (self.postings@[p as int].0@, self.postings@[p as int].1@));
            }
            self.postings[p].1.len()
        } else {
            0
        }
    }
}

/// The index after document `id` is indexed with terms `ts`, whose
/// frequency list is `fl`.
pub open spec fn bm25_inserted(b: Bm25View, id: u64, ts: Seq<Seq<u8>>, fl: Seq<(Seq<u8>, u32)>) -> Bm25View {
    let r = bm25_without(b, id);
    Bm25View {
        postings: put_all(r.postings, fl, id),
        doc_lengths: r.doc_lengths.insert(id, ts.len() as u32),
        doc_count: (r.doc_count + 1) as u32,
        total_terms: (r.total_terms + ts.len()) as u64,
    }
}

/// Set document `id` at frequency `f` in a posting kept in record order.
fn posting_put_exec(p: &mut Vec<(u64, u32)>, id: u64, f: u32)
    requires
        rids_sorted(old(p)@),
    ensures
        final(p)@ == posting_put(old(p)@, id, f),
        rids_sorted(final(p)@),
        final(p)@.len() > 0,
{
    let ghost v = p@;
    let mut k: usize = 0;
    while k < p.len() && p[k].0 < id
        invariant
            v == p@,
            k <= p@.len(),
            forall|j: int| 0 <= j < k ==> #[trigger] p@[j].0 < id,
        decreases p@.len() - k,
    {
        k = k + 1;
    }
    proof {
        assert forall|j: int| k <= j < v.len() implies !(#[trigger] v[j].0 < id) by {
            if j > k {
                assert(v[k as int].0 < v[j].0);
            }
        }
        lemma_filter_prefix(v, rid_before(id), k as int);
        assert(v.take(k as int).len() == k);
    }
    if k < p.len() && p[k].0 == id {
        let _ = p.remove(k);
        p.insert(k, (id, f));
        proof {
            assert(p@ =~= v.update(k as int, (id, f)));
            assert forall|a: int, b: int| 0 <= a < b < p@.len() implies p@[a].0 < p@[b].0 by {
                assert(p@[a].0 == v[a].0 && p@[b].0 == v[b].0);
            }
        }
    } else {
        p.insert(k, (id, f));
        proof {
            assert(p@ =~= v.insert(k as int, (id, f)));
            assert forall|a: int, b: int| 0 <= a < b < p@.len() implies p@[a].0 < p@[b].0 by {
                if b < k {
                    assert(p@[a] == v[a] && p@[b] == v[b]);
                } else if b == k {
                    assert(p@[a] == v[a]);
                } else if a == k {
                    assert(p@[b] == v[b - 1]);
                    assert(v[k as int].0 <= v[b - 1].0);
                } else if a < k {
                    assert(p@[a] == v[a] && p@[b] == v[b - 1]);
                } else {
                    assert(p@[a] == v[a - 1] && p@[b] == v[b - 1]);
                }
            }
        }
    }
}

impl Bm25Index {
    /// Set document `id` at frequency `f` for term `t`.
    fn term_put(&mut self, t: &[u8], id: u64, f: u32)
        requires
            old(self).wf(),
        ensures
            final(self).wf(),
            final(self)@ == (Bm25View { postings: term_put(old(self)@.postings, t@, id, f), ..old(self)@ }),
    {
        let ghost v = self@.postings;
        let (p, found) = self.find(t);
        if found {
            let (k, mut post) = self.postings.remove(p);
            proof {
                assert(v[p as int] == (k@, post@));
                assert(rids_sorted(v[p as int].1));
            }
            posting_put_exec(&mut post, id, f);
            let ghost e = (k@, post@);
            self.postings.insert(p, (k, post));
            proof {
                let w = self@.postings;
                assert(w =~= v.update(p as int, e));
                assert forall|a: int, b: int| 0 <= a < b < w.len() implies bytes_lt(w[a].0, w[b].0) by {
                    assert(w[a].0 == v[a].0 && w[b].0 == v[b].0);
                }
                assert forall|a: int| 0 <= a < w.len() implies rids_sorted(#[trigger] w[a].1) && w[a].1.len() > 0 by {
                    if a != p {
                        assert(w[a] == v[a]);
                    }
                }
            }
        } else {
            let mut post: Vec<(u64, u32)> = Vec::new();
            post.push((id, f));
            let key = copy_bytes(t);
            let ghost e = (key@, post@);
            self.postings.insert(p, (key, post));
            proof {
                let w = self@.postings;
                assert(w =~= v.insert(p as int, e));
                assert(post@ =~= seq![(id, f)]);
                assert forall|j: int| p <= j < v.len() implies bytes_lt(t@, #[trigger] v[j].0) by {
                    lemma_bytes_lt_total(v[j].0, t@);
                    if j > p {
                        assert(bytes_lt(v[p as int].0, v[j].0));
                        lemma_bytes_lt_total(v[p as int].0, t@);
                        if v[j].0 == t@ {
                            lemma_bytes_lt_asymmetric(v[p as int].0, t@);
                        }
                    }
                }
                assert forall|a: int, b: int| 0 <= a < b < w.len() implies bytes_lt(w[a].0, w[b].0) by {
                    if b < p {
                        assert(w[a] == v[a] && w[b] == v[b]);
                    } else if b == p {
                        assert(w[a] == v[a]);
                    } else if a == p {
                        assert(w[b] == v[b - 1]);
                    } else if a < p {
                        assert(w[a] == v[a] && w[b] == v[b - 1]);
                        lemma_bytes_lt_transitive(v[a].0, t@, v[b - 1].0);
                    } else {
                        assert(w[a] == v[a - 1] && w[b] == v[b - 1]);
                    }
                }
                assert forall|a: int| 0 <= a < w.len() implies rids_sorted(#[trigger] w[a].1) && w[a].1.len() > 0 by {
                    if a < p {
                        assert(w[a] == v[a]);
                    } else if a > p {
                        assert(w[a] == v[a - 1]);
                    }
                }
            }
        }
    }

    /// Drop document `id` from every posting; terms left without documents go.
    fn drop_doc(&mut self, id: u64)
        requires
            old(self).wf(),
        ensures
            final(self).wf(),
            final(self)@ == (Bm25View { postings: drop_doc(old(self)@.postings, id), ..old(self)@ }),
    {
        let ghost v = self@.postings;
        let mut rest: Vec<(Vec<u8>, Vec<(u64, u32)>)> = Vec::new();
        std::mem::swap(&mut rest, &mut self.postings);
        let mut out: Vec<(Vec<u8>, Vec<(u64, u32)>)> = Vec::new();
        let mut i: usize = 0;
        proof {
            assert(v.take(0) =~= Seq::<TermPosting>::empty());
            assert(postings_view(out@) =~= Seq::<TermPosting>::empty());
        }
        while i < rest.len()
            invariant
                v == postings_view(rest@),
                postings_wf(v),
                i <= v.len(),
                postings_view(out@) == drop_doc(v.take(i as int), id),
                postings_wf(postings_view(out@)),
                forall|a: int| 0 <= a < out@.len() ==> exists|k: int| 0 <= k < i && (#[trigger] out@[a]).0@ == v[k].0,
            decreases v.len() - i,
        {
            let ghost before = postings_view(out@);
            let ghost oo = out@;
            let post = &rest[i].1;
            let mut kept: Vec<(u64, u32)> = Vec::new();
            let mut j: usize = 0;
            proof {
                assert(v[i as int] == (rest@[i as int].0@, post@));
                assert(post@.take(0) =~= Seq::<(u64, u32)>::empty());
            }
            while j < post.len()
                invariant
                    j <= post@.len(),
                    kept@ == post@.take(j as int).filter(other_doc(id)),
                decreases post@.len() - j,
            {
                if post[j].0 != id {
                    kept.push(post[j]);
                }
                proof {
                    assert(post@.take(j + 1) =~= post@.take(j as int).push(post@[j as int]));
                    post@.take(j as int).lemma_filter_push(post@[j as int], other_doc(id));
                }
                j = j + 1;
            }
            proof {
                assert(post@.take(j as int) =~= post@);
                assert(v.take(i + 1).drop_last() =~= v.take(i as int));
                assert(v.take(i + 1).last() == v[i as int]);
                assert(rids_sorted(v[i as int].1));
                lemma_filter_sorted(post@, id);
            }
            if kept.len() > 0 {
                let key = copy_bytes(rest[i].0.as_slice());
                let ghost e = (key@, kept@);
                out.push((key, kept));
                proof {
                    let w = postings_view(out@);
                    assert(w =~= before.push(e));
                    assert forall|a: int, b: int| 0 <= a < b < w.len() implies bytes_lt(w[a].0, w[b].0) by {
                        if b == w.len() - 1 {
                            assert(out@[a] == oo[a]);
                            let k = choose|k: int| 0 <= k < i && oo[a].0@ == v[k].0;
                            assert(bytes_lt(v[k].0, v[i as int].0));
                        } else {
                            assert(w[a] == before[a] && w[b] == before[b]);
                        }
                    }
                    assert forall|a: int| 0 <= a < w.len() implies rids_sorted(#[trigger] w[a].1) && w[a].1.len() > 0 by {
                        if a < before.len() {
                            assert(w[a] == before[a]);
                        }
                    }
                    assert forall|a: int| 0 <= a < out@.len() implies exists|k: int| 0 <= k < i + 1 && (#[trigger] out@[a]).0@ == v[k].0 by {
                        if a < oo.len() {
                            assert(out@[a] == oo[a]);
                            let k = choose|k: int| 0 <= k < i && oo[a].0@ == v[k].0;
                        } else {
                            assert(out@[a].0@ == v[i as int].0);
                        }
                    }
                }
            } else {
                proof {
                    assert forall|a: int| 0 <= a < out@.len() implies exists|k: int| 0 <= k < i + 1 && (#[trigger] out@[a]).0@ == v[k].0 by {
                        let k = choose|k: int| 0 <= k < i && out@[a].0@ == v[k].0;
                    }
                }
            }
            i = i + 1;
        }
        proof {
            assert(v.take(i as int) =~= v);
        }
        self.postings = out;
    }

    /// Drop document `id`: its length, its share of the counters and its
    /// entry in every posting; an unknown document changes nothing.
    pub fn remove(&mut self, id: &RecordId)
        requires
            old(self).wf(),
        ensures
            final(self).wf(),
            final(self)@ == bm25_without(old(self)@, id.0),
    {
        match self.doc_lengths.remove(&id.0) {
            None => {
                proof {
                    assert(self.doc_lengths@ =~= old(self).doc_lengths@);
                }
            },
            Some(length) => {
                self.doc_count = self.doc_count.saturating_sub(1);
                self.total_terms = self.total_terms.saturating_sub(length as u64);
                self.drop_doc(id.0);
            },
        }
    }

    /// Index `text` as document `id`, replacing what it had: its length and
    /// each of its distinct terms with the term's frequency.
    pub fn insert(&mut self, id: RecordId, text: &str)
        requires
            old(self).wf(),
            bm25_without(old(self)@, id.0).doc_count < u32::MAX,
            bm25_without(old(self)@, id.0).total_terms + terms_of(text@).len() <= u64::MAX,
            terms_of(text@).len() <= u32::MAX,
        ensures
            final(self).wf(),
            exists|fl: Seq<(Seq<u8>, u32)>|
                #![auto]
                is_freq_list(terms_of(text@), fl) && final(self)@ == bm25_inserted(
                    old(self)@,
                    id.0,
                    terms_of(text@),
                    fl,
                ),
    {
        self.remove(&id);
        let ghost r = self@;
        let tokens = tokenize(text);
        self.doc_count = self.doc_count + 1;
        self.total_terms = self.total_terms + tokens.len() as u64;
        let _ = self.doc_lengths.insert(id.0, tokens.len() as u32);
        let fl = term_counts(&tokens);
        let ghost flv = freq_list_view(fl@);
        let ghost start = self@.postings;
        let mut i: usize = 0;
        proof {
            assert(flv.take(0) =~= Seq::<(Seq<u8>, u32)>::empty());
        }
        while i < fl.len()
            invariant
                flv == freq_list_view(fl@),
                i <= fl@.len(),
                self.wf(),
                self@.postings == put_all(start, flv.take(i as int), id.0),
                self@.doc_lengths == r.doc_lengths.insert(id.0, tokens@.len() as u32),
                self@.doc_count == (r.doc_count + 1) as u32,
                self@.total_terms == (r.total_terms + tokens@.len()) as u64,
            decreases fl@.len() - i,
        {
            let ghost b = self@;
            self.term_put(fl[i].0.as_slice(), id.0, fl[i].1);
            proof {
                assert(flv.take(i + 1).drop_last() =~= flv.take(i as int));
                assert(flv.take(i + 1).last() == (fl@[i as int].0@, fl@[i as int].1));
            }
            i = i + 1;
        }
        proof {
            assert(flv.take(i as int) =~= flv);
            assert(terms_view(tokens@).len() == tokens@.len());
            assert(self@ == bm25_inserted(old(self)@, id.0, terms_of(text@), flv));
        }
    }
}


/// Every document of a posting is an indexed one.
pub open spec fn docs_indexed(b: Bm25View) -> bool {
    forall|i: int, j: int|
        0 <= i < b.postings.len() && 0 <= j < b.postings[i].1.len() ==> b.doc_lengths.contains_key(
            #[trigger] b.postings[i].1[j].0,
        )
}

/// Setting document `id` in a posting changes nothing once `id` is
/// dropped from it.
proof fn lemma_posting_put_dropped(p: Posting, id: u64, f: u32)
    ensures
        posting_put(p, id, f).filter(other_doc(id)) == p.filter(other_doc(id)),
{
    let k = p.filter(rid_before(id)).len() as int;
    p.lemma_filter_len(rid_before(id));
    if k < p.len() && p[k].0 == id {
        lemma_filter_update_fail(p, k, (id, f), other_doc(id));
    } else {
        lemma_filter_insert_fail(p, k, (id, f), other_doc(id));
    }
}

/// Replacing a term's posting by one that is the same without `id`
/// changes nothing once `id` is dropped.
proof fn lemma_drop_doc_update(v: Seq<TermPosting>, k: int, e: TermPosting, id: u64)
    requires
        0 <= k < v.len(),
        e.0 == v[k].0,
        e.1.filter(other_doc(id)) == v[k].1.filter(other_doc(id)),
    ensures
        drop_doc(v.update(k, e), id) == drop_doc(v, id),
    decreases v.len(),
{
    let u = v.update(k, e);
    if k == v.len() - 1 {
        assert(u.drop_last() =~= v.drop_last());
    } else {
        lemma_drop_doc_update(v.drop_last(), k, e, id);
        assert(u.drop_last() =~= v.drop_last().update(k, e));
    }
}

/// Adding a term whose posting holds only `id` changes nothing once `id`
/// is dropped.
proof fn lemma_drop_doc_insert(v: Seq<TermPosting>, k: int, e: TermPosting, id: u64)
    requires
        0 <= k <= v.len(),
        e.1.filter(other_doc(id)).len() == 0,
    ensures
        drop_doc(v.insert(k, e), id) == drop_doc(v, id),
    decreases v.len(),
{
    let u = v.insert(k, e);
    if k == v.len() {
        assert(u.drop_last() =~= v);
        assert(u.last() == e);
    } else {
        lemma_drop_doc_insert(v.drop_last(), k, e, id);
        assert(u.drop_last() =~= v.drop_last().insert(k, e));
        assert(u.last() == v.last());
    }
}

/// Setting document `id` at every term of a list changes nothing once
/// `id` is dropped.
proof fn lemma_drop_doc_put_all(v: Seq<TermPosting>, fl: Seq<(Seq<u8>, u32)>, id: u64)
    ensures
        drop_doc(put_all(v, fl, id), id) == drop_doc(v, id),
    decreases fl.len(),
{
    if fl.len() > 0 {
        lemma_drop_doc_put_all(v, fl.drop_last(), id);
        let w = put_all(v, fl.drop_last(), id);
        let t = fl.last().0;
        let f = fl.last().1;
        let k = term_pos(w, t);
        w.lemma_filter_len(posting_before(t));
        if has_term(w, t) {
            lemma_posting_put_dropped(w[k].1, id, f);
            lemma_drop_doc_update(w, k, (t, posting_put(w[k].1, id, f)), id);
        } else {
            let one = seq![(id, f)];
            assert forall|j: int| 0 <= j < one.len() implies !other_doc(id)(#[trigger] one[j]) by {}
            lemma_filter_none(one, other_doc(id));
            lemma_drop_doc_insert(w, k, (t, one), id);
        }
    }
}

/// Dropping a document twice is dropping it once, and the result names
/// it nowhere.
proof fn lemma_drop_doc_twice(v: Seq<TermPosting>, id: u64)
    ensures
        drop_doc(drop_doc(v, id), id) == drop_doc(v, id),
    decreases v.len(),
{
    if v.len() > 0 {
        lemma_drop_doc_twice(v.drop_last(), id);
        let rest = drop_doc(v.drop_last(), id);
        let p = v.last().1.filter(other_doc(id));
        lemma_filter_twice(v.last().1, other_doc(id));
        if p.len() > 0 {
            let w = rest.push((v.last().0, p));
            assert(w.drop_last() =~= rest);
        }
    }
}

/// Postings that are non-empty and name `id` nowhere are what dropping
/// `id` leaves.
proof fn lemma_drop_doc_absent(v: Seq<TermPosting>, id: u64)
    requires
        forall|i: int| 0 <= i < v.len() ==> (#[trigger] v[i]).1.len() > 0,
        forall|i: int, j: int| 0 <= i < v.len() && 0 <= j < v[i].1.len() ==> (#[trigger] v[i].1[j]).0 != id,
    ensures
        drop_doc(v, id) == v,
    decreases v.len(),
{
    if v.len() > 0 {
        let d = v.drop_last();
        assert forall|i: int| 0 <= i < d.len() implies (#[trigger] d[i]).1.len() > 0 by {
            assert(d[i] == v[i]);
        }
        assert forall|i: int, j: int| 0 <= i < d.len() && 0 <= j < d[i].1.len() implies (#[trigger] d[i].1[j]).0 != id by {
            assert(d[i] == v[i]);
        }
        lemma_drop_doc_absent(d, id);
        let n = v.len() - 1;
        assert(v.last() == v[n]);
        assert forall|j: int| 0 <= j < v.last().1.len() implies other_doc(id)(#[trigger] v.last().1[j]) by {
            assert(v[n].1[j].0 != id);
        }
        lemma_filter_all(v.last().1, other_doc(id));
        assert(v =~= d.push(v.last()));
    }
}

/// Removing a document twice changes nothing the second time; and, in an
/// index whose postings name only indexed documents, removing a document
/// just indexed gives back the index as it was with that document removed
/// (the counters did not overflow on insert, as `insert` requires).
pub proof fn lemma_remove_undoes_insert(b: Bm25View, id: u64, ts: Seq<Seq<u8>>, fl: Seq<(Seq<u8>, u32)>)
    requires
        postings_wf(b.postings),
        docs_indexed(b),
        bm25_without(b, id).doc_count < u32::MAX,
        bm25_without(b, id).total_terms + ts.len() <= u64::MAX,
        ts.len() <= u32::MAX,
    ensures
        bm25_without(bm25_without(b, id), id) == bm25_without(b, id),
        bm25_without(bm25_inserted(b, id, ts, fl), id) == bm25_without(b, id),
{
    let r = bm25_without(b, id);
    assert(!r.doc_lengths.contains_key(id));
    let ins = bm25_inserted(b, id, ts, fl);
    lemma_drop_doc_put_all(r.postings, fl, id);
    if b.doc_lengths.contains_key(id) {
        lemma_drop_doc_twice(b.postings, id);
    } else {
        assert forall|i: int, j: int| 0 <= i < b.postings.len() && 0 <= j < b.postings[i].1.len()
            implies (#[trigger] b.postings[i].1[j]).0 != id by {
            assert(b.doc_lengths.contains_key(b.postings[i].1[j].0));
        }
        lemma_drop_doc_absent(b.postings, id);
    }
    assert(ins.doc_lengths.contains_key(id));
    assert(ins.doc_lengths.remove(id) =~= r.doc_lengths);
    let out = bm25_without(ins, id);
    assert(out.postings == r.postings);
    assert(out.doc_lengths == r.doc_lengths);
    assert(out.doc_count == r.doc_count);
    assert(out.total_terms == r.total_terms);
}

} // verus!
