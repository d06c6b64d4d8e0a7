//! Versioned key histories: each key with its updates (a record, or a
//! delete) in the order written, each stamped with a sequence number; a
//! read at a sequence sees the newest update stamped no later.
use crate::bytes_order::{
    bytes_lt, compare_bytes, lemma_bytes_lt_asymmetric, lemma_bytes_lt_irreflexive,
    lemma_bytes_lt_total, lemma_bytes_lt_transitive,
};
use crate::io::binary::copy_bytes;
use crate::seqs::lemma_filter_prefix;
use crate::store::RecordId;
use vstd::prelude::*;

verus! {

broadcast use vstd::seq_lib::group_seq_lib_default;

/// One update of a key: the record it points to, or none for a delete.
#[derive(Clone, Copy, Debug, PartialEq, Eq, Structural)]
pub struct Version {
    pub sequence: u64,
    pub rid: Option<RecordId>,
}

/// A key with its updates, oldest first.
pub type History = (Seq<u8>, Seq<Version>);

/// What a read at `seq` sees: the newest update stamped at or before it.
pub open spec fn visible(vs: Seq<Version>, seq: u64) -> Option<RecordId>
    decreases vs.len(),
{
    if vs.len() == 0 {
        None
    } else if vs.last().sequence <= seq {
        vs.last().rid
    } else {
        visible(vs.drop_last(), seq)
    }
}

/// A read at `seq` sees the last update (in the order applied) stamped at
/// or before `seq`: its record for a put, nothing for a delete; and it
/// sees nothing when every update is stamped after `seq`.
pub proof fn lemma_visible_last(vs: Seq<Version>, seq: u64)
    ensures
        (forall|i: int| 0 <= i < vs.len() ==> (#[trigger] vs[i]).sequence > seq) ==> visible(vs, seq) is None,
        forall|i: int|
            0 <= i < vs.len() && (#[trigger] vs[i]).sequence <= seq && (forall|j: int|
                i < j < vs.len() ==> (#[trigger] vs[j]).sequence > seq) ==> visible(vs, seq) == vs[i].rid,
    decreases vs.len(),
{
    if vs.len() > 0 {
        let d = vs.drop_last();
        lemma_visible_last(d, seq);
        assert forall|i: int| 0 <= i < d.len() implies #[trigger] d[i] == vs[i] by {}
        if vs.last().sequence > seq {
            assert forall|i: int|
                0 <= i < vs.len() && (#[trigger] vs[i]).sequence <= seq && (forall|j: int|
                    i < j < vs.len() ==> (#[trigger] vs[j]).sequence > seq) implies visible(vs, seq) == vs[i].rid by {
                assert(i < d.len());
                assert(d[i] == vs[i]);
                assert forall|j: int| i < j < d.len() implies (#[trigger] d[j]).sequence > seq by {
                    assert(d[j] == vs[j]);
                }
            }
            if forall|i: int| 0 <= i < vs.len() ==> (#[trigger] vs[i]).sequence > seq {
                assert forall|i: int| 0 <= i < d.len() implies (#[trigger] d[i]).sequence > seq by {
                    assert(d[i] == vs[i]);
                }
            }
        } else {
            assert forall|i: int|
                0 <= i < vs.len() && (#[trigger] vs[i]).sequence <= seq && (forall|j: int|
                    i < j < vs.len() ==> (#[trigger] vs[j]).sequence > seq) implies visible(vs, seq) == vs[i].rid by {
                if i < vs.len() - 1 {
                    assert(vs[vs.len() - 1].sequence > seq);
                }
            }
            assert(vs[vs.len() - 1].sequence <= seq);
        }
    }
}

/// Keys in strictly increasing byte order, each with at least one update.
pub open spec fn histories_wf(v: Seq<History>) -> bool {
    &&& forall|i: int, j: int| 0 <= i < j < v.len() ==> bytes_lt(v[i].0, v[j].0)
    &&& forall|i: int| 0 <= i < v.len() ==> (#[trigger] v[i].1).len() > 0
}

/// The predicate "the key sorts before `k`".
pub open spec fn history_before(k: Seq<u8>) -> spec_fn(History) -> bool {
    |e: History| bytes_lt(e.0, k)
}

/// Where key `k` is, or goes.
pub open spec fn history_pos(v: Seq<History>, k: Seq<u8>) -> int {
    v.filter(history_before(k)).len() as int
}

/// Key `k` has a history.
pub open spec fn has_history(v: Seq<History>, k: Seq<u8>) -> bool {
    history_pos(v, k) < v.len() && v[history_pos(v, k)].0 == k
}

/// The updates of key `k` (none when it has no history).
pub open spec fn versions_of(v: Seq<History>, k: Seq<u8>) -> Seq<Version> {
    if has_history(v, k) {
        v[history_pos(v, k)].1
    } else {
        Seq::empty()
    }
}

/// The histories after update `u` of key `k`.
pub open spec fn record_version(v: Seq<History>, k: Seq<u8>, u: Version) -> Seq<History> {
    let p = history_pos(v, k);
    if has_history(v, k) {
        v.update(p, (k, v[p].1.push(u)))
    } else {
        v.insert(p, (k, seq![u]))
    }
}

/// The key lies in `[lo, hi)`, a missing bound being no bound.
pub open spec fn in_bounds(k: Seq<u8>, lo: Option<Seq<u8>>, hi: Option<Seq<u8>>) -> bool {
    &&& (lo matches Some(l) ==> !bytes_lt(k, l))
    &&& (hi matches Some(h) ==> bytes_lt(k, h))
}

/// The live keys in `[lo, hi)` with their records, in key order.
pub open spec fn live_rows(v: Seq<History>, lo: Option<Seq<u8>>, hi: Option<Seq<u8>>) -> Seq<(Seq<u8>, RecordId)>
    decreases v.len(),
{
    if v.len() == 0 {
        Seq::empty()
    } else {
        let rest = live_rows(v.drop_last(), lo, hi);
        let e = v.last();
        if in_bounds(e.0, lo, hi) && visible(e.1, u64::MAX) is Some {
            rest.push((e.0, visible(e.1, u64::MAX)->0))
        } else {
            rest
        }
    }
}

/// The live keys, in order.
pub open spec fn live_keys(v: Seq<History>) -> Seq<Seq<u8>> {
    live_rows(v, None, None).map_values(|r: (Seq<u8>, RecordId)| r.0)
}

/// The histories compacted: each key keeps its newest update, and keys
/// whose newest update is a delete go.
pub open spec fn compacted(v: Seq<History>) -> Seq<History>
    decreases v.len(),
{
    if v.len() == 0 {
        Seq::empty()
    } else {
        let rest = compacted(v.drop_last());
        let e = v.last();
        if e.1.len() > 0 && e.1.last().rid is Some {
            rest.push((e.0, seq![e.1.last()]))
        } else {
            rest
        }
    }
}

/// The number of updates over all keys.
pub open spec fn versions_total(v: Seq<History>) -> nat
    decreases v.len(),
{
    if v.len() == 0 {
        0
    } else {
        versions_total(v.drop_last()) + v.last().1.len()
    }
}


/// Dropping the newest key keeps histories well formed.
proof fn lemma_wf_drop_last(v: Seq<History>)
    requires
        histories_wf(v),
        v.len() > 0,
    ensures
        histories_wf(v.drop_last()),
{
    let w = v.drop_last();
    assert forall|a: int, b: int| 0 <= a < b < w.len() implies bytes_lt(w[a].0, w[b].0) by {
        assert(w[a] == v[a] && w[b] == v[b]);
    }
    assert forall|a: int| 0 <= a < w.len() implies (#[trigger] w[a].1).len() > 0 by {
        assert(w[a] == v[a]);
    }
}

/// Where key `k` goes splits well-formed histories: the keys before it
/// sort below `k`, the others do not.
pub proof fn lemma_pos_split(v: Seq<History>, k: Seq<u8>)
    requires
        histories_wf(v),
    ensures
        0 <= history_pos(v, k) <= v.len(),
        forall|j: int| 0 <= j < history_pos(v, k) ==> bytes_lt(#[trigger] v[j].0, k),
        forall|j: int| history_pos(v, k) <= j < v.len() ==> !bytes_lt(#[trigger] v[j].0, k),
    decreases v.len(),
{
    reveal(Seq::filter);
    if v.len() > 0 {
        let w = v.drop_last();
        let n = w.len() as int;
        lemma_wf_drop_last(v);
        lemma_pos_split(w, k);
        assert forall|j: int| 0 <= j < n implies w[j] == v[j] by {}
        if bytes_lt(v.last().0, k) {
            assert(v.filter(history_before(k)) == w.filter(history_before(k)).push(v.last()));
            assert forall|j: int| 0 <= j < n implies bytes_lt(#[trigger] w[j].0, k) by {
                assert(bytes_lt(v[j].0, v[n].0));
                lemma_bytes_lt_transitive(v[j].0, v[n].0, k);
            }
            if history_pos(w, k) < n {
                assert(bytes_lt(w[history_pos(w, k)].0, k));
            }
        } else {
            assert(v.filter(history_before(k)) == w.filter(history_before(k)));
        }
    }
}

/// In well-formed histories, the key at `i` is found at `i`.
pub proof fn lemma_history_at(v: Seq<History>, i: int)
    requires
        histories_wf(v),
        0 <= i < v.len(),
    ensures
        history_pos(v, v[i].0) == i,
        has_history(v, v[i].0),
        versions_of(v, v[i].0) == v[i].1,
{
    let k = v[i].0;
    lemma_pos_split(v, k);
    let p = history_pos(v, k);
    lemma_bytes_lt_irreflexive(k);
    if p < i {
        assert(bytes_lt(v[p].0, v[i].0));
    }
}

/// Two entries of well-formed histories with one key are one entry.
proof fn lemma_keys_distinct(v: Seq<History>, a: int, b: int)
    requires
        histories_wf(v),
        0 <= a < v.len(),
        0 <= b < v.len(),
        v[a].0 == v[b].0,
    ensures
        a == b,
{
    lemma_bytes_lt_irreflexive(v[a].0);
    if a < b {
        assert(bytes_lt(v[a].0, v[b].0));
    } else if b < a {
        assert(bytes_lt(v[b].0, v[a].0));
    }
}

/// Recording an update keeps histories well formed.
pub proof fn lemma_record_wf(v: Seq<History>, k: Seq<u8>, u: Version)
    requires
        histories_wf(v),
    ensures
        histories_wf(record_version(v, k, u)),
        has_history(v, k) ==> record_version(v, k, u) == v.update(history_pos(v, k), (k, v[history_pos(v, k)].1.push(u))),
        !has_history(v, k) ==> record_version(v, k, u) == v.insert(history_pos(v, k), (k, seq![u])),
{
    lemma_pos_split(v, k);
    let p = history_pos(v, k);
    let w = record_version(v, k, u);
    if has_history(v, k) {
        assert forall|a: int, b: int| 0 <= a < b < w.len() implies bytes_lt(w[a].0, w[b].0) by {
            assert(w[a].0 == v[a].0 && w[b].0 == v[b].0);
        }
        assert forall|a: int| 0 <= a < w.len() implies (#[trigger] w[a].1).len() > 0 by {
            if a != p {
                assert(w[a] == v[a]);
            }
        }
    } else {
        assert forall|j: int| p <= j < v.len() implies bytes_lt(k, #[trigger] v[j].0) by {
            lemma_bytes_lt_total(v[j].0, k);
            if j > p {
                assert(bytes_lt(v[p].0, v[j].0));
                lemma_bytes_lt_total(v[p].0, k);
                if v[j].0 == k {
                    lemma_bytes_lt_asymmetric(v[p].0, k);
                }
            }
        }
        assert forall|a: int, b: int| 0 <= a < b < w.len() implies bytes_lt(w[a].0, w[b].0) by {
            if b < p {
                assert(w[a] == v[a] && w[b] == v[b]);
            } else if b == p {
                assert(w[a] == v[a]);
            } else if a == p {
                assert(w[b] == v[b - 1]);
            } else if a < p {
                assert(w[a] == v[a] && w[b] == v[b - 1]);
                lemma_bytes_lt_transitive(v[a].0, k, v[b - 1].0);
            } else {
                assert(w[a] == v[a - 1] && w[b] == v[b - 1]);
            }
        }
        assert forall|a: int| 0 <= a < w.len() implies (#[trigger] w[a].1).len() > 0 by {
            if a < p {
                assert(w[a] == v[a]);
            } else if a > p {
                assert(w[a] == v[a - 1]);
            }
        }
    }
}

/// After an update of key `k`, `k`'s updates end with it, and every other
/// key's updates are as before.
pub proof fn lemma_record_versions(v: Seq<History>, k: Seq<u8>, u: Version, k2: Seq<u8>)
    requires
        histories_wf(v),
    ensures
        versions_of(record_version(v, k, u), k2) == if k2 == k {
            versions_of(v, k).push(u)
        } else {
            versions_of(v, k2)
        },
{
    lemma_record_wf(v, k, u);
    lemma_pos_split(v, k);
    let p = history_pos(v, k);
    let w = record_version(v, k, u);
    if has_history(v, k) {
        lemma_history_at(w, p);
        if k2 != k {
            if has_history(v, k2) {
                let i = history_pos(v, k2);
                assert(w[i] == v[i]);
                lemma_history_at(w, i);
            } else if has_history(w, k2) {
                let i = history_pos(w, k2);
                assert(w[i] == v[i]);
                lemma_history_at(v, i);
            }
        }
    } else {
        lemma_history_at(w, p);
        if k2 == k {
            assert(seq![u] =~= Seq::<Version>::empty().push(u));
        } else {
            if has_history(v, k2) {
                let i = history_pos(v, k2);
                let j = if i < p { i } else { i + 1 };
                assert(w[j] == v[i]);
                lemma_history_at(w, j);
            } else if has_history(w, k2) {
                let i = history_pos(w, k2);
                let j = if i < p { i } else { i - 1 };
                assert(w[i] == v[j]);
                lemma_history_at(v, j);
            }
        }
    }
}

/// Each compacted entry comes from a key whose newest update is a record
/// and holds only that update; each such key has a compacted entry; and
/// the compacted histories are well formed.
proof fn lemma_compacted_shape(v: Seq<History>)
    requires
        histories_wf(v),
    ensures
        histories_wf(compacted(v)),
        forall|i: int| 0 <= i < compacted(v).len() ==> exists|j: int| {
            &&& 0 <= j < v.len()
            &&& (#[trigger] compacted(v)[i]).0 == v[j].0
            &&& v[j].1.last().rid is Some
            &&& compacted(v)[i].1 == seq![v[j].1.last()]
        },
        forall|j: int| 0 <= j < v.len() && (#[trigger] v[j].1).last().rid is Some ==> exists|i: int|
            0 <= i < compacted(v).len() && (#[trigger] compacted(v)[i]).0 == v[j].0,
    decreases v.len(),
{
    if v.len() > 0 {
        let w = v.drop_last();
        let n = w.len() as int;
        lemma_wf_drop_last(v);
        lemma_compacted_shape(w);
        let r = compacted(w);
        let c = compacted(v);
        assert forall|j: int| 0 <= j < n implies w[j] == v[j] by {}
        if v.last().1.last().rid is Some {
            assert(c == r.push((v.last().0, seq![v.last().1.last()])));
            assert forall|a: int, b: int| 0 <= a < b < c.len() implies bytes_lt(c[a].0, c[b].0) by {
                if b == c.len() - 1 {
                    assert(c[a] == r[a]);
                    let j = choose|j: int| {
                        &&& 0 <= j < w.len()
                        &&& (#[trigger] r[a]).0 == w[j].0
                        &&& w[j].1.last().rid is Some
                        &&& r[a].1 == seq![w[j].1.last()]
                    };
                    assert(bytes_lt(v[j].0, v[n].0));
                } else {
                    assert(c[a] == r[a] && c[b] == r[b]);
                }
            }
            assert forall|a: int| 0 <= a < c.len() implies (#[trigger] c[a].1).len() > 0 by {
                if a < r.len() {
                    assert(c[a] == r[a]);
                }
            }
            assert forall|i: int| 0 <= i < c.len() implies exists|j: int| {
                &&& 0 <= j < v.len()
                &&& (#[trigger] c[i]).0 == v[j].0
                &&& v[j].1.last().rid is Some
                &&& c[i].1 == seq![v[j].1.last()]
            } by {
                if i < r.len() {
                    assert(c[i] == r[i]);
                    let j = choose|j: int| {
                        &&& 0 <= j < w.len()
                        &&& (#[trigger] r[i]).0 == w[j].0
                        &&& w[j].1.last().rid is Some
                        &&& r[i].1 == seq![w[j].1.last()]
                    };
                    assert(v[j] == w[j]);
                } else {
                    assert(c[i].0 == v[n].0);
                }
            }
            assert forall|j: int| 0 <= j < v.len() && (#[trigger] v[j].1).last().rid is Some implies exists|i: int|
                0 <= i < c.len() && (#[trigger] c[i]).0 == v[j].0 by {
                if j < n {
                    assert(w[j] == v[j]);
                    let i = choose|i: int| 0 <= i < r.len() && (#[trigger] r[i]).0 == w[j].0;
                    assert(c[i] == r[i]);
                } else {
                    assert(c[c.len() - 1].0 == v[j].0);
                }
            }
        } else {
            assert(c == r);
            assert forall|i: int| 0 <= i < c.len() implies exists|j: int| {
                &&& 0 <= j < v.len()
                &&& (#[trigger] c[i]).0 == v[j].0
                &&& v[j].1.last().rid is Some
                &&& c[i].1 == seq![v[j].1.last()]
            } by {
                let j = choose|j: int| {
                    &&& 0 <= j < w.len()
                    &&& (#[trigger] r[i]).0 == w[j].0
                    &&& w[j].1.last().rid is Some
                    &&& r[i].1 == seq![w[j].1.last()]
                };
                assert(v[j] == w[j]);
            }
            assert forall|j: int| 0 <= j < v.len() && (#[trigger] v[j].1).last().rid is Some implies exists|i: int|
                0 <= i < c.len() && (#[trigger] c[i]).0 == v[j].0 by {
                if j < n {
                    assert(w[j] == v[j]);
                    let i = choose|i: int| 0 <= i < r.len() && (#[trigger] r[i]).0 == w[j].0;
                }
            }
        }
    }
}

/// Compaction keeps, for every key, just its newest update when that is a
/// record, and nothing otherwise.
pub proof fn lemma_compacted_versions(v: Seq<History>, k: Seq<u8>)
    requires
        histories_wf(v),
    ensures
        histories_wf(compacted(v)),
        versions_of(compacted(v), k) == if versions_of(v, k).len() > 0 && versions_of(v, k).last().rid is Some {
            seq![versions_of(v, k).last()]
        } else {
            Seq::<Version>::empty()
        },
{
    lemma_compacted_shape(v);
    let c = compacted(v);
    if has_history(v, k) {
        let j = history_pos(v, k);
        if v[j].1.last().rid is Some {
            let i = choose|i: int| 0 <= i < c.len() && (#[trigger] c[i]).0 == v[j].0;
            let j2 = choose|j2: int| {
                &&& 0 <= j2 < v.len()
                &&& (#[trigger] c[i]).0 == v[j2].0
                &&& v[j2].1.last().rid is Some
                &&& c[i].1 == seq![v[j2].1.last()]
            };
            lemma_keys_distinct(v, j, j2);
            lemma_history_at(c, i);
        } else if has_history(c, k) {
            let i = history_pos(c, k);
            let j2 = choose|j2: int| {
                &&& 0 <= j2 < v.len()
                &&& (#[trigger] c[i]).0 == v[j2].0
                &&& v[j2].1.last().rid is Some
                &&& c[i].1 == seq![v[j2].1.last()]
            };
            lemma_keys_distinct(v, j, j2);
        }
    } else if has_history(c, k) {
        let i = history_pos(c, k);
        let j2 = choose|j2: int| {
            &&& 0 <= j2 < v.len()
            &&& (#[trigger] c[i]).0 == v[j2].0
            &&& v[j2].1.last().rid is Some
            &&& c[i].1 == seq![v[j2].1.last()]
        };
        lemma_history_at(v, j2);
    }
}


/// The histories with key `k`'s updates replaced by `vs`; no updates
/// remove the key.
pub open spec fn put_history(v: Seq<History>, k: Seq<u8>, vs: Seq<Version>) -> Seq<History> {
    let p = history_pos(v, k);
    if has_history(v, k) {
        if vs.len() > 0 {
            v.update(p, (k, vs))
        } else {
            v.remove(p)
        }
    } else if vs.len() > 0 {
        v.insert(p, (k, vs))
    } else {
        v
    }
}

/// Histories built from rows in order, a later row for a key replacing an
/// earlier one.
pub open spec fn histories_from(rows: Seq<History>) -> Seq<History>
    decreases rows.len(),
{
    if rows.len() == 0 {
        Seq::empty()
    } else {
        put_history(histories_from(rows.drop_last()), rows.last().0, rows.last().1)
    }
}

/// Replacing a key's updates keeps histories well formed.
pub proof fn lemma_put_history_wf(v: Seq<History>, k: Seq<u8>, vs: Seq<Version>)
    requires
        histories_wf(v),
    ensures
        histories_wf(put_history(v, k, vs)),
{
    lemma_pos_split(v, k);
    let p = history_pos(v, k);
    let w = put_history(v, k, vs);
    if has_history(v, k) {
        if vs.len() > 0 {
            assert forall|a: int, b: int| 0 <= a < b < w.len() implies bytes_lt(w[a].0, w[b].0) by {
                assert(w[a].0 == v[a].0 && w[b].0 == v[b].0);
            }
            assert forall|a: int| 0 <= a < w.len() implies (#[trigger] w[a].1).len() > 0 by {
                if a != p {
                    assert(w[a] == v[a]);
                }
            }
        } else {
            assert forall|a: int, b: int| 0 <= a < b < w.len() implies bytes_lt(w[a].0, w[b].0) by {
                let a2 = if a < p { a } else { a + 1 };
                let b2 = if b < p { b } else { b + 1 };
                assert(w[a] == v[a2] && w[b] == v[b2]);
            }
            assert forall|a: int| 0 <= a < w.len() implies (#[trigger] w[a].1).len() > 0 by {
                let a2 = if a < p { a } else { a + 1 };
                assert(w[a] == v[a2]);
            }
        }
    } else if vs.len() > 0 {
        assert forall|j: int| p <= j < v.len() implies bytes_lt(k, #[trigger] v[j].0) by {
            lemma_bytes_lt_total(v[j].0, k);
            if j > p {
                assert(bytes_lt(v[p].0, v[j].0));
                lemma_bytes_lt_total(v[p].0, k);
                if v[j].0 == k {
                    lemma_bytes_lt_asymmetric(v[p].0, k);
                }
            }
        }
        assert forall|a: int, b: int| 0 <= a < b < w.len() implies bytes_lt(w[a].0, w[b].0) by {
            if b < p {
                assert(w[a] == v[a] && w[b] == v[b]);
            } else if b == p {
                assert(w[a] == v[a]);
            } else if a == p {
                assert(w[b] == v[b - 1]);
            } else if a < p {
                assert(w[a] == v[a] && w[b] == v[b - 1]);
                lemma_bytes_lt_transitive(v[a].0, k, v[b - 1].0);
            } else {
                assert(w[a] == v[a - 1] && w[b] == v[b - 1]);
            }
        }
        assert forall|a: int| 0 <= a < w.len() implies (#[trigger] w[a].1).len() > 0 by {
            if a < p {
                assert(w[a] == v[a]);
            } else if a > p {
                assert(w[a] == v[a - 1]);
            }
        }
    }
}

/// Histories built from rows are well formed.
pub proof fn lemma_histories_from_wf(rows: Seq<History>)
    ensures
        histories_wf(histories_from(rows)),
    decreases rows.len(),
{
    if rows.len() > 0 {
        lemma_histories_from_wf(rows.drop_last());
        lemma_put_history_wf(histories_from(rows.drop_last()), rows.last().0, rows.last().1);
    }
}


/// Well-formed histories rebuild as themselves.
pub proof fn lemma_histories_from_sorted(v: Seq<History>)
    requires
        histories_wf(v),
    ensures
        histories_from(v) == v,
    decreases v.len(),
{
    if v.len() > 0 {
        let w = v.drop_last();
        let n = w.len() as int;
        lemma_wf_drop_last(v);
        lemma_histories_from_sorted(w);
        let k = v.last().0;
        lemma_pos_split(w, k);
        assert forall|j: int| 0 <= j < n implies bytes_lt(#[trigger] w[j].0, k) by {
            assert(w[j] == v[j]);
        }
        if history_pos(w, k) < n {
            assert(bytes_lt(w[history_pos(w, k)].0, k));
        }
        lemma_bytes_lt_irreflexive(k);
        assert(w.insert(n, (k, v.last().1)) =~= v);
    }
}

/// Copy a list of updates.
pub fn copy_versions(vs: &Vec<Version>) -> (out: Vec<Version>)
    ensures
        out@ == vs@,
{
    let mut out: Vec<Version> = Vec::new();
    let mut i: usize = 0;
    while i < vs.len()
        invariant
            i <= vs@.len(),
            out@ == vs@.take(i as int),
        decreases vs@.len() - i,
    {
        out.push(vs[i]);
        proof {
            assert(vs@.take(i + 1) =~= vs@.take(i as int).push(vs@[i as int]));
        }
        i = i + 1;
    }
    proof {
        assert(vs@.take(i as int) =~= vs@);
    }
    out
}

/// Versioned histories of byte-string keys, in key order.
#[derive(Debug)]
pub struct KeyHistories {
    entries: Vec<(Vec<u8>, Vec<Version>)>,
}

/// Histories as plain values.
pub open spec fn histories_view(v: Seq<(Vec<u8>, Vec<Version>)>) -> Seq<History> {
    v.map_values(|e: (Vec<u8>, Vec<Version>)| (e.0@, e.1@))
}

impl View for KeyHistories {
    type V = Seq<History>;

    closed spec fn view(&self) -> Seq<History> {
        histories_view(self.entries@)
    }
}

/// The newest update stamped at or before `seq`, searched from the end.
fn visible_exec(vs: &Vec<Version>, seq: u64) -> (r: Option<RecordId>)
    ensures
        r == visible(vs@, seq),
{
    let mut i: usize = vs.len();
    proof {
        assert(vs@.take(vs@.len() as int) =~= vs@);
    }
    while i > 0
        invariant
            i <= vs@.len(),
            visible(vs@, seq) == visible(vs@.take(i as int), seq),
        decreases i,
    {
        let v = vs[i - 1];
        proof {
            assert(vs@.take(i as int).drop_last() =~= vs@.take(i - 1));
            assert(vs@.take(i as int).last() == v);
        }
        if v.sequence <= seq {
            return v.rid;
        }
        i = i - 1;
    }
    None
}

impl KeyHistories {
    /// Keys in order, each with an update.
    pub open spec fn wf(&self) -> bool {
        histories_wf(self@)
    }

    pub fn new() -> (h: KeyHistories)
        ensures
            h.wf(),
            h@ == Seq::<History>::empty(),
    {
        let h = KeyHistories { entries: Vec::new() };
        proof {
            assert(h@ =~= Seq::<History>::empty());
        }
        h
    }

    /// Where key `k` is, or goes, and whether it is there.
    fn find(&self, k: &[u8]) -> (r: (usize, bool))
        requires
            self.wf(),
        ensures
            r.0 == history_pos(self@, k@),
            r.1 == has_history(self@, k@),
            r.0 <= self@.len(),
            forall|j: int| 0 <= j < r.0 ==> bytes_lt(#[trigger] self@[j].0, k@),
            forall|j: int| r.0 <= j < self@.len() ==> !bytes_lt(#[trigger] self@[j].0, k@),
    {
        let ghost v = self@;
        let mut i: usize = 0;
        while i < self.entries.len()
            invariant
                v == self@,
                histories_wf(v),
                i <= v.len(),
                v.len() == self.entries@.len(),
                forall|j: int| 0 <= j < i ==> bytes_lt(#[trigger] v[j].0, k@),
            ensures
                i <= v.len(),
                forall|j: int| 0 <= j < i ==> bytes_lt(#[trigger] v[j].0, k@),
                i < v.len() ==> !bytes_lt(v[i as int].0, k@),
            decreases v.len() - i,
        {
            proof {
                assert(v[i as int].0 == self.entries@[i as int].0@);
            }
            if compare_bytes(self.entries[i].0.as_slice(), k) != -1 {
                break;
            }
            i = i + 1;
        }
        proof {
            assert forall|j: int| i <= j < v.len() implies !bytes_lt(#[trigger] v[j].0, k@) by {
                if j > i {
                    assert(bytes_lt(v[i as int].0, v[j].0));
                    if bytes_lt(v[j].0, k@) {
                        lemma_bytes_lt_transitive(v[i as int].0, v[j].0, k@);
                    }
                }
            }
            lemma_filter_prefix(v, history_before(k@), i as int);
            assert(v.take(i as int).len() == i);
        }
        let found = if i < self.entries.len() {
            proof {
                assert(v[i as int].0 == self.entries@[i as int].0@);
            }
            compare_bytes(self.entries[i].0.as_slice(), k) == 0
        } else {
            false
        };
        (i, found)
    }

    /// Record update `u` of key `k`, after its earlier ones.
    pub fn record(&mut self, k: &[u8], u: Version)
        requires
            old(self).wf(),
        ensures
            final(self).wf(),
            final(self)@ == record_version(old(self)@, k@, u),
    {
        let ghost v = self@;
        let (p, found) = self.find(k);
        if found {
            let (key, mut vs) = self.entries.remove(p);
            proof {
                assert(v[p as int] == (key@, vs@));
            }
            vs.push(u);
            let ghost e = (key@, vs@);
            self.entries.insert(p, (key, vs));
            proof {
                let w = self@;
                assert(w =~= v.update(p as int, e));
                assert forall|a: int, b: int| 0 <= a < b < w.len() implies bytes_lt(w[a].0, w[b].0) by {
                    assert(w[a].0 == v[a].0 && w[b].0 == v[b].0);
                }
                assert forall|a: int| 0 <= a < w.len() implies (#[trigger] w[a].1).len() > 0 by {
                    if a != p {
                        assert(w[a] == v[a]);
                    }
                }
            }
        } else {
            let mut vs: Vec<Version> = Vec::new();
            vs.push(u);
            let key = copy_bytes(k);
            let ghost e = (key@, vs@);
            self.entries.insert(p, (key, vs));
            proof {
                let w = self@;
                assert(w =~= v.insert(p as int, e));
                assert(vs@ =~= seq![u]);
                assert forall|j: int| p <= j < v.len() implies bytes_lt(k@, #[trigger] v[j].0) by {
                    lemma_bytes_lt_total(v[j].0, k@);
                    if j > p {
                        assert(bytes_lt(v[p as int].0, v[j].0));
                        lemma_bytes_lt_total(v[p as int].0, k@);
                        if v[j].0 == k@ {
                            lemma_bytes_lt_asymmetric(v[p as int].0, k@);
                        }
                    }
                }
                assert forall|a: int, b: int| 0 <= a < b < w.len() implies bytes_lt(w[a].0, w[b].0) by {
                    if b < p {
                        assert(w[a] == v[a] && w[b] == v[b]);
                    } else if b == p {
                        assert(w[a] == v[a]);
                    } else if a == p {
                        assert(w[b] == v[b - 1]);
                    } else if a < p {
                        assert(w[a] == v[a] && w[b] == v[b - 1]);
                        lemma_bytes_lt_transitive(v[a].0, k@, v[b - 1].0);
                    } else {
                        assert(w[a] == v[a - 1] && w[b] == v[b - 1]);
                    }
                }
                assert forall|a: int| 0 <= a < w.len() implies (#[trigger] w[a].1).len() > 0 by {
                    if a < p {
                        assert(w[a] == v[a]);
                    } else if a > p {
                        assert(w[a] == v[a - 1]);
                    }
                }
            }
        }
    }

    /// Replace key `k`'s updates by `vs`; no updates remove the key.
    pub fn set_versions(&mut self, k: &[u8], vs: Vec<Version>)
        requires
            old(self).wf(),
        ensures
            final(self).wf(),
            final(self)@ == put_history(old(self)@, k@, vs@),
    {
        let ghost v = self@;
        let (p, found) = self.find(k);
        proof {
            lemma_put_history_wf(v, k@, vs@);
        }
        if found {
            if vs.len() > 0 {
                let (key, _old) = self.entries.remove(p);
                proof {
                    assert(v[p as int].0 == key@);
                }
                let ghost e = (key@, vs@);
                self.entries.insert(p, (key, vs));
                proof {
                    assert(self@ =~= v.update(p as int, e));
                }
            } else {
                self.entries.remove(p);
                proof {
                    assert(self@ =~= v.remove(p as int));
                }
            }
        } else if vs.len() > 0 {
            let key = copy_bytes(k);
            let ghost e = (key@, vs@);
            self.entries.insert(p, (key, vs));
            proof {
                assert(self@ =~= v.insert(p as int, e));
            }
        }
    }

    /// Histories from rows in order, a later row for a key replacing an
    /// earlier one.
    pub fn from_rows(rows: &Vec<(Vec<u8>, Vec<Version>)>) -> (h: KeyHistories)
        ensures
            h.wf(),
            h@ == histories_from(histories_view(rows@)),
    {
        let ghost r = histories_view(rows@);
        let mut h = KeyHistories::new();
        let mut i: usize = 0;
        proof {
            assert(r.take(0) =~= Seq::<History>::empty());
        }
        while i < rows.len()
            invariant
                r == histories_view(rows@),
                i <= rows@.len(),
                h.wf(),
                h@ == histories_from(r.take(i as int)),
            decreases rows@.len() - i,
        {
            proof {
                assert(r.take(i + 1).drop_last() =~= r.take(i as int));
                assert(r.take(i + 1).last() == r[i as int]);
                assert(r[i as int] == (rows@[i as int].0@, rows@[i as int].1@));
            }
            let vs = copy_versions(&rows[i].1);
            h.set_versions(rows[i].0.as_slice(), vs);
            i = i + 1;
        }
        proof {
            assert(r.take(i as int) =~= r);
        }
        h
    }

    /// The keys with their updates, in key order, as rows.
    pub fn rows(&self) -> (out: Vec<(Vec<u8>, Vec<Version>)>)
        ensures
            histories_view(out@) == self@,
    {
        let mut out: Vec<(Vec<u8>, Vec<Version>)> = Vec::new();
        let mut i: usize = 0;
        while i < self.entries.len()
            invariant
                i <= self.entries@.len(),
                histories_view(out@) == histories_view(self.entries@).take(i as int),
            decreases self.entries@.len() - i,
        {
            let key = copy_bytes(self.entries[i].0.as_slice());
            let vs = copy_versions(&self.entries[i].1);
            let ghost before = histories_view(out@);
            out.push((key, vs));
            proof {
                assert(histories_view(out@) =~= before.push((key@, vs@)));
                assert(histories_view(self.entries@).take(i + 1) =~= histories_view(self.entries@).take(i as int).push(
                    (self.entries@[i as int].0@, self.entries@[i as int].1@),
                ));
            }
            i = i + 1;
        }
        proof {
            assert(histories_view(self.entries@).take(i as int) =~= histories_view(self.entries@));
        }
        out
    }

    /// What a read of key `k` at sequence `seq` sees.
    pub fn get_at(&self, k: &[u8], seq: u64) -> (r: Option<RecordId>)
        requires
            self.wf(),
        ensures
            r == visible(versions_of(self@, k@), seq),
    {
        let (p, found) = self.find(k);
        if found {
            proof {
                assert(self@[p as int].1 == self.entries@[p as int].1@);
            }
            visible_exec(&self.entries[p].1, seq)
        } else {
            None
        }
    }

    /// The live keys in `[lo, hi)` with their records, in key order.
    pub fn live_range(&self, lo: Option<&[u8]>, hi: Option<&[u8]>) -> (out: Vec<(Vec<u8>, RecordId)>)
        ensures
            out@.map_values(|r: (Vec<u8>, RecordId)| (r.0@, r.1)) == live_rows(
                self@,
                match lo {
                    Some(l) => Some(l@),
                    None => None,
                },
                match hi {
                    Some(h) => Some(h@),
                    None => None,
                },
            ),
    {
        let ghost v = self@;
        let ghost lv = match lo {
            Some(l) => Some(l@),
            None => None::<Seq<u8>>,
        };
        let ghost hv = match hi {
            Some(h) => Some(h@),
            None => None::<Seq<u8>>,
        };
        let mut out: Vec<(Vec<u8>, RecordId)> = Vec::new();
        let mut i: usize = 0;
        proof {
            assert(v.take(0) =~= Seq::<History>::empty());
            assert(out@.map_values(|r: (Vec<u8>, RecordId)| (r.0@, r.1)) =~= Seq::<(Seq<u8>, RecordId)>::empty());
        }
        while i < self.entries.len()
            invariant
                v == self@,
                v.len() == self.entries@.len(),
                i <= v.len(),
                lv == (match lo {
                    Some(l) => Some(l@),
                    None => None::<Seq<u8>>,
                }),
                hv == (match hi {
                    Some(h) => Some(h@),
                    None => None::<Seq<u8>>,
                }),
                out@.map_values(|r: (Vec<u8>, RecordId)| (r.0@, r.1)) == live_rows(v.take(i as int), lv, hv),
            decreases v.len() - i,
        {
            let key = &self.entries[i].0;
            let ghost before = out@.map_values(|r: (Vec<u8>, RecordId)| (r.0@, r.1));
            proof {
                assert(v[i as int] == (key@, self.entries@[i as int].1@));
                assert(v.take(i + 1).drop_last() =~= v.take(i as int));
                assert(v.take(i + 1).last() == v[i as int]);
            }
            let above = match lo {
                Some(l) => compare_bytes(key.as_slice(), l) != -1,
                None => true,
            };
            let below = match hi {
                Some(h) => compare_bytes(key.as_slice(), h) == -1,
                None => true,
            };
            if above && below {
                match visible_exec(&self.entries[i].1, u64::MAX) {
                    Some(rid) => {
                        out.push((copy_bytes(key.as_slice()), rid));
                        proof {
                            assert(out@.map_values(|r: (Vec<u8>, RecordId)| (r.0@, r.1)) =~= before.push((key@, rid)));
                        }
                    },
                    None => {},
                }
            }
            i = i + 1;
        }
        proof {
            assert(v.take(i as int) =~= v);
        }
        out
    }

    /// Keep each key's newest update; drop keys whose newest update is a
    /// delete.
    pub fn compact(&mut self)
        requires
            old(self).wf(),
        ensures
            final(self).wf(),
            final(self)@ == compacted(old(self)@),
    {
        let ghost v = self@;
        let mut out: Vec<(Vec<u8>, Vec<Version>)> = Vec::new();
        let mut i: usize = 0;
        proof {
            assert(v.take(0) =~= Seq::<History>::empty());
            assert(histories_view(out@) =~= Seq::<History>::empty());
        }
        while i < self.entries.len()
            invariant
                v == self@,
                histories_wf(v),
                v.len() == self.entries@.len(),
                i <= v.len(),
                histories_view(out@) == compacted(v.take(i as int)),
                histories_wf(histories_view(out@)),
                forall|a: int| 0 <= a < out@.len() ==> exists|k: int| 0 <= k < i && (#[trigger] out@[a]).0@ == v[k].0,
            decreases v.len() - i,
        {
            let ghost before = histories_view(out@);
            let ghost oo = out@;
            proof {
                assert(v[i as int] == (self.entries@[i as int].0@, self.entries@[i as int].1@));
                assert(v.take(i + 1).drop_last() =~= v.take(i as int));
                assert(v.take(i + 1).last() == v[i as int]);
                assert(v[i as int].1.len() > 0);
            }
            let n = self.entries[i].1.len();
            let last = self.entries[i].1[n - 1];
            if last.rid.is_some() {
                let mut one: Vec<Version> = Vec::new();
                one.push(last);
                let key = copy_bytes(self.entries[i].0.as_slice());
                let ghost e = (key@, one@);
                out.push((key, one));
                proof {
                    let w = histories_view(out@);
                    assert(one@ =~= seq![last]);
                    assert(w =~= before.push(e));
                    assert forall|a: int, b: int| 0 <= a < b < w.len() implies bytes_lt(w[a].0, w[b].0) by {
                        if b == w.len() - 1 {
                            assert(out@[a] == oo[a]);
                            let k = choose|k: int| 0 <= k < i && oo[a].0@ == v[k].0;
                            assert(bytes_lt(v[k].0, v[i as int].0));
                        } else {
                            assert(w[a] == before[a] && w[b] == before[b]);
                        }
                    }
                    assert forall|a: int| 0 <= a < w.len() implies (#[trigger] w[a].1).len() > 0 by {
                        if a < before.len() {
                            assert(w[a] == before[a]);
                        }
                    }
                    assert forall|a: int| 0 <= a < out@.len() implies exists|k: int| 0 <= k < i + 1 && (#[trigger] out@[a]).0@ == v[k].0 by {
                        if a < oo.len() {
                            assert(out@[a] == oo[a]);
                            let k = choose|k: int| 0 <= k < i && oo[a].0@ == v[k].0;
                        } else {
                            assert(out@[a].0@ == v[i as int].0);
                        }
                    }
                }
            } else {
                proof {
                    assert forall|a: int| 0 <= a < out@.len() implies exists|k: int| 0 <= k < i + 1 && (#[trigger] out@[a]).0@ == v[k].0 by {
                        let k = choose|k: int| 0 <= k < i && out@[a].0@ == v[k].0;
                    }
                }
            }
            i = i + 1;
        }
        proof {
            assert(v.take(i as int) =~= v);
        }
        self.entries = out;
    }

    /// The number of live keys.
    pub fn live_count(&self) -> (n: usize)
        ensures
            n == live_rows(self@, None, None).len(),
    {
        let rows = self.live_range(None, None);
        rows.len()
    }

    /// The number of updates over all keys, capped at `u64::MAX`.
    pub fn version_count(&self) -> (n: u64)
        ensures
            n == if versions_total(self@) <= u64::MAX {
                versions_total(self@)
            } else {
                u64::MAX as nat
            },
    {
        let ghost v = self@;
        let mut n: u64 = 0;
        let mut i: usize = 0;
        proof {
            assert(v.take(0) =~= Seq::<History>::empty());
        }
        while i < self.entries.len()
            invariant
                v == self@,
                v.len() == self.entries@.len(),
                i <= v.len(),
                n == if versions_total(v.take(i as int)) <= u64::MAX {
                    versions_total(v.take(i as int))
                } else {
                    u64::MAX as nat
                },
            decreases v.len() - i,
        {
            proof {
                assert(v.take(i + 1).drop_last() =~= v.take(i as int));
                assert(v.take(i + 1).last() == v[i as int]);
                assert(v[i as int].1 == self.entries@[i as int].1@);
            }
            n = n.saturating_add(self.entries[i].1.len() as u64);
            i = i + 1;
        }
        proof {
            assert(v.take(i as int) =~= v);
        }
        n
    }
}


/// The histories after updates applied in turn, each to its key.
pub open spec fn apply_updates(v: Seq<History>, ups: Seq<(Seq<u8>, Version)>) -> Seq<History>
    decreases ups.len(),
{
    if ups.len() == 0 {
        v
    } else {
        record_version(apply_updates(v, ups.drop_last()), ups.last().0, ups.last().1)
    }
}

/// The updates of key `k` among `ups`, in the order applied.
pub open spec fn updates_for(ups: Seq<(Seq<u8>, Version)>, k: Seq<u8>) -> Seq<Version>
    decreases ups.len(),
{
    if ups.len() == 0 {
        Seq::empty()
    } else if ups.last().0 == k {
        updates_for(ups.drop_last(), k).push(ups.last().1)
    } else {
        updates_for(ups.drop_last(), k)
    }
}

/// Applying updates in turn keeps the histories well formed, and gives
/// each key its earlier updates followed by its own updates in the order
/// applied; the other keys are untouched by them.
pub proof fn lemma_apply_updates(v: Seq<History>, ups: Seq<(Seq<u8>, Version)>, k: Seq<u8>)
    requires
        histories_wf(v),
    ensures
        histories_wf(apply_updates(v, ups)),
        versions_of(apply_updates(v, ups), k) == versions_of(v, k) + updates_for(ups, k),
    decreases ups.len(),
{
    if ups.len() == 0 {
        assert(versions_of(v, k) + Seq::<Version>::empty() =~= versions_of(v, k));
    } else {
        let d = ups.drop_last();
        lemma_apply_updates(v, d, k);
        let w = apply_updates(v, d);
        lemma_record_wf(w, ups.last().0, ups.last().1);
        lemma_record_versions(w, ups.last().0, ups.last().1, k);
        if ups.last().0 == k {
            assert(versions_of(v, k) + updates_for(d, k).push(ups.last().1) =~= (versions_of(v, k)
                + updates_for(d, k)).push(ups.last().1));
        }
    }
}

/// Starting from no histories, a read of `k` at `seq` after updates
/// applied in turn sees what the last update of `k` stamped at or before
/// `seq` left: its record for a put, nothing for a delete, and nothing when
/// no update of `k` is stamped at or before `seq`.
pub proof fn lemma_reads_after_updates(ups: Seq<(Seq<u8>, Version)>, k: Seq<u8>, seq: u64)
    ensures
        versions_of(apply_updates(Seq::empty(), ups), k) == updates_for(ups, k),
        ({
            let us = updates_for(ups, k);
            &&& (forall|i: int| 0 <= i < us.len() ==> (#[trigger] us[i]).sequence > seq)
                ==> visible(versions_of(apply_updates(Seq::empty(), ups), k), seq) is None
            &&& forall|i: int|
                0 <= i < us.len() && (#[trigger] us[i]).sequence <= seq && (forall|j: int|
                    i < j < us.len() ==> (#[trigger] us[j]).sequence > seq)
                    ==> visible(versions_of(apply_updates(Seq::empty(), ups), k), seq) == us[i].rid
        }),
{
    let e = Seq::<History>::empty();
    assert(histories_wf(e));
    lemma_apply_updates(e, ups, k);
    assert(!has_history(e, k));
    assert(Seq::<Version>::empty() + updates_for(ups, k) =~= updates_for(ups, k));
    lemma_visible_last(updates_for(ups, k), seq);
}


/// In well-formed histories, a key other than the newest has the same
/// updates without the newest key.
proof fn lemma_versions_drop_last(v: Seq<History>, k: Seq<u8>)
    requires
        histories_wf(v),
        v.len() > 0,
        k != v.last().0,
    ensures
        versions_of(v, k) == versions_of(v.drop_last(), k),
{
    let d = v.drop_last();
    lemma_wf_drop_last(v);
    if has_history(d, k) {
        let p = history_pos(d, k);
        lemma_pos_split(d, k);
        assert(d[p] == v[p]);
        lemma_history_at(d, p);
        lemma_history_at(v, p);
    } else if has_history(v, k) {
        let p = history_pos(v, k);
        lemma_pos_split(v, k);
        assert(p < v.len() - 1);
        assert(d[p] == v[p]);
        lemma_history_at(d, p);
    }
}

/// The live keys of well-formed histories are in strictly increasing
/// order, and they are exactly the keys whose newest update is a record.
pub proof fn lemma_live_keys(v: Seq<History>)
    requires
        histories_wf(v),
    ensures
        forall|i: int, j: int| 0 <= i < j < live_keys(v).len() ==> bytes_lt(live_keys(v)[i], live_keys(v)[j]),
        forall|k: Seq<u8>| #[trigger] live_keys(v).contains(k) <==> visible(versions_of(v, k), u64::MAX) is Some,
    decreases v.len(),
{
    if v.len() == 0 {
        assert forall|k: Seq<u8>| #[trigger] live_keys(v).contains(k) <==> visible(versions_of(v, k), u64::MAX) is Some by {
            assert(!has_history(v, k));
        }
    } else {
        let d = v.drop_last();
        let e = v.last();
        let n = v.len() - 1;
        lemma_wf_drop_last(v);
        lemma_live_keys(d);
        lemma_history_at(v, n);
        let ld = live_keys(d);
        let lv = live_keys(v);
        let f = |r: (Seq<u8>, RecordId)| r.0;
        assert(ld == live_rows(d, None, None).map_values(f));
        assert(!has_history(d, e.0)) by {
            if has_history(d, e.0) {
                let p = history_pos(d, e.0);
                lemma_pos_split(d, e.0);
                assert(d[p] == v[p]);
                assert(bytes_lt(v[p].0, v[n].0));
                lemma_bytes_lt_irreflexive(e.0);
            }
        }
        assert forall|m: int| 0 <= m < ld.len() implies bytes_lt(#[trigger] ld[m], e.0) by {
            let k = ld[m];
            assert(ld.contains(k));
            let p = history_pos(d, k);
            assert(has_history(d, k));
            lemma_pos_split(d, k);
            assert(d[p] == v[p]);
            assert(bytes_lt(v[p].0, v[n].0));
        }
        if visible(e.1, u64::MAX) is Some {
            assert(lv =~= ld.push(e.0));
        } else {
            assert(lv =~= ld);
        }
        assert forall|k: Seq<u8>| #[trigger] lv.contains(k) <==> visible(versions_of(v, k), u64::MAX) is Some by {
            if k != e.0 {
                lemma_versions_drop_last(v, k);
                if lv.contains(k) {
                    let m = choose|m: int| 0 <= m < lv.len() && lv[m] == k;
                    if m < ld.len() {
                        assert(ld[m] == k);
                    }
                }
                if ld.contains(k) {
                    let m = choose|m: int| 0 <= m < ld.len() && ld[m] == k;
                    assert(lv[m] == k);
                }
            } else {
                if ld.contains(k) {
                    let m = choose|m: int| 0 <= m < ld.len() && ld[m] == k;
                    assert(bytes_lt(ld[m], e.0));
                    lemma_bytes_lt_irreflexive(e.0);
                }
                if visible(e.1, u64::MAX) is Some {
                    assert(lv[lv.len() - 1] == k);
                }
            }
        }
    }
}

} // verus!
