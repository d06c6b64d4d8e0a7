//! How an inverted index's state is laid out as snapshot rows, how rows
//! are applied to rebuild a state, and the proof that applying an index's
//! own rows rebuilds it.
use crate::bytes_order::{
    compare_bytes, lemma_bytes_lt_asymmetric, lemma_bytes_lt_irreflexive, lemma_bytes_lt_total,
    lemma_bytes_lt_transitive,
};
use crate::index::inverted_format::freq_list_view;
use crate::io::binary::copy_bytes;
use crate::text::from_utf8_lossy;
use crate::index::keyed_sets::{
    before_value, has_value, id_before, id_words, ids_sorted, remove_key, scalar_insert,
    scalar_wf, set_insert, term_rows_of, total_ids, value_lt, value_pos, ValueEntry,
};
use crate::index::field_sets::{
    field_insert, field_pos, field_remove_pair, field_rows, fields_sorted, has_field,
    pair_rows_of, FieldEntry,
};
use crate::index::inverted::Bm25State;
use crate::index::inverted_format::{FreqEntry, FreqRow, LengthRow, PairRow, SnapshotRows, TermRow};
use crate::bytes_order::bytes_lt;
use crate::text::utf8_lossy;
use vstd::utf8::{decode_utf8, encode_utf8, valid_utf8};
use crate::seqs::{lemma_filter_all, lemma_filter_prefix};
use crate::store::RecordId;
use vstd::prelude::*;

verus! {

broadcast use vstd::seq_lib::group_seq_lib_default;

/// The records with the given numbers.
pub open spec fn records(ids: Seq<u64>) -> Seq<RecordId> {
    ids.map_values(|x: u64| RecordId(x))
}

/// The records `ids` filed under `t`, one after another.
pub open spec fn insert_ids(v: Seq<ValueEntry>, t: Seq<u8>, ids: Seq<u64>) -> Seq<ValueEntry>
    decreases ids.len(),
{
    if ids.len() == 0 {
        v
    } else {
        scalar_insert(insert_ids(v, t, ids.drop_last()), t, RecordId(ids.last()))
    }
}

/// A term row applied: the term's records become those of the row.
pub open spec fn assign_term(v: Seq<ValueEntry>, r: TermRow) -> Seq<ValueEntry> {
    insert_ids(remove_key(v, r.0), r.0, r.1)
}

/// Term rows applied one after another, from no terms.
pub open spec fn build_terms(rows: Seq<TermRow>) -> Seq<ValueEntry>
    decreases rows.len(),
{
    if rows.len() == 0 {
        Seq::empty()
    } else {
        assign_term(build_terms(rows.drop_last()), rows.last())
    }
}

/// The numbers are strictly increasing.
pub open spec fn words_increasing(ids: Seq<u64>) -> bool {
    forall|i: int, j: int| 0 <= i < j < ids.len() ==> ids[i] < ids[j]
}

/// Where a key greater than every key of `v` goes: at the end, and it is
/// not there yet.
proof fn lemma_pos_after(v: Seq<ValueEntry>, t: Seq<u8>)
    requires
        forall|i: int| 0 <= i < v.len() ==> value_lt(#[trigger] v[i].0, t),
    ensures
        value_pos(v, t) == v.len(),
        !has_value(v, t),
        remove_key(v, t) == v,
{
    lemma_filter_all(v, before_value(t));
}

/// With the key last, it is found there.
proof fn lemma_pos_last(v: Seq<ValueEntry>, e: ValueEntry)
    requires
        forall|i: int| 0 <= i < v.len() ==> value_lt(#[trigger] v[i].0, e.0),
    ensures
        value_pos(v.push(e), e.0) == v.len(),
        has_value(v.push(e), e.0),
{
    let w = v.push(e);
    lemma_bytes_lt_irreflexive(e.0);
    assert forall|j: int| 0 <= j < v.len() implies #[trigger] before_value(e.0)(w[j]) by {
        assert(w[j] == v[j]);
    }
    lemma_filter_prefix(w, before_value(e.0), v.len() as int);
    assert(w.take(v.len() as int) =~= v);
}

/// Filing increasing records under a key greater than every key of `v`
/// appends the key with those records.
proof fn lemma_insert_ids_after(v: Seq<ValueEntry>, t: Seq<u8>, ids: Seq<u64>)
    requires
        forall|i: int| 0 <= i < v.len() ==> value_lt(#[trigger] v[i].0, t),
        words_increasing(ids),
    ensures
        insert_ids(v, t, ids) == if ids.len() == 0 {
            v
        } else {
            v.push((t, records(ids)))
        },
    decreases ids.len(),
{
    if ids.len() > 0 {
        let p = ids.drop_last();
        let x = ids.last();
        lemma_insert_ids_after(v, t, p);
        if p.len() == 0 {
            lemma_pos_after(v, t);
            assert(records(ids) =~= seq![RecordId(x)]);
            assert(v.insert(v.len() as int, (t, seq![RecordId(x)])) =~= v.push((t, records(ids))));
        } else {
            let s = records(p);
            lemma_pos_last(v, (t, s));
            let w = v.push((t, s));
            assert(w[v.len() as int] == (t, s));
            assert forall|j: int| 0 <= j < s.len() implies #[trigger] id_before(RecordId(x))(s[j]) by {
                assert(s[j] == RecordId(p[j]));
                assert(p[j] == ids[j]);
            }
            lemma_filter_all(s, id_before(RecordId(x)));
            assert(!s.contains(RecordId(x))) by {
                if s.contains(RecordId(x)) {
                    let j = choose|j: int| 0 <= j < s.len() && s[j] == RecordId(x);
                    assert(id_before(RecordId(x))(s[j]));
                }
            }
            assert(set_insert(s, RecordId(x)) =~= records(ids));
            assert(w.update(v.len() as int, (t, records(ids))) =~= v.push((t, records(ids))));
        }
    }
}

/// An index's own term rows, applied from no terms, rebuild its terms.
pub proof fn lemma_build_terms(v: Seq<ValueEntry>)
    requires
        scalar_wf(v),
    ensures
        build_terms(term_rows_of(v)) == v,
    decreases v.len(),
{
    if v.len() > 0 {
        let w = v.drop_last();
        let e = v.last();
        assert(term_rows_of(v).drop_last() =~= term_rows_of(w));
        assert(term_rows_of(v).last() == (e.0, id_words(e.1)));
        assert forall|i: int| 0 <= i < w.len() implies ids_sorted(#[trigger] w[i].1) && w[i].1.len()
            > 0 by {
            assert(w[i] == v[i]);
        }
        assert forall|i: int, j: int| 0 <= i < j < w.len() implies value_lt(w[i].0, w[j].0) by {
            assert(w[i] == v[i] && w[j] == v[j]);
        }
        assert(total_ids(w) <= total_ids(v));
        lemma_build_terms(w);
        assert forall|i: int| 0 <= i < w.len() implies value_lt(#[trigger] w[i].0, e.0) by {
            assert(w[i] == v[i]);
            assert(v[v.len() - 1] == e);
        }
        lemma_pos_after(w, e.0);
        assert(ids_sorted(v[v.len() - 1].1));
        lemma_insert_ids_after(w, e.0, id_words(e.1));
        assert(records(id_words(e.1)) =~= e.1);
        assert(w.push(e) =~= v);
    }
}

/// The name a field is read back under: its bytes when they are valid
/// UTF-8, else its lossy decoding encoded again.
pub open spec fn field_name(f: Seq<u8>) -> Seq<u8> {
    if valid_utf8(f) {
        f
    } else {
        encode_utf8(utf8_lossy(f))
    }
}

/// The records `ids` filed under (`f`, `t`), one after another.
pub open spec fn insert_field_ids(v: Seq<FieldEntry>, f: Seq<u8>, t: Seq<u8>, ids: Seq<u64>) -> Seq<
    FieldEntry,
>
    decreases ids.len(),
{
    if ids.len() == 0 {
        v
    } else {
        field_insert(insert_field_ids(v, f, t, ids.drop_last()), f, t, RecordId(ids.last()))
    }
}

/// A field-pair row applied: the pair's records become those of the row.
pub open spec fn assign_pair(v: Seq<FieldEntry>, r: PairRow) -> Seq<FieldEntry> {
    insert_field_ids(field_remove_pair(v, field_name(r.0), r.1), field_name(r.0), r.1, r.2)
}

/// Field-pair rows applied one after another, from `v`.
pub open spec fn build_pairs_from(v: Seq<FieldEntry>, rows: Seq<PairRow>) -> Seq<FieldEntry>
    decreases rows.len(),
{
    if rows.len() == 0 {
        v
    } else {
        assign_pair(build_pairs_from(v, rows.drop_last()), rows.last())
    }
}

/// Field-pair rows applied one after another, from no fields.
pub open spec fn build_pairs(rows: Seq<PairRow>) -> Seq<FieldEntry> {
    build_pairs_from(Seq::empty(), rows)
}

/// Field names are valid UTF-8.
pub open spec fn names_valid(v: Seq<FieldEntry>) -> bool {
    forall|i: int| 0 <= i < v.len() ==> valid_utf8(#[trigger] v[i].0)
}

/// Applying rows `a` then rows `b` is applying `a + b`.
proof fn lemma_build_pairs_concat(v: Seq<FieldEntry>, a: Seq<PairRow>, b: Seq<PairRow>)
    ensures
        build_pairs_from(v, a + b) == build_pairs_from(build_pairs_from(v, a), b),
    decreases b.len(),
{
    if b.len() == 0 {
        assert(a + b =~= a);
    } else {
        lemma_build_pairs_concat(v, a, b.drop_last());
        assert((a + b).drop_last() =~= a + b.drop_last());
        assert((a + b).last() == b.last());
    }
}

/// A field named after every field of `pre` is found, or goes, after them.
proof fn lemma_field_after(pre: Seq<FieldEntry>, f: Seq<u8>)
    requires
        forall|i: int| 0 <= i < pre.len() ==> bytes_lt(#[trigger] pre[i].0, f),
    ensures
        field_pos(pre, f) == pre.len(),
        !has_field(pre, f),
        forall|kv: Seq<ValueEntry>| #![trigger pre.push((f, kv))]
            field_pos(pre.push((f, kv)), f) == pre.len() && has_field(pre.push((f, kv)), f),
{
    lemma_bytes_lt_irreflexive(f);
    lemma_filter_all(pre, |e: FieldEntry| bytes_lt(e.0, f));
    assert forall|kv: Seq<ValueEntry>| #![trigger pre.push((f, kv))]
        field_pos(pre.push((f, kv)), f) == pre.len() && has_field(pre.push((f, kv)), f) by {
        let w = pre.push((f, kv));
        assert forall|j: int| 0 <= j < pre.len() implies bytes_lt(#[trigger] w[j].0, f) by {
            assert(w[j] == pre[j]);
        }
        lemma_filter_prefix(w, |e: FieldEntry| bytes_lt(e.0, f), pre.len() as int);
        assert(w.take(pre.len() as int) =~= pre);
        assert(w[pre.len() as int].0 == f);
    }
    assert(!has_field(pre, f)) by {
        if has_field(pre, f) {
            let i = choose|i: int| 0 <= i < pre.len() && pre[i].0 == f;
            assert(bytes_lt(pre[i].0, f));
        }
    }
}

/// Filing records under (`f`, `t`) where `f` is the last field files them
/// in that field's terms.
proof fn lemma_insert_field_ids_present(pre: Seq<FieldEntry>, f: Seq<u8>, kv: Seq<ValueEntry>, t: Seq<u8>, ids: Seq<u64>)
    requires
        forall|i: int| 0 <= i < pre.len() ==> bytes_lt(#[trigger] pre[i].0, f),
    ensures
        insert_field_ids(pre.push((f, kv)), f, t, ids) == pre.push((f, insert_ids(kv, t, ids))),
    decreases ids.len(),
{
    if ids.len() > 0 {
        lemma_insert_field_ids_present(pre, f, kv, t, ids.drop_last());
        let cur = insert_ids(kv, t, ids.drop_last());
        lemma_field_after(pre, f);
        assert(pre.push((f, cur)).update(pre.len() as int, (f, scalar_insert(cur, t, RecordId(ids.last()))))
            =~= pre.push((f, insert_ids(kv, t, ids)))) by {
            assert(pre.push((f, cur))[pre.len() as int] == (f, cur));
        }
        assert(pre.push((f, cur))[pre.len() as int].1 == cur);
    }
}

/// Filing records under (`f`, `t`) where `f` is after every field adds the
/// field at the end.
proof fn lemma_insert_field_ids_absent(pre: Seq<FieldEntry>, f: Seq<u8>, t: Seq<u8>, ids: Seq<u64>)
    requires
        forall|i: int| 0 <= i < pre.len() ==> bytes_lt(#[trigger] pre[i].0, f),
        ids.len() > 0,
    ensures
        insert_field_ids(pre, f, t, ids) == pre.push((f, insert_ids(Seq::empty(), t, ids))),
    decreases ids.len(),
{
    lemma_field_after(pre, f);
    if ids.len() == 1 {
        assert(ids.drop_last() =~= Seq::<u64>::empty());
        assert(insert_ids(Seq::empty(), t, ids.drop_last()) == Seq::<ValueEntry>::empty());
        assert(insert_field_ids(pre, f, t, ids.drop_last()) == pre);
        assert(pre.insert(pre.len() as int, (f, scalar_insert(Seq::empty(), t, RecordId(ids.last()))))
            =~= pre.push((f, insert_ids(Seq::empty(), t, ids))));
    } else {
        lemma_insert_field_ids_absent(pre, f, t, ids.drop_last());
        let cur = insert_ids(Seq::empty(), t, ids.drop_last());
        assert(pre.push((f, cur))[pre.len() as int] == (f, cur));
        assert(pre.push((f, cur)).update(pre.len() as int, (f, scalar_insert(cur, t, RecordId(ids.last()))))
            =~= pre.push((f, insert_ids(Seq::empty(), t, ids))));
    }
}

/// One field's rows, applied after fields that all sort before it, add the
/// field with its terms.
proof fn lemma_build_field(pre: Seq<FieldEntry>, f: Seq<u8>, kv: Seq<ValueEntry>)
    requires
        forall|i: int| 0 <= i < pre.len() ==> bytes_lt(#[trigger] pre[i].0, f),
        valid_utf8(f),
        scalar_wf(kv),
    ensures
        build_pairs_from(pre, field_rows(f, kv)) == if kv.len() == 0 {
            pre
        } else {
            pre.push((f, kv))
        },
    decreases kv.len(),
{
    if kv.len() > 0 {
        let w = kv.drop_last();
        let e = kv.last();
        assert forall|i: int| 0 <= i < w.len() implies ids_sorted(#[trigger] w[i].1) && w[i].1.len()
            > 0 by {
            assert(w[i] == kv[i]);
        }
        assert forall|i: int, j: int| 0 <= i < j < w.len() implies value_lt(w[i].0, w[j].0) by {
            assert(w[i] == kv[i] && w[j] == kv[j]);
        }
        assert(total_ids(w) <= total_ids(kv));
        lemma_build_field(pre, f, w);
        assert(field_rows(f, kv).drop_last() =~= field_rows(f, w));
        assert(field_rows(f, kv).last() == (f, e.0, id_words(e.1)));
        assert forall|i: int| 0 <= i < w.len() implies value_lt(#[trigger] w[i].0, e.0) by {
            assert(w[i] == kv[i]);
            assert(kv[kv.len() - 1] == e);
        }
        assert(ids_sorted(kv[kv.len() - 1].1));
        lemma_field_after(pre, f);
        lemma_pos_after(w, e.0);
        lemma_insert_ids_after(w, e.0, id_words(e.1));
        assert(records(id_words(e.1)) =~= e.1);
        assert(w.push(e) =~= kv);
        if w.len() == 0 {
            lemma_insert_field_ids_absent(pre, f, e.0, id_words(e.1));
            lemma_insert_ids_after(Seq::empty(), e.0, id_words(e.1));
            assert(Seq::<ValueEntry>::empty().push((e.0, records(id_words(e.1)))) =~= kv);
        } else {
            let cur = pre.push((f, w));
            assert(cur[pre.len() as int] == (f, w));
            assert(cur.update(pre.len() as int, (f, w)) =~= cur);
            lemma_insert_field_ids_present(pre, f, w, e.0, id_words(e.1));
        }
    }
}

/// An index's own field-pair rows, applied from no fields, rebuild its
/// field postings.
pub proof fn lemma_build_pairs(v: Seq<FieldEntry>)
    requires
        fields_sorted(v),
        names_valid(v),
        forall|i: int| 0 <= i < v.len() ==> scalar_wf(#[trigger] v[i].1),
    ensures
        build_pairs(pair_rows_of(v)) == v,
    decreases v.len(),
{
    if v.len() > 0 {
        let w = v.drop_last();
        let e = v.last();
        assert forall|i: int, j: int| 0 <= i < j < w.len() implies bytes_lt(w[i].0, w[j].0) by {
            assert(w[i] == v[i] && w[j] == v[j]);
        }
        assert forall|i: int| 0 <= i < w.len() implies (#[trigger] w[i].1).len() > 0 && scalar_wf(w[i].1)
            && valid_utf8(w[i].0) by {
            assert(w[i] == v[i]);
        }
        lemma_build_pairs(w);
        lemma_build_pairs_concat(Seq::empty(), pair_rows_of(w), field_rows(e.0, e.1));
        assert forall|i: int| 0 <= i < w.len() implies bytes_lt(#[trigger] w[i].0, e.0) by {
            assert(w[i] == v[i]);
            assert(v[v.len() - 1] == e);
        }
        assert(v[v.len() - 1] == e);
        lemma_build_field(w, e.0, e.1);
        assert(w.push(e) =~= v);
    }
}

/// The predicate "the entry's term sorts before `t`".
pub open spec fn term_before(t: Seq<u8>) -> spec_fn(FreqEntry) -> bool {
    |e: FreqEntry| bytes_lt(e.0, t)
}

/// Where term `t` is, or goes, in a frequency list.
pub open spec fn freq_pos(fl: Seq<FreqEntry>, t: Seq<u8>) -> int {
    fl.filter(term_before(t)).len() as int
}

/// A frequency list with entry `e` set: its term's entry replaced, or the
/// entry inserted in term order.
pub open spec fn freq_put(fl: Seq<FreqEntry>, e: FreqEntry) -> Seq<FreqEntry> {
    let p = freq_pos(fl, e.0);
    if p < fl.len() && fl[p].0 == e.0 {
        fl.update(p, e)
    } else {
        fl.insert(p, e)
    }
}

/// Frequency entries set one after another, from no entries.
pub open spec fn build_freq_list(es: Seq<FreqEntry>) -> Seq<FreqEntry>
    decreases es.len(),
{
    if es.len() == 0 {
        Seq::empty()
    } else {
        freq_put(build_freq_list(es.drop_last()), es.last())
    }
}

/// Terms in strictly increasing order.
pub open spec fn freqs_sorted(fl: Seq<FreqEntry>) -> bool {
    forall|i: int, j: int| 0 <= i < j < fl.len() ==> bytes_lt(fl[i].0, fl[j].0)
}

/// A sorted frequency list, set entry by entry, comes back as it was.
pub proof fn lemma_build_freq_list(fl: Seq<FreqEntry>)
    requires
        freqs_sorted(fl),
    ensures
        build_freq_list(fl) == fl,
    decreases fl.len(),
{
    if fl.len() > 0 {
        let w = fl.drop_last();
        let e = fl.last();
        assert forall|i: int, j: int| 0 <= i < j < w.len() implies bytes_lt(w[i].0, w[j].0) by {
            assert(w[i] == fl[i] && w[j] == fl[j]);
        }
        lemma_build_freq_list(w);
        assert forall|j: int| 0 <= j < w.len() implies #[trigger] term_before(e.0)(w[j]) by {
            assert(w[j] == fl[j]);
            assert(fl[fl.len() - 1] == e);
        }
        lemma_filter_all(w, term_before(e.0));
        assert(w.insert(w.len() as int, e) =~= fl);
    }
}

/// Rows of records applied one after another to an empty map: each record
/// mapped to `f` of its value, later rows winning.
pub open spec fn build_map<V>(rows: Seq<(u64, V)>, f: spec_fn(V) -> V) -> Map<u64, V>
    decreases rows.len(),
{
    if rows.len() == 0 {
        Map::empty()
    } else {
        build_map(rows.drop_last(), f).insert(rows.last().0, f(rows.last().1))
    }
}

/// The entries of `m` for the keys `ks`, in that order.
pub open spec fn key_rows<V>(ks: Seq<u64>, m: Map<u64, V>) -> Seq<(u64, V)> {
    ks.map_values(|k: u64| (k, m[k]))
}

/// `ks` lists the keys of `m`, each once, in increasing order.
pub open spec fn in_key_order<V>(ks: Seq<u64>, m: Map<u64, V>) -> bool {
    &&& forall|i: int, j: int| 0 <= i < j < ks.len() ==> ks[i] < ks[j]
    &&& forall|i: int| 0 <= i < ks.len() ==> m.contains_key(#[trigger] ks[i])
    &&& forall|k: u64| #[trigger] m.contains_key(k) ==> ks.contains(k)
}

proof fn lemma_build_map_prefix<V>(ks: Seq<u64>, m: Map<u64, V>, f: spec_fn(V) -> V, j: int)
    requires
        0 <= j <= ks.len(),
        forall|a: int, b: int| 0 <= a < b < ks.len() ==> ks[a] < ks[b],
        forall|i: int| 0 <= i < ks.len() ==> f(m[#[trigger] ks[i]]) == m[ks[i]],
    ensures
        forall|k: u64|
            #[trigger] build_map(key_rows(ks.take(j), m), f).contains_key(k) <==> exists|i: int|
                0 <= i < j && ks[i] == k,
        forall|i: int|
            0 <= i < j ==> build_map(key_rows(ks.take(j), m), f)[#[trigger] ks[i]] == m[ks[i]],
    decreases j,
{
    if j > 0 {
        lemma_build_map_prefix(ks, m, f, j - 1);
        let rows = key_rows(ks.take(j), m);
        assert(rows.drop_last() =~= key_rows(ks.take(j - 1), m));
        assert(rows.last() == (ks[j - 1], m[ks[j - 1]]));
        let prev = build_map(key_rows(ks.take(j - 1), m), f);
        assert forall|k: u64| #[trigger] build_map(rows, f).contains_key(k) <==> exists|i: int|
            0 <= i < j && ks[i] == k by {
            if k != ks[j - 1] && build_map(rows, f).contains_key(k) {
                assert(prev.contains_key(k));
                let i = choose|i: int| 0 <= i < j - 1 && ks[i] == k;
            }
        }
        assert forall|i: int| 0 <= i < j implies build_map(rows, f)[#[trigger] ks[i]] == m[ks[i]] by {
            if i < j - 1 {
                assert(ks[i] < ks[j - 1]);
                assert(prev[ks[i]] == m[ks[i]]);
            }
        }
    }
}

/// The entries of a map in key order, applied from an empty map, rebuild it
/// when `f` leaves its values unchanged.
pub proof fn lemma_build_map<V>(ks: Seq<u64>, m: Map<u64, V>, f: spec_fn(V) -> V)
    requires
        in_key_order(ks, m),
        forall|k: u64| #[trigger] m.contains_key(k) ==> f(m[k]) == m[k],
    ensures
        build_map(key_rows(ks, m), f) == m,
{
    assert forall|i: int| 0 <= i < ks.len() implies f(m[#[trigger] ks[i]]) == m[ks[i]] by {
        assert(m.contains_key(ks[i]));
    }
    lemma_build_map_prefix(ks, m, f, ks.len() as int);
    assert(ks.take(ks.len() as int) =~= ks);
    let b = build_map(key_rows(ks, m), f);
    assert forall|k: u64| #[trigger] b.contains_key(k) <==> m.contains_key(k) by {
        if m.contains_key(k) {
            assert(ks.contains(k));
            let i = choose|i: int| 0 <= i < ks.len() && ks[i] == k;
        }
        if b.contains_key(k) {
            let i = choose|i: int| 0 <= i < ks.len() && ks[i] == k;
        }
    }
    assert forall|k: u64| #[trigger] m.contains_key(k) implies b[k] == m[k] by {
        assert(ks.contains(k));
        let i = choose|i: int| 0 <= i < ks.len() && ks[i] == k;
    }
    assert(b =~= m);
}

/// How a frequency row's entries are applied.
pub open spec fn freq_list_fix() -> spec_fn(Seq<FreqEntry>) -> Seq<FreqEntry> {
    |fl: Seq<FreqEntry>| build_freq_list(fl)
}

/// How a length row's value is applied: as it stands.
pub open spec fn length_fix() -> spec_fn(u32) -> u32 {
    |n: u32| n
}

/// The statistics that rows rebuild.
pub open spec fn build_bm25(s: SnapshotRows) -> Bm25State {
    Bm25State {
        doc_lengths: build_map(s.lengths, length_fix()),
        term_frequencies: build_map(s.freqs, freq_list_fix()),
        doc_count: s.doc_count,
        total_terms: s.total_terms,
    }
}

/// The rows of an index's state, with its records read in the key orders
/// `tk` (frequencies) and `dk` (lengths).
pub open spec fn rows_of(
    terms: Seq<ValueEntry>,
    fields: Seq<FieldEntry>,
    b: Bm25State,
    tk: Seq<u64>,
    dk: Seq<u64>,
) -> SnapshotRows {
    SnapshotRows {
        doc_count: b.doc_count,
        total_terms: b.total_terms,
        terms: term_rows_of(terms),
        pairs: pair_rows_of(fields),
        freqs: key_rows(tk, b.term_frequencies),
        lengths: key_rows(dk, b.doc_lengths),
    }
}

/// Every frequency list of the statistics is in term order.
pub open spec fn bm25_sorted(b: Bm25State) -> bool {
    forall|k: u64| #[trigger] b.term_frequencies.contains_key(k) ==> freqs_sorted(b.term_frequencies[k])
}

/// The statistics' own rows rebuild them.
pub proof fn lemma_build_bm25(b: Bm25State, tk: Seq<u64>, dk: Seq<u64>)
    requires
        bm25_sorted(b),
        in_key_order(tk, b.term_frequencies),
        in_key_order(dk, b.doc_lengths),
    ensures
        build_bm25(rows_of(Seq::empty(), Seq::empty(), b, tk, dk)) == b,
{
    assert forall|k: u64| #[trigger] b.term_frequencies.contains_key(k) implies freq_list_fix()(
        b.term_frequencies[k],
    ) == b.term_frequencies[k] by {
        lemma_build_freq_list(b.term_frequencies[k]);
    }
    lemma_build_map(tk, b.term_frequencies, freq_list_fix());
    lemma_build_map(dk, b.doc_lengths, length_fix());
}

/// Set entry (`t`, `c`) in a frequency list kept in term order.
pub fn freq_put_exec(fl: &mut Vec<(Vec<u8>, u32)>, t: Vec<u8>, c: u32)
    requires
        freqs_sorted(freq_list_view(old(fl)@)),
    ensures
        freq_list_view(final(fl)@) == freq_put(freq_list_view(old(fl)@), (t@, c)),
        freqs_sorted(freq_list_view(final(fl)@)),
{
    let ghost v = freq_list_view(fl@);
    let mut p: usize = 0;
    while p < fl.len() && compare_bytes(fl[p].0.as_slice(), t.as_slice()) == -1
        invariant
            v == freq_list_view(fl@),
            p <= fl@.len(),
            forall|j: int| 0 <= j < p ==> bytes_lt(#[trigger] v[j].0, t@),
        decreases fl@.len() - p,
    {
        proof {
            assert(v[p as int].0 == fl@[p as int].0@);
        }
        p = p + 1;
    }
    let found = if p < fl.len() {
        proof {
            assert(v[p as int].0 == fl@[p as int].0@);
        }
        compare_bytes(fl[p].0.as_slice(), t.as_slice()) == 0
    } else {
        false
    };
    proof {
        assert forall|j: int| p <= j < v.len() implies !bytes_lt(#[trigger] v[j].0, t@) by {
            if j > p {
                lemma_bytes_lt_total(v[p as int].0, t@);
                if bytes_lt(v[j].0, t@) {
                    assert(bytes_lt(v[p as int].0, v[j].0));
                    lemma_bytes_lt_transitive(v[p as int].0, v[j].0, t@);
                    lemma_bytes_lt_asymmetric(v[p as int].0, t@);
                    if v[p as int].0 == t@ {
                        lemma_bytes_lt_irreflexive(t@);
                        lemma_bytes_lt_asymmetric(t@, v[j].0);
                    }
                }
            }
        }
        lemma_filter_prefix(v, term_before(t@), p as int);
        assert(v.take(p as int).len() == p);
    }
    let ghost e = (t@, c);
    if found {
        let _ = fl.remove(p);
        fl.insert(p, (t, c));
        proof {
            let w = freq_list_view(fl@);
            assert(w =~= v.update(p as int, e));
            assert forall|a: int, b: int| 0 <= a < b < w.len() implies bytes_lt(w[a].0, w[b].0) by {
                assert(w[a].0 == v[a].0 && w[b].0 == v[b].0);
            }
        }
    } else {
        fl.insert(p, (t, c));
        proof {
            let w = freq_list_view(fl@);
            assert(w =~= v.insert(p as int, e));
            assert forall|j: int| p <= j < v.len() implies bytes_lt(t@, #[trigger] v[j].0) by {
                lemma_bytes_lt_total(v[j].0, t@);
                if j > p {
                    assert(bytes_lt(v[p as int].0, v[j].0));
                    lemma_bytes_lt_total(v[p as int].0, t@);
                    if v[j].0 == t@ {
                        lemma_bytes_lt_asymmetric(v[p as int].0, t@);
                    }
                }
            }
            assert forall|a: int, b: int| 0 <= a < b < w.len() implies bytes_lt(w[a].0, w[b].0) by {
                if b < p {
                    assert(w[a] == v[a] && w[b] == v[b]);
                } else if b == p {
                    assert(w[a] == v[a]);
                } else if a == p {
                    assert(w[b] == v[b - 1]);
                } else if a < p {
                    assert(w[a] == v[a] && w[b] == v[b - 1]);
                    lemma_bytes_lt_transitive(v[a].0, t@, v[b - 1].0);
                } else {
                    assert(w[a] == v[a - 1] && w[b] == v[b - 1]);
                }
            }
        }
    }
}

/// The name a field's bytes are read back under, and it is UTF-8.
pub fn field_name_bytes(f: &[u8]) -> (out: Vec<u8>)
    ensures
        out@ == field_name(f@),
        valid_utf8(out@),
{
    let s = from_utf8_lossy(f);
    proof {
        if valid_utf8(f@) {
            vstd::utf8::decode_utf8_encode_utf8(f@);
        }
        vstd::utf8::encode_utf8_valid_utf8(s@);
    }
    copy_bytes(s.as_str().as_bytes())
}

} // verus!
