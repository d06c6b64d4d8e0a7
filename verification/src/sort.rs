//! Stable ordering of `(key, value)` pairs by key.
use crate::seqs::lemma_filter_none;
use vstd::prelude::*;

verus! {

broadcast use vstd::seq_lib::group_seq_lib_default;

/// The predicate "the pair has key `k`".
pub open spec fn key_is(k: u64) -> spec_fn((u64, u64)) -> bool {
    |e: (u64, u64)| e.0 == k
}

/// The pairs appear in non-decreasing key order.
pub open spec fn keys_sorted(s: Seq<(u64, u64)>) -> bool {
    forall|i: int, j: int| 0 <= i < j < s.len() ==> s[i].0 <= s[j].0
}

/// `out` is `input` ordered by key, with the pairs of each key kept in their
/// original order.
pub open spec fn is_stable_key_sort(input: Seq<(u64, u64)>, out: Seq<(u64, u64)>) -> bool {
    &&& keys_sorted(out)
    &&& forall|k: u64| #[trigger] out.filter(key_is(k)) == input.filter(key_is(k))
}

/// A one-element sequence filters to itself or to nothing.
pub proof fn lemma_filter_single<A>(x: A, p: spec_fn(A) -> bool)
    ensures
        seq![x].filter(p) == (if p(x) {
            seq![x]
        } else {
            Seq::<A>::empty()
        }),
{
    reveal(Seq::filter);
    assert(seq![x].drop_last() =~= Seq::<A>::empty());
    assert(seq![x].last() == x);
    assert(Seq::<A>::empty().filter(p) == Seq::<A>::empty());
    if p(x) {
        assert(Seq::<A>::empty().push(x) =~= seq![x]);
    }
}

proof fn lemma_insert_keeps_filters(s: Seq<(u64, u64)>, p: int, x: (u64, u64))
    requires
        keys_sorted(s),
        0 <= p <= s.len(),
        forall|j: int| 0 <= j < p ==> s[j].0 <= x.0,
        forall|j: int| p <= j < s.len() ==> s[j].0 > x.0,
    ensures
        keys_sorted(s.insert(p, x)),
        forall|k: u64| #[trigger] s.insert(p, x).filter(key_is(k)) == s.push(x).filter(key_is(k)),
{
    let t = s.insert(p, x);
    let a = s.take(p);
    let b = s.skip(p);
    assert(t =~= a + seq![x] + b);
    assert(s =~= a + b);
    assert forall|k: u64| #[trigger] t.filter(key_is(k)) == s.push(x).filter(key_is(k)) by {
        lemma_filter_single(x, key_is(k));
        s.lemma_filter_push(x, key_is(k));
        if k == x.0 {
            assert forall|j: int| 0 <= j < b.len() implies !key_is(k)(#[trigger] b[j]) by {
                assert(b[j] == s[p + j]);
            }
            lemma_filter_none(b, key_is(k));
        }
        assert((a + seq![x] + b).filter(key_is(k)) == (a + seq![x]).filter(key_is(k)) + b.filter(
            key_is(k),
        ));
        assert((a + seq![x]).filter(key_is(k)) == a.filter(key_is(k)) + seq![x].filter(
            key_is(k),
        ));
        assert((a + b).filter(key_is(k)) == a.filter(key_is(k)) + b.filter(key_is(k)));
        if k == x.0 {
            assert(t.filter(key_is(k)) =~= s.filter(key_is(k)).push(x));
        } else {
            assert(t.filter(key_is(k)) =~= s.filter(key_is(k)));
        }
    }
}

/// Order pairs by key; pairs with equal keys keep their relative order.
pub fn stable_sort_by_key(v: &Vec<(u64, u64)>) -> (out: Vec<(u64, u64)>)
    ensures
        is_stable_key_sort(v@, out@),
        out@.len() == v@.len(),
{
    let mut out: Vec<(u64, u64)> = Vec::new();
    let mut i: usize = 0;
    while i < v.len()
        invariant
            i <= v@.len(),
            out@.len() == i,
            keys_sorted(out@),
            forall|k: u64| #[trigger] out@.filter(key_is(k)) == v@.take(i as int).filter(key_is(k)),
        decreases v@.len() - i,
    {
        let x = v[i];
        let mut p: usize = out.len();
        while p > 0 && out[p - 1].0 > x.0
            invariant
                p <= out@.len(),
                keys_sorted(out@),
                forall|j: int| p <= j < out@.len() ==> out@[j].0 > x.0,
            decreases p,
        {
            p = p - 1;
        }
        proof {
            assert forall|j: int| 0 <= j < p implies out@[j].0 <= x.0 by {
                if out@[p - 1].0 <= x.0 {
                    assert(out@[j].0 <= out@[p - 1].0);
                }
            }
            lemma_insert_keeps_filters(out@, p as int, x);
            assert(v@.take(i + 1) =~= v@.take(i as int).push(x));
            assert forall|k: u64| #[trigger] out@.insert(p as int, x).filter(key_is(k))
                == v@.take(i + 1).filter(key_is(k)) by {
                out@.lemma_filter_push(x, key_is(k));
                v@.take(i as int).lemma_filter_push(x, key_is(k));
            }
        }
        out.insert(p, x);
        i = i + 1;
    }
    proof {
        assert(v@.take(i as int) =~= v@);
    }
    out
}

/// The map that results from inserting the pairs in order: a later pair
/// replaces an earlier one with the same key.
pub open spec fn pairs_map(s: Seq<(u64, u64)>) -> Map<u64, u64>
    decreases s.len(),
{
    if s.len() == 0 {
        Map::empty()
    } else {
        pairs_map(s.drop_last()).insert(s.last().0, s.last().1)
    }
}

/// A key is in the map of a sequence exactly when a pair with it occurs,
/// and it maps to the value of the last such pair.
pub proof fn lemma_pairs_map_filter(s: Seq<(u64, u64)>, k: u64)
    ensures
        pairs_map(s).contains_key(k) <==> s.filter(key_is(k)).len() > 0,
        pairs_map(s).contains_key(k) ==> pairs_map(s)[k] == s.filter(key_is(k)).last().1,
    decreases s.len(),
{
    reveal(Seq::filter);
    if s.len() > 0 {
        lemma_pairs_map_filter(s.drop_last(), k);
    }
}

/// Ordering the pairs stably by key does not change the map they build.
pub proof fn lemma_stable_sort_keeps_map(input: Seq<(u64, u64)>, out: Seq<(u64, u64)>)
    requires
        is_stable_key_sort(input, out),
    ensures
        pairs_map(out) == pairs_map(input),
{
    assert forall|k: u64| #[trigger] pairs_map(out).contains_key(k) == pairs_map(input).contains_key(k)
        && (pairs_map(out).contains_key(k) ==> pairs_map(out)[k] == pairs_map(input)[k]) by {
        lemma_pairs_map_filter(out, k);
        lemma_pairs_map_filter(input, k);
        assert(out.filter(key_is(k)) == input.filter(key_is(k)));
    }
    assert(pairs_map(out) =~= pairs_map(input));
}

} // verus!
