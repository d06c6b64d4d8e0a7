//! Facts about filtering sequences.
use vstd::prelude::*;

verus! {

broadcast use vstd::seq_lib::group_seq_lib_default;

/// A sequence all of whose elements satisfy `p` filters to itself.
pub proof fn lemma_filter_all<A>(s: Seq<A>, p: spec_fn(A) -> bool)
    requires
        forall|j: int| 0 <= j < s.len() ==> p(#[trigger] s[j]),
    ensures
        s.filter(p) == s,
    decreases s.len(),
{
    reveal(Seq::filter);
    if s.len() > 0 {
        lemma_filter_all(s.drop_last(), p);
        assert(s.drop_last().push(s.last()) =~= s);
    }
}

/// A sequence none of whose elements satisfy `p` filters to nothing.
pub proof fn lemma_filter_none<A>(s: Seq<A>, p: spec_fn(A) -> bool)
    requires
        forall|j: int| 0 <= j < s.len() ==> !p(#[trigger] s[j]),
    ensures
        s.filter(p) == Seq::<A>::empty(),
    decreases s.len(),
{
    reveal(Seq::filter);
    if s.len() > 0 {
        lemma_filter_none(s.drop_last(), p);
    }
}

/// A predicate that holds exactly on a prefix filters to that prefix.
pub proof fn lemma_filter_prefix<A>(s: Seq<A>, p: spec_fn(A) -> bool, i: int)
    requires
        0 <= i <= s.len(),
        forall|j: int| 0 <= j < i ==> p(#[trigger] s[j]),
        forall|j: int| i <= j < s.len() ==> !p(#[trigger] s[j]),
    ensures
        s.filter(p) == s.take(i),
{
    let x = s.take(i);
    let y = s.skip(i);
    assert(s =~= x + y);
    assert forall|j: int| 0 <= j < x.len() implies p(#[trigger] x[j]) by {
        assert(x[j] == s[j]);
    }
    lemma_filter_all(x, p);
    assert forall|j: int| 0 <= j < y.len() implies !p(#[trigger] y[j]) by {
        assert(y[j] == s[i + j]);
    }
    lemma_filter_none(y, p);
    Seq::filter_distributes_over_add(x, y, p);
    assert(x + Seq::<A>::empty() =~= x);
}

/// A predicate that holds exactly on a suffix filters to that suffix.
pub proof fn lemma_filter_suffix<A>(s: Seq<A>, p: spec_fn(A) -> bool, i: int)
    requires
        0 <= i <= s.len(),
        forall|j: int| 0 <= j < i ==> !p(#[trigger] s[j]),
        forall|j: int| i <= j < s.len() ==> p(#[trigger] s[j]),
    ensures
        s.filter(p) == s.skip(i),
{
    let x = s.take(i);
    let y = s.skip(i);
    assert(s =~= x + y);
    assert forall|j: int| 0 <= j < x.len() implies !p(#[trigger] x[j]) by {
        assert(x[j] == s[j]);
    }
    lemma_filter_none(x, p);
    assert forall|j: int| 0 <= j < y.len() implies p(#[trigger] y[j]) by {
        assert(y[j] == s[i + j]);
    }
    lemma_filter_all(y, p);
    Seq::filter_distributes_over_add(x, y, p);
    assert(Seq::<A>::empty() + y =~= y);
}


/// Replacing an element that fails `p` by another that fails it leaves the
/// filtered sequence as it was.
pub proof fn lemma_filter_update_fail<A>(s: Seq<A>, k: int, x: A, p: spec_fn(A) -> bool)
    requires
        0 <= k < s.len(),
        !p(s[k]),
        !p(x),
    ensures
        s.update(k, x).filter(p) == s.filter(p),
    decreases s.len(),
{
    reveal(Seq::filter);
    let u = s.update(k, x);
    if k == s.len() - 1 {
        assert(u.drop_last() =~= s.drop_last());
    } else {
        lemma_filter_update_fail(s.drop_last(), k, x, p);
        assert(u.drop_last() =~= s.drop_last().update(k, x));
        assert(u.last() == s.last());
    }
}

/// Inserting an element that fails `p` leaves the filtered sequence as it
/// was.
pub proof fn lemma_filter_insert_fail<A>(s: Seq<A>, k: int, x: A, p: spec_fn(A) -> bool)
    requires
        0 <= k <= s.len(),
        !p(x),
    ensures
        s.insert(k, x).filter(p) == s.filter(p),
    decreases s.len(),
{
    reveal(Seq::filter);
    let u = s.insert(k, x);
    if k == s.len() {
        assert(u.drop_last() =~= s);
        assert(u.last() == x);
    } else {
        lemma_filter_insert_fail(s.drop_last(), k, x, p);
        assert(u.drop_last() =~= s.drop_last().insert(k, x));
        assert(u.last() == s.last());
    }
}

/// Filtering twice by `p` is filtering once.
pub proof fn lemma_filter_twice<A>(s: Seq<A>, p: spec_fn(A) -> bool)
    ensures
        s.filter(p).filter(p) == s.filter(p),
{
    let f = s.filter(p);
    assert forall|j: int| 0 <= j < f.len() implies p(#[trigger] f[j]) by {
        s.lemma_filter_pred(p, j);
    }
    lemma_filter_all(f, p);
}


/// A predicate that, holding of an element, holds of every earlier one
/// filters a sequence to a prefix: it holds before the filtered length and
/// fails from there on.
pub proof fn lemma_filter_downward<A>(s: Seq<A>, p: spec_fn(A) -> bool)
    requires
        forall|i: int, j: int| 0 <= i < j < s.len() && p(#[trigger] s[j]) ==> p(#[trigger] s[i]),
    ensures
        s.filter(p).len() <= s.len(),
        forall|i: int| 0 <= i < s.filter(p).len() ==> p(#[trigger] s[i]),
        forall|i: int| s.filter(p).len() <= i < s.len() ==> !p(#[trigger] s[i]),
    decreases s.len(),
{
    reveal(Seq::filter);
    if s.len() > 0 {
        let d = s.drop_last();
        assert forall|i: int, j: int| 0 <= i < j < d.len() && p(#[trigger] d[j]) implies p(#[trigger] d[i]) by {
            assert(d[i] == s[i] && d[j] == s[j]);
        }
        lemma_filter_downward(d, p);
        let n = s.len() - 1;
        if p(s.last()) {
            assert forall|j: int| 0 <= j < d.len() implies p(#[trigger] d[j]) by {
                assert(d[j] == s[j]);
                assert(s[n] == s.last());
            }
            lemma_filter_all(d, p);
            assert forall|i: int| 0 <= i < s.filter(p).len() implies p(#[trigger] s[i]) by {
                if i < n {
                    assert(d[i] == s[i]);
                }
            }
        } else {
            assert forall|i: int| 0 <= i < s.filter(p).len() implies p(#[trigger] s[i]) by {
                assert(d[i] == s[i]);
            }
            assert forall|i: int| s.filter(p).len() <= i < s.len() implies !p(#[trigger] s[i]) by {
                if i < n {
                    assert(d[i] == s[i]);
                }
            }
        }
    }
}

} // verus!
