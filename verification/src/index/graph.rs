//! A directed graph of records: each record with the records it links to,
//! traversed breadth first.
use crate::errors::{Result, TridentError};
use crate::maps::entries_in_order;
use crate::store::RecordId;
use std::collections::{BTreeMap, BTreeSet};
use vstd::prelude::*;
use vstd::string::*;

verus! {

broadcast use vstd::std_specs::btree::group_btree_axioms;

/// The records `g` lists after `n`, in order (none when `n` has no list).
pub open spec fn succ(g: Map<u64, Seq<RecordId>>, n: RecordId) -> Seq<RecordId> {
    if g.contains_key(n.0) {
        g[n.0]
    } else {
        Seq::empty()
    }
}

/// `p` is a walk along links: each record links to the next.
pub open spec fn is_walk(g: Map<u64, Seq<RecordId>>, p: Seq<RecordId>) -> bool {
    forall|i: int| 0 <= i < p.len() - 1 ==> succ(g, #[trigger] p[i]).contains(p[i + 1])
}

/// `x` is reached from `s` by following at most `k` links.
pub open spec fn within(g: Map<u64, Seq<RecordId>>, s: RecordId, x: RecordId, k: nat) -> bool {
    exists|p: Seq<RecordId>|
        #[trigger] is_walk(g, p) && 1 <= p.len() <= k + 1 && p[0] == s && p.last() == x
}

/// `x` is reached from `s` in `k` links and no fewer.
pub open spec fn at_distance(g: Map<u64, Seq<RecordId>>, s: RecordId, x: RecordId, k: nat) -> bool {
    within(g, s, x, k) && (k == 0 || !within(g, s, x, (k - 1) as nat))
}

/// Reaching within fewer links is reaching within more.
pub proof fn lemma_within_mono(g: Map<u64, Seq<RecordId>>, s: RecordId, x: RecordId, j: nat, k: nat)
    requires
        j <= k,
        within(g, s, x, j),
    ensures
        within(g, s, x, k),
{
    let p = choose|p: Seq<RecordId>| #[trigger] is_walk(g, p) && 1 <= p.len() <= j + 1 && p[0] == s && p.last() == x;
    assert(is_walk(g, p));
}

/// The start is reached with no link, and only the start.
proof fn lemma_within_zero(g: Map<u64, Seq<RecordId>>, s: RecordId, x: RecordId)
    ensures
        within(g, s, x, 0) <==> x == s,
{
    if x == s {
        let p = seq![s];
        assert(is_walk(g, p));
    }
}

/// One more link reaches one step further.
proof fn lemma_within_step(g: Map<u64, Seq<RecordId>>, s: RecordId, y: RecordId, x: RecordId, k: nat)
    requires
        within(g, s, y, k),
        succ(g, y).contains(x),
    ensures
        within(g, s, x, k + 1),
{
    let p = choose|p: Seq<RecordId>| #[trigger] is_walk(g, p) && 1 <= p.len() <= k + 1 && p[0] == s && p.last() == y;
    let q = p.push(x);
    assert forall|i: int| 0 <= i < q.len() - 1 implies succ(g, #[trigger] q[i]).contains(q[i + 1]) by {
        if i < p.len() - 1 {
            assert(q[i] == p[i] && q[i + 1] == p[i + 1]);
        } else {
            assert(q[i] == y);
        }
    }
    assert(is_walk(g, q));
}

/// What is reached in exactly `e > 0` links is linked from something
/// reached within `e - 1`.
proof fn lemma_within_pred(g: Map<u64, Seq<RecordId>>, s: RecordId, x: RecordId, e: nat) -> (y: RecordId)
    requires
        e > 0,
        within(g, s, x, e),
        !within(g, s, x, (e - 1) as nat),
    ensures
        within(g, s, y, (e - 1) as nat),
        succ(g, y).contains(x),
{
    let p = choose|p: Seq<RecordId>| #[trigger] is_walk(g, p) && 1 <= p.len() <= e + 1 && p[0] == s && p.last() == x;
    if p.len() <= e {
        assert(is_walk(g, p));
    }
    let q = p.drop_last();
    assert forall|i: int| 0 <= i < q.len() - 1 implies succ(g, #[trigger] q[i]).contains(q[i + 1]) by {
        assert(q[i] == p[i] && q[i + 1] == p[i + 1]);
    }
    assert(is_walk(g, q));
    assert(succ(g, p[p.len() - 2]).contains(p[p.len() - 1]));
    q.last()
}

/// A walk from `s` of `k` links reaches its end within `k`.
proof fn lemma_walk_within(g: Map<u64, Seq<RecordId>>, p: Seq<RecordId>)
    requires
        p.len() > 0,
        is_walk(g, p),
    ensures
        within(g, p[0], p.last(), (p.len() - 1) as nat),
{
}

/// The state of a breadth-first traversal: the records expanded so far
/// (`out`, with the distance each was reached at) and the queue still to
/// visit (`pend`, each with a distance).
pub open spec fn expanded_in(out: Seq<RecordId>, x: RecordId) -> bool {
    exists|i: int| 0 <= i < out.len() && out[i] == x
}

/// Every record expanded below `m` links has each successor expanded or
/// queued one link further.
pub open spec fn successors_covered(
    g: Map<u64, Seq<RecordId>>,
    out: Seq<RecordId>,
    od: Seq<nat>,
    pend: Seq<(RecordId, nat)>,
    m: nat,
) -> bool {
    forall|i: int, x: RecordId|
        #![trigger od[i], succ(g, out[i]).contains(x)]
        0 <= i < out.len() && od[i] < m && succ(g, out[i]).contains(x) ==> expanded_in(out, x)
            || exists|j: int| 0 <= j < pend.len() && #[trigger] pend[j] == (x, (od[i] + 1) as nat)
}

/// Every expanded record was reached at exactly its recorded distance.
pub open spec fn distances_exact(
    g: Map<u64, Seq<RecordId>>,
    s: RecordId,
    out: Seq<RecordId>,
    od: Seq<nat>,
) -> bool {
    &&& od.len() == out.len()
    &&& forall|i: int| 0 <= i < out.len() ==> at_distance(g, s, #[trigger] out[i], od[i])
}

/// With the start expanded, every successor of a record expanded below
/// `m` links expanded or queued, and everything queued at least `f` links
/// away, every record within fewer than `f` links (and at most `m`) is
/// expanded.
proof fn lemma_complete(
    g: Map<u64, Seq<RecordId>>,
    s: RecordId,
    out: Seq<RecordId>,
    od: Seq<nat>,
    pend: Seq<(RecordId, nat)>,
    m: nat,
    f: nat,
    x: RecordId,
    e: nat,
)
    requires
        expanded_in(out, s),
        distances_exact(g, s, out, od),
        successors_covered(g, out, od, pend, m),
        forall|j: int| 0 <= j < pend.len() ==> (#[trigger] pend[j]).1 >= f,
        e < f,
        e <= m,
        within(g, s, x, e),
    ensures
        expanded_in(out, x),
    decreases e,
{
    lemma_within_zero(g, s, x);
    if e > 0 && !within(g, s, x, (e - 1) as nat) {
        let y = lemma_within_pred(g, s, x, e);
        lemma_complete(g, s, out, od, pend, m, f, y, (e - 1) as nat);
        let i = choose|i: int| 0 <= i < out.len() && out[i] == y;
        assert(at_distance(g, s, out[i], od[i]));
        if od[i] > e - 1 {
            lemma_within_mono(g, s, y, (e - 1) as nat, (od[i] - 1) as nat);
        }
        assert(od[i] < m);
        assert(succ(g, out[i]).contains(x));
        if !expanded_in(out, x) {
            let j = choose|j: int| 0 <= j < pend.len() && pend[j] == (x, (od[i] + 1) as nat);
            assert(pend[j].1 >= f);
        }
    } else if e > 0 {
        lemma_complete(g, s, out, od, pend, m, f, x, (e - 1) as nat);
    }
}

/// A directed graph of records.
#[derive(Debug)]
pub struct GraphIndex {
    adjacency: BTreeMap<u64, Vec<RecordId>>,
}

impl View for GraphIndex {
    /// Each record with the records it links to, in the order added.
    type V = Map<u64, Seq<RecordId>>;

    closed spec fn view(&self) -> Map<u64, Seq<RecordId>> {
        self.adjacency@.map_values(|v: Vec<RecordId>| v@)
    }
}

impl Default for GraphIndex {
    fn default() -> (g: Self)
        ensures
            g@ == Map::<u64, Seq<RecordId>>::empty(),
    {
        let g = GraphIndex { adjacency: BTreeMap::new() };
        proof {
            assert(g@ =~= Map::<u64, Seq<RecordId>>::empty());
        }
        g
    }
}

/// A copy of a list of records.
fn copy_ids(v: &Vec<RecordId>) -> (out: Vec<RecordId>)
    ensures
        out@ == v@,
{
    let mut out: Vec<RecordId> = Vec::new();
    let mut i: usize = 0;
    while i < v.len()
        invariant
            i <= v@.len(),
            out@ =~= v@.take(i as int),
        decreases v@.len() - i,
    {
        out.push(v[i]);
        i = i + 1;
        proof {
            assert(v@.take(i as int) =~= v@.take(i - 1).push(v@[i - 1]));
        }
    }
    proof {
        assert(v@.take(i as int) =~= v@);
    }
    out
}

/// The predicate "the record is not `x`".
pub open spec fn not_record(x: RecordId) -> spec_fn(RecordId) -> bool {
    |r: RecordId| r != x
}

/// The links without record `id`: its own list goes, and it leaves every
/// other list, whose order is kept.
pub open spec fn without_record(g: Map<u64, Seq<RecordId>>, id: RecordId) -> Map<u64, Seq<RecordId>> {
    Map::new(|k: u64| g.contains_key(k) && k != id.0, |k: u64| g[k].filter(not_record(id)))
}

/// Once a record is removed, no walk from another record reaches it, and
/// a walk from it goes nowhere: a traversal from it finds only itself.
pub proof fn lemma_removed_unreachable(g: Map<u64, Seq<RecordId>>, id: RecordId, s: RecordId, x: RecordId, k: nat)
    ensures
        s != id ==> !within(without_record(g, id), s, id, k),
        within(without_record(g, id), id, x, k) ==> x == id,
{
    let h = without_record(g, id);
    assert forall|p: Seq<RecordId>, i: int| #![trigger is_walk(h, p), p[i]] is_walk(h, p) && 0 < i < p.len() implies p[i] != id
        && p[i - 1].0 != id.0 by {
        assert(succ(h, p[i - 1]).contains(p[i]));
        let q = p[i - 1];
        if h.contains_key(q.0) {
            let l = g[q.0].filter(not_record(id));
            let m = choose|m: int| 0 <= m < l.len() && l[m] == p[i];
            g[q.0].lemma_filter_pred(not_record(id), m);
        }
    }
    if s != id && within(h, s, id, k) {
        let p = choose|p: Seq<RecordId>| #[trigger] is_walk(h, p) && 1 <= p.len() <= k + 1 && p[0] == s && p.last() == id;
        assert(p[p.len() - 1] == id);
    }
    if within(h, id, x, k) {
        let p = choose|p: Seq<RecordId>| #[trigger] is_walk(h, p) && 1 <= p.len() <= k + 1 && p[0] == id && p.last() == x;
        if p.len() > 1 {
            assert(p[0].0 != id.0);
        }
    }
}

impl GraphIndex {
    /// The records linked from `n`, in the order added.
    pub fn successors(&self, n: RecordId) -> (out: Vec<RecordId>)
        ensures
            out@ == succ(self@, n),
    {
        match self.adjacency.get(&n.0) {
            Some(v) => copy_ids(v),
            None => Vec::new(),
        }
    }

    /// Link `source` to `target` (after its earlier links; duplicates kept).
    pub fn add_edge(&mut self, source: RecordId, target: RecordId)
        ensures
            final(self)@ == old(self)@.insert(source.0, succ(old(self)@, source).push(target)),
    {
        let mut list = self.successors(source);
        list.push(target);
        let ghost l = list@;
        let _ = self.adjacency.insert(source.0, list);
        proof {
            assert(self@ =~= old(self)@.insert(source.0, l));
        }
    }

    /// Drop a record: its own links, and every link to it.
    pub fn remove_record(&mut self, id: &RecordId)
        ensures
            final(self)@ == without_record(old(self)@, *id),
    {
        let _ = self.adjacency.remove(&id.0);
        let ghost g0 = self@;
        let mut rebuilt: BTreeMap<u64, Vec<RecordId>> = BTreeMap::new();
        {
            let es = entries_in_order(&self.adjacency);
            let mut i: usize = 0;
            while i < es.len()
                invariant
                    i <= es@.len(),
                    g0 == self@,
                    forall|j: int|
                        0 <= j < es@.len() ==> self.adjacency@.contains_key(#[trigger] es@[j].0)
                            && self.adjacency@[es@[j].0] == *es@[j].1,
                    forall|k: u64| #[trigger]
                        rebuilt@.contains_key(k) <==> exists|j: int| 0 <= j < i && es@[j].0 == k,
                    forall|k: u64| #[trigger]
                        rebuilt@.contains_key(k) ==> rebuilt@[k]@ == g0[k].filter(not_record(*id)),
                decreases es@.len() - i,
            {
                let k = es[i].0;
                let list = es[i].1;
                let mut kept: Vec<RecordId> = Vec::new();
                let mut j: usize = 0;
                proof {
                    assert(list@.take(0) =~= Seq::<RecordId>::empty());
                }
                while j < list.len()
                    invariant
                        j <= list@.len(),
                        kept@ == list@.take(j as int).filter(not_record(*id)),
                    decreases list@.len() - j,
                {
                    if list[j] != *id {
                        kept.push(list[j]);
                    }
                    proof {
                        assert(list@.take(j + 1) =~= list@.take(j as int).push(list@[j as int]));
                        list@.take(j as int).lemma_filter_push(list@[j as int], not_record(*id));
                    }
                    j = j + 1;
                }
                proof {
                    assert(list@.take(j as int) =~= list@);
                    assert(g0[k] == list@);
                }
                let _ = rebuilt.insert(k, kept);
                proof {
                    assert forall|k2: u64| #[trigger] rebuilt@.contains_key(k2) implies exists|j2: int|
                        0 <= j2 < i + 1 && es@[j2].0 == k2 by {
                        if k2 != k {
                            let j2 = choose|j2: int| 0 <= j2 < i && es@[j2].0 == k2;
                        } else {
                            assert(es@[i as int].0 == k2);
                        }
                    }
                }
                i = i + 1;
            }
            proof {
                assert forall|k: u64| #[trigger] rebuilt@.contains_key(k) <==> g0.contains_key(k) by {
                    if g0.contains_key(k) {
                        let j = choose|j: int| 0 <= j < es@.len() && es@[j].0 == k;
                    }
                    if rebuilt@.contains_key(k) {
                        let j = choose|j: int| 0 <= j < es@.len() && es@[j].0 == k;
                    }
                }
            }
        }
        self.adjacency = rebuilt;
        proof {
            let target = Map::new(
                |k: u64| old(self)@.contains_key(k) && k != id.0,
                |k: u64| old(self)@[k].filter(not_record(*id)),
            );
            assert(self@.dom() =~= target.dom());
            assert forall|k: u64| #[trigger] self@.contains_key(k) implies self@[k] == target[k] by {}
            assert(self@ =~= target);
        }
    }
}

impl GraphIndex {
    /// A graph from each record's list of links, in order.
    pub fn from_lists(lists: BTreeMap<u64, Vec<RecordId>>) -> (g: GraphIndex)
        ensures
            g@ == lists@.map_values(|v: Vec<RecordId>| v@),
    {
        GraphIndex { adjacency: lists }
    }
}

/// The queue from position `h` on, with distances as naturals.
pub open spec fn pending(q: Seq<(RecordId, usize)>, h: int) -> Seq<(RecordId, nat)> {
    q.subrange(h, q.len() as int).map_values(|e: (RecordId, usize)| (e.0, e.1 as nat))
}

/// The record numbers that have been expanded are those of `out`.
pub open spec fn seen_matches(seen: Set<u64>, out: Seq<RecordId>) -> bool {
    forall|k: u64| #[trigger] seen.contains(k) <==> exists|i: int| 0 <= i < out.len() && out[i].0 == k
}

/// Expanding a record whose number is new shrinks what is left of `dom`,
/// or leaves it when the record has no links.
proof fn lemma_dom_left(dom: Set<u64>, seen: Set<u64>, k: u64)
    requires
        dom.finite(),
        !seen.contains(k),
    ensures
        dom.difference(seen.insert(k)).finite(),
        dom.contains(k) ==> dom.difference(seen.insert(k)).len() + 1 == dom.difference(seen).len(),
        !dom.contains(k) ==> dom.difference(seen.insert(k)) == dom.difference(seen),
{
    broadcast use vstd::set::group_set_axioms;
    assert(dom.difference(seen.insert(k)) =~= dom.difference(seen).remove(k));
}

impl GraphIndex {
    /// Every record reached from `start` within `max_hops` links, each once,
    /// nearer ones first, the start first.
    #[verifier::spinoff_prover]
    #[verifier::rlimit(40)]
    pub fn bfs(&self, start: &RecordId, max_hops: usize) -> (out: Vec<RecordId>)
        ensures
            out@.len() > 0 && out@[0] == *start,
            forall|i: int, j: int| 0 <= i < j < out@.len() ==> out@[i] != out@[j],
            forall|x: RecordId| #[trigger] out@.contains(x) <==> within(self@, *start, x, max_hops as nat),
            forall|i: int, j: int, k: nat|
                #![trigger within(self@, *start, out@[i], k), out@[j]]
                0 <= i < j < out@.len() && within(self@, *start, out@[j], k) ==> within(
                    self@,
                    *start,
                    out@[i],
                    k,
                ),
    {
        let ghost g = self@;
        let s = *start;
        let ghost m = max_hops as nat;
        let mut q: Vec<(RecordId, usize)> = Vec::new();
        q.push((s, 0));
        let mut h: usize = 0;
        let mut seen: BTreeSet<u64> = BTreeSet::new();
        let mut out: Vec<RecordId> = Vec::new();
        let ghost mut od: Seq<nat> = Seq::empty();
        proof {
            lemma_within_zero(g, s, s);
            assert(g.dom() =~= self.adjacency@.dom());
        }
        while h < q.len()
            invariant
                g == self@,
                m == max_hops as nat,
                g.dom().finite(),
                1 <= q@.len(),
                q@[0] == (s, 0usize),
                h <= q@.len(),
                forall|i: int| 0 <= i < q@.len() ==> (#[trigger] q@[i]).1 <= max_hops && within(g, s, q@[i].0, q@[i].1 as nat),
                forall|i: int, j: int| 0 <= i <= j < q@.len() ==> #[trigger] q@[i].1 <= #[trigger] q@[j].1,
                forall|i: int, j: int| h <= i <= j < q@.len() ==> #[trigger] q@[j].1 <= #[trigger] q@[i].1 + 1,
                seen_matches(seen@, out@),
                forall|i: int, j: int| 0 <= i < j < out@.len() ==> out@[i] != out@[j],
                distances_exact(g, s, out@, od),
                forall|i: int| 0 <= i < od.len() ==> #[trigger] od[i] <= m,
                forall|i: int, j: int| 0 <= i <= j < od.len() ==> #[trigger] od[i] <= #[trigger] od[j],
                h > 0 ==> forall|i: int| 0 <= i < od.len() ==> #[trigger] od[i] <= q@[h - 1].1,
                h == 0 ==> out@.len() == 0,
                h > 0 ==> expanded_in(out@, s),
                successors_covered(g, out@, od, pending(q@, h as int), m),
            decreases g.dom().difference(seen@).len(), q@.len() - h,
        {
            let ghost old_pend = pending(q@, h as int);
            let ghost old_out = out@;
            let ghost old_od = od;
            let ghost old_seen = seen@;
            let (node, depth) = q[h];
            h = h + 1;
            proof {
                assert forall|j: int| 0 <= j < old_pend.len() implies (#[trigger] old_pend[j]).1 >= depth by {
                    assert(old_pend[j] == (q@[h - 1 + j].0, q@[h - 1 + j].1 as nat));
                    assert(q@[h - 1].1 <= q@[h - 1 + j].1);
                }
                assert(old_pend[0] == (node, depth as nat));
                assert(pending(q@, h as int) =~= old_pend.subrange(1, old_pend.len() as int));
            }
            let fresh = seen.insert(node.0);
            if !fresh || depth > max_hops {
                proof {
                    assert(expanded_in(out@, node)) by {
                        let i = choose|i: int| 0 <= i < out@.len() && out@[i].0 == node.0;
                        assert(out@[i] == node);
                    }
                    assert(seen@ =~= old_seen);
                    assert forall|i: int, x: RecordId|
                        0 <= i < out@.len() && od[i] < m && #[trigger] succ(g, out@[i]).contains(x) && !expanded_in(out@, x)
                        implies exists|j: int| 0 <= j < pending(q@, h as int).len() && #[trigger] pending(q@, h as int)[j] == (x, (od[i] + 1) as nat) by {
                        assert(od[i] == od[i]);
                        let j = choose|j: int| 0 <= j < old_pend.len() && old_pend[j] == (x, (od[i] + 1) as nat);
                        assert(j != 0);
                        assert(pending(q@, h as int)[j - 1] == old_pend[j]);
                    }
                }
                continue;
            }
            proof {
                lemma_dom_left(g.dom(), old_seen, node.0);
                if depth > 0 && within(g, s, node, (depth - 1) as nat) {
                    assert(h - 1 > 0);
                    lemma_complete(g, s, out@, od, old_pend, m, depth as nat, node, (depth - 1) as nat);
                    let i = choose|i: int| 0 <= i < out@.len() && out@[i] == node;
                    assert(old_seen.contains(out@[i].0));
                }
                if h - 1 == 0 {
                    assert(node == s);
                }
            }
            out.push(node);
            proof {
                od = od.push(depth as nat);
                assert(out@.last() == node);
                assert forall|k: u64| #[trigger] seen@.contains(k) <==> exists|i: int| 0 <= i < out@.len() && out@[i].0 == k by {
                    if seen@.contains(k) && k != node.0 {
                        let i = choose|i: int| 0 <= i < old_out.len() && old_out[i].0 == k;
                        assert(out@[i] == old_out[i]);
                    }
                    if exists|i: int| 0 <= i < out@.len() && out@[i].0 == k {
                        let i = choose|i: int| 0 <= i < out@.len() && out@[i].0 == k;
                        if i < old_out.len() {
                            assert(out@[i] == old_out[i]);
                        }
                    }
                }
                assert forall|i: int, j: int| 0 <= i < j < out@.len() implies out@[i] != out@[j] by {
                    if j == out@.len() - 1 {
                        assert(out@[i] == old_out[i]);
                        if old_out[i] == node {
                            assert(old_seen.contains(node.0));
                        }
                    }
                }
                assert(expanded_in(out@, s)) by {
                    if h - 1 > 0 {
                        let i = choose|i: int| 0 <= i < old_out.len() && old_out[i] == s;
                        assert(out@[i] == s);
                    } else {
                        assert(out@[0] == s);
                    }
                }
            }
            if depth == max_hops {
                proof {
                    assert forall|i: int, x: RecordId|
                        0 <= i < out@.len() && od[i] < m && #[trigger] succ(g, out@[i]).contains(x) && !expanded_in(out@, x)
                        implies exists|j: int| 0 <= j < pending(q@, h as int).len() && #[trigger] pending(q@, h as int)[j] == (x, (od[i] + 1) as nat) by {
                        if i == out@.len() - 1 {
                            assert(od[i] == depth as nat);
                        }
                        assert(out@[i] == old_out[i] && od[i] == old_od[i]);
                        if expanded_in(old_out, x) {
                            let k = choose|k: int| 0 <= k < old_out.len() && old_out[k] == x;
                            assert(out@[k] == x);
                        }
                        let j = choose|j: int| 0 <= j < old_pend.len() && old_pend[j] == (x, (old_od[i] + 1) as nat);
                        if j == 0 {
                            assert(out@[out@.len() - 1] == x);
                        }
                        assert(pending(q@, h as int)[j - 1] == old_pend[j]);
                    }
                }
                continue;
            }
            let next = self.successors(node);
            let ghost q0 = q@;
            let mut j: usize = 0;
            while j < next.len()
                invariant
                    j <= next@.len(),
                    q@.len() == q0.len() + j,
                    forall|a: int| 0 <= a < q0.len() ==> #[trigger] q@[a] == q0[a],
                    forall|a: int| q0.len() <= a < q@.len() ==> #[trigger] q@[a] == (next@[a - q0.len()], (depth + 1) as usize),
                    depth < max_hops,
                decreases next@.len() - j,
            {
                q.push((next[j], depth + 1));
                j = j + 1;
            }
            proof {
                let np = pending(q@, h as int);
                assert forall|a: int| 0 <= a < q@.len() implies (#[trigger] q@[a]).1 <= max_hops && within(g, s, q@[a].0, q@[a].1 as nat) by {
                    if a >= q0.len() {
                        assert(next@.contains(q@[a].0)) by {
                            assert(next@[a - q0.len()] == q@[a].0);
                        }
                        lemma_within_step(g, s, node, q@[a].0, depth as nat);
                    }
                }
                assert forall|a: int, b: int| 0 <= a <= b < q@.len() implies #[trigger] q@[a].1 <= #[trigger] q@[b].1 by {
                    if b >= q0.len() && a < q0.len() {
                        if a >= h - 1 {
                            assert(q0[a].1 <= q0[h - 1].1 + 1);
                        } else {
                            assert(q0[a].1 <= q0[h - 1].1);
                        }
                    }
                }
                assert forall|a: int, b: int| h <= a <= b < q@.len() implies #[trigger] q@[b].1 <= #[trigger] q@[a].1 + 1 by {
                    if b >= q0.len() && a < q0.len() {
                        assert(q0[h - 1].1 <= q0[a].1);
                    }
                    if b < q0.len() {
                        assert(q0[b].1 <= q0[h - 1].1 + 1);
                        assert(q0[h - 1].1 <= q0[a].1);
                    }
                }
                assert forall|i: int, x: RecordId|
                    0 <= i < out@.len() && od[i] < m && #[trigger] succ(g, out@[i]).contains(x) && !expanded_in(out@, x)
                    implies exists|jj: int| 0 <= jj < np.len() && #[trigger] np[jj] == (x, (od[i] + 1) as nat) by {
                    if i == out@.len() - 1 {
                        let t = choose|t: int| 0 <= t < next@.len() && next@[t] == x;
                        let a = q0.len() + t;
                        assert(np[a - h] == (q@[a].0, q@[a].1 as nat));
                    } else {
                        assert(out@[i] == old_out[i] && od[i] == old_od[i]);
                        if expanded_in(old_out, x) {
                            let k = choose|k: int| 0 <= k < old_out.len() && old_out[k] == x;
                            assert(out@[k] == x);
                        }
                        let jj = choose|jj: int| 0 <= jj < old_pend.len() && old_pend[jj] == (x, (old_od[i] + 1) as nat);
                        if jj == 0 {
                            assert(out@[out@.len() - 1] == x);
                        }
                        assert(np[jj - 1] == old_pend[jj]) by {
                            assert(old_pend[jj] == (q0[h - 1 + jj].0, q0[h - 1 + jj].1 as nat));
                        }
                    }
                }
            }
        }
        proof {
            assert forall|x: RecordId| #[trigger] out@.contains(x) <==> within(g, s, x, m) by {
                if within(g, s, x, m) {
                    assert forall|jj: int| 0 <= jj < pending(q@, h as int).len() implies (#[trigger] pending(q@, h as int)[jj]).1 >= m + 1 by {}
                    lemma_complete(g, s, out@, od, pending(q@, h as int), m, m + 1, x, m);
                    let i = choose|i: int| 0 <= i < out@.len() && out@[i] == x;
                    assert(out@[i] == x);
                }
                if out@.contains(x) {
                    let i = choose|i: int| 0 <= i < out@.len() && out@[i] == x;
                    assert(at_distance(g, s, out@[i], od[i]));
                    lemma_within_mono(g, s, x, od[i], m);
                }
            }
            assert forall|i: int, j: int, k: nat|
                0 <= i < j < out@.len() && within(g, s, out@[j], k) implies within(g, s, out@[i], k) by {
                assert(at_distance(g, s, out@[i], od[i]));
                assert(at_distance(g, s, out@[j], od[j]));
                if od[j] > k {
                    lemma_within_mono(g, s, out@[j], k, (od[j] - 1) as nat);
                }
                assert(od[i] <= od[j]);
                lemma_within_mono(g, s, out@[i], od[i], k);
            }
            assert(h > 0);
            let i0 = choose|i: int| 0 <= i < out@.len() && out@[i] == s;
            assert(out@.len() > 0);
            assert(at_distance(g, s, out@[0], od[0]));
            assert(od[0] <= od[i0]);
            lemma_within_zero(g, s, s);
            assert(od[i0] == 0) by {
                if od[i0] > 0 {
                    lemma_within_mono(g, s, s, 0, (od[i0] - 1) as nat);
                }
            }
            assert(od[0] == 0);
            lemma_within_zero(g, s, out@[0]);
        }
        out
    }
}

/// The path queue from position `h` on: each record with its distance.
pub open spec fn pending_paths(q: Seq<(RecordId, Vec<RecordId>)>, h: int) -> Seq<(RecordId, nat)> {
    q.subrange(h, q.len() as int).map_values(|e: (RecordId, Vec<RecordId>)| (e.0, (e.1@.len() - 1) as nat))
}

/// Every expanded record has each successor expanded or queued one link
/// further.
pub open spec fn all_successors_covered(
    g: Map<u64, Seq<RecordId>>,
    out: Seq<RecordId>,
    od: Seq<nat>,
    pend: Seq<(RecordId, nat)>,
) -> bool {
    forall|i: int, x: RecordId|
        #![trigger od[i], succ(g, out[i]).contains(x)]
        0 <= i < out.len() && succ(g, out[i]).contains(x) ==> expanded_in(out, x)
            || exists|j: int| 0 <= j < pend.len() && #[trigger] pend[j] == (x, (od[i] + 1) as nat)
}

/// Covering every expanded record covers those expanded below any bound.
proof fn lemma_all_covered(
    g: Map<u64, Seq<RecordId>>,
    out: Seq<RecordId>,
    od: Seq<nat>,
    pend: Seq<(RecordId, nat)>,
    m: nat,
)
    requires
        all_successors_covered(g, out, od, pend),
    ensures
        successors_covered(g, out, od, pend, m),
{
}

/// `p` is a walk from `s` ending at `x`.
#[verifier::opaque]
pub open spec fn path_from(g: Map<u64, Seq<RecordId>>, s: RecordId, x: RecordId, p: Seq<RecordId>) -> bool {
    p.len() >= 1 && p[0] == s && p.last() == x && is_walk(g, p)
}

proof fn lemma_path_facts(g: Map<u64, Seq<RecordId>>, s: RecordId, x: RecordId, p: Seq<RecordId>)
    requires
        path_from(g, s, x, p),
    ensures
        p.len() >= 1,
        p[0] == s,
        p.last() == x,
        is_walk(g, p),
        within(g, s, x, (p.len() - 1) as nat),
{
    reveal(path_from);
    lemma_walk_within(g, p);
}

proof fn lemma_path_push(g: Map<u64, Seq<RecordId>>, s: RecordId, y: RecordId, p: Seq<RecordId>, x: RecordId)
    requires
        path_from(g, s, y, p),
        succ(g, y).contains(x),
    ensures
        path_from(g, s, x, p.push(x)),
        p.push(x).len() == p.len() + 1,
{
    reveal(path_from);
    let q = p.push(x);
    assert forall|i: int| 0 <= i < q.len() - 1 implies succ(g, #[trigger] q[i]).contains(q[i + 1]) by {
        if i < p.len() - 1 {
            assert(q[i] == p[i] && q[i + 1] == p[i + 1]);
        } else {
            assert(q[i] == y);
        }
    }
}

/// After expanding `node` (reached by `path` at distance `d`) and queueing
/// its successors, the queue still holds walks in distance order, and every
/// expanded record's successors are expanded or queued.
proof fn lemma_push_paths(
    g: Map<u64, Seq<RecordId>>,
    s: RecordId,
    q0: Seq<(RecordId, Vec<RecordId>)>,
    q: Seq<(RecordId, Vec<RecordId>)>,
    h: int,
    node: RecordId,
    d: nat,
    path: Seq<RecordId>,
    next: Seq<RecordId>,
    out: Seq<RecordId>,
    od: Seq<nat>,
    old_out: Seq<RecordId>,
    old_od: Seq<nat>,
    old_pend: Seq<(RecordId, nat)>,
)
    requires
        1 <= h <= q0.len(),
        q.len() == q0.len() + next.len(),
        forall|a: int| 0 <= a < q0.len() ==> #[trigger] q[a] == q0[a],
        forall|a: int|
            q0.len() <= a < q.len() ==> (#[trigger] q[a]).0 == next[a - q0.len()] && q[a].1@
                == path.push(next[a - q0.len()]),
        forall|a: int| 0 <= a < q0.len() ==> path_from(g, s, (#[trigger] q0[a]).0, q0[a].1@),
        path_from(g, s, node, path),
        path.len() == d + 1,
        next == succ(g, node),
        q0[h - 1].0 == node,
        q0[h - 1].1@ == path,
        forall|i: int, j: int| 0 <= i <= j < q0.len() ==> (#[trigger] q0[i]).1@.len() <= (#[trigger] q0[j]).1@.len(),
        forall|i: int, j: int| h - 1 <= i <= j < q0.len() ==> (#[trigger] q0[j]).1@.len() <= (#[trigger] q0[i]).1@.len() + 1,
        old_pend == pending_paths(q0, h - 1),
        out == old_out.push(node),
        od == old_od.push(d),
        old_od.len() == old_out.len(),
        all_successors_covered(g, old_out, old_od, old_pend),
    ensures
        forall|a: int| 0 <= a < q.len() ==> path_from(g, s, (#[trigger] q[a]).0, q[a].1@),
        forall|i: int, j: int| 0 <= i <= j < q.len() ==> (#[trigger] q[i]).1@.len() <= (#[trigger] q[j]).1@.len(),
        forall|i: int, j: int| h <= i <= j < q.len() ==> (#[trigger] q[j]).1@.len() <= (#[trigger] q[i]).1@.len() + 1,
        all_successors_covered(g, out, od, pending_paths(q, h)),
{
    assert forall|a: int| 0 <= a < q.len() implies path_from(g, s, (#[trigger] q[a]).0, q[a].1@) by {
        if a >= q0.len() {
            let x = next[a - q0.len()];
            assert(next.contains(x));
            lemma_path_push(g, s, node, path, x);
        } else {
            assert(q[a] == q0[a]);
        }
    }
    assert forall|a: int| q0.len() <= a < q.len() implies (#[trigger] q[a]).1@.len() == d + 2 by {
        lemma_path_push(g, s, node, path, next[a - q0.len()]);
    }
    assert forall|a: int, b: int| 0 <= a <= b < q.len() implies (#[trigger] q[a]).1@.len() <= (#[trigger] q[b]).1@.len() by {
        if b < q0.len() {
            assert(q[a] == q0[a] && q[b] == q0[b]);
        } else if a < q0.len() {
            assert(q[a] == q0[a]);
            if a >= h - 1 {
                assert(q0[a].1@.len() <= q0[h - 1].1@.len() + 1);
            } else {
                assert(q0[a].1@.len() <= q0[h - 1].1@.len());
            }
        }
    }
    assert forall|a: int, b: int| h <= a <= b < q.len() implies (#[trigger] q[b]).1@.len() <= (#[trigger] q[a]).1@.len() + 1 by {
        if b < q0.len() {
            assert(q[a] == q0[a] && q[b] == q0[b]);
            assert(q0[b].1@.len() <= q0[h - 1].1@.len() + 1);
            assert(q0[h - 1].1@.len() <= q0[a].1@.len());
        } else if a < q0.len() {
            assert(q[a] == q0[a]);
            assert(q0[h - 1].1@.len() <= q0[a].1@.len());
        }
    }
    let np = pending_paths(q, h);
    assert forall|i: int, x: RecordId|
        0 <= i < out.len() && #[trigger] succ(g, out[i]).contains(x) && !expanded_in(out, x)
        implies exists|jj: int| 0 <= jj < np.len() && #[trigger] np[jj] == (x, (od[i] + 1) as nat) by {
        if i == out.len() - 1 {
            let tt = choose|tt: int| 0 <= tt < next.len() && next[tt] == x;
            let a = q0.len() + tt;
            assert(q[a].1@.len() == d + 2);
            assert(np[a - h] == (q[a].0, (q[a].1@.len() - 1) as nat));
        } else {
            assert(out[i] == old_out[i] && od[i] == old_od[i]);
            if expanded_in(old_out, x) {
                let k = choose|k: int| 0 <= k < old_out.len() && old_out[k] == x;
                assert(out[k] == x);
            }
            let jj = choose|jj: int| 0 <= jj < old_pend.len() && old_pend[jj] == (x, (old_od[i] + 1) as nat);
            if jj == 0 {
                assert(old_pend[0] == (q0[h - 1].0, (q0[h - 1].1@.len() - 1) as nat));
                assert(out[out.len() - 1] == x);
            }
            assert(np[jj - 1] == old_pend[jj]) by {
                assert(old_pend[jj] == (q0[h - 1 + jj].0, (q0[h - 1 + jj].1@.len() - 1) as nat));
                assert(q[h - 1 + jj] == q0[h - 1 + jj]);
            }
        }
    }
}

/// `e` is the error a search raises when no path exists.
pub open spec fn is_no_path(e: TridentError) -> bool {
    e matches TridentError::Query(m) && m@ == "path not found"@
}

impl GraphIndex {
    /// A shortest path of links from `start` to `target`, both included;
    /// refused when `target` cannot be reached.
    #[verifier::spinoff_prover]
    #[verifier::rlimit(100)]
    pub fn shortest_path(&self, start: &RecordId, target: &RecordId) -> (r: Result<Vec<RecordId>>)
        ensures
            match r {
                Ok(p) => {
                    &&& p@.len() >= 1
                    &&& p@[0] == *start
                    &&& p@.last() == *target
                    &&& is_walk(self@, p@)
                    &&& at_distance(self@, *start, *target, (p@.len() - 1) as nat)
                },
                Err(e) => is_no_path(e) && forall|k: nat| !within(self@, *start, *target, k),
            },
    {
        let ghost g = self@;
        let s = *start;
        let t = *target;
        let mut q: Vec<(RecordId, Vec<RecordId>)> = Vec::new();
        let mut first: Vec<RecordId> = Vec::new();
        first.push(s);
        q.push((s, first));
        let mut h: usize = 0;
        let mut seen: BTreeSet<u64> = BTreeSet::new();
        let ghost mut out: Seq<RecordId> = Seq::empty();
        let ghost mut od: Seq<nat> = Seq::empty();
        proof {
            assert(g.dom() =~= self.adjacency@.dom());
            reveal(path_from);
            assert(is_walk(g, q@[0].1@));
        }
        while h < q.len()
            invariant
                g == self@,
                s == *start,
                t == *target,
                g.dom().finite(),
                1 <= q@.len(),
                q@[0].0 == s,
                q@[0].1@ == seq![s],
                h <= q@.len(),
                forall|i: int| 0 <= i < q@.len() ==> path_from(g, s, (#[trigger] q@[i]).0, q@[i].1@),
                forall|i: int, j: int| 0 <= i <= j < q@.len() ==> (#[trigger] q@[i]).1@.len() <= (#[trigger] q@[j]).1@.len(),
                forall|i: int, j: int| h <= i <= j < q@.len() ==> (#[trigger] q@[j]).1@.len() <= (#[trigger] q@[i]).1@.len() + 1,
                seen_matches(seen@, out),
                forall|i: int, j: int| 0 <= i < j < out.len() ==> out[i] != out[j],
                forall|i: int| 0 <= i < out.len() ==> out[i] != t,
                distances_exact(g, s, out, od),
                forall|i: int, j: int| 0 <= i <= j < od.len() ==> #[trigger] od[i] <= #[trigger] od[j],
                h > 0 ==> forall|i: int| 0 <= i < od.len() ==> #[trigger] od[i] + 1 <= q@[h - 1].1@.len(),
                h == 0 ==> out.len() == 0,
                h > 0 ==> expanded_in(out, s),
                all_successors_covered(g, out, od, pending_paths(q@, h as int)),
            decreases g.dom().difference(seen@).len(), q@.len() - h,
        {
            let ghost old_pend = pending_paths(q@, h as int);
            let ghost old_out = out;
            let ghost old_od = od;
            let ghost old_seen = seen@;
            let node = q[h].0;
            let path = copy_ids(&q[h].1);
            let ghost d: nat = (path@.len() - 1) as nat;
            h = h + 1;
            proof {
                assert forall|j: int| 0 <= j < old_pend.len() implies (#[trigger] old_pend[j]).1 >= d by {
                    assert(old_pend[j] == (q@[h - 1 + j].0, (q@[h - 1 + j].1@.len() - 1) as nat));
                    assert(q@[h - 1].1@.len() <= q@[h - 1 + j].1@.len());
                }
                assert(old_pend[0] == (node, d));
                assert(pending_paths(q@, h as int) =~= old_pend.subrange(1, old_pend.len() as int));
                assert(path@ == q@[h - 1].1@);
                lemma_path_facts(g, s, node, path@);
            }
            if node == t {
                proof {
                    lemma_all_covered(g, out, od, old_pend, d);
                    if d > 0 && within(g, s, t, (d - 1) as nat) {
                        assert(h - 1 > 0);
                        lemma_complete(g, s, out, od, old_pend, d, d, t, (d - 1) as nat);
                        let i = choose|i: int| 0 <= i < out.len() && out[i] == t;
                    }
                    assert(path@.len() >= 1);
                    assert(path@[0] == s);
                    assert(path@.last() == t);
                    assert(is_walk(g, path@));
                    assert(within(g, s, t, d));
                    assert(at_distance(g, s, t, d));
                }
                return Ok(path);
            }
            let fresh = seen.insert(node.0);
            if !fresh {
                proof {
                    assert(expanded_in(out, node)) by {
                        let i = choose|i: int| 0 <= i < out.len() && out[i].0 == node.0;
                        assert(out[i] == node);
                    }
                    assert(seen@ =~= old_seen);
                    assert forall|i: int, x: RecordId|
                        0 <= i < out.len() && #[trigger] succ(g, out[i]).contains(x) && !expanded_in(out, x)
                        implies exists|j: int| 0 <= j < pending_paths(q@, h as int).len() && #[trigger] pending_paths(q@, h as int)[j] == (x, (od[i] + 1) as nat) by {
                        assert(od[i] == od[i]);
                        let j = choose|j: int| 0 <= j < old_pend.len() && old_pend[j] == (x, (od[i] + 1) as nat);
                        assert(j != 0);
                        assert(pending_paths(q@, h as int)[j - 1] == old_pend[j]);
                    }
                }
                continue;
            }
            proof {
                lemma_dom_left(g.dom(), old_seen, node.0);
                lemma_all_covered(g, out, od, old_pend, d);
                if d > 0 && within(g, s, node, (d - 1) as nat) {
                    assert(h - 1 > 0);
                    lemma_complete(g, s, out, od, old_pend, d, d, node, (d - 1) as nat);
                    let i = choose|i: int| 0 <= i < out.len() && out[i] == node;
                    assert(old_seen.contains(out[i].0));
                }
                if h - 1 == 0 {
                    assert(node == s);
                }
                out = out.push(node);
                od = od.push(d);
                assert(seen@ == old_seen.insert(node.0));
                assert(out[out.len() - 1] == node);
            }
            proof {
                assert forall|k: u64| #[trigger] seen@.contains(k) <==> exists|i: int| 0 <= i < out.len() && out[i].0 == k by {
                    if seen@.contains(k) && k != node.0 {
                        let i = choose|i: int| 0 <= i < old_out.len() && old_out[i].0 == k;
                        assert(out[i] == old_out[i]);
                    }
                    if exists|i: int| 0 <= i < out.len() && out[i].0 == k {
                        let i = choose|i: int| 0 <= i < out.len() && out[i].0 == k;
                        if i < old_out.len() {
                            assert(out[i] == old_out[i]);
                        }
                    }
                }
            }
            proof {
                assert forall|i: int, j: int| 0 <= i < j < out.len() implies out[i] != out[j] by {
                    if j == out.len() - 1 {
                        assert(out[i] == old_out[i]);
                        if old_out[i] == node {
                            assert(old_seen.contains(node.0));
                        }
                    }
                }
                assert(expanded_in(out, s)) by {
                    if h - 1 > 0 {
                        let i = choose|i: int| 0 <= i < old_out.len() && old_out[i] == s;
                        assert(out[i] == s);
                    } else {
                        assert(out[0] == s);
                    }
                }
            }
            let next = self.successors(node);
            let ghost q0 = q@;
            let mut j: usize = 0;
            while j < next.len()
                invariant
                    j <= next@.len(),
                    q@.len() == q0.len() + j,
                    forall|a: int| 0 <= a < q0.len() ==> #[trigger] q@[a] == q0[a],
                    forall|a: int|
                        q0.len() <= a < q@.len() ==> (#[trigger] q@[a]).0 == next@[a - q0.len()] && q@[a].1@
                            == path@.push(next@[a - q0.len()]),
                decreases next@.len() - j,
            {
                let mut np = copy_ids(&path);
                np.push(next[j]);
                q.push((next[j], np));
                j = j + 1;
            }
            proof {
                lemma_push_paths(g, s, q0, q@, h as int, node, d, path@, next@, out, od, old_out, old_od, old_pend);
            }
        }
        proof {
            assert forall|k: nat| !within(g, s, t, k) by {
                if within(g, s, t, k) {
                    assert(h > 0);
                    assert(pending_paths(q@, h as int).len() == 0);
                    lemma_all_covered(g, out, od, pending_paths(q@, h as int), k + 1);
                    lemma_complete(g, s, out, od, pending_paths(q@, h as int), k + 1, k + 1, t, k);
                    let i = choose|i: int| 0 <= i < out.len() && out[i] == t;
                }
            }
        }
        Err(TridentError::Query(String::from_str("path not found")))
    }
}

} // verus!
