//! The adjacency-list graph index: each node's outgoing edges (target,
//! label, properties) in the order added, and each node's inbound sources.
//! Nodes are records of the primary store; the index holds only their
//! connectivity. An edge's properties are held as the JSON text of its
//! property map.
use crate::errors::Result;
use crate::index::graph::{at_distance, is_no_path, is_walk, succ, within, GraphIndex};
use std::collections::BTreeSet;
use crate::io::binary::copy_bytes;
use crate::bytes_order::bytes_equal;
use crate::index::adjacency_format::{
    adj_fits, adj_frame, adj_payload, lemma_adj_snapshot_roundtrip, decode_adj_snapshot, encode_adj_payload, frame_adj_snapshot,
    node_rows_view, parse_adj_snapshot, rev_rows_view, AdjSnapshot, AdjSnapshotPayload,
};
use crate::index::inverted_rows::{build_map, in_key_order, key_rows, lemma_build_map};
use crate::io::parse::is_corrupt_at;
use crate::maps::entries_in_order;
use crate::store::RecordId;
use std::collections::BTreeMap;
use vstd::prelude::*;

verus! {

broadcast use vstd::std_specs::btree::group_btree_axioms;

/// A directed edge: its target, its label, and its properties as the JSON
/// text of their map.
#[derive(Clone, Debug, PartialEq, Eq)]
pub struct Edge {
    pub to: RecordId,
    pub label: Vec<u8>,
    pub properties: Vec<u8>,
}

/// An edge as plain values: target, label, properties.
pub type EdgeView = (RecordId, Seq<u8>, Seq<u8>);

pub open spec fn edge_view(e: Edge) -> EdgeView {
    (e.to, e.label@, e.properties@)
}

pub open spec fn edges_view(v: Seq<Edge>) -> Seq<EdgeView> {
    v.map_values(|e: Edge| edge_view(e))
}

/// The properties of an edge added without any: the JSON text of an empty
/// map.
pub open spec fn no_properties() -> Seq<u8> {
    seq![0x7bu8, 0x7du8]
}

/// The edges out of node `k` (none when it has no list).
pub open spec fn edges_at(m: Map<u64, Seq<EdgeView>>, k: u64) -> Seq<EdgeView> {
    if m.contains_key(k) {
        m[k]
    } else {
        Seq::empty()
    }
}

/// The sources into node `k` (none when it has no list).
pub open spec fn sources_at(m: Map<u64, Seq<u64>>, k: u64) -> Seq<u64> {
    if m.contains_key(k) {
        m[k]
    } else {
        Seq::empty()
    }
}

/// Some edge goes to `to` with label `label`.
pub open spec fn has_edge(es: Seq<EdgeView>, to: RecordId, label: Seq<u8>) -> bool {
    exists|i: int| 0 <= i < es.len() && (#[trigger] es[i]).0 == to && es[i].1 == label
}

/// The forward lists after the edge `from -> to` with `label` and
/// `props` is added, unless one from `from` to `to` with that label is
/// already there.
pub open spec fn edge_added_forward(
    f: Map<u64, Seq<EdgeView>>,
    from: RecordId,
    label: Seq<u8>,
    to: RecordId,
    props: Seq<u8>,
) -> Map<u64, Seq<EdgeView>> {
    if has_edge(edges_at(f, from.0), to, label) {
        f
    } else {
        f.insert(from.0, edges_at(f, from.0).push((to, label, props)))
    }
}

/// The inbound lists after the same addition: a new edge puts `from`
/// among `to`'s sources.
pub open spec fn edge_added_inbound(
    f: Map<u64, Seq<EdgeView>>,
    i: Map<u64, Seq<u64>>,
    from: RecordId,
    label: Seq<u8>,
    to: RecordId,
) -> Map<u64, Seq<u64>> {
    if has_edge(edges_at(f, from.0), to, label) {
        i
    } else {
        i.insert(to.0, sources_at(i, to.0).push(from.0))
    }
}

/// The forward lists after `left -> right` and then `right -> left` are
/// added, both without properties.
pub open spec fn bidirectional_forward(
    f: Map<u64, Seq<EdgeView>>,
    left: RecordId,
    ll: Seq<u8>,
    right: RecordId,
    rl: Seq<u8>,
) -> Map<u64, Seq<EdgeView>> {
    edge_added_forward(edge_added_forward(f, left, ll, right, no_properties()), right, rl, left, no_properties())
}

/// The inbound lists after the same two additions.
pub open spec fn bidirectional_inbound(
    f: Map<u64, Seq<EdgeView>>,
    i: Map<u64, Seq<u64>>,
    left: RecordId,
    ll: Seq<u8>,
    right: RecordId,
    rl: Seq<u8>,
) -> Map<u64, Seq<u64>> {
    let f1 = edge_added_forward(f, left, ll, right, no_properties());
    let i1 = edge_added_inbound(f, i, left, ll, right);
    edge_added_inbound(f1, i1, right, rl, left)
}

/// After an addition, the edge is there.
pub proof fn lemma_edge_added_present(
    f: Map<u64, Seq<EdgeView>>,
    from: RecordId,
    label: Seq<u8>,
    to: RecordId,
    props: Seq<u8>,
)
    ensures
        has_edge(edges_at(edge_added_forward(f, from, label, to, props), from.0), to, label),
{
    if !has_edge(edges_at(f, from.0), to, label) {
        let es = edges_at(edge_added_forward(f, from, label, to, props), from.0);
        assert(es[es.len() - 1] == (to, label, props));
    }
}

/// An addition keeps every edge already there.
pub proof fn lemma_edge_added_keeps(
    f: Map<u64, Seq<EdgeView>>,
    from: RecordId,
    label: Seq<u8>,
    to: RecordId,
    props: Seq<u8>,
    n: u64,
    t: RecordId,
    l: Seq<u8>,
)
    requires
        has_edge(edges_at(f, n), t, l),
    ensures
        has_edge(edges_at(edge_added_forward(f, from, label, to, props), n), t, l),
{
    if !has_edge(edges_at(f, from.0), to, label) && n == from.0 {
        let e0 = edges_at(f, n);
        let e1 = edges_at(edge_added_forward(f, from, label, to, props), n);
        let j = choose|j: int| 0 <= j < e0.len() && (#[trigger] e0[j]).0 == t && e0[j].1 == l;
        assert(e1[j] == e0[j]);
    }
}

/// Adding both directions leaves both edges in place, and adding them
/// again changes neither the forward nor the inbound lists.
pub proof fn lemma_bidirectional_idempotent(
    f: Map<u64, Seq<EdgeView>>,
    i: Map<u64, Seq<u64>>,
    left: RecordId,
    ll: Seq<u8>,
    right: RecordId,
    rl: Seq<u8>,
)
    ensures
        ({
            let f2 = bidirectional_forward(f, left, ll, right, rl);
            let i2 = bidirectional_inbound(f, i, left, ll, right, rl);
            &&& has_edge(edges_at(f2, left.0), right, ll)
            &&& has_edge(edges_at(f2, right.0), left, rl)
            &&& bidirectional_forward(f2, left, ll, right, rl) == f2
            &&& bidirectional_inbound(f2, i2, left, ll, right, rl) == i2
        }),
{
    let f1 = edge_added_forward(f, left, ll, right, no_properties());
    let f2 = bidirectional_forward(f, left, ll, right, rl);
    lemma_edge_added_present(f, left, ll, right, no_properties());
    lemma_edge_added_keeps(f1, right, rl, left, no_properties(), left.0, right, ll);
    lemma_edge_added_present(f1, right, rl, left, no_properties());
}

/// The edge does not go to `t`.
pub open spec fn not_to(t: RecordId) -> spec_fn(EdgeView) -> bool {
    |e: EdgeView| e.0 != t
}

/// The source is not `s`.
pub open spec fn not_from(s: u64) -> spec_fn(u64) -> bool {
    |x: u64| x != s
}

/// The edge has label `l`.
pub open spec fn labelled(l: Seq<u8>) -> spec_fn(EdgeView) -> bool {
    |e: EdgeView| e.1 == l
}

/// Some edge goes to `x` with label `l`, equal byte for byte.
pub open spec fn edge_with_label(es: Seq<EdgeView>, x: RecordId, l: Seq<u8>) -> bool {
    exists|j: int| 0 <= j < es.len() && es[j].0 == x && es[j].1 == l
}

/// Filtering edges by a label keeps exactly the edges whose label equals
/// it byte for byte, in edge order: the targets come from the edges one
/// by one, an edge adding its target when, and only when, its label is
/// `l`; and every target kept is that of an edge labelled `l`.
pub proof fn lemma_label_filter(es: Seq<EdgeView>, l: Seq<u8>)
    ensures
        es.len() == 0 ==> targets_of(es.filter(labelled(l))) == Seq::<RecordId>::empty(),
        es.len() > 0 ==> targets_of(es.filter(labelled(l))) == if es.last().1 == l {
            targets_of(es.drop_last().filter(labelled(l))).push(es.last().0)
        } else {
            targets_of(es.drop_last().filter(labelled(l)))
        },
        forall|i: int| 0 <= i < targets_of(es.filter(labelled(l))).len() ==> #[trigger] edge_with_label(
            es,
            targets_of(es.filter(labelled(l)))[i],
            l,
        ),
{
    reveal(Seq::filter);
    let f = es.filter(labelled(l));
    if es.len() > 0 {
        assert(es.drop_last().push(es.last()) =~= es);
        es.drop_last().lemma_filter_push(es.last(), labelled(l));
        if es.last().1 == l {
            assert(targets_of(es.drop_last().filter(labelled(l)).push(es.last())) =~= targets_of(
                es.drop_last().filter(labelled(l)),
            ).push(es.last().0));
        }
    } else {
        assert(targets_of(f) =~= Seq::<RecordId>::empty());
    }
    assert forall|i: int| 0 <= i < targets_of(f).len() implies #[trigger] edge_with_label(es, targets_of(f)[i], l) by {
        es.lemma_filter_pred(labelled(l), i);
        es.lemma_filter_contains_rev(labelled(l), f[i]);
        let j = choose|j: int| 0 <= j < es.len() && es[j] == f[i];
        assert(es[j].0 == targets_of(f)[i]);
    }
}

/// The targets of edges.
pub open spec fn targets_of(es: Seq<EdgeView>) -> Seq<RecordId> {
    es.map_values(|e: EdgeView| e.0)
}

/// Each node with the targets of its edges, in order.
pub open spec fn targets(m: Map<u64, Seq<EdgeView>>) -> Map<u64, Seq<RecordId>> {
    m.map_values(|es: Seq<EdgeView>| targets_of(es))
}

/// The records of source numbers.
pub open spec fn records_of(v: Seq<u64>) -> Seq<RecordId> {
    v.map_values(|s: u64| RecordId(s))
}

/// A depth-first visit of `node` at `depth` (at most `max`), after the
/// nodes in `seen` and the output `out`: a node not yet seen is output,
/// then, below `max`, its targets are visited in order one level deeper.
/// The result is what is seen and output afterwards.
pub open spec fn dfs_node(
    t: Map<u64, Seq<RecordId>>,
    node: RecordId,
    depth: int,
    max: int,
    seen: Set<u64>,
    out: Seq<RecordId>,
) -> (Set<u64>, Seq<RecordId>)
    decreases max + 1 - depth, 1int, 0int,
{
    if depth > max || seen.contains(node.0) {
        (seen, out)
    } else if depth == max {
        (seen.insert(node.0), out.push(node))
    } else {
        dfs_list(t, succ(t, node), depth + 1, max, seen.insert(node.0), out.push(node))
    }
}

/// Depth-first visits of the nodes `ts`, in order, at `depth`.
pub open spec fn dfs_list(
    t: Map<u64, Seq<RecordId>>,
    ts: Seq<RecordId>,
    depth: int,
    max: int,
    seen: Set<u64>,
    out: Seq<RecordId>,
) -> (Set<u64>, Seq<RecordId>)
    decreases max + 2 - depth, 0int, ts.len(),
{
    if ts.len() == 0 || depth > max {
        (seen, out)
    } else {
        let r = dfs_node(t, ts[0], depth, max, seen, out);
        dfs_list(t, ts.drop_first(), depth, max, r.0, r.1)
    }
}

/// `r` extends the output `out` only with nodes not in `seen`, each once,
/// all of them seen in `r`, which keeps everything `seen` held.
pub open spec fn fresh_extension(seen: Set<u64>, out: Seq<RecordId>, r: (Set<u64>, Seq<RecordId>)) -> bool {
    &&& r.1.len() >= out.len()
    &&& r.1.subrange(0, out.len() as int) == out
    &&& forall|i: int| out.len() <= i < r.1.len() ==> !seen.contains((#[trigger] r.1[i]).0) && r.0.contains(r.1[i].0)
    &&& forall|i: int, j: int| out.len() <= i < j < r.1.len() ==> (#[trigger] r.1[i]).0 != (#[trigger] r.1[j]).0
    &&& forall|k: u64| seen.contains(k) ==> #[trigger] r.0.contains(k)
}

proof fn lemma_fresh_compose(
    s0: Set<u64>,
    o0: Seq<RecordId>,
    r1: (Set<u64>, Seq<RecordId>),
    r2: (Set<u64>, Seq<RecordId>),
)
    requires
        fresh_extension(s0, o0, r1),
        fresh_extension(r1.0, r1.1, r2),
    ensures
        fresh_extension(s0, o0, r2),
{
    assert(r2.1.subrange(0, o0.len() as int) =~= r2.1.subrange(0, r1.1.len() as int).subrange(0, o0.len() as int));
    assert forall|i: int| o0.len() <= i < r2.1.len() implies !s0.contains((#[trigger] r2.1[i]).0) && r2.0.contains(r2.1[i].0) by {
        if i < r1.1.len() {
            assert(r2.1[i] == r2.1.subrange(0, r1.1.len() as int)[i]);
            assert(r2.1[i] == r1.1[i]);
        }
    }
    assert forall|i: int, j: int| o0.len() <= i < j < r2.1.len() implies (#[trigger] r2.1[i]).0 != (#[trigger] r2.1[j]).0 by {
        if j < r1.1.len() {
            assert(r2.1[i] == r2.1.subrange(0, r1.1.len() as int)[i]);
            assert(r2.1[j] == r2.1.subrange(0, r1.1.len() as int)[j]);
            assert(r1.1[i] == r2.1[i] && r1.1[j] == r2.1[j]);
        } else if i < r1.1.len() {
            assert(r2.1[i] == r2.1.subrange(0, r1.1.len() as int)[i]);
            assert(r1.1[i] == r2.1[i]);
            assert(r1.0.contains(r1.1[i].0));
        }
    }
}

/// A depth-first visit of a node extends the output freshly.
proof fn lemma_dfs_node_fresh(
    t: Map<u64, Seq<RecordId>>,
    node: RecordId,
    depth: int,
    max: int,
    seen: Set<u64>,
    out: Seq<RecordId>,
)
    ensures
        fresh_extension(seen, out, dfs_node(t, node, depth, max, seen, out)),
    decreases max + 1 - depth, 1int, 0int,
{
    if depth > max || seen.contains(node.0) {
        assert(out.subrange(0, out.len() as int) =~= out);
    } else {
        let s1 = seen.insert(node.0);
        let o1 = out.push(node);
        assert(o1.subrange(0, out.len() as int) =~= out);
        assert(fresh_extension(seen, out, (s1, o1)));
        if depth < max {
            lemma_dfs_list_fresh(t, succ(t, node), depth + 1, max, s1, o1);
            lemma_fresh_compose(seen, out, (s1, o1), dfs_list(t, succ(t, node), depth + 1, max, s1, o1));
        }
    }
}

/// Depth-first visits of a list of nodes extend the output freshly.
proof fn lemma_dfs_list_fresh(
    t: Map<u64, Seq<RecordId>>,
    ts: Seq<RecordId>,
    depth: int,
    max: int,
    seen: Set<u64>,
    out: Seq<RecordId>,
)
    ensures
        fresh_extension(seen, out, dfs_list(t, ts, depth, max, seen, out)),
    decreases max + 2 - depth, 0int, ts.len(),
{
    if ts.len() == 0 || depth > max {
        assert(out.subrange(0, out.len() as int) =~= out);
    } else {
        let r = dfs_node(t, ts[0], depth, max, seen, out);
        lemma_dfs_node_fresh(t, ts[0], depth, max, seen, out);
        lemma_dfs_list_fresh(t, ts.drop_first(), depth, max, r.0, r.1);
        lemma_fresh_compose(seen, out, r, dfs_list(t, ts.drop_first(), depth, max, r.0, r.1));
    }
}

/// A depth-first traversal outputs the start first and no node twice.
pub proof fn lemma_dfs_distinct(t: Map<u64, Seq<RecordId>>, start: RecordId, max_hops: nat)
    ensures
        ({
            let out = dfs_node(t, start, 0, max_hops as int, Set::empty(), Seq::empty()).1;
            &&& out.len() > 0 && out[0] == start
            &&& forall|i: int, j: int| 0 <= i < j < out.len() ==> out[i] != out[j]
        }),
{
    lemma_dfs_node_fresh(t, start, 0, max_hops as int, Set::empty(), Seq::empty());
    let s1 = Set::<u64>::empty().insert(start.0);
    let o1 = Seq::<RecordId>::empty().push(start);
    if 0 < max_hops {
        lemma_dfs_list_fresh(t, succ(t, start), 1, max_hops as int, s1, o1);
        let out = dfs_node(t, start, 0, max_hops as int, Set::empty(), Seq::empty()).1;
        assert(out.subrange(0, 1) == o1);
        assert(out[0] == out.subrange(0, 1)[0]);
    }
    let out = dfs_node(t, start, 0, max_hops as int, Set::empty(), Seq::empty()).1;
    assert forall|i: int, j: int| 0 <= i < j < out.len() implies out[i] != out[j] by {
        assert(out[i].0 != out[j].0);
    }
}


/// Node number `k` is listed in `out`.
pub open spec fn listed(out: Seq<RecordId>, k: u64) -> bool {
    exists|i: int| 0 <= i < out.len() && out[i].0 == k
}

/// `seen` holds exactly the numbers of the nodes of `out`.
pub open spec fn seen_is_out(seen: Set<u64>, out: Seq<RecordId>) -> bool {
    &&& forall|i: int| 0 <= i < out.len() ==> seen.contains((#[trigger] out[i]).0)
    &&& forall|k: u64| #[trigger] seen.contains(k) ==> listed(out, k)
}

/// Node `i` of `out` is reached by one link from an earlier node whose
/// depth is one less.
pub open spec fn has_parent(t: Map<u64, Seq<RecordId>>, out: Seq<RecordId>, d: Seq<int>, i: int) -> bool {
    exists|j: int| 0 <= j < i && d[i] == d[j] + 1 && succ(t, out[j]).contains(out[i])
}

/// `d` gives each node of `out` a depth from 0 to `max`: the first node
/// depth 0, every later one a parent one link up.
pub open spec fn depth_labels(t: Map<u64, Seq<RecordId>>, out: Seq<RecordId>, d: Seq<int>, max: int) -> bool {
    &&& d.len() == out.len()
    &&& out.len() > 0 ==> d[0] == 0
    &&& forall|i: int| 0 <= i < d.len() ==> 0 <= #[trigger] d[i] <= max
    &&& forall|i: int| 0 < i < d.len() ==> #[trigger] has_parent(t, out, d, i)
}

/// From index `lo` on, every node of `out` shallower than `max` has all
/// its successors in `seen`.
pub open spec fn closed_from(
    t: Map<u64, Seq<RecordId>>,
    out: Seq<RecordId>,
    d: Seq<int>,
    max: int,
    lo: int,
    seen: Set<u64>,
) -> bool {
    forall|i: int, y: RecordId|
        lo <= i < out.len() && d[i] < max && #[trigger] succ(t, out[i]).contains(y) ==> #[trigger] seen.contains(
            y.0,
        )
}

proof fn lemma_labels_extend(
    t: Map<u64, Seq<RecordId>>,
    out: Seq<RecordId>,
    d: Seq<int>,
    out2: Seq<RecordId>,
    d2: Seq<int>,
    max: int,
)
    requires
        depth_labels(t, out, d, max),
        out2.len() >= out.len(),
        out2.subrange(0, out.len() as int) == out,
        d2.len() == out2.len(),
        d2.subrange(0, d.len() as int) == d,
        forall|i: int| out.len() <= i < d2.len() ==> 0 <= #[trigger] d2[i] <= max,
        forall|i: int| out.len() <= i < d2.len() && 0 < i ==> #[trigger] has_parent(t, out2, d2, i),
        out.len() == 0 && out2.len() > 0 ==> d2[0] == 0,
    ensures
        depth_labels(t, out2, d2, max),
{
    assert forall|i: int| 0 <= i < out.len() implies out2[i] == out[i] && d2[i] == d[i] by {
        assert(out2[i] == out2.subrange(0, out.len() as int)[i]);
        assert(d2[i] == d2.subrange(0, d.len() as int)[i]);
    }
    assert forall|i: int| 0 < i < d2.len() implies #[trigger] has_parent(t, out2, d2, i) by {
        if i < out.len() {
            assert(has_parent(t, out, d, i));
            let j = choose|j: int| 0 <= j < i && d[i] == d[j] + 1 && succ(t, out[j]).contains(out[i]);
            assert(out2[j] == out[j] && d2[j] == d[j]);
        }
    }
    assert forall|i: int| 0 <= i < d2.len() implies 0 <= #[trigger] d2[i] <= max by {
        if i < out.len() {
            assert(d2[i] == d[i]);
        }
    }
    if out.len() > 0 {
        assert(d2[0] == d[0]);
    }
}

/// A depth-first visit of `node` at `depth`, reached from a node one
/// level up (or the start at depth 0), labels each node it outputs with
/// its depth, and leaves every output node shallower than `max` with all
/// its successors seen.
#[verifier::spinoff_prover]
#[verifier::rlimit(40)]
proof fn lemma_dfs_node_labels(
    t: Map<u64, Seq<RecordId>>,
    node: RecordId,
    depth: int,
    max: int,
    seen: Set<u64>,
    out: Seq<RecordId>,
    d: Seq<int>,
) -> (d2: Seq<int>)
    requires
        0 <= depth <= max,
        seen_is_out(seen, out),
        depth_labels(t, out, d, max),
        depth == 0 ==> out.len() == 0,
        depth > 0 ==> exists|j: int| 0 <= j < out.len() && d[j] == depth - 1 && succ(t, out[j]).contains(node),
    ensures
        ({
            let r = dfs_node(t, node, depth, max, seen, out);
            &&& seen_is_out(r.0, r.1)
            &&& depth_labels(t, r.1, d2, max)
            &&& d2.subrange(0, d.len() as int) == d
            &&& closed_from(t, r.1, d2, max, out.len() as int, r.0)
            &&& r.0.contains(node.0)
        }),
    decreases max + 1 - depth, 1int, 0int,
{
    lemma_dfs_node_fresh(t, node, depth, max, seen, out);
    let r = dfs_node(t, node, depth, max, seen, out);
    if seen.contains(node.0) {
        assert(d.subrange(0, d.len() as int) =~= d);
        d
    } else {
        let s1 = seen.insert(node.0);
        let o1 = out.push(node);
        let d1 = d.push(depth);
        assert(seen_is_out(s1, o1)) by {
            assert forall|i: int| 0 <= i < o1.len() implies s1.contains((#[trigger] o1[i]).0) by {
                if i < out.len() {
                    assert(o1[i] == out[i]);
                }
            }
            assert forall|k: u64| #[trigger] s1.contains(k) implies listed(o1, k) by {
                if k == node.0 {
                    assert(o1[out.len() as int] == node);
                } else {
                    let i = choose|i: int| 0 <= i < out.len() && out[i].0 == k;
                    assert(o1[i] == out[i]);
                }
            }
        }
        assert(o1.subrange(0, out.len() as int) =~= out);
        assert(d1.subrange(0, d.len() as int) =~= d);
        if depth > 0 {
            let j = choose|j: int| 0 <= j < out.len() && d[j] == depth - 1 && succ(t, out[j]).contains(node);
            assert(o1[j] == out[j] && d1[j] == d[j]);
            assert(has_parent(t, o1, d1, out.len() as int));
        }
        lemma_labels_extend(t, out, d, o1, d1, max);
        if depth == max {
            d1
        } else {
            let ts = succ(t, node);
            let pj = out.len() as int;
            assert(o1[pj] == node);
            let d2 = lemma_dfs_list_labels(t, ts, depth + 1, max, s1, o1, d1, pj);
            lemma_dfs_list_fresh(t, ts, depth + 1, max, s1, o1);
            let r2 = dfs_list(t, ts, depth + 1, max, s1, o1);
            assert(r2 == r);
            assert(r2.1[pj] == r2.1.subrange(0, o1.len() as int)[pj]);
            assert(d2[pj] == d2.subrange(0, d1.len() as int)[pj]);
            assert(d2.subrange(0, d.len() as int) =~= d2.subrange(0, d1.len() as int).subrange(0, d.len() as int));
            assert forall|i: int, y: RecordId|
                out.len() <= i < r.1.len() && d2[i] < max && #[trigger] succ(t, r.1[i]).contains(y) implies #[trigger] r.0.contains(
                y.0,
            ) by {
                if i == pj {
                    let m = choose|m: int| 0 <= m < ts.len() && ts[m] == y;
                    assert(r.0.contains(ts[m].0));
                }
            }
            assert(r.0.contains(node.0));
            d2
        }
    }
}

/// Depth-first visits of `ts`, successors of node `pj` of `out`, at one
/// level below it: as for one node, and every node of `ts` ends up seen
/// when `depth` is within `max`.
#[verifier::spinoff_prover]
#[verifier::rlimit(40)]
proof fn lemma_dfs_list_labels(
    t: Map<u64, Seq<RecordId>>,
    ts: Seq<RecordId>,
    depth: int,
    max: int,
    seen: Set<u64>,
    out: Seq<RecordId>,
    d: Seq<int>,
    pj: int,
) -> (d2: Seq<int>)
    requires
        1 <= depth,
        seen_is_out(seen, out),
        depth_labels(t, out, d, max),
        0 <= pj < out.len(),
        d[pj] == depth - 1,
        forall|m: int| 0 <= m < ts.len() ==> succ(t, out[pj]).contains(#[trigger] ts[m]),
    ensures
        ({
            let r = dfs_list(t, ts, depth, max, seen, out);
            &&& seen_is_out(r.0, r.1)
            &&& depth_labels(t, r.1, d2, max)
            &&& d2.subrange(0, d.len() as int) == d
            &&& closed_from(t, r.1, d2, max, out.len() as int, r.0)
            &&& depth <= max ==> forall|m: int| 0 <= m < ts.len() ==> r.0.contains((#[trigger] ts[m]).0)
        }),
    decreases max + 2 - depth, 0int, ts.len(),
{
    if ts.len() == 0 || depth > max {
        assert(d.subrange(0, d.len() as int) =~= d);
        d
    } else {
        lemma_dfs_node_fresh(t, ts[0], depth, max, seen, out);
        let d1 = lemma_dfs_node_labels(t, ts[0], depth, max, seen, out, d);
        let r1 = dfs_node(t, ts[0], depth, max, seen, out);
        assert(r1.1[pj] == r1.1.subrange(0, out.len() as int)[pj]);
        assert(d1[pj] == d1.subrange(0, d.len() as int)[pj]);
        let rest = ts.drop_first();
        assert forall|m: int| 0 <= m < rest.len() implies succ(t, r1.1[pj]).contains(#[trigger] rest[m]) by {
            assert(rest[m] == ts[m + 1]);
        }
        let d2 = lemma_dfs_list_labels(t, rest, depth, max, r1.0, r1.1, d1, pj);
        lemma_dfs_list_fresh(t, rest, depth, max, r1.0, r1.1);
        let r = dfs_list(t, ts, depth, max, seen, out);
        assert(r == dfs_list(t, rest, depth, max, r1.0, r1.1));
        assert(d2.subrange(0, d.len() as int) =~= d2.subrange(0, d1.len() as int).subrange(0, d.len() as int));
        assert forall|i: int, y: RecordId|
            out.len() <= i < r.1.len() && d2[i] < max && #[trigger] succ(t, r.1[i]).contains(y) implies #[trigger] r.0.contains(
            y.0,
        ) by {
            if i < r1.1.len() {
                assert(r.1[i] == r.1.subrange(0, r1.1.len() as int)[i]);
                assert(d2[i] == d2.subrange(0, d1.len() as int)[i]);
                assert(r1.0.contains(y.0));
            }
        }
        assert forall|m: int| 0 <= m < ts.len() implies r.0.contains((#[trigger] ts[m]).0) by {
            if m > 0 {
                assert(ts[m] == rest[m - 1]);
            }
        }
        d2
    }
}

/// Nodes labelled by depth are reached from the first within their depth.
proof fn lemma_labels_within(t: Map<u64, Seq<RecordId>>, out: Seq<RecordId>, d: Seq<int>, max: int, i: int)
    requires
        depth_labels(t, out, d, max),
        0 <= i < out.len(),
    ensures
        within(t, out[0], out[i], d[i] as nat),
    decreases i,
{
    if i == 0 {
        let p = seq![out[0]];
        assert(is_walk(t, p));
    } else {
        assert(has_parent(t, out, d, i));
        let j = choose|j: int| 0 <= j < i && d[i] == d[j] + 1 && succ(t, out[j]).contains(out[i]);
        lemma_labels_within(t, out, d, max, j);
        let p = choose|p: Seq<RecordId>|
            #[trigger] is_walk(t, p) && 1 <= p.len() <= d[j] as nat + 1 && p[0] == out[0] && p.last() == out[j];
        let q = p.push(out[i]);
        assert forall|k: int| 0 <= k < q.len() - 1 implies succ(t, #[trigger] q[k]).contains(q[k + 1]) by {
            if k < p.len() - 1 {
                assert(q[k] == p[k] && q[k + 1] == p[k + 1]);
            } else {
                assert(q[k] == p.last());
            }
        }
        assert(is_walk(t, q));
        assert(q[0] == out[0]);
    }
}

/// What a depth-first traversal from `start` within `max_hops` outputs:
/// the start first, no node twice, and each node at a depth `d[i]` that
/// is one more than that of an earlier node linking to it (so reached
/// within `max_hops` links); and every output node less than `max_hops`
/// deep has all its successors output. A node is thus never left out
/// while one linking to it was output above the hop limit.
pub proof fn lemma_dfs_depths(t: Map<u64, Seq<RecordId>>, start: RecordId, max_hops: nat) -> (d: Seq<int>)
    ensures
        ({
            let out = dfs_node(t, start, 0, max_hops as int, Set::empty(), Seq::empty()).1;
            &&& out.len() > 0 && out[0] == start
            &&& d.len() == out.len() && d[0] == 0
            &&& forall|i: int| 0 <= i < out.len() ==> 0 <= #[trigger] d[i] <= max_hops
            &&& forall|i: int| 0 < i < out.len() ==> exists|j: int|
                0 <= j < i && #[trigger] d[i] == d[j] + 1 && succ(t, out[j]).contains(out[i])
            &&& forall|i: int, y: RecordId|
                0 <= i < out.len() && d[i] < max_hops && #[trigger] succ(t, out[i]).contains(y) ==> out.contains(y)
            &&& forall|x: RecordId| #[trigger] out.contains(x) ==> within(t, start, x, max_hops)
        }),
{
    lemma_dfs_distinct(t, start, max_hops);
    let e = Seq::<RecordId>::empty();
    let s0 = Set::<u64>::empty();
    assert(seen_is_out(s0, e));
    assert(depth_labels(t, e, Seq::<int>::empty(), max_hops as int));
    let d = lemma_dfs_node_labels(t, start, 0, max_hops as int, s0, e, Seq::<int>::empty());
    let r = dfs_node(t, start, 0, max_hops as int, s0, e);
    let out = r.1;
    assert forall|i: int| 0 < i < out.len() implies exists|j: int|
        0 <= j < i && #[trigger] d[i] == d[j] + 1 && succ(t, out[j]).contains(out[i]) by {
        assert(has_parent(t, out, d, i));
    }
    assert forall|i: int, y: RecordId|
        0 <= i < out.len() && d[i] < max_hops && #[trigger] succ(t, out[i]).contains(y) implies out.contains(y) by {
        assert(r.0.contains(y.0));
        assert(listed(out, y.0));
        let k = choose|k: int| 0 <= k < out.len() && out[k].0 == y.0;
        assert(out[k] == y);
    }
    assert forall|x: RecordId| #[trigger] out.contains(x) implies within(t, start, x, max_hops) by {
        let i = choose|i: int| 0 <= i < out.len() && out[i] == x;
        lemma_labels_within(t, out, d, max_hops as int, i);
        let p = choose|p: Seq<RecordId>|
            #[trigger] is_walk(t, p) && 1 <= p.len() <= d[i] as nat + 1 && p[0] == out[0] && p.last() == x;
        assert(is_walk(t, p) && 1 <= p.len() <= max_hops + 1 && p[0] == start && p.last() == x);
    }
    d
}

/// A snapshot read back gives the outgoing edges and the inbound lists it
/// was taken from (when it holds inbound lists, and every edge's
/// properties are already the text they read back as).
pub proof fn lemma_adj_snapshot_restores(
    f: Map<u64, Seq<EdgeView>>,
    b: Map<u64, Seq<u64>>,
    kf: Seq<u64>,
    kr: Seq<u64>,
)
    requires
        in_key_order(kf, f),
        in_key_order(kr, b),
        kr.len() > 0,
        adj_fits(AdjSnapshot { nodes: key_rows(kf, f), revs: key_rows(kr, b) }),
    ensures
        ({
            let s = AdjSnapshot { nodes: key_rows(kf, f), revs: key_rows(kr, b) };
            &&& parse_adj_snapshot(adj_frame(adj_payload(s))) == core::result::Result::<AdjSnapshot, Seq<char>>::Ok(s)
            &&& s.revs.len() > 0
            &&& build_map(s.nodes, same_edges()) == f
            &&& build_map(s.revs, same_sources()) == b
        }),
{
    let s = AdjSnapshot { nodes: key_rows(kf, f), revs: key_rows(kr, b) };
    lemma_adj_snapshot_roundtrip(s);
    lemma_build_map(kf, f, same_edges());
    lemma_build_map(kr, b, same_sources());
}


#[verifier::loop_isolation(false)]
fn dfs_inner(g: &GraphIndex, node: RecordId, depth: usize, max_hops: usize, seen: &mut BTreeSet<u64>, out: &mut Vec<RecordId>)
    requires
        depth <= max_hops,
    ensures
        (final(seen)@, final(out)@) == dfs_node(g@, node, depth as int, max_hops as int, old(seen)@, old(out)@),
    decreases max_hops - depth,
{
    if seen.contains(&node.0) {
        return;
    }
    let _ = seen.insert(node.0);
    out.push(node);
    if depth == max_hops {
        return;
    }
    let ts = g.successors(node);
    let ghost s1 = seen@;
    let ghost o1 = out@;
    let ghost want = dfs_list(g@, ts@, depth + 1, max_hops as int, s1, o1);
    let mut i: usize = 0;
    proof {
        assert(ts@.skip(0) =~= ts@);
    }
    while i < ts.len()
        invariant
            i <= ts@.len(),
            depth < max_hops,
            want == dfs_list(g@, ts@.skip(i as int), depth + 1, max_hops as int, seen@, out@),
        decreases ts@.len() - i,
    {
        proof {
            assert(ts@.skip(i as int)[0] == ts@[i as int]);
            assert(ts@.skip(i as int).drop_first() =~= ts@.skip(i + 1));
        }
        dfs_inner(g, ts[i], depth + 1, max_hops, seen, out);
        i = i + 1;
    }
    proof {
        assert(ts@.skip(i as int).len() == 0);
    }
}

/// `m` with source `k` added to the inbound list of each edge's target, in
/// order.
pub open spec fn push_sources(m: Map<u64, Seq<u64>>, es: Seq<EdgeView>, k: u64) -> Map<u64, Seq<u64>>
    decreases es.len(),
{
    if es.len() == 0 {
        m
    } else {
        let m2 = push_sources(m, es.drop_last(), k);
        m2.insert(es.last().0.0, sources_at(m2, es.last().0.0).push(k))
    }
}

/// The inbound lists rebuilt from the outgoing edges, the sources taken in
/// the order `ks`.
pub open spec fn rebuilt_inbound(ks: Seq<u64>, f: Map<u64, Seq<EdgeView>>) -> Map<u64, Seq<u64>>
    decreases ks.len(),
{
    if ks.len() == 0 {
        Map::empty()
    } else {
        push_sources(rebuilt_inbound(ks.drop_last(), f), f[ks.last()], ks.last())
    }
}

/// The identity on edge lists.
pub open spec fn same_edges() -> spec_fn(Seq<EdgeView>) -> Seq<EdgeView> {
    |v: Seq<EdgeView>| v
}

/// The identity on source lists.
pub open spec fn same_sources() -> spec_fn(Seq<u64>) -> Seq<u64> {
    |v: Seq<u64>| v
}

/// An adjacency-list index: outgoing edges by source, inbound sources by
/// target.
pub struct AdjacencyIndex {
    name: String,
    dir: String,
    adjacency: BTreeMap<u64, Vec<Edge>>,
    reverse_index: BTreeMap<u64, Vec<u64>>,
}

fn copy_edge(e: &Edge) -> (out: Edge)
    ensures
        edge_view(out) == edge_view(*e),
{
    Edge { to: e.to, label: copy_bytes(e.label.as_slice()), properties: copy_bytes(e.properties.as_slice()) }
}

fn copy_edges(v: &Vec<Edge>) -> (out: Vec<Edge>)
    ensures
        edges_view(out@) == edges_view(v@),
{
    let mut out: Vec<Edge> = Vec::new();
    let mut i: usize = 0;
    while i < v.len()
        invariant
            i <= v@.len(),
            edges_view(out@) == edges_view(v@).take(i as int),
        decreases v@.len() - i,
    {
        let e = copy_edge(&v[i]);
        let ghost before = edges_view(out@);
        out.push(e);
        proof {
            assert(edges_view(v@)[i as int] == edge_view(v@[i as int]));
            assert(edges_view(out@) =~= before.push(edge_view(e)));
            assert(edges_view(v@).take(i + 1) =~= edges_view(v@).take(i as int).push(edges_view(v@)[i as int]));
            assert(edges_view(out@) =~= edges_view(v@).take(i + 1));
        }
        i = i + 1;
    }
    proof {
        assert(edges_view(v@).take(i as int) =~= edges_view(v@));
    }
    out
}

impl AdjacencyIndex {
    /// The index's name.
    pub closed spec fn spec_name(&self) -> Seq<char> {
        self.name@
    }

    /// Where the index's snapshot goes.
    pub closed spec fn spec_dir(&self) -> Seq<char> {
        self.dir@
    }

    /// Each source with its outgoing edges, in the order added.
    pub closed spec fn forward(&self) -> Map<u64, Seq<EdgeView>> {
        self.adjacency@.map_values(|v: Vec<Edge>| edges_view(v@))
    }

    /// Each target with the sources of its inbound edges, in the order
    /// added.
    pub closed spec fn inbound(&self) -> Map<u64, Seq<u64>> {
        self.reverse_index@.map_values(|v: Vec<u64>| v@)
    }

    /// An empty index named `name` whose snapshot goes to `dir`.
    pub fn with_dir(name: &str, dir: &str) -> (idx: AdjacencyIndex)
        ensures
            idx.spec_name() == name@,
            idx.spec_dir() == dir@,
            idx.forward() == Map::<u64, Seq<EdgeView>>::empty(),
            idx.inbound() == Map::<u64, Seq<u64>>::empty(),
    {
        let idx = AdjacencyIndex {
            name: String::from_str(name),
            dir: String::from_str(dir),
            adjacency: BTreeMap::new(),
            reverse_index: BTreeMap::new(),
        };
        proof {
            assert(idx.forward() =~= Map::<u64, Seq<EdgeView>>::empty());
            assert(idx.inbound() =~= Map::<u64, Seq<u64>>::empty());
        }
        idx
    }

    pub fn name(&self) -> (n: &str)
        ensures
            n@ == self.spec_name(),
    {
        self.name.as_str()
    }

    /// Add the edge `from -> to` with `label` and `properties`, unless an
    /// edge from `from` to `to` with that label is already there; a new
    /// edge also records `from` among `to`'s inbound sources.
    pub fn add_edge(&mut self, from: RecordId, label: &[u8], to: RecordId, properties: Vec<u8>) -> (r: Result<()>)
        ensures
            r is Ok,
            if has_edge(edges_at(old(self).forward(), from.0), to, label@) {
                &&& final(self).forward() == old(self).forward()
                &&& final(self).inbound() == old(self).inbound()
            } else {
                &&& final(self).forward() == old(self).forward().insert(
                    from.0,
                    edges_at(old(self).forward(), from.0).push((to, label@, properties@)),
                )
                &&& final(self).inbound() == old(self).inbound().insert(
                    to.0,
                    sources_at(old(self).inbound(), to.0).push(from.0),
                )
            },
            final(self).spec_name() == old(self).spec_name(),
            final(self).spec_dir() == old(self).spec_dir(),
    {
        let ghost f0 = self.forward();
        let ghost i0 = self.inbound();
        let mut edges = match self.adjacency.remove(&from.0) {
            Some(v) => v,
            None => Vec::new(),
        };
        let ghost ev = edges_view(edges@);
        proof {
            assert(ev == edges_at(f0, from.0));
        }
        let mut dup = false;
        let mut i: usize = 0;
        while i < edges.len()
            invariant
                ev == edges_view(edges@),
                i <= edges@.len(),
                dup == exists|j: int| 0 <= j < i && (#[trigger] ev[j]).0 == to && ev[j].1 == label@,
            decreases edges@.len() - i,
        {
            proof {
                assert(ev[i as int] == edge_view(edges@[i as int]));
            }
            if edges[i].to == to && bytes_equal(edges[i].label.as_slice(), label) {
                dup = true;
            }
            i = i + 1;
        }
        if dup {
            let _ = self.adjacency.insert(from.0, edges);
            proof {
                assert(self.forward() =~= f0);
            }
        } else {
            let ghost pv = properties@;
            let ne = Edge { to, label: copy_bytes(label), properties };
            let ghost before = edges@;
            edges.push(ne);
            proof {
                assert(edge_view(ne) == (to, label@, pv));
                assert(edges_view(edges@) =~= edges_view(before).push(edge_view(ne)));
            }
            let ghost ev2 = edges_view(edges@);
            let _ = self.adjacency.insert(from.0, edges);
            let mut srcs = match self.reverse_index.remove(&to.0) {
                Some(v) => v,
                None => Vec::new(),
            };
            srcs.push(from.0);
            let ghost sv = srcs@;
            let _ = self.reverse_index.insert(to.0, srcs);
            proof {
                assert(sv == sources_at(i0, to.0).push(from.0));
                assert(ev2 == edges_at(f0, from.0).push((to, label@, properties@)));
                assert(self.forward() =~= f0.insert(from.0, ev2));
                assert(self.inbound() =~= i0.insert(to.0, sv));
            }
        }
        Ok(())
    }

    /// Add the edge `from -> to` with `label` and no properties.
    pub fn add_edge_simple(&mut self, from: RecordId, label: &[u8], to: RecordId) -> (r: Result<()>)
        ensures
            r is Ok,
            if has_edge(edges_at(old(self).forward(), from.0), to, label@) {
                &&& final(self).forward() == old(self).forward()
                &&& final(self).inbound() == old(self).inbound()
            } else {
                &&& final(self).forward() == old(self).forward().insert(
                    from.0,
                    edges_at(old(self).forward(), from.0).push((to, label@, no_properties())),
                )
                &&& final(self).inbound() == old(self).inbound().insert(
                    to.0,
                    sources_at(old(self).inbound(), to.0).push(from.0),
                )
            },
            final(self).spec_name() == old(self).spec_name(),
            final(self).spec_dir() == old(self).spec_dir(),
    {
        let mut p: Vec<u8> = Vec::new();
        p.push(0x7b);
        p.push(0x7d);
        proof {
            assert(p@ =~= no_properties());
        }
        self.add_edge(from, label, to, p)
    }

    /// Add `left -> right` and `right -> left`, each unless already there.
    pub fn add_bidirectional_edge(
        &mut self,
        left: RecordId,
        left_to_right_label: &[u8],
        right: RecordId,
        right_to_left_label: &[u8],
    ) -> (r: Result<()>)
        ensures
            r is Ok,
            final(self).forward() == bidirectional_forward(
                old(self).forward(),
                left,
                left_to_right_label@,
                right,
                right_to_left_label@,
            ),
            final(self).inbound() == bidirectional_inbound(
                old(self).forward(),
                old(self).inbound(),
                left,
                left_to_right_label@,
                right,
                right_to_left_label@,
            ),
            has_edge(edges_at(final(self).forward(), left.0), right, left_to_right_label@),
            has_edge(edges_at(final(self).forward(), right.0), left, right_to_left_label@),
            final(self).spec_name() == old(self).spec_name(),
            final(self).spec_dir() == old(self).spec_dir(),
    {
        self.add_edge_simple(left, left_to_right_label, right)?;
        self.add_edge_simple(right, right_to_left_label, left)?;
        proof {
            lemma_bidirectional_idempotent(
                old(self).forward(),
                old(self).inbound(),
                left,
                left_to_right_label@,
                right,
                right_to_left_label@,
            );
        }
        Ok(())
    }

    /// Drop every edge from `from` to `to`, whatever its label; when any
    /// went, `from` leaves `to`'s inbound sources, and a target left
    /// without sources leaves the inbound map.
    pub fn remove_edges(&mut self, from: RecordId, to: RecordId)
        ensures
            if old(self).forward().contains_key(from.0) {
                let kept = old(self).forward()[from.0].filter(not_to(to));
                &&& final(self).forward() == old(self).forward().insert(from.0, kept)
                &&& final(self).inbound() == if kept.len() < old(self).forward()[from.0].len()
                    && old(self).inbound().contains_key(to.0) {
                    let left = old(self).inbound()[to.0].filter(not_from(from.0));
                    if left.len() > 0 {
                        old(self).inbound().insert(to.0, left)
                    } else {
                        old(self).inbound().remove(to.0)
                    }
                } else {
                    old(self).inbound()
                }
            } else {
                &&& final(self).forward() == old(self).forward()
                &&& final(self).inbound() == old(self).inbound()
            },
            final(self).spec_name() == old(self).spec_name(),
            final(self).spec_dir() == old(self).spec_dir(),
    {
        let ghost f0 = self.forward();
        let ghost i0 = self.inbound();
        match self.adjacency.remove(&from.0) {
            None => {
                proof {
                    assert(self.forward() =~= f0);
                }
            },
            Some(edges) => {
                let ghost ev = edges_view(edges@);
                let before = edges.len();
                let mut kept: Vec<Edge> = Vec::new();
                let mut j: usize = 0;
                proof {
                    assert(ev.take(0) =~= Seq::<EdgeView>::empty());
                    assert(ev.take(0).filter(not_to(to)) =~= Seq::<EdgeView>::empty()) by {
                        reveal(Seq::filter);
                    }
                }
                while j < edges.len()
                    invariant
                        ev == edges_view(edges@),
                        j <= edges@.len(),
                        edges_view(kept@) == ev.take(j as int).filter(not_to(to)),
                        kept@.len() <= j,
                    decreases edges@.len() - j,
                {
                    let ghost k0 = edges_view(kept@);
                    proof {
                        assert(ev.take(j + 1) =~= ev.take(j as int).push(ev[j as int]));
                        ev.take(j as int).lemma_filter_push(ev[j as int], not_to(to));
                        assert(ev[j as int] == edge_view(edges@[j as int]));
                    }
                    if edges[j].to != to {
                        let e = copy_edge(&edges[j]);
                        kept.push(e);
                        proof {
                            assert(edges_view(kept@) =~= k0.push(ev[j as int]));
                        }
                    }
                    j = j + 1;
                }
                proof {
                    assert(ev.take(j as int) =~= ev);
                    assert(ev == f0[from.0]);
                }
                let shrank = kept.len() < before;
                let _ = self.adjacency.insert(from.0, kept);
                proof {
                    assert(self.forward() =~= f0.insert(from.0, f0[from.0].filter(not_to(to))));
                }
                if shrank {
                    match self.reverse_index.remove(&to.0) {
                        None => {
                            proof {
                                assert(self.inbound() =~= i0);
                            }
                        },
                        Some(srcs) => {
                            let mut left: Vec<u64> = Vec::new();
                            let mut k: usize = 0;
                            proof {
                                assert(srcs@.take(0).filter(not_from(from.0)) =~= Seq::<u64>::empty()) by {
                                    reveal(Seq::filter);
                                }
                            }
                            while k < srcs.len()
                                invariant
                                    k <= srcs@.len(),
                                    left@ == srcs@.take(k as int).filter(not_from(from.0)),
                                decreases srcs@.len() - k,
                            {
                                proof {
                                    assert(srcs@.take(k + 1) =~= srcs@.take(k as int).push(srcs@[k as int]));
                                    srcs@.take(k as int).lemma_filter_push(srcs@[k as int], not_from(from.0));
                                }
                                if srcs[k] != from.0 {
                                    left.push(srcs[k]);
                                }
                                k = k + 1;
                            }
                            proof {
                                assert(srcs@.take(k as int) =~= srcs@);
                                assert(srcs@ == i0[to.0]);
                            }
                            if left.len() > 0 {
                                let ghost lv = left@;
                                let _ = self.reverse_index.insert(to.0, left);
                                proof {
                                    assert(self.inbound() =~= i0.insert(to.0, lv));
                                }
                            } else {
                                proof {
                                    assert(self.inbound() =~= i0.remove(to.0));
                                }
                            }
                        },
                    }
                } else {
                    proof {
                        assert(self.inbound() =~= i0);
                    }
                }
            },
        }
    }

    /// The edges out of `from`, in the order added.
    pub fn neighbors(&self, from: RecordId) -> (out: Vec<Edge>)
        ensures
            edges_view(out@) == edges_at(self.forward(), from.0),
    {
        match self.adjacency.get(&from.0) {
            Some(v) => copy_edges(v),
            None => {
                let out: Vec<Edge> = Vec::new();
                proof {
                    assert(edges_view(out@) =~= Seq::<EdgeView>::empty());
                }
                out
            },
        }
    }

    /// The sources of the edges into `to`, in the order added.
    pub fn inbound_neighbors(&self, to: RecordId) -> (out: Vec<RecordId>)
        ensures
            out@ == records_of(sources_at(self.inbound(), to.0)),
    {
        let mut out: Vec<RecordId> = Vec::new();
        match self.reverse_index.get(&to.0) {
            Some(v) => {
                let mut i: usize = 0;
                while i < v.len()
                    invariant
                        i <= v@.len(),
                        out@ == records_of(v@).take(i as int),
                    decreases v@.len() - i,
                {
                    out.push(RecordId(v[i]));
                    proof {
                        assert(out@ =~= records_of(v@).take(i + 1));
                    }
                    i = i + 1;
                }
                proof {
                    assert(records_of(v@).take(i as int) =~= records_of(v@));
                }
            },
            None => {
                proof {
                    assert(out@ =~= records_of(Seq::<u64>::empty()));
                }
            },
        }
        out
    }

    /// The targets of the edges out of `from` with `label`, in order.
    pub fn neighbors_with_label(&self, from: RecordId, label: &[u8]) -> (out: Vec<RecordId>)
        ensures
            out@ == targets_of(edges_at(self.forward(), from.0).filter(labelled(label@))),
            forall|i: int| 0 <= i < out@.len() ==> #[trigger] edge_with_label(
                edges_at(self.forward(), from.0),
                out@[i],
                label@,
            ),
    {
        proof {
            lemma_label_filter(edges_at(self.forward(), from.0), label@);
        }
        let mut out: Vec<RecordId> = Vec::new();
        match self.adjacency.get(&from.0) {
            Some(v) => {
                let ghost ev = edges_view(v@);
                let mut i: usize = 0;
                proof {
                    assert(ev.take(0).filter(labelled(label@)) =~= Seq::<EdgeView>::empty()) by {
                        reveal(Seq::filter);
                    }
                    assert(out@ =~= targets_of(Seq::<EdgeView>::empty()));
                }
                while i < v.len()
                    invariant
                        ev == edges_view(v@),
                        i <= v@.len(),
                        out@ == targets_of(ev.take(i as int).filter(labelled(label@))),
                    decreases v@.len() - i,
                {
                    let ghost before = ev.take(i as int).filter(labelled(label@));
                    proof {
                        assert(ev.take(i + 1) =~= ev.take(i as int).push(ev[i as int]));
                        ev.take(i as int).lemma_filter_push(ev[i as int], labelled(label@));
                        assert(ev[i as int] == edge_view(v@[i as int]));
                    }
                    if bytes_equal(v[i].label.as_slice(), label) {
                        out.push(v[i].to);
                        proof {
                            assert(targets_of(before.push(ev[i as int])) =~= targets_of(before).push(ev[i as int].0));
                        }
                    }
                    i = i + 1;
                }
                proof {
                    assert(ev.take(i as int) =~= ev);
                }
            },
            None => {
                proof {
                    assert(Seq::<EdgeView>::empty().filter(labelled(label@)) =~= Seq::<EdgeView>::empty()) by {
                        reveal(Seq::filter);
                    }
                    assert(out@ =~= targets_of(Seq::<EdgeView>::empty()));
                }
            },
        }
        out
    }

    /// The graph of edge targets.
    fn target_graph(&self) -> (g: GraphIndex)
        ensures
            g@ == targets(self.forward()),
    {
        let ghost f = self.forward();
        let mut lists: BTreeMap<u64, Vec<RecordId>> = BTreeMap::new();
        let es = entries_in_order(&self.adjacency);
        let mut i: usize = 0;
        while i < es.len()
            invariant
                f == self.forward(),
                i <= es@.len(),
                forall|j: int|
                    0 <= j < es@.len() ==> self.adjacency@.contains_key(#[trigger] es@[j].0)
                        && self.adjacency@[es@[j].0] == *es@[j].1,
                forall|k: u64| #[trigger]
                    lists@.contains_key(k) <==> exists|j: int| 0 <= j < i && es@[j].0 == k,
                forall|k: u64| #[trigger]
                    lists@.contains_key(k) ==> lists@[k]@ == targets_of(f[k]),
            decreases es@.len() - i,
        {
            let k = es[i].0;
            let list = es[i].1;
            let mut ts: Vec<RecordId> = Vec::new();
            let mut j: usize = 0;
            while j < list.len()
                invariant
                    j <= list@.len(),
                    ts@ == targets_of(edges_view(list@)).take(j as int),
                decreases list@.len() - j,
            {
                ts.push(list[j].to);
                proof {
                    assert(ts@ =~= targets_of(edges_view(list@)).take(j + 1));
                }
                j = j + 1;
            }
            proof {
                assert(targets_of(edges_view(list@)).take(j as int) =~= targets_of(edges_view(list@)));
                assert(f[k] == edges_view(list@));
            }
            let _ = lists.insert(k, ts);
            proof {
                assert forall|k2: u64| #[trigger] lists@.contains_key(k2) implies exists|j2: int|
                    0 <= j2 < i + 1 && es@[j2].0 == k2 by {
                    if k2 != k {
                        let j2 = choose|j2: int| 0 <= j2 < i && es@[j2].0 == k2;
                    } else {
                        assert(es@[i as int].0 == k2);
                    }
                }
            }
            i = i + 1;
        }
        proof {
            assert forall|k: u64| #[trigger] lists@.contains_key(k) <==> f.contains_key(k) by {
                if f.contains_key(k) {
                    let j = choose|j: int| 0 <= j < es@.len() && es@[j].0 == k;
                }
                if lists@.contains_key(k) {
                    let j = choose|j: int| 0 <= j < es@.len() && es@[j].0 == k;
                }
            }
        }
        let g = GraphIndex::from_lists(lists);
        proof {
            assert(g@ =~= targets(f));
        }
        g
    }

    /// Every node reached from `start` within `max_hops` edges, each once,
    /// nearer ones first, the start first.
    pub fn bfs(&self, start: RecordId, max_hops: usize) -> (out: Vec<RecordId>)
        ensures
            out@.len() > 0 && out@[0] == start,
            forall|i: int, j: int| 0 <= i < j < out@.len() ==> out@[i] != out@[j],
            forall|x: RecordId| #[trigger] out@.contains(x) <==> within(targets(self.forward()), start, x, max_hops as nat),
            forall|i: int, j: int, k: nat|
                #![trigger within(targets(self.forward()), start, out@[i], k), out@[j]]
                0 <= i < j < out@.len() && within(targets(self.forward()), start, out@[j], k) ==> within(
                    targets(self.forward()),
                    start,
                    out@[i],
                    k,
                ),
    {
        let g = self.target_graph();
        g.bfs(&start, max_hops)
    }

    /// The nodes reached depth first from `start` within `max_hops` edges,
    /// in visiting order, each once (see `dfs_node`).
    pub fn dfs(&self, start: RecordId, max_hops: usize) -> (out: Vec<RecordId>)
        ensures
            out@ == dfs_node(targets(self.forward()), start, 0, max_hops as int, Set::empty(), Seq::empty()).1,
    {
        let g = self.target_graph();
        let mut seen: BTreeSet<u64> = BTreeSet::new();
        let mut out: Vec<RecordId> = Vec::new();
        proof {
            assert(seen@ =~= Set::<u64>::empty());
            assert(out@ =~= Seq::<RecordId>::empty());
        }
        dfs_inner(&g, start, 0, max_hops, &mut seen, &mut out);
        out
    }

    /// A shortest path of edges from `start` to `target`, both included;
    /// refused when `target` cannot be reached.
    pub fn shortest_path(&self, start: RecordId, target: RecordId) -> (r: Result<Vec<RecordId>>)
        ensures
            match r {
                Ok(p) => {
                    &&& p@.len() >= 1
                    &&& p@[0] == start
                    &&& p@.last() == target
                    &&& is_walk(targets(self.forward()), p@)
                    &&& at_distance(targets(self.forward()), start, target, (p@.len() - 1) as nat)
                },
                Err(e) => is_no_path(e) && forall|k: nat| !within(targets(self.forward()), start, target, k),
            },
    {
        let g = self.target_graph();
        g.shortest_path(&start, &target)
    }

    /// The snapshot's bytes: the nodes and then the inbound lists, each in
    /// increasing number order, in the checksummed frame.
    pub fn snapshot_bytes(&self) -> (out: Vec<u8>)
        ensures
            exists|kf: Seq<u64>, kr: Seq<u64>| {
                &&& in_key_order(kf, self.forward())
                &&& in_key_order(kr, self.inbound())
                &&& out@ == adj_frame(
                    adj_payload(AdjSnapshot { nodes: key_rows(kf, self.forward()), revs: key_rows(kr, self.inbound()) }),
                )
            },
    {
        let ghost f = self.forward();
        let ghost b = self.inbound();
        let es = entries_in_order(&self.adjacency);
        let ghost kf = es@.map_values(|e: (u64, &Vec<Edge>)| e.0);
        let mut nodes: Vec<(u64, Vec<Edge>)> = Vec::new();
        let mut i: usize = 0;
        while i < es.len()
            invariant
                f == self.forward(),
                kf == es@.map_values(|e: (u64, &Vec<Edge>)| e.0),
                i <= es@.len(),
                forall|j: int|
                    0 <= j < es@.len() ==> self.adjacency@.contains_key(#[trigger] es@[j].0)
                        && self.adjacency@[es@[j].0] == *es@[j].1,
                node_rows_view(nodes@) == key_rows(kf, f).take(i as int),
            decreases es@.len() - i,
        {
            let k = es[i].0;
            let list = copy_edges(es[i].1);
            let ghost before = node_rows_view(nodes@);
            nodes.push((k, list));
            proof {
                assert(f[k] == edges_view(es@[i as int].1@));
                assert(node_rows_view(nodes@) =~= before.push((k, edges_view(list@))));
                assert(key_rows(kf, f).take(i + 1) =~= key_rows(kf, f).take(i as int).push((k, f[k])));
            }
            i = i + 1;
        }
        proof {
            assert(key_rows(kf, f).take(i as int) =~= key_rows(kf, f));
            assert forall|k: u64| #[trigger] f.contains_key(k) implies kf.contains(k) by {
                let j = choose|j: int| 0 <= j < es@.len() && es@[j].0 == k;
                assert(kf[j] == k);
            }
        }
        let rs = entries_in_order(&self.reverse_index);
        let ghost kr = rs@.map_values(|e: (u64, &Vec<u64>)| e.0);
        let mut revs: Vec<(u64, Vec<u64>)> = Vec::new();
        let mut j: usize = 0;
        while j < rs.len()
            invariant
                b == self.inbound(),
                kr == rs@.map_values(|e: (u64, &Vec<u64>)| e.0),
                j <= rs@.len(),
                forall|x: int|
                    0 <= x < rs@.len() ==> self.reverse_index@.contains_key(#[trigger] rs@[x].0)
                        && self.reverse_index@[rs@[x].0] == *rs@[x].1,
                rev_rows_view(revs@) == key_rows(kr, b).take(j as int),
            decreases rs@.len() - j,
        {
            let k = rs[j].0;
            let src = rs[j].1;
            let mut copy: Vec<u64> = Vec::new();
            let mut x: usize = 0;
            while x < src.len()
                invariant
                    x <= src@.len(),
                    copy@ == src@.take(x as int),
                decreases src@.len() - x,
            {
                copy.push(src[x]);
                proof {
                    assert(src@.take(x + 1) =~= src@.take(x as int).push(src@[x as int]));
                }
                x = x + 1;
            }
            proof {
                assert(src@.take(x as int) =~= src@);
            }
            let ghost before = rev_rows_view(revs@);
            revs.push((k, copy));
            proof {
                assert(b[k] == src@);
                assert(rev_rows_view(revs@) =~= before.push((k, src@)));
                assert(key_rows(kr, b).take(j + 1) =~= key_rows(kr, b).take(j as int).push((k, b[k])));
            }
            j = j + 1;
        }
        proof {
            assert(key_rows(kr, b).take(j as int) =~= key_rows(kr, b));
            assert forall|k: u64| #[trigger] b.contains_key(k) implies kr.contains(k) by {
                let x = choose|x: int| 0 <= x < rs@.len() && rs@[x].0 == k;
                assert(kr[x] == k);
            }
        }
        let payload = AdjSnapshotPayload { nodes, revs };
        let bytes = encode_adj_payload(&payload);
        let out = frame_adj_snapshot(bytes.as_slice());
        proof {
            assert(in_key_order(kf, f));
            assert(in_key_order(kr, b));
        }
        out
    }

    /// An index from snapshot bytes: the nodes in order (a later node
    /// replacing an earlier one with its number), and the inbound lists
    /// in order, or, when the snapshot has none, rebuilt from the edges
    /// with the sources in increasing number order. Bytes that do not read
    /// as a snapshot are refused as corrupt at `source`.
    pub fn from_snapshot(name: &str, dir: &str, bytes: &[u8], source: &str) -> (r: Result<AdjacencyIndex>)
        ensures
            match (r, parse_adj_snapshot(bytes@)) {
                (Ok(idx), Ok(s)) => {
                    &&& idx.spec_name() == name@
                    &&& idx.spec_dir() == dir@
                    &&& idx.forward() == build_map(s.nodes, same_edges())
                    &&& if s.revs.len() == 0 {
                        exists|ks: Seq<u64>| in_key_order(ks, idx.forward()) && idx.inbound() == rebuilt_inbound(ks, idx.forward())
                    } else {
                        idx.inbound() == build_map(s.revs, same_sources())
                    }
                },
                (Err(e), Err(m)) => is_corrupt_at(e, source@, m),
                _ => false,
            },
    {
        let s = decode_adj_snapshot(bytes, source)?;
        let ghost nv = node_rows_view(s.nodes@);
        let ghost rv = rev_rows_view(s.revs@);
        let mut adjacency: BTreeMap<u64, Vec<Edge>> = BTreeMap::new();
        let mut i: usize = 0;
        proof {
            assert(nv.take(0) =~= Seq::<(u64, Seq<EdgeView>)>::empty());
            assert(adjacency@.map_values(|v: Vec<Edge>| edges_view(v@)) =~= Map::<u64, Seq<EdgeView>>::empty());
        }
        while i < s.nodes.len()
            invariant
                nv == node_rows_view(s.nodes@),
                i <= s.nodes@.len(),
                adjacency@.map_values(|v: Vec<Edge>| edges_view(v@)) == build_map(nv.take(i as int), same_edges()),
            decreases s.nodes@.len() - i,
        {
            let k = s.nodes[i].0;
            let list = copy_edges(&s.nodes[i].1);
            let ghost before = adjacency@.map_values(|v: Vec<Edge>| edges_view(v@));
            let _ = adjacency.insert(k, list);
            proof {
                assert(nv.take(i + 1).drop_last() =~= nv.take(i as int));
                assert(nv.take(i + 1).last() == nv[i as int]);
                assert(nv[i as int] == (k, edges_view(s.nodes@[i as int].1@)));
                assert(adjacency@.map_values(|v: Vec<Edge>| edges_view(v@)) =~= before.insert(k, edges_view(list@)));
            }
            i = i + 1;
        }
        proof {
            assert(nv.take(i as int) =~= nv);
        }
        let mut idx = AdjacencyIndex {
            name: String::from_str(name),
            dir: String::from_str(dir),
            adjacency,
            reverse_index: BTreeMap::new(),
        };
        if s.revs.len() == 0 {
            idx.rebuild_inbound();
        } else {
            let mut j: usize = 0;
            proof {
                assert(rv.take(0) =~= Seq::<(u64, Seq<u64>)>::empty());
                assert(idx.inbound() =~= Map::<u64, Seq<u64>>::empty());
            }
            while j < s.revs.len()
                invariant
                    rv == rev_rows_view(s.revs@),
                    j <= s.revs@.len(),
                    idx.inbound() == build_map(rv.take(j as int), same_sources()),
                    idx.forward() == build_map(nv, same_edges()),
                    idx.spec_name() == name@,
                    idx.spec_dir() == dir@,
                decreases s.revs@.len() - j,
            {
                let k = s.revs[j].0;
                let src = &s.revs[j].1;
                let mut copy: Vec<u64> = Vec::new();
                let mut x: usize = 0;
                while x < src.len()
                    invariant
                        x <= src@.len(),
                        copy@ == src@.take(x as int),
                    decreases src@.len() - x,
                {
                    copy.push(src[x]);
                    proof {
                        assert(src@.take(x + 1) =~= src@.take(x as int).push(src@[x as int]));
                    }
                    x = x + 1;
                }
                proof {
                    assert(src@.take(x as int) =~= src@);
                }
                let ghost before = idx.inbound();
                let _ = idx.reverse_index.insert(k, copy);
                proof {
                    assert(rv.take(j + 1).drop_last() =~= rv.take(j as int));
                    assert(rv.take(j + 1).last() == rv[j as int]);
                    assert(rv[j as int] == (k, src@));
                    assert(idx.inbound() =~= before.insert(k, src@));
                }
                j = j + 1;
            }
            proof {
                assert(rv.take(j as int) =~= rv);
            }
        }
        Ok(idx)
    }

    /// Rebuild the inbound lists from the outgoing edges, the sources in
    /// increasing number order.
    #[verifier::spinoff_prover]
    fn rebuild_inbound(&mut self)
        ensures
            final(self).forward() == old(self).forward(),
            final(self).spec_name() == old(self).spec_name(),
            final(self).spec_dir() == old(self).spec_dir(),
            exists|ks: Seq<u64>| in_key_order(ks, final(self).forward()) && final(self).inbound() == rebuilt_inbound(ks, final(self).forward()),
    {
        let ghost f = self.forward();
        let mut rev: BTreeMap<u64, Vec<u64>> = BTreeMap::new();
        let es = entries_in_order(&self.adjacency);
        let ghost ks = es@.map_values(|e: (u64, &Vec<Edge>)| e.0);
        let mut i: usize = 0;
        proof {
            assert(ks.take(0) =~= Seq::<u64>::empty());
            assert(rev@.map_values(|v: Vec<u64>| v@) =~= Map::<u64, Seq<u64>>::empty());
        }
        while i < es.len()
            invariant
                f == self.forward(),
                ks == es@.map_values(|e: (u64, &Vec<Edge>)| e.0),
                i <= es@.len(),
                forall|j: int|
                    0 <= j < es@.len() ==> self.adjacency@.contains_key(#[trigger] es@[j].0)
                        && self.adjacency@[es@[j].0] == *es@[j].1,
                rev@.map_values(|v: Vec<u64>| v@) == rebuilt_inbound(ks.take(i as int), f),
            decreases es@.len() - i,
        {
            let k = es[i].0;
            let list = es[i].1;
            let ghost ev = edges_view(list@);
            let ghost base = rebuilt_inbound(ks.take(i as int), f);
            let mut x: usize = 0;
            proof {
                assert(ev.take(0) =~= Seq::<EdgeView>::empty());
            }
            while x < list.len()
                invariant
                    ev == edges_view(list@),
                    x <= list@.len(),
                    rev@.map_values(|v: Vec<u64>| v@) == push_sources(base, ev.take(x as int), k),
                decreases list@.len() - x,
            {
                let t = list[x].to.0;
                let ghost m0 = rev@.map_values(|v: Vec<u64>| v@);
                let mut srcs = match rev.remove(&t) {
                    Some(v) => v,
                    None => Vec::new(),
                };
                proof {
                    assert(srcs@ == sources_at(m0, t));
                }
                srcs.push(k);
                let ghost sv = srcs@;
                let _ = rev.insert(t, srcs);
                proof {
                    assert(ev.take(x + 1).drop_last() =~= ev.take(x as int));
                    assert(ev.take(x + 1).last() == ev[x as int]);
                    assert(ev[x as int] == edge_view(list@[x as int]));
                    assert(rev@.map_values(|v: Vec<u64>| v@) =~= m0.insert(t, sv));
                }
                x = x + 1;
            }
            proof {
                assert(ev.take(x as int) =~= ev);
                assert(ks.take(i + 1).drop_last() =~= ks.take(i as int));
                assert(ks.take(i + 1).last() == k);
                assert(f[k] == ev);
            }
            i = i + 1;
        }
        proof {
            assert(ks.take(i as int) =~= ks);
            assert forall|k: u64| #[trigger] f.contains_key(k) implies ks.contains(k) by {
                let j = choose|j: int| 0 <= j < es@.len() && es@[j].0 == k;
                assert(ks[j] == k);
            }
            assert(in_key_order(ks, f));
        }
        self.reverse_index = rev;
    }

    /// The snapshot's file name: the index name with `.adjidx` after it.
    pub fn snapshot_file_name(&self) -> (s: String)
        ensures
            s@ == self.spec_name() + ".adjidx"@,
    {
        crate::text::concat_str(self.name.as_str(), ".adjidx")
    }

    /// The snapshot directory.
    pub fn dir(&self) -> (d: &str)
        ensures
            d@ == self.spec_dir(),
    {
        self.dir.as_str()
    }
}

} // verus!
