//! Adjacency-list binary format for graph edges.
//!
//! Layout: the 32-byte `TRID` header, then 24 bytes of metadata, then one
//! entry per node, ordered by node id: `[node_id (8B) | edge_count (4B)]`
//! followed by `[neighbor_node (8B) | neighbor_rid (8B)]` per edge.
use crate::formats::binary::btree::{lemma_pairs_bytes, pairs_bytes};
use crate::formats::binary::{
    finish_trid_file, lemma_trid_file_roundtrip, open_trid_content, parse_trid_content, trid_file,
};
use crate::formats::{FormatError, IndexType};
use crate::io::binary::append_bytes;
use crate::le::{
    lemma_at_prefix, lemma_at_shift, lemma_le_lengths, lemma_u32_at, lemma_u64_at, read_u32_at,
    read_u64_at, u32_at, u64_at,
};
use std::collections::BTreeMap;
use vstd::bytes::{spec_u32_to_le_bytes, spec_u64_to_le_bytes, u32_to_le_bytes, u64_to_le_bytes};
use vstd::prelude::*;
use vstd::slice::slice_subrange;

verus! {

broadcast use {vstd::laws_cmp::group_laws_cmp, vstd::std_specs::btree::group_btree_axioms};

/// Adjacency metadata (24 bytes when serialized).
#[derive(Clone, Copy, Debug, PartialEq, Eq, Structural)]
pub struct AdjacencyBinaryMetadata {
    pub node_count: u32,
    pub edge_count: u32,
    pub generation: u64,
    pub sequence: u64,
}

/// The 24 bytes of the metadata.
pub open spec fn adjacency_metadata_bytes(m: AdjacencyBinaryMetadata) -> Seq<u8> {
    spec_u32_to_le_bytes(m.node_count) + spec_u32_to_le_bytes(m.edge_count) + spec_u64_to_le_bytes(
        m.generation,
    ) + spec_u64_to_le_bytes(m.sequence)
}

/// What the metadata reader makes of bytes.
pub open spec fn parse_adjacency_metadata(b: Seq<u8>) -> Result<
    AdjacencyBinaryMetadata,
    FormatError,
> {
    if b.len() < 24 {
        Err(FormatError::MetadataTooShort)
    } else {
        Ok(
            AdjacencyBinaryMetadata {
                node_count: u32_at(b, 0),
                edge_count: u32_at(b, 4),
                generation: u64_at(b, 8),
                sequence: u64_at(b, 16),
            },
        )
    }
}

fn to_array24(v: &[u8]) -> (a: [u8; 24])
    requires
        v@.len() == 24,
    ensures
        a@ == v@,
{
    let a = [
        v[0], v[1], v[2], v[3], v[4], v[5], v[6], v[7], v[8], v[9], v[10], v[11], v[12], v[13],
        v[14], v[15], v[16], v[17], v[18], v[19], v[20], v[21], v[22], v[23],
    ];
    assert(a@ =~= v@);
    a
}

impl AdjacencyBinaryMetadata {
    /// Serialize to 24 bytes.
    pub fn to_bytes(&self) -> (b: [u8; 24])
        ensures
            b@ == adjacency_metadata_bytes(*self),
    {
        let mut v: Vec<u8> = Vec::new();
        append_bytes(&mut v, u32_to_le_bytes(self.node_count).as_slice());
        append_bytes(&mut v, u32_to_le_bytes(self.edge_count).as_slice());
        append_bytes(&mut v, u64_to_le_bytes(self.generation).as_slice());
        append_bytes(&mut v, u64_to_le_bytes(self.sequence).as_slice());
        proof {
            lemma_le_lengths();
            assert(v@ =~= adjacency_metadata_bytes(*self));
        }
        to_array24(v.as_slice())
    }

    /// Deserialize from at least 24 bytes.
    pub fn from_bytes(bytes: &[u8]) -> (r: Result<Self, FormatError>)
        ensures
            r == parse_adjacency_metadata(bytes@),
    {
        if bytes.len() < 24 {
            return Err(FormatError::MetadataTooShort);
        }
        Ok(
            AdjacencyBinaryMetadata {
                node_count: read_u32_at(bytes, 0),
                edge_count: read_u32_at(bytes, 4),
                generation: read_u64_at(bytes, 8),
                sequence: read_u64_at(bytes, 16),
            },
        )
    }
}

/// Reading the bytes of metadata gives it back.
pub proof fn lemma_adjacency_metadata_roundtrip(m: AdjacencyBinaryMetadata)
    ensures
        adjacency_metadata_bytes(m).len() == 24,
        parse_adjacency_metadata(adjacency_metadata_bytes(m)) == Ok::<
            AdjacencyBinaryMetadata,
            FormatError,
        >(m),
{
    lemma_le_lengths();
    let b = adjacency_metadata_bytes(m);
    let e = Seq::<u8>::empty();
    lemma_u32_at(e, m.node_count, b.skip(4));
    assert(b =~= e + spec_u32_to_le_bytes(m.node_count) + b.skip(4));
    lemma_u32_at(b.take(4), m.edge_count, b.skip(8));
    assert(b =~= b.take(4) + spec_u32_to_le_bytes(m.edge_count) + b.skip(8));
    lemma_u64_at(b.take(8), m.generation, b.skip(16));
    assert(b =~= b.take(8) + spec_u64_to_le_bytes(m.generation) + b.skip(16));
    lemma_u64_at(b.take(16), m.sequence, e);
    assert(b =~= b.take(16) + spec_u64_to_le_bytes(m.sequence) + e);
}

/// An edge to a neighbor node and its record.
#[derive(Clone, Copy, Debug, PartialEq, Eq, Structural)]
pub struct Edge {
    pub neighbor_node: u64,
    pub neighbor_rid: u64,
}

/// The edges as `(neighbor_node, neighbor_rid)` pairs.
pub open spec fn edge_pairs(e: Seq<Edge>) -> Seq<(u64, u64)> {
    e.map_values(|x: Edge| (x.neighbor_node, x.neighbor_rid))
}

/// The bytes of one node entry: id, edge count, then the edges.
pub open spec fn group_bytes(g: (u64, Seq<Edge>)) -> Seq<u8> {
    spec_u64_to_le_bytes(g.0) + spec_u32_to_le_bytes(g.1.len() as u32) + pairs_bytes(
        edge_pairs(g.1),
    )
}

/// The bytes of node entries, one after the other.
pub open spec fn groups_bytes(g: Seq<(u64, Seq<Edge>)>) -> Seq<u8>
    decreases g.len(),
{
    if g.len() == 0 {
        Seq::empty()
    } else {
        group_bytes(g[0]) + groups_bytes(g.drop_first())
    }
}

/// The `j`-th edge of a node entry whose edges start at `p`.
pub open spec fn edge_at(c: Seq<u8>, p: int, j: int) -> Edge {
    Edge { neighbor_node: u64_at(c, p + 16 * j), neighbor_rid: u64_at(c, p + 16 * j + 8) }
}

/// The node entries of a content block from offset `pos` on, `n` of them.
pub open spec fn parse_adjacency_groups(c: Seq<u8>, pos: int, n: nat) -> Result<
    Seq<(u64, Seq<Edge>)>,
    FormatError,
>
    decreases n,
{
    if n == 0 {
        Ok(Seq::empty())
    } else if pos + 12 > c.len() {
        Err(FormatError::TruncatedNodeEntry)
    } else {
        let id = u64_at(c, pos);
        let k = u32_at(c, pos + 8);
        if pos + 12 + 16 * k > c.len() {
            Err(FormatError::TruncatedEdgeData)
        } else {
            match parse_adjacency_groups(c, pos + 12 + 16 * k, (n - 1) as nat) {
                Err(e) => Err(e),
                Ok(rest) => Ok(
                    seq![(id, Seq::new(k as nat, |j: int| edge_at(c, pos + 12, j)))] + rest,
                ),
            }
        }
    }
}

/// The map from node id to edges built by inserting the entries in order.
pub open spec fn groups_map(g: Seq<(u64, Seq<Edge>)>) -> Map<u64, Seq<Edge>>
    decreases g.len(),
{
    if g.len() == 0 {
        Map::empty()
    } else {
        groups_map(g.drop_last()).insert(g.last().0, g.last().1)
    }
}

/// What the adjacency reader makes of a content block.
pub open spec fn parse_adjacency_content(c: Seq<u8>) -> Result<
    (AdjacencyBinaryMetadata, Map<u64, Seq<Edge>>),
    FormatError,
> {
    if c.len() < 24 {
        Err(FormatError::ContentTooShort)
    } else {
        let m = parse_adjacency_metadata(c.take(24))->Ok_0;
        match parse_adjacency_groups(c, 24, m.node_count as nat) {
            Err(e) => Err(e),
            Ok(g) => Ok((m, groups_map(g))),
        }
    }
}

/// What the adjacency reader makes of a file.
pub open spec fn parse_adjacency_file(b: Seq<u8>) -> Result<
    (AdjacencyBinaryMetadata, Map<u64, Seq<Edge>>),
    FormatError,
> {
    match parse_trid_content(b, IndexType::Adjacency) {
        Err(e) => Err(e),
        Ok(c) => parse_adjacency_content(c),
    }
}

/// Node ids strictly increase.
pub open spec fn groups_sorted(g: Seq<(u64, Seq<Edge>)>) -> bool {
    forall|i: int, j: int| 0 <= i < j < g.len() ==> g[i].0 < g[j].0
}

/// The content block of a writer's state.
pub open spec fn adjacency_content(m: AdjacencyBinaryMetadata, g: Seq<(u64, Seq<Edge>)>) -> Seq<u8> {
    adjacency_metadata_bytes(m) + groups_bytes(g)
}

proof fn lemma_groups_bytes_push(g: Seq<(u64, Seq<Edge>)>, x: (u64, Seq<Edge>))
    ensures
        groups_bytes(g.push(x)) == groups_bytes(g) + group_bytes(x),
    decreases g.len(),
{
    let gp = g.push(x);
    if g.len() == 0 {
        assert(gp[0] == x);
        assert(gp.drop_first() =~= Seq::<(u64, Seq<Edge>)>::empty());
        assert(groups_bytes(gp.drop_first()) == Seq::<u8>::empty());
        assert(groups_bytes(gp) =~= groups_bytes(g) + group_bytes(x));
    } else {
        lemma_groups_bytes_push(g.drop_first(), x);
        assert(gp[0] == g[0]);
        assert(gp.drop_first() =~= g.drop_first().push(x));
        assert(groups_bytes(gp) =~= groups_bytes(g) + group_bytes(x));
    }
}

/// Parsing node entries where they were written gives them back.
proof fn lemma_parse_groups(a: Seq<u8>, g: Seq<(u64, Seq<Edge>)>, b: Seq<u8>)
    requires
        forall|i: int| 0 <= i < g.len() ==> #[trigger] g[i].1.len() <= u32::MAX,
    ensures
        parse_adjacency_groups(a + groups_bytes(g) + b, a.len() as int, g.len()) == Ok::<
            Seq<(u64, Seq<Edge>)>,
            FormatError,
        >(g),
    decreases g.len(),
{
    lemma_le_lengths();
    let c = a + groups_bytes(g) + b;
    if g.len() > 0 {
        let x = g[0];
        let k = x.1.len() as u32;
        let ep = edge_pairs(x.1);
        let idb = spec_u64_to_le_bytes(x.0);
        let kb = spec_u32_to_le_bytes(k);
        let pb = pairs_bytes(ep);
        let rest = g.drop_first();
        lemma_pairs_bytes(ep);
        assert(ep.len() == x.1.len());
        assert(k == x.1.len());
        assert(pb.len() == 16 * k);
        assert(group_bytes(x).len() == 12 + 16 * k);
        assert(groups_bytes(g) == group_bytes(x) + groups_bytes(rest));
        lemma_u64_at(a, x.0, kb + pb + groups_bytes(rest) + b);
        assert(c =~= a + idb + (kb + pb + groups_bytes(rest) + b));
        lemma_u32_at(a + idb, k, pb + groups_bytes(rest) + b);
        assert(c =~= (a + idb) + kb + (pb + groups_bytes(rest) + b));
        let a2 = a + group_bytes(x);
        assert(c =~= a2 + groups_bytes(rest) + b);
        assert forall|i: int| 0 <= i < rest.len() implies #[trigger] rest[i].1.len() <= u32::MAX by {
            assert(rest[i] == g[i + 1]);
        }
        lemma_parse_groups(a2, rest, b);
        assert(a2.len() == a.len() + 12 + 16 * k);
        assert(c.len() >= a.len() + 12 + 16 * k);
        let p = a.len() + 12int;
        let pre = a + idb + kb;
        assert(c =~= pre + pb + (groups_bytes(rest) + b));
        assert forall|j: int| 0 <= j < k implies #[trigger] edge_at(c, p, j) == x.1[j] by {
            assert(u64_at(pb, 16 * j) == ep[j].0);
            lemma_at_prefix(pb, groups_bytes(rest) + b, 16 * j);
            lemma_at_prefix(pb, groups_bytes(rest) + b, 16 * j + 8);
            lemma_at_shift(pre, pb + (groups_bytes(rest) + b), 16 * j);
            lemma_at_shift(pre, pb + (groups_bytes(rest) + b), 16 * j + 8);
            assert(c =~= pre + (pb + (groups_bytes(rest) + b)));
        }
        assert(Seq::new(k as nat, |j: int| edge_at(c, p, j)) =~= x.1);
        assert(u64_at(c, a.len() as int) == x.0);
        assert(u32_at(c, a.len() + 8int) == k);
        assert(rest.len() == (g.len() - 1) as nat);
        assert(parse_adjacency_groups(c, a2.len() as int, rest.len()) == Ok::<Seq<(u64, Seq<Edge>)>, FormatError>(rest));
        assert(seq![x] + rest =~= g);
        assert(x == (x.0, x.1));
    } else {
        assert(g =~= Seq::<(u64, Seq<Edge>)>::empty());
    }
}

/// Reading a written adjacency file gives back its metadata and the map
/// from node id to edges.
pub proof fn lemma_adjacency_file_roundtrip(
    m: AdjacencyBinaryMetadata,
    g: Seq<(u64, Seq<Edge>)>,
    timestamp: u64,
)
    requires
        m.node_count == g.len(),
        forall|i: int| 0 <= i < g.len() ==> #[trigger] g[i].1.len() <= u32::MAX,
    ensures
        parse_adjacency_file(trid_file(IndexType::Adjacency, adjacency_content(m, g), timestamp))
            == Ok::<(AdjacencyBinaryMetadata, Map<u64, Seq<Edge>>), FormatError>((m, groups_map(g))),
{
    let c = adjacency_content(m, g);
    lemma_trid_file_roundtrip(IndexType::Adjacency, c, timestamp);
    lemma_adjacency_metadata_roundtrip(m);
    assert(c.take(24) =~= adjacency_metadata_bytes(m));
    lemma_parse_groups(adjacency_metadata_bytes(m), g, Seq::<u8>::empty());
    assert(c =~= adjacency_metadata_bytes(m) + groups_bytes(g) + Seq::<u8>::empty());
}

/// A key maps to the entry that holds it when keys are distinct.
pub proof fn lemma_groups_map_sorted(g: Seq<(u64, Seq<Edge>)>)
    requires
        groups_sorted(g),
    ensures
        forall|k: u64| #[trigger]
            groups_map(g).contains_key(k) <==> exists|i: int| 0 <= i < g.len() && g[i].0 == k,
        forall|i: int| 0 <= i < g.len() ==> #[trigger] groups_map(g)[g[i].0] == g[i].1,
    decreases g.len(),
{
    if g.len() > 0 {
        let p = g.drop_last();
        assert(groups_sorted(p));
        lemma_groups_map_sorted(p);
        assert forall|k: u64| #[trigger] groups_map(g).contains_key(k) implies exists|i: int|
            0 <= i < g.len() && g[i].0 == k by {
            if k == g.last().0 {
                assert(g[g.len() - 1].0 == k);
            } else {
                assert(groups_map(p).contains_key(k));
                let i = choose|i: int| 0 <= i < p.len() && p[i].0 == k;
                assert(g[i].0 == k);
            }
        }
        assert(groups_map(g) == groups_map(p).insert(g.last().0, g.last().1));
        assert forall|k: u64| (exists|i: int| 0 <= i < g.len() && g[i].0 == k) implies #[trigger] groups_map(
            g,
        ).contains_key(k) by {
            let i = choose|i: int| 0 <= i < g.len() && g[i].0 == k;
            if i < p.len() {
                assert(p[i].0 == k);
                assert(groups_map(p).contains_key(k));
            }
        }
        assert forall|i: int| 0 <= i < g.len() implies #[trigger] groups_map(g)[g[i].0] == g[i].1 by {
            if i < p.len() {
                assert(p[i] == g[i]);
                assert(g[i].0 < g.last().0);
                assert(groups_map(p)[p[i].0] == p[i].1);
            }
        }
    }
}

/// The metadata with the node count set.
pub open spec fn with_node_count(m: AdjacencyBinaryMetadata, n: nat) -> AdjacencyBinaryMetadata {
    AdjacencyBinaryMetadata { node_count: n as u32, ..m }
}

/// Collects edges per node, keeping nodes in id order.
pub struct AdjacencyBinaryWriter {
    metadata: AdjacencyBinaryMetadata,
    nodes: Vec<(u64, Vec<Edge>)>,
}

/// The writer's node entries with their edges as sequences.
pub open spec fn groups_view(v: Seq<(u64, Vec<Edge>)>) -> Seq<(u64, Seq<Edge>)> {
    v.map_values(|p: (u64, Vec<Edge>)| (p.0, p.1@))
}

impl AdjacencyBinaryWriter {
    pub closed spec fn metadata(&self) -> AdjacencyBinaryMetadata {
        self.metadata
    }

    /// The node entries, ordered by node id.
    pub closed spec fn groups(&self) -> Seq<(u64, Seq<Edge>)> {
        groups_view(self.nodes@)
    }

    /// Entries are ordered by id, and no node has more edges, nor are there
    /// more nodes, than the edge count.
    pub open spec fn wf(&self) -> bool {
        &&& groups_sorted(self.groups())
        &&& self.groups().len() <= self.metadata().edge_count
        &&& forall|i: int|
            0 <= i < self.groups().len() ==> #[trigger] self.groups()[i].1.len()
                <= self.metadata().edge_count
    }

    /// The map from node id to its edges.
    pub open spec fn edges(&self) -> Map<u64, Seq<Edge>> {
        groups_map(self.groups())
    }

    pub fn new(generation: u64, sequence: u64) -> (w: Self)
        ensures
            w.wf(),
            w.groups() == Seq::<(u64, Seq<Edge>)>::empty(),
            w.metadata() == (AdjacencyBinaryMetadata {
                node_count: 0,
                edge_count: 0,
                generation,
                sequence,
            }),
    {
        let w = AdjacencyBinaryWriter {
            metadata: AdjacencyBinaryMetadata { node_count: 0, edge_count: 0, generation, sequence },
            nodes: Vec::new(),
        };
        assert(w.groups() =~= Seq::<(u64, Seq<Edge>)>::empty());
        w
    }

    /// Add an edge from `node_id` to a neighbor.
    pub fn write_edge(&mut self, node_id: u64, neighbor_node: u64, neighbor_rid: u64) -> (r: Result<
        (),
        FormatError,
    >)
        requires
            old(self).wf(),
            old(self).metadata().edge_count < u32::MAX,
        ensures
            r is Ok,
            final(self).wf(),
            final(self).metadata() == (AdjacencyBinaryMetadata {
                edge_count: (old(self).metadata().edge_count + 1) as u32,
                ..old(self).metadata()
            }),
            final(self).edges() == old(self).edges().insert(
                node_id,
                (if old(self).edges().contains_key(node_id) {
                    old(self).edges()[node_id]
                } else {
                    Seq::<Edge>::empty()
                }).push(Edge { neighbor_node, neighbor_rid }),
            ),
    {
        let e = Edge { neighbor_node, neighbor_rid };
        let ghost g0 = self.groups();
        proof {
            lemma_groups_map_sorted(g0);
        }
        let mut p: usize = 0;
        while p < self.nodes.len() && self.nodes[p].0 < node_id
            invariant
                p <= self.nodes@.len(),
                self.groups() == g0,
                groups_sorted(g0),
                forall|j: int| 0 <= j < p ==> g0[j].0 < node_id,
            decreases self.nodes@.len() - p,
        {
            proof {
                assert(g0[p as int].0 == self.nodes@[p as int].0);
            }
            p = p + 1;
        }
        let found = p < self.nodes.len() && self.nodes[p].0 == node_id;
        if found {
            let (id, mut edges) = self.nodes.remove(p);
            edges.push(e);
            self.nodes.insert(p, (id, edges));
            proof {
                let g1 = self.groups();
                assert(g1 =~= g0.update(p as int, (node_id, g0[p as int].1.push(e))));
                assert forall|k: u64| #[trigger] groups_map(g1).contains_key(k) == groups_map(
                    g0,
                ).insert(node_id, g0[p as int].1.push(e)).contains_key(k) && (groups_map(
                    g1,
                ).contains_key(k) ==> groups_map(g1)[k] == groups_map(g0).insert(
                    node_id,
                    g0[p as int].1.push(e),
                )[k]) by {
                    lemma_groups_map_sorted(g1);
                    if groups_map(g1).contains_key(k) && k != node_id {
                        let i = choose|i: int| 0 <= i < g1.len() && g1[i].0 == k;
                        assert(g0[i].0 == k);
                    }
                    if groups_map(g0).contains_key(k) {
                        let i = choose|i: int| 0 <= i < g0.len() && g0[i].0 == k;
                        assert(g1[i].0 == k);
                    }
                    assert(g1[p as int].0 == node_id);
                }
                assert(groups_map(g1) =~= groups_map(g0).insert(
                    node_id,
                    g0[p as int].1.push(e),
                ));
            }
        } else {
            let mut edges: Vec<Edge> = Vec::new();
            edges.push(e);
            self.nodes.insert(p, (node_id, edges));
            proof {
                let g1 = self.groups();
                assert(g1 =~= g0.insert(p as int, (node_id, seq![e])));
                assert(!groups_map(g0).contains_key(node_id)) by {
                    if groups_map(g0).contains_key(node_id) {
                        let i = choose|i: int| 0 <= i < g0.len() && g0[i].0 == node_id;
                        if i >= p {
                            assert(g0[p as int].0 <= g0[i].0);
                        }
                    }
                }
                assert(groups_sorted(g1)) by {
                    assert forall|i: int, j: int| 0 <= i < j < g1.len() implies g1[i].0 < g1[j].0 by {
                        if p < g0.len() {
                            assert(g0[p as int].0 > node_id);
                        }
                        if j > p && p < g0.len() {
                            assert(g0[p as int].0 <= g0[j - 1].0);
                        }
                    }
                }
                assert forall|k: u64| #[trigger] groups_map(g1).contains_key(k) == groups_map(
                    g0,
                ).insert(node_id, seq![e]).contains_key(k) && (groups_map(g1).contains_key(k)
                    ==> groups_map(g1)[k] == groups_map(g0).insert(node_id, seq![e])[k]) by {
                    lemma_groups_map_sorted(g1);
                    if groups_map(g1).contains_key(k) && k != node_id {
                        let i = choose|i: int| 0 <= i < g1.len() && g1[i].0 == k;
                        if i < p {
                            assert(g0[i].0 == k);
                        } else {
                            assert(g0[i - 1].0 == k);
                        }
                    }
                    if groups_map(g0).contains_key(k) {
                        let i = choose|i: int| 0 <= i < g0.len() && g0[i].0 == k;
                        if i < p {
                            assert(g1[i].0 == k);
                        } else {
                            assert(g1[i + 1].0 == k);
                        }
                    }
                    assert(g1[p as int].0 == node_id);
                }
                assert(groups_map(g1) =~= groups_map(g0).insert(node_id, seq![e]));
                assert(Seq::<Edge>::empty().push(e) =~= seq![e]);
            }
        }
        self.metadata.edge_count = self.metadata.edge_count + 1;
        Ok(())
    }

    /// The file's bytes: a header holding the CRC-32 of the content, then
    /// the metadata with the number of nodes, and the nodes in id order.
    pub fn finish(self) -> (out: Vec<u8>)
        requires
            self.wf(),
        ensures
            exists|timestamp: u64|
                out@ == #[trigger] trid_file(
                    IndexType::Adjacency,
                    adjacency_content(
                        with_node_count(self.metadata(), self.groups().len()),
                        self.groups(),
                    ),
                    timestamp,
                ),
    {
        let mut metadata = self.metadata;
        metadata.node_count = self.nodes.len() as u32;
        let mut content: Vec<u8> = Vec::new();
        let meta = metadata.to_bytes();
        append_bytes(&mut content, meta.as_slice());
        let mut i: usize = 0;
        while i < self.nodes.len()
            invariant
                i <= self.nodes@.len(),
                self.wf(),
                content@ == adjacency_metadata_bytes(metadata) + groups_bytes(
                    self.groups().take(i as int),
                ),
            decreases self.nodes@.len() - i,
        {
            let node_id = self.nodes[i].0;
            let edges = &self.nodes[i].1;
            proof {
                assert(self.groups()[i as int].1 == edges@);
            }
            append_bytes(&mut content, u64_to_le_bytes(node_id).as_slice());
            append_bytes(&mut content, u32_to_le_bytes(edges.len() as u32).as_slice());
            let mut j: usize = 0;
            let ghost before = content@;
            while j < edges.len()
                invariant
                    j <= edges@.len(),
                    content@ == before + pairs_bytes(edge_pairs(edges@).take(j as int)),
                decreases edges@.len() - j,
            {
                let ed = edges[j];
                append_bytes(&mut content, u64_to_le_bytes(ed.neighbor_node).as_slice());
                append_bytes(&mut content, u64_to_le_bytes(ed.neighbor_rid).as_slice());
                proof {
                    let t = edge_pairs(edges@).take(j + 1);
                    assert(t.drop_last() =~= edge_pairs(edges@).take(j as int));
                    assert(t.last() == (ed.neighbor_node, ed.neighbor_rid));
                }
                j = j + 1;
            }
            proof {
                assert(edge_pairs(edges@).take(j as int) =~= edge_pairs(edges@));
                let g = self.groups();
                assert(g.take(i + 1) =~= g.take(i as int).push(g[i as int]));
                lemma_groups_bytes_push(g.take(i as int), g[i as int]);
            }
            i = i + 1;
        }
        proof {
            assert(self.groups().take(i as int) =~= self.groups());
        }
        let out = finish_trid_file(IndexType::Adjacency, content.as_slice());
        proof {
            let ts = choose|ts: u64| out@ == trid_file(IndexType::Adjacency, content@, ts);
            assert(metadata == with_node_count(self.metadata(), self.groups().len()));
            assert(out@ == trid_file(IndexType::Adjacency, adjacency_content(metadata, self.groups()), ts));
        }
        out
    }
}

/// A validated adjacency file: its metadata and edges per node.
#[derive(Debug)]
pub struct AdjacencyBinaryReader {
    metadata: AdjacencyBinaryMetadata,
    nodes: BTreeMap<u64, Vec<Edge>>,
}

impl AdjacencyBinaryReader {
    pub closed spec fn metadata(&self) -> AdjacencyBinaryMetadata {
        self.metadata
    }

    /// The map from node id to its edges.
    pub closed spec fn edges(&self) -> Map<u64, Seq<Edge>> {
        self.nodes@.map_values(|v: Vec<Edge>| v@)
    }

    /// Validate and parse an adjacency file.
    #[verifier::loop_isolation(false)]
    pub fn open(bytes: &[u8]) -> (r: Result<Self, FormatError>)
        ensures
            match (r, parse_adjacency_file(bytes@)) {
                (Ok(reader), Ok((m, map))) => reader.metadata() == m && reader.edges() == map,
                (Err(e1), Err(e2)) => e1 == e2,
                _ => false,
            },
    {
        let content = open_trid_content(bytes, IndexType::Adjacency)?;
        if content.len() < 24 {
            return Err(FormatError::ContentTooShort);
        }
        let meta_bytes = slice_subrange(content, 0, 24);
        let metadata = AdjacencyBinaryMetadata::from_bytes(meta_bytes)?;
        proof {
            assert(meta_bytes@ =~= content@.take(24));
        }
        let ghost c = content@;
        let mut nodes: BTreeMap<u64, Vec<Edge>> = BTreeMap::new();
        let ghost mut parsed: Seq<(u64, Seq<Edge>)> = Seq::empty();
        let mut pos: usize = 24;
        let mut i: u32 = 0;
        let len = content.len();
        while i < metadata.node_count
            invariant
                len == c.len(),
                c == content@,
                i <= metadata.node_count,
                pos <= len,
                nodes@.map_values(|v: Vec<Edge>| v@) == groups_map(parsed),
                parse_adjacency_groups(c, 24, metadata.node_count as nat) == match parse_adjacency_groups(
                    c,
                    pos as int,
                    (metadata.node_count - i) as nat,
                ) {
                    Err(e) => Err(e),
                    Ok(rest) => Ok(parsed + rest),
                },
            decreases metadata.node_count - i,
        {
            if len - pos < 12 {
                return Err(FormatError::TruncatedNodeEntry);
            }
            let ghost pos0 = pos as int;
            let node_id = read_u64_at(content, pos);
            let edge_count = read_u32_at(content, pos + 8);
            let start = pos + 12;
            pos = start;
            let mut edges: Vec<Edge> = Vec::new();
            let mut j: u32 = 0;
            while j < edge_count
                invariant
                    len == c.len(),
                    c == content@,
                    j <= edge_count,
                    pos == start + 16 * j,
                    pos <= len,
                    edges@ == Seq::new(j as nat, |q: int| edge_at(c, start as int, q)),
                decreases edge_count - j,
            {
                if len - pos < 16 {
                    return Err(FormatError::TruncatedEdgeData);
                }
                let ed = Edge {
                    neighbor_node: read_u64_at(content, pos),
                    neighbor_rid: read_u64_at(content, pos + 8),
                };
                edges.push(ed);
                pos = pos + 16;
                j = j + 1;
                proof {
                    assert(edges@ =~= Seq::new(j as nat, |q: int| edge_at(c, start as int, q)));
                }
            }
            let ghost entry = (node_id, edges@);
            let ghost old_map = nodes@;
            nodes.insert(node_id, edges);
            proof {
                let rem = (metadata.node_count - i) as nat;
                assert(entry == (node_id, Seq::new(edge_count as nat, |q: int| edge_at(c, pos0 + 12, q))));
                let r = parse_adjacency_groups(c, pos as int, (rem - 1) as nat);
                if let Ok(rest) = r {
                    assert(parse_adjacency_groups(c, pos0, rem) == Ok::<Seq<(u64, Seq<Edge>)>, FormatError>(seq![entry] + rest));
                    assert(parsed + (seq![entry] + rest) =~= parsed.push(entry) + rest);
                }
                assert(nodes@.map_values(|v: Vec<Edge>| v@) =~= old_map.map_values(|v: Vec<Edge>| v@).insert(node_id, entry.1));
                assert(parsed.push(entry).drop_last() =~= parsed);
                parsed = parsed.push(entry);
            }
            i = i + 1;
        }
        Ok(AdjacencyBinaryReader { metadata, nodes })
    }

    pub fn node_count(&self) -> (n: u32)
        ensures
            n == self.metadata().node_count,
    {
        self.metadata.node_count
    }

    pub fn edge_count(&self) -> (n: u32)
        ensures
            n == self.metadata().edge_count,
    {
        self.metadata.edge_count
    }

    /// The edges of a node, if the file holds it.
    pub fn get_edges(&self, node_id: u64) -> (r: Option<Vec<Edge>>)
        ensures
            match r {
                Some(v) => self.edges().contains_key(node_id) && v@ == self.edges()[node_id],
                None => !self.edges().contains_key(node_id),
            },
    {
        match self.nodes.get(&node_id) {
            Some(edges) => {
                let mut out: Vec<Edge> = Vec::new();
                let mut i: usize = 0;
                while i < edges.len()
                    invariant
                        i <= edges@.len(),
                        out@ == edges@.take(i as int),
                    decreases edges@.len() - i,
                {
                    out.push(edges[i]);
                    proof {
                        assert(out@ =~= edges@.take(i + 1));
                    }
                    i = i + 1;
                }
                proof {
                    assert(out@ =~= edges@);
                }
                Some(out)
            },
            None => None,
        }
    }

    /// The neighbor node ids of a node, in edge order, if the file holds it.
    pub fn get_neighbors(&self, node_id: u64) -> (r: Option<Vec<u64>>)
        ensures
            match r {
                Some(v) => self.edges().contains_key(node_id) && v@ == self.edges()[node_id].map_values(
                    |e: Edge| e.neighbor_node,
                ),
                None => !self.edges().contains_key(node_id),
            },
    {
        match self.nodes.get(&node_id) {
            Some(edges) => {
                let mut out: Vec<u64> = Vec::new();
                let mut i: usize = 0;
                while i < edges.len()
                    invariant
                        i <= edges@.len(),
                        out@ == edges@.take(i as int).map_values(|e: Edge| e.neighbor_node),
                    decreases edges@.len() - i,
                {
                    out.push(edges[i].neighbor_node);
                    proof {
                        assert(out@ =~= edges@.take(i + 1).map_values(|e: Edge| e.neighbor_node));
                    }
                    i = i + 1;
                }
                proof {
                    assert(edges@.take(i as int) =~= edges@);
                }
                Some(out)
            },
            None => None,
        }
    }
}

} // verus!
