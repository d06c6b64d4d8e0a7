//! The byte form of a vector index snapshot: a checksummed frame around a
//! payload holding the index configuration and, for each vector
//! dimension, a layered graph of nodes. Each node carries its record, its
//! vector as the bit patterns of its components, its level and its
//! neighbours on each layer.
use crate::errors::Result;
use crate::index::inverted_format::{
    always_reads_back, lemma_rd_list_at, lemma_rd_rows_step, lemma_rows_bytes_step, rd_list,
    rd_rows, read_matches, reads_back, rows_bytes, Parsed,
};
use crate::io::binary::{BinaryReader, BinaryWriter};
use crate::io::checksum::{crc32c, spec_crc32c};
use crate::io::parse::{
    corrupt_at, hex32, hex32_string, lemma_rd_u32_at, lemma_rd_u64_at, lemma_rd_u8_at, rd_u32,
    rd_u64, rd_u8, read_u32_step, read_u64_step, read_u8_step, same_input, step_matches,
    tag_message,
};
use crate::le::{lemma_le_lengths, lemma_u32_at, read_u32_at, u32_at};
use crate::text::dec_str;
use vstd::bytes::{spec_u32_to_le_bytes, spec_u64_to_le_bytes};
use vstd::prelude::*;
use vstd::slice::slice_subrange;
use vstd::string::*;

verus! {

broadcast use vstd::seq_lib::group_seq_lib_default;

/// The first four bytes of a snapshot, little-endian: "HNS2".
pub const HNSW_SNAPSHOT_MAGIC: u32 = 0x484e_5332;

/// The snapshot format's version byte.
pub const HNSW_SNAPSHOT_VERSION: u8 = 1;

/// A node: record, vector bits, level, neighbours on each layer.
pub type HnswNodeRow = (u64, Seq<u32>, u8, Seq<Seq<u32>>);

/// A graph: dimension, entry point, top level, nodes.
pub type HnswGraphRow = (u32, Option<u32>, u8, Seq<HnswNodeRow>);

/// The configuration: maximum connections, construction and search
/// breadth, maximum level.
pub type HnswConfigRow = (u64, u64, u64, u8);

/// What a snapshot payload holds.
pub struct HnswSnapshot {
    pub config: HnswConfigRow,
    pub graphs: Seq<HnswGraphRow>,
}

/// A node, as plain values.
pub struct HnswNodePayload {
    pub rid: u64,
    pub vector: Vec<u32>,
    pub level: u8,
    pub neighbors: Vec<Vec<u32>>,
}

/// A graph, as plain values.
pub struct HnswGraphPayload {
    pub dim: u32,
    pub entry: Option<u32>,
    pub max_level: u8,
    pub nodes: Vec<HnswNodePayload>,
}

/// A snapshot payload, as plain values.
pub struct HnswSnapshotPayload {
    pub config: (u64, u64, u64, u8),
    pub graphs: Vec<HnswGraphPayload>,
}

/// Lists of `u32` as sequences.
pub open spec fn lists_view(v: Seq<Vec<u32>>) -> Seq<Seq<u32>> {
    v.map_values(|x: Vec<u32>| x@)
}

impl View for HnswNodePayload {
    type V = HnswNodeRow;

    open spec fn view(&self) -> HnswNodeRow {
        (self.rid, self.vector@, self.level, lists_view(self.neighbors@))
    }
}

/// Nodes as plain values.
pub open spec fn nodes_view(v: Seq<HnswNodePayload>) -> Seq<HnswNodeRow> {
    v.map_values(|n: HnswNodePayload| n@)
}

impl View for HnswGraphPayload {
    type V = HnswGraphRow;

    open spec fn view(&self) -> HnswGraphRow {
        (self.dim, self.entry, self.max_level, nodes_view(self.nodes@))
    }
}

/// Graphs as plain values.
pub open spec fn graphs_view(v: Seq<HnswGraphPayload>) -> Seq<HnswGraphRow> {
    v.map_values(|g: HnswGraphPayload| g@)
}

impl View for HnswSnapshotPayload {
    type V = HnswSnapshot;

    open spec fn view(&self) -> HnswSnapshot {
        HnswSnapshot { config: self.config, graphs: graphs_view(self.graphs@) }
    }
}

impl HnswSnapshotPayload {
    /// Every count and length fits the `u32` written for it.
    pub open spec fn wf(&self) -> bool {
        hnsw_fits(self@)
    }
}

/// How a `u32` is written.
pub open spec fn u32_enc() -> spec_fn(u32) -> Seq<u8> {
    |x: u32| spec_u32_to_le_bytes(x)
}

/// A list of `u32`: the count, then each.
pub open spec fn u32_list_bytes(v: Seq<u32>) -> Seq<u8> {
    spec_u32_to_le_bytes(v.len() as u32) + rows_bytes(v, u32_enc())
}

/// How a list of `u32` is written.
pub open spec fn u32_list_enc() -> spec_fn(Seq<u32>) -> Seq<u8> {
    |v: Seq<u32>| u32_list_bytes(v)
}

/// A node as bytes: record, vector, level, then its layers.
pub open spec fn node_bytes(n: HnswNodeRow) -> Seq<u8> {
    spec_u64_to_le_bytes(n.0) + u32_list_bytes(n.1) + seq![n.2] + spec_u32_to_le_bytes(n.3.len() as u32)
        + rows_bytes(n.3, u32_list_enc())
}

/// How a node is written.
pub open spec fn node_enc() -> spec_fn(HnswNodeRow) -> Seq<u8> {
    |n: HnswNodeRow| node_bytes(n)
}

/// An entry point: 1 and the node's position, or 0.
pub open spec fn entry_point_bytes(e: Option<u32>) -> Seq<u8> {
    match e {
        Some(x) => seq![1u8] + spec_u32_to_le_bytes(x),
        None => seq![0u8],
    }
}

/// A graph as bytes: dimension, entry point, top level, then its nodes.
pub open spec fn graph_bytes(g: HnswGraphRow) -> Seq<u8> {
    spec_u32_to_le_bytes(g.0) + entry_point_bytes(g.1) + seq![g.2] + spec_u32_to_le_bytes(g.3.len() as u32)
        + rows_bytes(g.3, node_enc())
}

/// How a graph is written.
pub open spec fn graph_enc() -> spec_fn(HnswGraphRow) -> Seq<u8> {
    |g: HnswGraphRow| graph_bytes(g)
}

/// The payload: the configuration, then the graphs with their count.
pub open spec fn hnsw_payload(s: HnswSnapshot) -> Seq<u8> {
    spec_u64_to_le_bytes(s.config.0) + spec_u64_to_le_bytes(s.config.1) + spec_u64_to_le_bytes(
        s.config.2,
    ) + seq![s.config.3] + spec_u32_to_le_bytes(s.graphs.len() as u32) + rows_bytes(s.graphs, graph_enc())
}

/// The frame: magic, version, payload length, payload checksum, payload.
pub open spec fn hnsw_frame(payload: Seq<u8>) -> Seq<u8> {
    spec_u32_to_le_bytes(HNSW_SNAPSHOT_MAGIC) + seq![HNSW_SNAPSHOT_VERSION] + spec_u32_to_le_bytes(
        payload.len() as u32,
    ) + spec_u32_to_le_bytes(spec_crc32c(payload)) + payload
}

/// The bytes of a snapshot: its payload, framed.
pub open spec fn hnsw_snapshot_bytes(s: HnswSnapshot) -> Seq<u8> {
    hnsw_frame(hnsw_payload(s))
}

/// A node's counts fit the `u32` written for them.
pub open spec fn node_fits(n: HnswNodeRow) -> bool {
    &&& n.1.len() <= u32::MAX
    &&& n.3.len() <= u32::MAX
    &&& forall|i: int| 0 <= i < n.3.len() ==> (#[trigger] n.3[i]).len() <= u32::MAX
}

/// A graph's counts fit the `u32` written for them.
pub open spec fn graph_fits(g: HnswGraphRow) -> bool {
    &&& g.3.len() <= u32::MAX
    &&& forall|i: int| 0 <= i < g.3.len() ==> node_fits(#[trigger] g.3[i])
}

/// Every count and length of the snapshot fits the `u32` written for it.
pub open spec fn hnsw_fits(s: HnswSnapshot) -> bool {
    &&& s.graphs.len() <= u32::MAX
    &&& forall|i: int| 0 <= i < s.graphs.len() ==> graph_fits(#[trigger] s.graphs[i])
    &&& hnsw_payload(s).len() <= u32::MAX
}

fn write_u32_list(w: &mut BinaryWriter, v: &Vec<u32>)
    ensures
        final(w)@ == old(w)@ + u32_list_bytes(v@),
{
    w.write_u32(v.len() as u32);
    let ghost start = w@;
    let mut i: usize = 0;
    proof {
        assert(v@.take(0) =~= Seq::<u32>::empty());
        assert(w@ =~= start + rows_bytes(v@.take(0), u32_enc()));
    }
    while i < v.len()
        invariant
            i <= v@.len(),
            w@ == start + rows_bytes(v@.take(i as int), u32_enc()),
        decreases v@.len() - i,
    {
        w.write_u32(v[i]);
        proof {
            lemma_rows_bytes_step(v@, u32_enc(), i as int);
            assert(w@ =~= start + rows_bytes(v@.take(i + 1), u32_enc()));
        }
        i = i + 1;
    }
    proof {
        assert(v@.take(i as int) =~= v@);
        assert(w@ =~= old(w)@ + u32_list_bytes(v@));
    }
}

fn write_node(w: &mut BinaryWriter, n: &HnswNodePayload)
    ensures
        final(w)@ == old(w)@ + node_bytes(n@),
{
    w.write_u64(n.rid);
    write_u32_list(w, &n.vector);
    w.write_u8(n.level);
    w.write_u32(n.neighbors.len() as u32);
    let ghost ls = lists_view(n.neighbors@);
    let ghost start = w@;
    let mut i: usize = 0;
    proof {
        assert(ls.take(0) =~= Seq::<Seq<u32>>::empty());
        assert(w@ =~= start + rows_bytes(ls.take(0), u32_list_enc()));
    }
    while i < n.neighbors.len()
        invariant
            ls == lists_view(n.neighbors@),
            i <= n.neighbors@.len(),
            w@ == start + rows_bytes(ls.take(i as int), u32_list_enc()),
        decreases n.neighbors@.len() - i,
    {
        write_u32_list(w, &n.neighbors[i]);
        proof {
            assert(ls[i as int] == n.neighbors@[i as int]@);
            lemma_rows_bytes_step(ls, u32_list_enc(), i as int);
            assert(w@ =~= start + rows_bytes(ls.take(i + 1), u32_list_enc()));
        }
        i = i + 1;
    }
    proof {
        assert(ls.take(i as int) =~= ls);
        assert(w@ =~= old(w)@ + node_bytes(n@));
    }
}

fn write_graph(w: &mut BinaryWriter, g: &HnswGraphPayload)
    ensures
        final(w)@ == old(w)@ + graph_bytes(g@),
{
    w.write_u32(g.dim);
    match g.entry {
        Some(x) => {
            w.write_u8(1);
            w.write_u32(x);
        },
        None => {
            w.write_u8(0);
        },
    }
    w.write_u8(g.max_level);
    w.write_u32(g.nodes.len() as u32);
    let ghost ns = nodes_view(g.nodes@);
    let ghost start = w@;
    proof {
        assert(start =~= old(w)@ + spec_u32_to_le_bytes(g.dim) + entry_point_bytes(g.entry) + seq![
            g.max_level,
        ] + spec_u32_to_le_bytes(g.nodes@.len() as u32));
    }
    let mut i: usize = 0;
    proof {
        assert(ns.take(0) =~= Seq::<HnswNodeRow>::empty());
        assert(w@ =~= start + rows_bytes(ns.take(0), node_enc()));
    }
    while i < g.nodes.len()
        invariant
            ns == nodes_view(g.nodes@),
            i <= g.nodes@.len(),
            w@ == start + rows_bytes(ns.take(i as int), node_enc()),
        decreases g.nodes@.len() - i,
    {
        write_node(w, &g.nodes[i]);
        proof {
            assert(ns[i as int] == g.nodes@[i as int]@);
            lemma_rows_bytes_step(ns, node_enc(), i as int);
            assert(w@ =~= start + rows_bytes(ns.take(i + 1), node_enc()));
        }
        i = i + 1;
    }
    proof {
        assert(ns.take(i as int) =~= ns);
        assert(w@ =~= old(w)@ + graph_bytes(g@));
    }
}

/// The payload of a snapshot.
pub fn encode_hnsw_payload(s: &HnswSnapshotPayload) -> (out: Vec<u8>)
    ensures
        out@ == hnsw_payload(s@),
{
    let ghost v = s@;
    let mut w = BinaryWriter::new();
    w.write_u64(s.config.0);
    w.write_u64(s.config.1);
    w.write_u64(s.config.2);
    w.write_u8(s.config.3);
    w.write_u32(s.graphs.len() as u32);
    let ghost h = w@;
    let mut i: usize = 0;
    proof {
        assert(v.graphs.take(0) =~= Seq::<HnswGraphRow>::empty());
        assert(w@ =~= h + rows_bytes(v.graphs.take(0), graph_enc()));
    }
    while i < s.graphs.len()
        invariant
            v == s@,
            i <= v.graphs.len(),
            v.graphs.len() == s.graphs@.len(),
            w@ == h + rows_bytes(v.graphs.take(i as int), graph_enc()),
        decreases v.graphs.len() - i,
    {
        write_graph(&mut w, &s.graphs[i]);
        proof {
            assert(v.graphs[i as int] == s.graphs@[i as int]@);
            lemma_rows_bytes_step(v.graphs, graph_enc(), i as int);
            assert(w@ =~= h + rows_bytes(v.graphs.take(i + 1), graph_enc()));
        }
        i = i + 1;
    }
    proof {
        assert(v.graphs.take(i as int) =~= v.graphs);
        assert(w@ =~= hnsw_payload(v));
    }
    w.into_inner()
}

/// Frame a payload: magic, version, length, checksum, then the payload.
pub fn frame_hnsw_snapshot(payload: &[u8]) -> (out: Vec<u8>)
    ensures
        out@ == hnsw_frame(payload@),
{
    let mut out = BinaryWriter::new();
    out.write_u32(HNSW_SNAPSHOT_MAGIC);
    out.write_u8(HNSW_SNAPSHOT_VERSION);
    out.write_u32(payload.len() as u32);
    out.write_u32(crc32c(payload));
    out.write_bytes(payload);
    proof {
        assert(out@ =~= hnsw_frame(payload@));
    }
    out.into_inner()
}


/// How a `u32` is read.
pub open spec fn u32_rd() -> spec_fn(Seq<u8>, int) -> Parsed<u32> {
    |p: Seq<u8>, o: int| rd_u32(p, o)
}

/// How a list of `u32` is read.
pub open spec fn u32_list_rd() -> spec_fn(Seq<u8>, int) -> Parsed<Seq<u32>> {
    |p: Seq<u8>, o: int| rd_list(p, o, u32_rd())
}

/// A node at `o`.
pub open spec fn rd_node(p: Seq<u8>, o: int) -> Parsed<HnswNodeRow> {
    match rd_u64(p, o) {
        Err(m) => Err(m),
        Ok((rid, o1)) => match rd_list(p, o1, u32_rd()) {
            Err(m) => Err(m),
            Ok((v, o2)) => match rd_u8(p, o2) {
                Err(m) => Err(m),
                Ok((level, o3)) => match rd_list(p, o3, u32_list_rd()) {
                    Err(m) => Err(m),
                    Ok((ns, o4)) => Ok(((rid, v, level, ns), o4)),
                },
            },
        },
    }
}

/// How a node is read.
pub open spec fn node_rd() -> spec_fn(Seq<u8>, int) -> Parsed<HnswNodeRow> {
    |p: Seq<u8>, o: int| rd_node(p, o)
}

/// The message for an entry-point tag other than 0 and 1.
pub open spec fn bad_entry_tag() -> Seq<char> {
    "invalid HNSW entry-point tag "@
}

/// An entry point at `o`: tag 0 is none, tag 1 is followed by the node's
/// position, and any other tag is refused.
pub open spec fn rd_entry_point(p: Seq<u8>, o: int) -> Parsed<Option<u32>> {
    match rd_u8(p, o) {
        Err(m) => Err(m),
        Ok((tag, o1)) => if tag == 0 {
            Ok((None, o1))
        } else if tag == 1 {
            match rd_u32(p, o1) {
                Err(m) => Err(m),
                Ok((x, o2)) => Ok((Some(x), o2)),
            }
        } else {
            Err(bad_entry_tag() + dec_str(tag as nat))
        },
    }
}

/// A graph at `o`.
pub open spec fn rd_graph(p: Seq<u8>, o: int) -> Parsed<HnswGraphRow> {
    match rd_u32(p, o) {
        Err(m) => Err(m),
        Ok((dim, o1)) => match rd_entry_point(p, o1) {
            Err(m) => Err(m),
            Ok((entry, o2)) => match rd_u8(p, o2) {
                Err(m) => Err(m),
                Ok((top, o3)) => match rd_list(p, o3, node_rd()) {
                    Err(m) => Err(m),
                    Ok((nodes, o4)) => Ok(((dim, entry, top, nodes), o4)),
                },
            },
        },
    }
}

/// How a graph is read.
pub open spec fn graph_rd() -> spec_fn(Seq<u8>, int) -> Parsed<HnswGraphRow> {
    |p: Seq<u8>, o: int| rd_graph(p, o)
}

/// What a payload reads as; bytes after the last graph are ignored.
pub open spec fn parse_hnsw_payload(p: Seq<u8>) -> core::result::Result<HnswSnapshot, Seq<char>> {
    match rd_u64(p, 0) {
        Err(m) => Err(m),
        Ok((mc, o1)) => match rd_u64(p, o1) {
            Err(m) => Err(m),
            Ok((efc, o2)) => match rd_u64(p, o2) {
                Err(m) => Err(m),
                Ok((efs, o3)) => match rd_u8(p, o3) {
                    Err(m) => Err(m),
                    Ok((ml, o4)) => match rd_list(p, o4, graph_rd()) {
                        Err(m) => Err(m),
                        Ok((graphs, _)) => Ok(HnswSnapshot { config: (mc, efc, efs, ml), graphs }),
                    },
                },
            },
        },
    }
}

/// What snapshot bytes read as: the snapshot, or why they are refused.
pub open spec fn parse_hnsw_snapshot(b: Seq<u8>) -> core::result::Result<HnswSnapshot, Seq<char>> {
    if b.len() < 13 {
        Err("truncated HNSW snapshot header"@)
    } else if u32_at(b, 0) != HNSW_SNAPSHOT_MAGIC {
        Err("bad HNSW snapshot magic"@)
    } else if b[4] != HNSW_SNAPSHOT_VERSION {
        Err("unsupported HNSW snapshot version "@ + dec_str(b[4] as nat))
    } else if b.len() < 13 + u32_at(b, 5) {
        Err("truncated HNSW snapshot payload"@)
    } else {
        let p = b.subrange(13, 13 + u32_at(b, 5));
        if spec_crc32c(p) != u32_at(b, 9) {
            Err(
                "HNSW snapshot checksum mismatch: expected "@ + hex32(u32_at(b, 9)) + ", got "@
                    + hex32(spec_crc32c(p)),
            )
        } else {
            parse_hnsw_payload(p)
        }
    }
}

#[verifier::loop_isolation(false)]
fn read_u32_list(reader: &mut BinaryReader) -> (r: Result<Vec<u32>>)
    requires
        old(reader).wf(),
    ensures
        same_input(*old(reader), *final(reader)),
        read_matches(
            r,
            rd_list(old(reader).data(), old(reader).pos(), u32_rd()),
            |v: Vec<u32>| v@,
            *final(reader),
            old(reader).source(),
        ),
{
    let ghost p = reader.data();
    let ghost src = reader.source();
    let n = read_u32_step(reader)?;
    let ghost o = reader.pos();
    let mut out: Vec<u32> = Vec::new();
    let mut i: u32 = 0;
    while i < n
        invariant
            reader.wf(),
            reader.data() == p,
            reader.source() == src,
            i <= n,
            rd_rows(p, o, n as nat, Seq::empty(), u32_rd()) == rd_rows(
                p,
                reader.pos(),
                (n - i) as nat,
                out@,
                u32_rd(),
            ),
        decreases n - i,
    {
        proof {
            lemma_rd_rows_step(p, reader.pos(), (n - i) as nat, out@, u32_rd());
        }
        let x = read_u32_step(reader)?;
        out.push(x);
        i = i + 1;
    }
    Ok(out)
}

#[verifier::loop_isolation(false)]
fn read_u32_lists(reader: &mut BinaryReader) -> (r: Result<Vec<Vec<u32>>>)
    requires
        old(reader).wf(),
    ensures
        same_input(*old(reader), *final(reader)),
        read_matches(
            r,
            rd_list(old(reader).data(), old(reader).pos(), u32_list_rd()),
            |v: Vec<Vec<u32>>| lists_view(v@),
            *final(reader),
            old(reader).source(),
        ),
{
    let ghost p = reader.data();
    let ghost src = reader.source();
    let n = read_u32_step(reader)?;
    let ghost o = reader.pos();
    let mut out: Vec<Vec<u32>> = Vec::new();
    let mut i: u32 = 0;
    proof {
        assert(lists_view(out@) =~= Seq::<Seq<u32>>::empty());
    }
    while i < n
        invariant
            reader.wf(),
            reader.data() == p,
            reader.source() == src,
            i <= n,
            rd_rows(p, o, n as nat, Seq::empty(), u32_list_rd()) == rd_rows(
                p,
                reader.pos(),
                (n - i) as nat,
                lists_view(out@),
                u32_list_rd(),
            ),
        decreases n - i,
    {
        let ghost before = lists_view(out@);
        proof {
            lemma_rd_rows_step(p, reader.pos(), (n - i) as nat, before, u32_list_rd());
        }
        let x = read_u32_list(reader)?;
        let ghost xv = x@;
        out.push(x);
        proof {
            assert(lists_view(out@) =~= before.push(xv));
        }
        i = i + 1;
    }
    Ok(out)
}

fn read_node(reader: &mut BinaryReader) -> (r: Result<HnswNodePayload>)
    requires
        old(reader).wf(),
    ensures
        same_input(*old(reader), *final(reader)),
        read_matches(
            r,
            rd_node(old(reader).data(), old(reader).pos()),
            |n: HnswNodePayload| n@,
            *final(reader),
            old(reader).source(),
        ),
{
    let rid = read_u64_step(reader)?;
    let vector = read_u32_list(reader)?;
    let level = read_u8_step(reader)?;
    let neighbors = read_u32_lists(reader)?;
    Ok(HnswNodePayload { rid, vector, level, neighbors })
}

fn read_entry_point(reader: &mut BinaryReader) -> (r: Result<Option<u32>>)
    requires
        old(reader).wf(),
    ensures
        same_input(*old(reader), *final(reader)),
        step_matches(r, rd_entry_point(old(reader).data(), old(reader).pos()), *final(reader), old(reader).source()),
{
    let tag = read_u8_step(reader)?;
    if tag == 0 {
        Ok(None)
    } else if tag == 1 {
        let x = read_u32_step(reader)?;
        Ok(Some(x))
    } else {
        Err(corrupt_at(reader.source_str(), tag_message("invalid HNSW entry-point tag ", tag)))
    }
}

#[verifier::loop_isolation(false)]
fn read_graph(reader: &mut BinaryReader) -> (r: Result<HnswGraphPayload>)
    requires
        old(reader).wf(),
    ensures
        same_input(*old(reader), *final(reader)),
        read_matches(
            r,
            rd_graph(old(reader).data(), old(reader).pos()),
            |g: HnswGraphPayload| g@,
            *final(reader),
            old(reader).source(),
        ),
{
    let ghost p = reader.data();
    let ghost src = reader.source();
    let dim = read_u32_step(reader)?;
    let entry = read_entry_point(reader)?;
    let max_level = read_u8_step(reader)?;
    let n = read_u32_step(reader)?;
    let ghost o = reader.pos();
    let mut nodes: Vec<HnswNodePayload> = Vec::new();
    let mut i: u32 = 0;
    proof {
        assert(nodes_view(nodes@) =~= Seq::<HnswNodeRow>::empty());
    }
    while i < n
        invariant
            reader.wf(),
            reader.data() == p,
            reader.source() == src,
            i <= n,
            rd_rows(p, o, n as nat, Seq::empty(), node_rd()) == rd_rows(
                p,
                reader.pos(),
                (n - i) as nat,
                nodes_view(nodes@),
                node_rd(),
            ),
        decreases n - i,
    {
        let ghost before = nodes_view(nodes@);
        proof {
            lemma_rd_rows_step(p, reader.pos(), (n - i) as nat, before, node_rd());
        }
        let x = read_node(reader)?;
        let ghost xv = x@;
        nodes.push(x);
        proof {
            assert(nodes_view(nodes@) =~= before.push(xv));
        }
        i = i + 1;
    }
    Ok(HnswGraphPayload { dim, entry, max_level, nodes })
}

#[verifier::loop_isolation(false)]
fn read_hnsw_payload(reader: &mut BinaryReader) -> (r: Result<HnswSnapshotPayload>)
    requires
        old(reader).wf(),
        old(reader).pos() == 0,
    ensures
        match (r, parse_hnsw_payload(old(reader).data())) {
            (Ok(s), Ok(v)) => s@ == v,
            (Err(e), Err(m)) => crate::io::parse::is_corrupt_at(e, old(reader).source(), m),
            _ => false,
        },
{
    let ghost p = reader.data();
    let ghost src = reader.source();
    let mc = read_u64_step(reader)?;
    let efc = read_u64_step(reader)?;
    let efs = read_u64_step(reader)?;
    let ml = read_u8_step(reader)?;
    let n = read_u32_step(reader)?;
    let ghost o = reader.pos();
    let mut graphs: Vec<HnswGraphPayload> = Vec::new();
    let mut i: u32 = 0;
    proof {
        assert(graphs_view(graphs@) =~= Seq::<HnswGraphRow>::empty());
    }
    while i < n
        invariant
            reader.wf(),
            reader.data() == p,
            reader.source() == src,
            i <= n,
            rd_rows(p, o, n as nat, Seq::empty(), graph_rd()) == rd_rows(
                p,
                reader.pos(),
                (n - i) as nat,
                graphs_view(graphs@),
                graph_rd(),
            ),
        decreases n - i,
    {
        let ghost before = graphs_view(graphs@);
        proof {
            lemma_rd_rows_step(p, reader.pos(), (n - i) as nat, before, graph_rd());
        }
        let x = read_graph(reader)?;
        let ghost xv = x@;
        graphs.push(x);
        proof {
            assert(graphs_view(graphs@) =~= before.push(xv));
        }
        i = i + 1;
    }
    Ok(HnswSnapshotPayload { config: (mc, efc, efs, ml), graphs })
}

/// Read a snapshot from its bytes; `source` names them in errors.
pub fn decode_hnsw_snapshot(bytes: &[u8], source: &str) -> (r: Result<HnswSnapshotPayload>)
    ensures
        match (r, parse_hnsw_snapshot(bytes@)) {
            (Ok(s), Ok(v)) => s@ == v,
            (Err(e), Err(m)) => crate::io::parse::is_corrupt_at(e, source@, m),
            _ => false,
        },
{
    if bytes.len() < 13 {
        return Err(corrupt_at(source, String::from_str("truncated HNSW snapshot header")));
    }
    if read_u32_at(bytes, 0) != HNSW_SNAPSHOT_MAGIC {
        return Err(corrupt_at(source, String::from_str("bad HNSW snapshot magic")));
    }
    if bytes[4] != HNSW_SNAPSHOT_VERSION {
        return Err(corrupt_at(source, tag_message("unsupported HNSW snapshot version ", bytes[4])));
    }
    let payload_len = read_u32_at(bytes, 5);
    let expected_crc = read_u32_at(bytes, 9);
    if bytes.len() - 13 < payload_len as usize {
        return Err(corrupt_at(source, String::from_str("truncated HNSW snapshot payload")));
    }
    let payload = slice_subrange(bytes, 13, 13 + payload_len as usize);
    let actual_crc = crc32c(payload);
    if actual_crc != expected_crc {
        let mut m = String::from_str("HNSW snapshot checksum mismatch: expected ");
        let a = hex32_string(expected_crc);
        m.append(a.as_str());
        m.append(", got ");
        let b = hex32_string(actual_crc);
        m.append(b.as_str());
        return Err(corrupt_at(source, m));
    }
    let mut reader = BinaryReader::new(payload, source);
    read_hnsw_payload(&mut reader)
}


/// A `u32` reads back from its bytes wherever they stand.
proof fn lemma_u32_reads(x: u32)
    ensures
        always_reads_back(u32_rd(), u32_enc(), x),
{
    lemma_le_lengths();
    assert forall|a: Seq<u8>, b: Seq<u8>| #[trigger] reads_back(u32_rd(), u32_enc(), x, a, b) by {
        lemma_rd_u32_at(a, x, b);
    }
}

/// A list of `u32` reads back from its bytes wherever they stand.
proof fn lemma_u32_list_reads(v: Seq<u32>)
    requires
        v.len() <= u32::MAX,
    ensures
        always_reads_back(u32_list_rd(), u32_list_enc(), v),
{
    lemma_le_lengths();
    assert forall|i: int| 0 <= i < v.len() implies always_reads_back(u32_rd(), u32_enc(), #[trigger] v[i]) by {
        lemma_u32_reads(v[i]);
    }
    assert forall|a: Seq<u8>, b: Seq<u8>| #[trigger] reads_back(u32_list_rd(), u32_list_enc(), v, a, b) by {
        lemma_rd_list_at(a, v, u32_enc(), u32_rd(), b);
    }
}

#[verifier::spinoff_prover]
proof fn lemma_node_reads(n: HnswNodeRow)
    requires
        node_fits(n),
    ensures
        always_reads_back(node_rd(), node_enc(), n),
{
    lemma_le_lengths();
    assert forall|i: int| 0 <= i < n.3.len() implies always_reads_back(u32_list_rd(), u32_list_enc(), #[trigger] n.3[i]) by {
        lemma_u32_list_reads(n.3[i]);
    }
    assert forall|i: int| 0 <= i < n.1.len() implies always_reads_back(u32_rd(), u32_enc(), #[trigger] n.1[i]) by {
        lemma_u32_reads(n.1[i]);
    }
    assert forall|a: Seq<u8>, b: Seq<u8>| #[trigger] reads_back(node_rd(), node_enc(), n, a, b) by {
        let q = spec_u64_to_le_bytes(n.0);
        let l1 = u32_list_bytes(n.1);
        let lv = seq![n.2];
        let l2 = spec_u32_to_le_bytes(n.3.len() as u32) + rows_bytes(n.3, u32_list_enc());
        let p = a + node_bytes(n) + b;
        assert(node_bytes(n) =~= q + l1 + lv + l2);
        assert(p =~= a + q + (l1 + lv + l2 + b));
        lemma_rd_u64_at(a, n.0, l1 + lv + l2 + b);
        assert(p =~= (a + q) + l1 + (lv + l2 + b));
        lemma_rd_list_at(a + q, n.1, u32_enc(), u32_rd(), lv + l2 + b);
        assert(p =~= (a + q + l1) + seq![n.2] + (l2 + b));
        lemma_rd_u8_at(a + q + l1, n.2, l2 + b);
        assert(p =~= (a + q + l1 + lv) + l2 + b);
        lemma_rd_list_at(a + q + l1 + lv, n.3, u32_list_enc(), u32_list_rd(), b);
    }
}

#[verifier::spinoff_prover]
#[verifier::rlimit(40)]
proof fn lemma_graph_reads(g: HnswGraphRow)
    requires
        graph_fits(g),
    ensures
        always_reads_back(graph_rd(), graph_enc(), g),
{
    lemma_le_lengths();
    assert forall|i: int| 0 <= i < g.3.len() implies always_reads_back(node_rd(), node_enc(), #[trigger] g.3[i]) by {
        lemma_node_reads(g.3[i]);
    }
    assert forall|a: Seq<u8>, b: Seq<u8>| #[trigger] reads_back(graph_rd(), graph_enc(), g, a, b) by {
        let d = spec_u32_to_le_bytes(g.0);
        let e = entry_point_bytes(g.1);
        let t = seq![g.2];
        let l = spec_u32_to_le_bytes(g.3.len() as u32) + rows_bytes(g.3, node_enc());
        let p = a + graph_bytes(g) + b;
        assert(graph_bytes(g) =~= d + e + t + l);
        assert(p =~= a + d + (e + t + l + b));
        lemma_rd_u32_at(a, g.0, e + t + l + b);
        let ad = a + d;
        assert(rd_entry_point(p, ad.len() as int) == Parsed::<Option<u32>>::Ok((g.1, (ad.len() + e.len()) as int))) by {
            match g.1 {
                Some(x) => {
                    let xb = spec_u32_to_le_bytes(x);
                    assert(p =~= ad + seq![1u8] + (xb + t + l + b));
                    lemma_rd_u8_at(ad, 1u8, xb + t + l + b);
                    assert(p =~= (ad + seq![1u8]) + xb + (t + l + b));
                    lemma_rd_u32_at(ad + seq![1u8], x, t + l + b);
                },
                None => {
                    assert(p =~= ad + seq![0u8] + (t + l + b));
                    lemma_rd_u8_at(ad, 0u8, t + l + b);
                },
            }
        }
        assert(p =~= (ad + e) + seq![g.2] + (l + b));
        lemma_rd_u8_at(ad + e, g.2, l + b);
        assert(p =~= (ad + e + t) + l + b);
        lemma_rd_list_at(ad + e + t, g.3, node_enc(), node_rd(), b);
    }
}

/// A payload reads back as the snapshot it was written from.
#[verifier::spinoff_prover]
pub proof fn lemma_hnsw_payload_roundtrip(s: HnswSnapshot)
    requires
        hnsw_fits(s),
    ensures
        parse_hnsw_payload(hnsw_payload(s)) == core::result::Result::<HnswSnapshot, Seq<char>>::Ok(s),
{
    lemma_le_lengths();
    let c0 = spec_u64_to_le_bytes(s.config.0);
    let c1 = spec_u64_to_le_bytes(s.config.1);
    let c2 = spec_u64_to_le_bytes(s.config.2);
    let c3 = seq![s.config.3];
    let l = spec_u32_to_le_bytes(s.graphs.len() as u32) + rows_bytes(s.graphs, graph_enc());
    let p = hnsw_payload(s);
    assert(p =~= c0 + c1 + c2 + c3 + l);
    assert forall|i: int| 0 <= i < s.graphs.len() implies always_reads_back(graph_rd(), graph_enc(), #[trigger] s.graphs[i]) by {
        lemma_graph_reads(s.graphs[i]);
    }
    assert(p =~= Seq::<u8>::empty() + c0 + (c1 + c2 + c3 + l));
    lemma_rd_u64_at(Seq::<u8>::empty(), s.config.0, c1 + c2 + c3 + l);
    assert(p =~= c0 + c1 + (c2 + c3 + l));
    lemma_rd_u64_at(c0, s.config.1, c2 + c3 + l);
    assert(p =~= (c0 + c1) + c2 + (c3 + l));
    lemma_rd_u64_at(c0 + c1, s.config.2, c3 + l);
    assert(p =~= (c0 + c1 + c2) + seq![s.config.3] + l);
    lemma_rd_u8_at(c0 + c1 + c2, s.config.3, l);
    assert(p =~= (c0 + c1 + c2 + c3) + l + Seq::<u8>::empty());
    lemma_rd_list_at(c0 + c1 + c2 + c3, s.graphs, graph_enc(), graph_rd(), Seq::<u8>::empty());
}

/// Snapshot bytes read back as the snapshot they were written from.
#[verifier::spinoff_prover]
pub proof fn lemma_hnsw_snapshot_roundtrip(s: HnswSnapshot)
    requires
        hnsw_fits(s),
    ensures
        parse_hnsw_snapshot(hnsw_snapshot_bytes(s)) == core::result::Result::<HnswSnapshot, Seq<char>>::Ok(s),
{
    lemma_le_lengths();
    let p = hnsw_payload(s);
    let m = spec_u32_to_le_bytes(HNSW_SNAPSHOT_MAGIC);
    let v = seq![HNSW_SNAPSHOT_VERSION];
    let n = spec_u32_to_le_bytes(p.len() as u32);
    let c = spec_u32_to_le_bytes(spec_crc32c(p));
    let b = hnsw_frame(p);
    assert(b =~= Seq::<u8>::empty() + m + (v + n + c + p));
    lemma_u32_at(Seq::<u8>::empty(), HNSW_SNAPSHOT_MAGIC, v + n + c + p);
    assert(b[4] == HNSW_SNAPSHOT_VERSION);
    assert(b =~= (m + v) + n + (c + p));
    lemma_u32_at(m + v, p.len() as u32, c + p);
    assert(b =~= (m + v + n) + c + p);
    lemma_u32_at(m + v + n, spec_crc32c(p), p);
    assert(b.subrange(13, 13 + p.len() as int) =~= p);
    lemma_hnsw_payload_roundtrip(s);
}

/// The bytes of a snapshot; when every count fits, they read back as it.
pub fn encode_hnsw_snapshot(p: &HnswSnapshotPayload) -> (b: Vec<u8>)
    ensures
        b@ == hnsw_snapshot_bytes(p@),
        p.wf() ==> parse_hnsw_snapshot(b@) == core::result::Result::<HnswSnapshot, Seq<char>>::Ok(p@),
{
    let payload = encode_hnsw_payload(p);
    let out = frame_hnsw_snapshot(payload.as_slice());
    proof {
        if p.wf() {
            lemma_hnsw_snapshot_roundtrip(p@);
        }
    }
    out
}


/// Whether the bytes begin with the snapshot magic (other snapshots are
/// read as JSON).
pub fn is_hnsw_snapshot(bytes: &[u8]) -> (r: bool)
    ensures
        r == (bytes@.len() >= 4 && u32_at(bytes@, 0) == HNSW_SNAPSHOT_MAGIC),
{
    bytes.len() >= 4 && read_u32_at(bytes, 0) == HNSW_SNAPSHOT_MAGIC
}

} // verus!
