//! The byte form of an adjacency index snapshot: a checksummed frame around
//! a payload of nodes (each with its edges: target, label, properties) and
//! of inbound lists (each target with its sources). Version 1 payloads have
//! no properties and no inbound lists.
use crate::errors::Result;
use crate::index::adjacency::{edge_view, edges_view, Edge, EdgeView};
use crate::index::inverted_format::{
    always_reads_back, id_rd, ids_le, lemma_rd_ids_at, lemma_rd_list_at, lemma_rd_rows_step,
    lemma_rows_bytes_step, rd_list, rd_rows, read_matches, reads_back, rows_bytes, Parsed,
};
use crate::io::binary::{BinaryReader, BinaryWriter};
use crate::io::checksum::{crc32c, spec_crc32c};
use crate::io::parse::{
    corrupt_at, hex32, hex32_string, is_corrupt_at, lemma_rd_len_bytes_at, lemma_rd_u64_at,
    len_bytes, rd_len_bytes, rd_u64,
    read_len_bytes_step, read_u32_step, read_u64_step, same_input, tag_message,
};
use crate::le::{lemma_le_lengths, lemma_u32_at, read_u32_at, u32_at};
use crate::store::RecordId;
use crate::text::dec_str;
use vstd::bytes::{spec_u32_to_le_bytes, spec_u64_to_le_bytes};
use vstd::prelude::*;
use vstd::slice::slice_subrange;
use vstd::string::*;

verus! {

broadcast use vstd::seq_lib::group_seq_lib_default;

/// The first four bytes of a snapshot, little-endian: "ADJ2".
pub const ADJ_SNAPSHOT_MAGIC: u32 = 0x4144_4a32;

/// The version byte snapshots are written with.
pub const ADJ_SNAPSHOT_VERSION: u8 = 2;

/// A node with its outgoing edges.
pub type NodeRow = (u64, Seq<EdgeView>);

/// A target with the sources of its inbound edges.
pub type RevRow = (u64, Seq<u64>);

/// What a snapshot payload holds.
pub struct AdjSnapshot {
    pub nodes: Seq<NodeRow>,
    pub revs: Seq<RevRow>,
}

/// A snapshot payload, as plain values.
pub struct AdjSnapshotPayload {
    pub nodes: Vec<(u64, Vec<Edge>)>,
    pub revs: Vec<(u64, Vec<u64>)>,
}

pub open spec fn node_rows_view(v: Seq<(u64, Vec<Edge>)>) -> Seq<NodeRow> {
    v.map_values(|n: (u64, Vec<Edge>)| (n.0, edges_view(n.1@)))
}

pub open spec fn rev_rows_view(v: Seq<(u64, Vec<u64>)>) -> Seq<RevRow> {
    v.map_values(|r: (u64, Vec<u64>)| (r.0, r.1@))
}

impl View for AdjSnapshotPayload {
    type V = AdjSnapshot;

    open spec fn view(&self) -> AdjSnapshot {
        AdjSnapshot { nodes: node_rows_view(self.nodes@), revs: rev_rows_view(self.revs@) }
    }
}

/// Names what the JSON text of an edge's properties becomes when read
/// back: the text `serde_json` writes for the map it reads from the bytes,
/// or for an empty map when they do not read as one.
pub uninterp spec fn json_object_text(bytes: Seq<u8>) -> Seq<u8>;

/// `serde_json::from_slice` of a property map (an empty map when it fails)
/// then `serde_json::to_vec`. Trusted: the text named by
/// `json_object_text`.
#[verifier::external_body]
fn normalize_properties(bytes: &[u8]) -> (out: Vec<u8>)
    ensures
        out@ == json_object_text(bytes@),
{
    let map: std::collections::BTreeMap<String, serde_json::Value> = serde_json::from_slice(bytes).unwrap_or_default();
    serde_json::to_vec(&map).unwrap_or_default()
}

/// An edge as bytes: target, label, properties.
pub open spec fn adj_edge_bytes(e: EdgeView) -> Seq<u8> {
    spec_u64_to_le_bytes(e.0.0) + len_bytes(e.1) + len_bytes(e.2)
}

pub open spec fn adj_edge_enc() -> spec_fn(EdgeView) -> Seq<u8> {
    |e: EdgeView| adj_edge_bytes(e)
}

/// A node as bytes: its number, its edge count, each edge.
pub open spec fn node_bytes(n: NodeRow) -> Seq<u8> {
    spec_u64_to_le_bytes(n.0) + spec_u32_to_le_bytes(n.1.len() as u32) + rows_bytes(n.1, adj_edge_enc())
}

pub open spec fn node_enc() -> spec_fn(NodeRow) -> Seq<u8> {
    |n: NodeRow| node_bytes(n)
}

/// An inbound list as bytes: the target, the source count, each source.
pub open spec fn rev_bytes(r: RevRow) -> Seq<u8> {
    spec_u64_to_le_bytes(r.0) + ids_le(r.1)
}

pub open spec fn rev_enc() -> spec_fn(RevRow) -> Seq<u8> {
    |r: RevRow| rev_bytes(r)
}

/// The payload: the nodes, then the inbound lists, each list preceded by
/// its count.
pub open spec fn adj_payload(s: AdjSnapshot) -> Seq<u8> {
    spec_u32_to_le_bytes(s.nodes.len() as u32) + rows_bytes(s.nodes, node_enc()) + spec_u32_to_le_bytes(
        s.revs.len() as u32,
    ) + rows_bytes(s.revs, rev_enc())
}

/// The frame: magic, version 2, payload length, payload checksum, payload.
pub open spec fn adj_frame(payload: Seq<u8>) -> Seq<u8> {
    spec_u32_to_le_bytes(ADJ_SNAPSHOT_MAGIC) + seq![ADJ_SNAPSHOT_VERSION] + spec_u32_to_le_bytes(
        payload.len() as u32,
    ) + spec_u32_to_le_bytes(spec_crc32c(payload)) + payload
}

fn write_edge(w: &mut BinaryWriter, e: &Edge)
    ensures
        final(w)@ == old(w)@ + adj_edge_bytes(edge_view(*e)),
{
    w.write_u64(e.to.0);
    w.write_len_bytes(e.label.as_slice());
    w.write_len_bytes(e.properties.as_slice());
    proof {
        assert(w@ =~= old(w)@ + adj_edge_bytes(edge_view(*e)));
    }
}

fn write_node(w: &mut BinaryWriter, id: u64, edges: &Vec<Edge>)
    ensures
        final(w)@ == old(w)@ + node_bytes((id, edges_view(edges@))),
{
    let ghost ev = edges_view(edges@);
    w.write_u64(id);
    w.write_u32(edges.len() as u32);
    let ghost start = w@;
    let mut i: usize = 0;
    proof {
        assert(ev.take(0) =~= Seq::<EdgeView>::empty());
        assert(w@ =~= start + rows_bytes(ev.take(0), adj_edge_enc()));
    }
    while i < edges.len()
        invariant
            ev == edges_view(edges@),
            i <= edges@.len(),
            w@ == start + rows_bytes(ev.take(i as int), adj_edge_enc()),
        decreases edges@.len() - i,
    {
        write_edge(w, &edges[i]);
        proof {
            assert(ev[i as int] == edge_view(edges@[i as int]));
            lemma_rows_bytes_step(ev, adj_edge_enc(), i as int);
            assert(w@ =~= start + rows_bytes(ev.take(i + 1), adj_edge_enc()));
        }
        i = i + 1;
    }
    proof {
        assert(ev.take(i as int) =~= ev);
        assert(w@ =~= old(w)@ + node_bytes((id, ev)));
    }
}

fn write_rev(w: &mut BinaryWriter, target: u64, sources: &Vec<u64>)
    ensures
        final(w)@ == old(w)@ + rev_bytes((target, sources@)),
{
    w.write_u64(target);
    w.write_u32(sources.len() as u32);
    let ghost start = w@;
    let mut i: usize = 0;
    proof {
        assert(sources@.take(0) =~= Seq::<u64>::empty());
        assert(crate::le::u64s_bytes(sources@.take(0)) =~= Seq::<u8>::empty());
    }
    while i < sources.len()
        invariant
            i <= sources@.len(),
            w@ == start + crate::le::u64s_bytes(sources@.take(i as int)),
        decreases sources@.len() - i,
    {
        w.write_u64(sources[i]);
        proof {
            assert(sources@.take(i + 1).drop_last() =~= sources@.take(i as int));
            assert(sources@.take(i + 1).last() == sources@[i as int]);
            assert(w@ =~= start + crate::le::u64s_bytes(sources@.take(i + 1)));
        }
        i = i + 1;
    }
    proof {
        assert(sources@.take(i as int) =~= sources@);
        assert(w@ =~= old(w)@ + rev_bytes((target, sources@)));
    }
}

/// The payload of a snapshot.
pub fn encode_adj_payload(s: &AdjSnapshotPayload) -> (out: Vec<u8>)
    ensures
        out@ == adj_payload(s@),
{
    let ghost v = s@;
    let mut w = BinaryWriter::new();
    w.write_u32(s.nodes.len() as u32);
    let ghost h1 = w@;
    let mut i: usize = 0;
    proof {
        assert(v.nodes.take(0) =~= Seq::<NodeRow>::empty());
        assert(w@ =~= h1 + rows_bytes(v.nodes.take(0), node_enc()));
    }
    while i < s.nodes.len()
        invariant
            v == s@,
            i <= v.nodes.len(),
            v.nodes.len() == s.nodes@.len(),
            w@ == h1 + rows_bytes(v.nodes.take(i as int), node_enc()),
        decreases v.nodes.len() - i,
    {
        write_node(&mut w, s.nodes[i].0, &s.nodes[i].1);
        proof {
            assert(v.nodes[i as int] == (s.nodes@[i as int].0, edges_view(s.nodes@[i as int].1@)));
            lemma_rows_bytes_step(v.nodes, node_enc(), i as int);
            assert(w@ =~= h1 + rows_bytes(v.nodes.take(i + 1), node_enc()));
        }
        i = i + 1;
    }
    proof {
        assert(v.nodes.take(i as int) =~= v.nodes);
    }
    w.write_u32(s.revs.len() as u32);
    let ghost h2 = w@;
    let mut j: usize = 0;
    proof {
        assert(v.revs.take(0) =~= Seq::<RevRow>::empty());
        assert(w@ =~= h2 + rows_bytes(v.revs.take(0), rev_enc()));
    }
    while j < s.revs.len()
        invariant
            v == s@,
            j <= v.revs.len(),
            v.revs.len() == s.revs@.len(),
            w@ == h2 + rows_bytes(v.revs.take(j as int), rev_enc()),
        decreases v.revs.len() - j,
    {
        write_rev(&mut w, s.revs[j].0, &s.revs[j].1);
        proof {
            assert(v.revs[j as int] == (s.revs@[j as int].0, s.revs@[j as int].1@));
            lemma_rows_bytes_step(v.revs, rev_enc(), j as int);
            assert(w@ =~= h2 + rows_bytes(v.revs.take(j + 1), rev_enc()));
        }
        j = j + 1;
    }
    proof {
        assert(v.revs.take(j as int) =~= v.revs);
        assert(w@ =~= adj_payload(v));
    }
    w.into_inner()
}

/// Frame a payload: magic, version 2, length, checksum, then the payload.
pub fn frame_adj_snapshot(payload: &[u8]) -> (out: Vec<u8>)
    ensures
        out@ == adj_frame(payload@),
{
    let mut out = BinaryWriter::new();
    out.write_u32(ADJ_SNAPSHOT_MAGIC);
    out.write_u8(ADJ_SNAPSHOT_VERSION);
    out.write_u32(payload.len() as u32);
    out.write_u32(crc32c(payload));
    out.write_bytes(payload);
    proof {
        assert(out@ =~= adj_frame(payload@));
    }
    out.into_inner()
}

/// The properties of a version 1 edge: an empty map's JSON text.
pub open spec fn empty_object() -> Seq<u8> {
    seq![0x7bu8, 0x7du8]
}

/// An edge at `o`; from version 2 on its properties follow its label and
/// read as the text of the map they hold.
pub open spec fn rd_adj_edge(p: Seq<u8>, o: int, v2: bool) -> Parsed<EdgeView> {
    match rd_u64(p, o) {
        Err(m) => Err(m),
        Ok((to, o1)) => match rd_len_bytes(p, o1) {
            Err(m) => Err(m),
            Ok((label, o2)) => if v2 {
                match rd_len_bytes(p, o2) {
                    Err(m) => Err(m),
                    Ok((props, o3)) => Ok(((RecordId(to), label, json_object_text(props)), o3)),
                }
            } else {
                Ok(((RecordId(to), label, empty_object()), o2))
            },
        },
    }
}

pub open spec fn adj_edge_rd(v2: bool) -> spec_fn(Seq<u8>, int) -> Parsed<EdgeView> {
    |p: Seq<u8>, o: int| rd_adj_edge(p, o, v2)
}

/// A node at `o`: its number and its counted edges.
pub open spec fn rd_node(p: Seq<u8>, o: int, v2: bool) -> Parsed<NodeRow> {
    match rd_u64(p, o) {
        Err(m) => Err(m),
        Ok((id, o1)) => match rd_list(p, o1, adj_edge_rd(v2)) {
            Err(m) => Err(m),
            Ok((es, o2)) => Ok(((id, es), o2)),
        },
    }
}

pub open spec fn node_rd(v2: bool) -> spec_fn(Seq<u8>, int) -> Parsed<NodeRow> {
    |p: Seq<u8>, o: int| rd_node(p, o, v2)
}

/// An inbound list at `o`: the target and its counted sources.
pub open spec fn rd_rev(p: Seq<u8>, o: int) -> Parsed<RevRow> {
    match rd_u64(p, o) {
        Err(m) => Err(m),
        Ok((t, o1)) => match rd_list(p, o1, id_rd()) {
            Err(m) => Err(m),
            Ok((srcs, o2)) => Ok(((t, srcs), o2)),
        },
    }
}

pub open spec fn rev_rd() -> spec_fn(Seq<u8>, int) -> Parsed<RevRow> {
    |p: Seq<u8>, o: int| rd_rev(p, o)
}

/// What a payload of the given version reads as; bytes after the last
/// row are ignored.
pub open spec fn parse_adj_payload(p: Seq<u8>, v2: bool) -> core::result::Result<AdjSnapshot, Seq<char>> {
    match rd_list(p, 0, node_rd(v2)) {
        Err(m) => Err(m),
        Ok((nodes, o)) => if v2 {
            match rd_list(p, o, rev_rd()) {
                Err(m) => Err(m),
                Ok((revs, _)) => Ok(AdjSnapshot { nodes, revs }),
            }
        } else {
            Ok(AdjSnapshot { nodes, revs: Seq::empty() })
        },
    }
}

/// What snapshot bytes read as: the snapshot, or why they are refused.
pub open spec fn parse_adj_snapshot(b: Seq<u8>) -> core::result::Result<AdjSnapshot, Seq<char>> {
    if b.len() < 13 {
        Err("truncated adjacency snapshot header"@)
    } else if u32_at(b, 0) != ADJ_SNAPSHOT_MAGIC {
        Err("bad adjacency snapshot magic"@)
    } else if b[4] != 1 && b[4] != 2 {
        Err("unsupported adjacency snapshot version "@ + dec_str(b[4] as nat))
    } else if b.len() < 13 + u32_at(b, 5) {
        Err("truncated adjacency snapshot payload"@)
    } else {
        let p = b.subrange(13, 13 + u32_at(b, 5));
        if spec_crc32c(p) != u32_at(b, 9) {
            Err(
                "adjacency snapshot checksum mismatch: expected "@ + hex32(u32_at(b, 9)) + ", got "@
                    + hex32(spec_crc32c(p)),
            )
        } else {
            parse_adj_payload(p, b[4] == 2)
        }
    }
}

fn read_edge(reader: &mut BinaryReader, v2: bool) -> (r: Result<Edge>)
    requires
        old(reader).wf(),
    ensures
        same_input(*old(reader), *final(reader)),
        read_matches(r, rd_adj_edge(old(reader).data(), old(reader).pos(), v2), |e: Edge| edge_view(e), *final(reader), old(reader).source()),
{
    let to = read_u64_step(reader)?;
    let label = read_len_bytes_step(reader)?;
    if v2 {
        let raw = read_len_bytes_step(reader)?;
        let properties = normalize_properties(raw.as_slice());
        Ok(Edge { to: RecordId(to), label, properties })
    } else {
        let mut properties: Vec<u8> = Vec::new();
        properties.push(0x7b);
        properties.push(0x7d);
        proof {
            assert(properties@ =~= empty_object());
        }
        Ok(Edge { to: RecordId(to), label, properties })
    }
}

#[verifier::loop_isolation(false)]
fn read_node(reader: &mut BinaryReader, v2: bool) -> (r: Result<(u64, Vec<Edge>)>)
    requires
        old(reader).wf(),
    ensures
        same_input(*old(reader), *final(reader)),
        read_matches(
            r,
            rd_node(old(reader).data(), old(reader).pos(), v2),
            |n: (u64, Vec<Edge>)| (n.0, edges_view(n.1@)),
            *final(reader),
            old(reader).source(),
        ),
{
    let ghost p = reader.data();
    let ghost src = reader.source();
    let id = read_u64_step(reader)?;
    let n = read_u32_step(reader)?;
    let ghost o = reader.pos();
    let mut out: Vec<Edge> = Vec::new();
    let mut i: u32 = 0;
    proof {
        assert(edges_view(out@) =~= Seq::<EdgeView>::empty());
    }
    while i < n
        invariant
            reader.wf(),
            reader.data() == p,
            reader.source() == src,
            i <= n,
            rd_rows(p, o, n as nat, Seq::empty(), adj_edge_rd(v2)) == rd_rows(
                p,
                reader.pos(),
                (n - i) as nat,
                edges_view(out@),
                adj_edge_rd(v2),
            ),
        decreases n - i,
    {
        let ghost before = edges_view(out@);
        proof {
            lemma_rd_rows_step(p, reader.pos(), (n - i) as nat, before, adj_edge_rd(v2));
        }
        let e = read_edge(reader, v2)?;
        let ghost ev = edge_view(e);
        out.push(e);
        proof {
            assert(edges_view(out@) =~= before.push(ev));
        }
        i = i + 1;
    }
    Ok((id, out))
}

#[verifier::loop_isolation(false)]
fn read_rev(reader: &mut BinaryReader) -> (r: Result<(u64, Vec<u64>)>)
    requires
        old(reader).wf(),
    ensures
        same_input(*old(reader), *final(reader)),
        read_matches(
            r,
            rd_rev(old(reader).data(), old(reader).pos()),
            |x: (u64, Vec<u64>)| (x.0, x.1@),
            *final(reader),
            old(reader).source(),
        ),
{
    let ghost p = reader.data();
    let ghost src = reader.source();
    let t = read_u64_step(reader)?;
    let n = read_u32_step(reader)?;
    let ghost o = reader.pos();
    let mut out: Vec<u64> = Vec::new();
    let mut i: u32 = 0;
    while i < n
        invariant
            reader.wf(),
            reader.data() == p,
            reader.source() == src,
            i <= n,
            rd_rows(p, o, n as nat, Seq::empty(), id_rd()) == rd_rows(p, reader.pos(), (n - i) as nat, out@, id_rd()),
        decreases n - i,
    {
        proof {
            lemma_rd_rows_step(p, reader.pos(), (n - i) as nat, out@, id_rd());
        }
        let x = read_u64_step(reader)?;
        out.push(x);
        i = i + 1;
    }
    Ok((t, out))
}

#[verifier::loop_isolation(false)]
fn read_node_list(reader: &mut BinaryReader, v2: bool) -> (r: Result<Vec<(u64, Vec<Edge>)>>)
    requires
        old(reader).wf(),
    ensures
        same_input(*old(reader), *final(reader)),
        read_matches(
            r,
            rd_list(old(reader).data(), old(reader).pos(), node_rd(v2)),
            |v: Vec<(u64, Vec<Edge>)>| node_rows_view(v@),
            *final(reader),
            old(reader).source(),
        ),
{
    let ghost p = reader.data();
    let ghost src = reader.source();
    let n = read_u32_step(reader)?;
    let ghost o = reader.pos();
    let mut out: Vec<(u64, Vec<Edge>)> = Vec::new();
    let mut i: u32 = 0;
    proof {
        assert(node_rows_view(out@) =~= Seq::<NodeRow>::empty());
    }
    while i < n
        invariant
            reader.wf(),
            reader.data() == p,
            reader.source() == src,
            i <= n,
            rd_rows(p, o, n as nat, Seq::empty(), node_rd(v2)) == rd_rows(
                p,
                reader.pos(),
                (n - i) as nat,
                node_rows_view(out@),
                node_rd(v2),
            ),
        decreases n - i,
    {
        let ghost before = node_rows_view(out@);
        proof {
            lemma_rd_rows_step(p, reader.pos(), (n - i) as nat, before, node_rd(v2));
        }
        let x = read_node(reader, v2)?;
        let ghost xv = (x.0, edges_view(x.1@));
        out.push(x);
        proof {
            assert(node_rows_view(out@) =~= before.push(xv));
        }
        i = i + 1;
    }
    Ok(out)
}

#[verifier::loop_isolation(false)]
fn read_rev_list(reader: &mut BinaryReader) -> (r: Result<Vec<(u64, Vec<u64>)>>)
    requires
        old(reader).wf(),
    ensures
        same_input(*old(reader), *final(reader)),
        read_matches(
            r,
            rd_list(old(reader).data(), old(reader).pos(), rev_rd()),
            |v: Vec<(u64, Vec<u64>)>| rev_rows_view(v@),
            *final(reader),
            old(reader).source(),
        ),
{
    let ghost p = reader.data();
    let ghost src = reader.source();
    let n = read_u32_step(reader)?;
    let ghost o = reader.pos();
    let mut out: Vec<(u64, Vec<u64>)> = Vec::new();
    let mut i: u32 = 0;
    proof {
        assert(rev_rows_view(out@) =~= Seq::<RevRow>::empty());
    }
    while i < n
        invariant
            reader.wf(),
            reader.data() == p,
            reader.source() == src,
            i <= n,
            rd_rows(p, o, n as nat, Seq::empty(), rev_rd()) == rd_rows(
                p,
                reader.pos(),
                (n - i) as nat,
                rev_rows_view(out@),
                rev_rd(),
            ),
        decreases n - i,
    {
        let ghost before = rev_rows_view(out@);
        proof {
            lemma_rd_rows_step(p, reader.pos(), (n - i) as nat, before, rev_rd());
        }
        let x = read_rev(reader)?;
        let ghost xv = (x.0, x.1@);
        out.push(x);
        proof {
            assert(rev_rows_view(out@) =~= before.push(xv));
        }
        i = i + 1;
    }
    Ok(out)
}

fn read_adj_payload(reader: &mut BinaryReader, v2: bool) -> (r: Result<AdjSnapshotPayload>)
    requires
        old(reader).wf(),
        old(reader).pos() == 0,
    ensures
        match (r, parse_adj_payload(old(reader).data(), v2)) {
            (Ok(s), Ok(v)) => s@ == v,
            (Err(e), Err(m)) => is_corrupt_at(e, old(reader).source(), m),
            _ => false,
        },
{
    let nodes = read_node_list(reader, v2)?;
    if v2 {
        let revs = read_rev_list(reader)?;
        Ok(AdjSnapshotPayload { nodes, revs })
    } else {
        let revs: Vec<(u64, Vec<u64>)> = Vec::new();
        proof {
            assert(rev_rows_view(revs@) =~= Seq::<RevRow>::empty());
        }
        Ok(AdjSnapshotPayload { nodes, revs })
    }
}

/// Read a snapshot from its bytes; `source` names them in errors.
pub fn decode_adj_snapshot(bytes: &[u8], source: &str) -> (r: Result<AdjSnapshotPayload>)
    ensures
        match (r, parse_adj_snapshot(bytes@)) {
            (Ok(s), Ok(v)) => s@ == v,
            (Err(e), Err(m)) => is_corrupt_at(e, source@, m),
            _ => false,
        },
{
    if bytes.len() < 13 {
        return Err(corrupt_at(source, String::from_str("truncated adjacency snapshot header")));
    }
    if read_u32_at(bytes, 0) != ADJ_SNAPSHOT_MAGIC {
        return Err(corrupt_at(source, String::from_str("bad adjacency snapshot magic")));
    }
    let version = bytes[4];
    if version != 1 && version != 2 {
        return Err(corrupt_at(source, tag_message("unsupported adjacency snapshot version ", version)));
    }
    let payload_len = read_u32_at(bytes, 5);
    let expected_crc = read_u32_at(bytes, 9);
    if bytes.len() - 13 < payload_len as usize {
        return Err(corrupt_at(source, String::from_str("truncated adjacency snapshot payload")));
    }
    let payload = slice_subrange(bytes, 13, 13 + payload_len as usize);
    let actual_crc = crc32c(payload);
    if actual_crc != expected_crc {
        let mut m = String::from_str("adjacency snapshot checksum mismatch: expected ");
        let a = hex32_string(expected_crc);
        m.append(a.as_str());
        m.append(", got ");
        let b = hex32_string(actual_crc);
        m.append(b.as_str());
        return Err(corrupt_at(source, m));
    }
    let mut reader = BinaryReader::new(payload, source);
    read_adj_payload(&mut reader, version == 2)
}


/// An edge's label and properties fit their `u32` lengths, and its
/// properties are already the text they read back as.
pub open spec fn edge_fits(e: EdgeView) -> bool {
    &&& e.1.len() <= u32::MAX
    &&& e.2.len() <= u32::MAX
    &&& json_object_text(e.2) == e.2
}

/// Every count and length of a node fits, and so does each edge.
pub open spec fn node_fits(n: NodeRow) -> bool {
    &&& n.1.len() <= u32::MAX
    &&& forall|i: int| 0 <= i < n.1.len() ==> edge_fits(#[trigger] n.1[i])
}

/// Every count and length of the snapshot fits the `u32` written for it,
/// and every edge's properties are already the text they read back as.
pub open spec fn adj_fits(s: AdjSnapshot) -> bool {
    &&& s.nodes.len() <= u32::MAX
    &&& s.revs.len() <= u32::MAX
    &&& forall|i: int| 0 <= i < s.nodes.len() ==> node_fits(#[trigger] s.nodes[i])
    &&& forall|i: int| 0 <= i < s.revs.len() ==> (#[trigger] s.revs[i]).1.len() <= u32::MAX
    &&& adj_payload(s).len() <= u32::MAX
}

proof fn lemma_adj_edge_reads(e: EdgeView)
    requires
        edge_fits(e),
    ensures
        always_reads_back(adj_edge_rd(true), adj_edge_enc(), e),
{
    lemma_le_lengths();
    assert forall|a: Seq<u8>, b: Seq<u8>| #[trigger] reads_back(adj_edge_rd(true), adj_edge_enc(), e, a, b) by {
        let q = spec_u64_to_le_bytes(e.0.0);
        let l1 = len_bytes(e.1);
        let l2 = len_bytes(e.2);
        let p = a + adj_edge_bytes(e) + b;
        assert(p =~= a + q + (l1 + l2 + b));
        lemma_rd_u64_at(a, e.0.0, l1 + l2 + b);
        assert(p =~= (a + q) + l1 + (l2 + b));
        lemma_rd_len_bytes_at(a + q, e.1, l2 + b);
        assert(p =~= (a + q + l1) + l2 + b);
        lemma_rd_len_bytes_at(a + q + l1, e.2, b);
    }
}

#[verifier::spinoff_prover]
proof fn lemma_node_reads(n: NodeRow)
    requires
        node_fits(n),
    ensures
        always_reads_back(node_rd(true), node_enc(), n),
{
    lemma_le_lengths();
    assert forall|i: int| 0 <= i < n.1.len() implies always_reads_back(adj_edge_rd(true), adj_edge_enc(), #[trigger] n.1[i]) by {
        lemma_adj_edge_reads(n.1[i]);
    }
    assert forall|a: Seq<u8>, b: Seq<u8>| #[trigger] reads_back(node_rd(true), node_enc(), n, a, b) by {
        let q = spec_u64_to_le_bytes(n.0);
        let l = spec_u32_to_le_bytes(n.1.len() as u32) + rows_bytes(n.1, adj_edge_enc());
        let p = a + node_bytes(n) + b;
        assert(p =~= a + q + (l + b));
        lemma_rd_u64_at(a, n.0, l + b);
        assert(p =~= (a + q) + l + b);
        lemma_rd_list_at(a + q, n.1, adj_edge_enc(), adj_edge_rd(true), b);
    }
}

proof fn lemma_rev_reads(r: RevRow)
    requires
        r.1.len() <= u32::MAX,
    ensures
        always_reads_back(rev_rd(), rev_enc(), r),
{
    lemma_le_lengths();
    assert forall|a: Seq<u8>, b: Seq<u8>| #[trigger] reads_back(rev_rd(), rev_enc(), r, a, b) by {
        let q = spec_u64_to_le_bytes(r.0);
        let p = a + rev_bytes(r) + b;
        assert(p =~= a + q + (ids_le(r.1) + b));
        lemma_rd_u64_at(a, r.0, ids_le(r.1) + b);
        assert(p =~= (a + q) + ids_le(r.1) + b);
        lemma_rd_ids_at(a + q, r.1, b);
    }
}

/// A payload reads back as the snapshot it was written from.
#[verifier::spinoff_prover]
pub proof fn lemma_adj_payload_roundtrip(s: AdjSnapshot)
    requires
        adj_fits(s),
    ensures
        parse_adj_payload(adj_payload(s), true) == core::result::Result::<AdjSnapshot, Seq<char>>::Ok(s),
{
    lemma_le_lengths();
    let l1 = spec_u32_to_le_bytes(s.nodes.len() as u32) + rows_bytes(s.nodes, node_enc());
    let l2 = spec_u32_to_le_bytes(s.revs.len() as u32) + rows_bytes(s.revs, rev_enc());
    let p = adj_payload(s);
    assert forall|i: int| 0 <= i < s.nodes.len() implies always_reads_back(node_rd(true), node_enc(), #[trigger] s.nodes[i]) by {
        lemma_node_reads(s.nodes[i]);
    }
    assert forall|i: int| 0 <= i < s.revs.len() implies always_reads_back(rev_rd(), rev_enc(), #[trigger] s.revs[i]) by {
        lemma_rev_reads(s.revs[i]);
    }
    assert(p =~= Seq::<u8>::empty() + l1 + l2);
    lemma_rd_list_at(Seq::<u8>::empty(), s.nodes, node_enc(), node_rd(true), l2);
    assert(p =~= l1 + l2 + Seq::<u8>::empty());
    lemma_rd_list_at(l1, s.revs, rev_enc(), rev_rd(), Seq::<u8>::empty());
}

/// Snapshot bytes read back as the snapshot they were written from.
#[verifier::spinoff_prover]
pub proof fn lemma_adj_snapshot_roundtrip(s: AdjSnapshot)
    requires
        adj_fits(s),
    ensures
        parse_adj_snapshot(adj_frame(adj_payload(s))) == core::result::Result::<AdjSnapshot, Seq<char>>::Ok(s),
{
    lemma_le_lengths();
    let p = adj_payload(s);
    let m = spec_u32_to_le_bytes(ADJ_SNAPSHOT_MAGIC);
    let v = seq![ADJ_SNAPSHOT_VERSION];
    let n = spec_u32_to_le_bytes(p.len() as u32);
    let c = spec_u32_to_le_bytes(spec_crc32c(p));
    let b = adj_frame(p);
    assert(b =~= Seq::<u8>::empty() + m + (v + n + c + p));
    lemma_u32_at(Seq::<u8>::empty(), ADJ_SNAPSHOT_MAGIC, v + n + c + p);
    assert(b[4] == ADJ_SNAPSHOT_VERSION);
    assert(b =~= (m + v) + n + (c + p));
    lemma_u32_at(m + v, p.len() as u32, c + p);
    assert(b =~= (m + v + n) + c + p);
    lemma_u32_at(m + v + n, spec_crc32c(p), p);
    assert(b.subrange(13, 13 + p.len() as int) =~= p);
    lemma_adj_payload_roundtrip(s);
}

} // verus!
