//! HNSW vector index binary format.
//!
//! Layout: the 32-byte `TRID` header, then 36 bytes of metadata, then one
//! `[vector_id (8B) | rid (8B) | layer (4B)]` entry per vector.
use crate::formats::binary::{
    finish_trid_file, lemma_trid_file_roundtrip, open_trid_content, parse_trid_content, trid_file,
};
use crate::formats::{FormatError, IndexType};
use crate::io::binary::append_bytes;
use crate::le::{
    lemma_at_prefix, lemma_at_shift, lemma_le_lengths, lemma_u32_at, lemma_u64_at, read_u32_at,
    read_u64_at, u32_at, u64_at,
};
use std::collections::BTreeMap;
use vstd::bytes::{spec_u32_to_le_bytes, spec_u64_to_le_bytes, u32_to_le_bytes, u64_to_le_bytes};
use vstd::prelude::*;
use vstd::slice::slice_subrange;

verus! {

broadcast use {vstd::laws_cmp::group_laws_cmp, vstd::std_specs::btree::group_btree_axioms};

/// HNSW metadata (36 bytes when serialized).
#[derive(Clone, Copy, Debug, PartialEq, Eq, Structural)]
pub struct HnswBinaryMetadata {
    pub num_vectors: u32,
    pub vector_dim: u32,
    pub max_layer: u32,
    pub entry_point: u64,
    pub generation: u64,
    pub sequence: u64,
}

/// The 36 bytes of the metadata.
pub open spec fn hnsw_metadata_bytes(m: HnswBinaryMetadata) -> Seq<u8> {
    spec_u32_to_le_bytes(m.num_vectors) + spec_u32_to_le_bytes(m.vector_dim)
        + spec_u32_to_le_bytes(m.max_layer) + spec_u64_to_le_bytes(m.entry_point)
        + spec_u64_to_le_bytes(m.generation) + spec_u64_to_le_bytes(m.sequence)
}

/// What the metadata reader makes of bytes.
pub open spec fn parse_hnsw_metadata(b: Seq<u8>) -> Result<HnswBinaryMetadata, FormatError> {
    if b.len() < 36 {
        Err(FormatError::MetadataTooShort)
    } else {
        Ok(
            HnswBinaryMetadata {
                num_vectors: u32_at(b, 0),
                vector_dim: u32_at(b, 4),
                max_layer: u32_at(b, 8),
                entry_point: u64_at(b, 12),
                generation: u64_at(b, 20),
                sequence: u64_at(b, 28),
            },
        )
    }
}

/// Turn a vector of exactly 36 bytes into an array.
fn to_array36(v: &[u8]) -> (a: [u8; 36])
    requires
        v@.len() == 36,
    ensures
        a@ == v@,
{
    let a = [
        v[0], v[1], v[2], v[3], v[4], v[5], v[6], v[7], v[8], v[9], v[10], v[11], v[12], v[13],
        v[14], v[15], v[16], v[17], v[18], v[19], v[20], v[21], v[22], v[23], v[24], v[25], v[26],
        v[27], v[28], v[29], v[30], v[31], v[32], v[33], v[34], v[35],
    ];
    assert(a@ =~= v@);
    a
}

impl HnswBinaryMetadata {
    /// Serialize to 36 bytes.
    pub fn to_bytes(&self) -> (b: [u8; 36])
        ensures
            b@ == hnsw_metadata_bytes(*self),
    {
        let mut v: Vec<u8> = Vec::new();
        append_bytes(&mut v, u32_to_le_bytes(self.num_vectors).as_slice());
        append_bytes(&mut v, u32_to_le_bytes(self.vector_dim).as_slice());
        append_bytes(&mut v, u32_to_le_bytes(self.max_layer).as_slice());
        append_bytes(&mut v, u64_to_le_bytes(self.entry_point).as_slice());
        append_bytes(&mut v, u64_to_le_bytes(self.generation).as_slice());
        append_bytes(&mut v, u64_to_le_bytes(self.sequence).as_slice());
        proof {
            lemma_le_lengths();
            assert(v@ =~= hnsw_metadata_bytes(*self));
        }
        to_array36(v.as_slice())
    }

    /// Deserialize from at least 36 bytes.
    pub fn from_bytes(bytes: &[u8]) -> (r: Result<Self, FormatError>)
        ensures
            r == parse_hnsw_metadata(bytes@),
    {
        if bytes.len() < 36 {
            return Err(FormatError::MetadataTooShort);
        }
        Ok(
            HnswBinaryMetadata {
                num_vectors: read_u32_at(bytes, 0),
                vector_dim: read_u32_at(bytes, 4),
                max_layer: read_u32_at(bytes, 8),
                entry_point: read_u64_at(bytes, 12),
                generation: read_u64_at(bytes, 20),
                sequence: read_u64_at(bytes, 28),
            },
        )
    }
}

/// Reading the bytes of metadata gives it back.
pub proof fn lemma_hnsw_metadata_roundtrip(m: HnswBinaryMetadata)
    ensures
        hnsw_metadata_bytes(m).len() == 36,
        parse_hnsw_metadata(hnsw_metadata_bytes(m)) == Ok::<HnswBinaryMetadata, FormatError>(m),
{
    lemma_le_lengths();
    let b = hnsw_metadata_bytes(m);
    let e = Seq::<u8>::empty();
    lemma_u32_at(e, m.num_vectors, b.skip(4));
    assert(b =~= e + spec_u32_to_le_bytes(m.num_vectors) + b.skip(4));
    lemma_u32_at(b.take(4), m.vector_dim, b.skip(8));
    assert(b =~= b.take(4) + spec_u32_to_le_bytes(m.vector_dim) + b.skip(8));
    lemma_u32_at(b.take(8), m.max_layer, b.skip(12));
    assert(b =~= b.take(8) + spec_u32_to_le_bytes(m.max_layer) + b.skip(12));
    lemma_u64_at(b.take(12), m.entry_point, b.skip(20));
    assert(b =~= b.take(12) + spec_u64_to_le_bytes(m.entry_point) + b.skip(20));
    lemma_u64_at(b.take(20), m.generation, b.skip(28));
    assert(b =~= b.take(20) + spec_u64_to_le_bytes(m.generation) + b.skip(28));
    lemma_u64_at(b.take(28), m.sequence, e);
    assert(b =~= b.take(28) + spec_u64_to_le_bytes(m.sequence) + e);
}

/// A vector node of the HNSW graph.
#[derive(Clone, Copy, Debug, PartialEq, Eq, Structural)]
pub struct VectorNode {
    pub vector_id: u64,
    pub rid: u64,
    pub layer: u32,
}

/// The 20 bytes of one vector entry.
pub open spec fn vector_node_bytes(v: VectorNode) -> Seq<u8> {
    spec_u64_to_le_bytes(v.vector_id) + spec_u64_to_le_bytes(v.rid) + spec_u32_to_le_bytes(v.layer)
}

/// The bytes of vector entries, one after the other.
pub open spec fn vector_nodes_bytes(s: Seq<VectorNode>) -> Seq<u8>
    decreases s.len(),
{
    if s.len() == 0 {
        Seq::empty()
    } else {
        vector_nodes_bytes(s.drop_last()) + vector_node_bytes(s.last())
    }
}

/// The `i`-th vector entry of a content block.
pub open spec fn hnsw_entry(c: Seq<u8>, i: int) -> VectorNode {
    VectorNode {
        vector_id: u64_at(c, 36 + 20 * i),
        rid: u64_at(c, 44 + 20 * i),
        layer: u32_at(c, 52 + 20 * i),
    }
}

/// The first `n` vector entries of a content block.
pub open spec fn hnsw_entries(c: Seq<u8>, n: nat) -> Seq<VectorNode> {
    Seq::new(n, |i: int| hnsw_entry(c, i))
}

/// The map from vector id to node built by inserting the nodes in order.
pub open spec fn vector_map(s: Seq<VectorNode>) -> Map<u64, VectorNode>
    decreases s.len(),
{
    if s.len() == 0 {
        Map::empty()
    } else {
        vector_map(s.drop_last()).insert(s.last().vector_id, s.last())
    }
}

/// The content block: metadata, then the vectors in the order written.
pub open spec fn hnsw_content(m: HnswBinaryMetadata, vectors: Seq<VectorNode>) -> Seq<u8> {
    hnsw_metadata_bytes(m) + vector_nodes_bytes(vectors)
}

/// What the HNSW reader makes of a content block.
pub open spec fn parse_hnsw_content(c: Seq<u8>) -> Result<
    (HnswBinaryMetadata, Map<u64, VectorNode>),
    FormatError,
> {
    if c.len() < 36 {
        Err(FormatError::ContentTooShort)
    } else {
        let m = parse_hnsw_metadata(c.take(36))->Ok_0;
        if c.len() < 36 + 20 * m.num_vectors {
            Err(FormatError::TruncatedVectorEntry)
        } else {
            Ok((m, vector_map(hnsw_entries(c, m.num_vectors as nat))))
        }
    }
}

/// What the HNSW reader makes of a file.
pub open spec fn parse_hnsw_file(b: Seq<u8>) -> Result<
    (HnswBinaryMetadata, Map<u64, VectorNode>),
    FormatError,
> {
    match parse_trid_content(b, IndexType::Hnsw) {
        Err(e) => Err(e),
        Ok(c) => parse_hnsw_content(c),
    }
}

/// The vector entries' bytes have 20 bytes per entry, each where it belongs.
pub proof fn lemma_vector_nodes_bytes(s: Seq<VectorNode>)
    ensures
        vector_nodes_bytes(s).len() == 20 * s.len(),
        forall|i: int|
            0 <= i < s.len() ==> {
                &&& #[trigger] u64_at(vector_nodes_bytes(s), 20 * i) == s[i].vector_id
                &&& u64_at(vector_nodes_bytes(s), 20 * i + 8) == s[i].rid
                &&& u32_at(vector_nodes_bytes(s), 20 * i + 16) == s[i].layer
            },
    decreases s.len(),
{
    lemma_le_lengths();
    if s.len() > 0 {
        let p = s.drop_last();
        lemma_vector_nodes_bytes(p);
        let e = s.last();
        let pb = vector_nodes_bytes(p);
        let eb = vector_node_bytes(e);
        assert forall|i: int| 0 <= i < s.len() implies {
            &&& #[trigger] u64_at(vector_nodes_bytes(s), 20 * i) == s[i].vector_id
            &&& u64_at(vector_nodes_bytes(s), 20 * i + 8) == s[i].rid
            &&& u32_at(vector_nodes_bytes(s), 20 * i + 16) == s[i].layer
        } by {
            if i < p.len() {
                assert(u64_at(pb, 20 * i) == p[i].vector_id);
                lemma_at_prefix(pb, eb, 20 * i);
                lemma_at_prefix(pb, eb, 20 * i + 8);
                lemma_at_prefix(pb, eb, 20 * i + 16);
            } else {
                let z = Seq::<u8>::empty();
                let a = spec_u64_to_le_bytes(e.vector_id);
                let b = spec_u64_to_le_bytes(e.rid);
                let c = spec_u32_to_le_bytes(e.layer);
                lemma_at_shift(pb, eb, 0);
                lemma_at_shift(pb, eb, 8);
                lemma_at_shift(pb, eb, 16);
                lemma_u64_at(z, e.vector_id, b + c);
                assert(eb =~= z + a + (b + c));
                lemma_u64_at(a, e.rid, c);
                assert(eb =~= a + b + c);
                lemma_u32_at(a + b, e.layer, z);
                assert(eb =~= (a + b) + c + z);
            }
        }
    }
}

/// Reading a written HNSW file gives back its metadata and the map from
/// vector id to node, in which a later vector replaces an earlier one with
/// the same id.
pub proof fn lemma_hnsw_file_roundtrip(m: HnswBinaryMetadata, vectors: Seq<VectorNode>, timestamp: u64)
    requires
        m.num_vectors == vectors.len(),
    ensures
        parse_hnsw_file(trid_file(IndexType::Hnsw, hnsw_content(m, vectors), timestamp)) == Ok::<
            (HnswBinaryMetadata, Map<u64, VectorNode>),
            FormatError,
        >((m, vector_map(vectors))),
{
    let c = hnsw_content(m, vectors);
    lemma_trid_file_roundtrip(IndexType::Hnsw, c, timestamp);
    lemma_hnsw_metadata_roundtrip(m);
    lemma_vector_nodes_bytes(vectors);
    assert(c.take(36) =~= hnsw_metadata_bytes(m));
    let mb = hnsw_metadata_bytes(m);
    let vb = vector_nodes_bytes(vectors);
    assert forall|i: int| 0 <= i < vectors.len() implies #[trigger] hnsw_entry(c, i) == vectors[i] by {
        assert(u64_at(vb, 20 * i) == vectors[i].vector_id);
        lemma_at_shift(mb, vb, 20 * i);
        lemma_at_shift(mb, vb, 20 * i + 8);
        lemma_at_shift(mb, vb, 20 * i + 16);
    }
    assert(hnsw_entries(c, m.num_vectors as nat) =~= vectors);
}

/// Builds an HNSW file from metadata and vector nodes.
pub struct HnswBinaryWriter {
    metadata: HnswBinaryMetadata,
    vectors: Vec<VectorNode>,
}

impl HnswBinaryWriter {
    pub closed spec fn metadata(&self) -> HnswBinaryMetadata {
        self.metadata
    }

    pub closed spec fn vectors(&self) -> Seq<VectorNode> {
        self.vectors@
    }

    /// The vector count matches the vectors added.
    pub open spec fn wf(&self) -> bool {
        self.metadata().num_vectors == self.vectors().len()
    }

    pub fn new(vector_dim: u32, entry_point: u64, generation: u64, sequence: u64) -> (w: Self)
        ensures
            w.wf(),
            w.vectors() == Seq::<VectorNode>::empty(),
            w.metadata() == (HnswBinaryMetadata {
                num_vectors: 0,
                vector_dim,
                max_layer: 0,
                entry_point,
                generation,
                sequence,
            }),
    {
        HnswBinaryWriter {
            metadata: HnswBinaryMetadata {
                num_vectors: 0,
                vector_dim,
                max_layer: 0,
                entry_point,
                generation,
                sequence,
            },
            vectors: Vec::new(),
        }
    }

    /// Add a vector; the metadata counts it and keeps the highest layer.
    pub fn add_vector(&mut self, vector_id: u64, rid: u64, layer: u32) -> (r: Result<(), FormatError>)
        requires
            old(self).wf(),
            old(self).metadata().num_vectors < u32::MAX,
        ensures
            r is Ok,
            final(self).wf(),
            final(self).vectors() == old(self).vectors().push(VectorNode { vector_id, rid, layer }),
            final(self).metadata() == (HnswBinaryMetadata {
                num_vectors: (old(self).metadata().num_vectors + 1) as u32,
                max_layer: if layer > old(self).metadata().max_layer {
                    layer
                } else {
                    old(self).metadata().max_layer
                },
                ..old(self).metadata()
            }),
    {
        self.vectors.push(VectorNode { vector_id, rid, layer });
        self.metadata.num_vectors = self.metadata.num_vectors + 1;
        if layer > self.metadata.max_layer {
            self.metadata.max_layer = layer;
        }
        Ok(())
    }

    /// The file's bytes: a header holding the CRC-32 of the content, then
    /// the metadata and the vectors in the order they were added.
    pub fn finish(self) -> (out: Vec<u8>)
        requires
            self.wf(),
        ensures
            exists|timestamp: u64|
                out@ == #[trigger] trid_file(
                    IndexType::Hnsw,
                    hnsw_content(self.metadata(), self.vectors()),
                    timestamp,
                ),
    {
        let mut content: Vec<u8> = Vec::new();
        let meta = self.metadata.to_bytes();
        append_bytes(&mut content, meta.as_slice());
        let mut i: usize = 0;
        while i < self.vectors.len()
            invariant
                i <= self.vectors@.len(),
                content@ == hnsw_metadata_bytes(self.metadata) + vector_nodes_bytes(
                    self.vectors@.take(i as int),
                ),
            decreases self.vectors@.len() - i,
        {
            let v = self.vectors[i];
            append_bytes(&mut content, u64_to_le_bytes(v.vector_id).as_slice());
            append_bytes(&mut content, u64_to_le_bytes(v.rid).as_slice());
            append_bytes(&mut content, u32_to_le_bytes(v.layer).as_slice());
            proof {
                let t = self.vectors@.take(i + 1);
                assert(t.drop_last() =~= self.vectors@.take(i as int));
                assert(t.last() == v);
            }
            i = i + 1;
        }
        proof {
            assert(self.vectors@.take(i as int) =~= self.vectors@);
        }
        let out = finish_trid_file(IndexType::Hnsw, content.as_slice());
        proof {
            let ts = choose|ts: u64| out@ == trid_file(IndexType::Hnsw, content@, ts);
            assert(out@ == trid_file(
                IndexType::Hnsw,
                hnsw_content(self.metadata(), self.vectors()),
                ts,
            ));
        }
        out
    }
}

/// A validated HNSW file: its metadata and vector nodes by id.
#[derive(Debug)]
pub struct HnswBinaryReader {
    metadata: HnswBinaryMetadata,
    vectors: BTreeMap<u64, VectorNode>,
}

impl HnswBinaryReader {
    pub closed spec fn metadata(&self) -> HnswBinaryMetadata {
        self.metadata
    }

    /// The map from vector id to node.
    pub closed spec fn vectors(&self) -> Map<u64, VectorNode> {
        self.vectors@
    }

    /// Validate and parse an HNSW file.
    #[verifier::loop_isolation(false)]
    pub fn open(bytes: &[u8]) -> (r: Result<Self, FormatError>)
        ensures
            match (r, parse_hnsw_file(bytes@)) {
                (Ok(reader), Ok((m, map))) => reader.metadata() == m && reader.vectors() == map,
                (Err(e1), Err(e2)) => e1 == e2,
                _ => false,
            },
    {
        let content = open_trid_content(bytes, IndexType::Hnsw)?;
        if content.len() < 36 {
            return Err(FormatError::ContentTooShort);
        }
        let meta_bytes = slice_subrange(content, 0, 36);
        let metadata = HnswBinaryMetadata::from_bytes(meta_bytes)?;
        proof {
            assert(meta_bytes@ =~= content@.take(36));
        }
        let mut vectors: BTreeMap<u64, VectorNode> = BTreeMap::new();
        let mut pos: usize = 36;
        let mut i: u32 = 0;
        let len = content.len();
        while i < metadata.num_vectors
            invariant
                len == content@.len(),
                i <= metadata.num_vectors,
                pos == 36 + 20 * i,
                pos <= len,
                vectors@ == vector_map(hnsw_entries(content@, i as nat)),
            decreases metadata.num_vectors - i,
        {
            if len - pos < 20 {
                return Err(FormatError::TruncatedVectorEntry);
            }
            let v = VectorNode {
                vector_id: read_u64_at(content, pos),
                rid: read_u64_at(content, pos + 8),
                layer: read_u32_at(content, pos + 16),
            };
            vectors.insert(v.vector_id, v);
            proof {
                let s = hnsw_entries(content@, (i + 1) as nat);
                assert(s.drop_last() =~= hnsw_entries(content@, i as nat));
                assert(s.last() == v);
            }
            pos = pos + 20;
            i = i + 1;
        }
        Ok(HnswBinaryReader { metadata, vectors })
    }

    pub fn vector_count(&self) -> (n: u32)
        ensures
            n == self.metadata().num_vectors,
    {
        self.metadata.num_vectors
    }

    pub fn vector_dim(&self) -> (n: u32)
        ensures
            n == self.metadata().vector_dim,
    {
        self.metadata.vector_dim
    }

    /// The node stored for a vector id, if any.
    pub fn get_vector(&self, vector_id: u64) -> (r: Option<&VectorNode>)
        ensures
            match r {
                Some(v) => self.vectors().contains_key(vector_id) && *v == self.vectors()[vector_id],
                None => !self.vectors().contains_key(vector_id),
            },
    {
        self.vectors.get(&vector_id)
    }

    /// The RID of the entry-point vector, if the file holds it.
    pub fn entry_point_rid(&self) -> (r: Option<u64>)
        ensures
            r == (if self.vectors().contains_key(self.metadata().entry_point) {
                Some(self.vectors()[self.metadata().entry_point].rid)
            } else {
                None::<u64>
            }),
    {
        match self.vectors.get(&self.metadata.entry_point) {
            Some(v) => Some(v.rid),
            None => None,
        }
    }
}

} // verus!
