//! B-tree index binary format with CRC-32 corruption detection.
//!
//! Layout: the 32-byte `TRID` header, then 32 bytes of metadata, then one
//! `[page_id (8B) | rid (8B)]` entry per node, ordered by page id.
use crate::formats::binary::{
    finish_trid_file, lemma_trid_file_roundtrip, open_trid_content, parse_trid_content, trid_file,
};
use crate::formats::{to_array32, FormatError, IndexType};
use crate::io::binary::append_bytes;
use crate::le::{
    lemma_at_prefix, lemma_at_shift, lemma_le_lengths, lemma_u32_at, lemma_u64_at, read_u32_at,
    read_u64_at, u32_at, u64_at,
};
use crate::sort::{is_stable_key_sort, lemma_stable_sort_keeps_map, pairs_map, stable_sort_by_key};
use std::collections::BTreeMap;
use vstd::bytes::{spec_u32_to_le_bytes, spec_u64_to_le_bytes, u32_to_le_bytes, u64_to_le_bytes};
use vstd::prelude::*;
use vstd::slice::slice_subrange;

verus! {

broadcast use {vstd::laws_cmp::group_laws_cmp, vstd::std_specs::btree::group_btree_axioms};

/// B-tree metadata (32 bytes when serialized).
#[derive(Clone, Copy, Debug, PartialEq, Eq, Structural)]
pub struct BtreeBinaryMetadata {
    pub order: u32,
    pub height: u32,
    pub node_count: u32,
    pub root_rid: u64,
    pub generation: u64,
    pub sequence: u64,
}

/// The 32 bytes of the metadata; only the low 32 bits of the sequence
/// number are stored.
pub open spec fn btree_metadata_bytes(m: BtreeBinaryMetadata) -> Seq<u8> {
    spec_u32_to_le_bytes(m.order) + spec_u32_to_le_bytes(m.height) + spec_u32_to_le_bytes(
        m.node_count,
    ) + spec_u64_to_le_bytes(m.root_rid) + spec_u64_to_le_bytes(m.generation)
        + spec_u32_to_le_bytes(m.sequence as u32)
}

/// What the metadata reader makes of bytes.
pub open spec fn parse_btree_metadata(b: Seq<u8>) -> Result<BtreeBinaryMetadata, FormatError> {
    if b.len() < 32 {
        Err(FormatError::MetadataTooShort)
    } else {
        Ok(
            BtreeBinaryMetadata {
                order: u32_at(b, 0),
                height: u32_at(b, 4),
                node_count: u32_at(b, 8),
                root_rid: u64_at(b, 12),
                generation: u64_at(b, 20),
                sequence: u32_at(b, 28) as u64,
            },
        )
    }
}

/// The metadata as it reads back: the sequence number keeps its low 32 bits.
pub open spec fn btree_metadata_stored(m: BtreeBinaryMetadata) -> BtreeBinaryMetadata {
    BtreeBinaryMetadata { sequence: m.sequence as u32 as u64, ..m }
}

impl BtreeBinaryMetadata {
    /// Serialize to 32 bytes.
    pub fn to_bytes(&self) -> (b: [u8; 32])
        ensures
            b@ == btree_metadata_bytes(*self),
    {
        let mut v: Vec<u8> = Vec::new();
        append_bytes(&mut v, u32_to_le_bytes(self.order).as_slice());
        append_bytes(&mut v, u32_to_le_bytes(self.height).as_slice());
        append_bytes(&mut v, u32_to_le_bytes(self.node_count).as_slice());
        append_bytes(&mut v, u64_to_le_bytes(self.root_rid).as_slice());
        append_bytes(&mut v, u64_to_le_bytes(self.generation).as_slice());
        append_bytes(&mut v, u32_to_le_bytes(self.sequence as u32).as_slice());
        proof {
            lemma_le_lengths();
            assert(v@ =~= btree_metadata_bytes(*self));
        }
        to_array32(v.as_slice())
    }

    /// Deserialize from at least 32 bytes.
    pub fn from_bytes(bytes: &[u8]) -> (r: Result<Self, FormatError>)
        ensures
            r == parse_btree_metadata(bytes@),
    {
        if bytes.len() < 32 {
            return Err(FormatError::MetadataTooShort);
        }
        Ok(
            BtreeBinaryMetadata {
                order: read_u32_at(bytes, 0),
                height: read_u32_at(bytes, 4),
                node_count: read_u32_at(bytes, 8),
                root_rid: read_u64_at(bytes, 12),
                generation: read_u64_at(bytes, 20),
                sequence: read_u32_at(bytes, 28) as u64,
            },
        )
    }
}

/// Reading the bytes of metadata gives it back, up to the stored width of
/// the sequence number.
pub proof fn lemma_btree_metadata_roundtrip(m: BtreeBinaryMetadata)
    ensures
        btree_metadata_bytes(m).len() == 32,
        parse_btree_metadata(btree_metadata_bytes(m)) == Ok::<BtreeBinaryMetadata, FormatError>(
            btree_metadata_stored(m),
        ),
{
    lemma_le_lengths();
    let b = btree_metadata_bytes(m);
    let e = Seq::<u8>::empty();
    lemma_u32_at(e, m.order, b.skip(4));
    assert(b =~= e + spec_u32_to_le_bytes(m.order) + b.skip(4));
    lemma_u32_at(b.take(4), m.height, b.skip(8));
    assert(b =~= b.take(4) + spec_u32_to_le_bytes(m.height) + b.skip(8));
    lemma_u32_at(b.take(8), m.node_count, b.skip(12));
    assert(b =~= b.take(8) + spec_u32_to_le_bytes(m.node_count) + b.skip(12));
    lemma_u64_at(b.take(12), m.root_rid, b.skip(20));
    assert(b =~= b.take(12) + spec_u64_to_le_bytes(m.root_rid) + b.skip(20));
    lemma_u64_at(b.take(20), m.generation, b.skip(28));
    assert(b =~= b.take(20) + spec_u64_to_le_bytes(m.generation) + b.skip(28));
    lemma_u32_at(b.take(28), m.sequence as u32, e);
    assert(b =~= b.take(28) + spec_u32_to_le_bytes(m.sequence as u32) + e);
}

/// The 16 bytes of one node entry.
pub open spec fn pair_bytes(e: (u64, u64)) -> Seq<u8> {
    spec_u64_to_le_bytes(e.0) + spec_u64_to_le_bytes(e.1)
}

/// The bytes of node entries, one after the other.
pub open spec fn pairs_bytes(s: Seq<(u64, u64)>) -> Seq<u8>
    decreases s.len(),
{
    if s.len() == 0 {
        Seq::empty()
    } else {
        pairs_bytes(s.drop_last()) + pair_bytes(s.last())
    }
}

/// The `i`-th node entry of a content block.
pub open spec fn btree_entry(c: Seq<u8>, i: int) -> (u64, u64) {
    (u64_at(c, 32 + 16 * i), u64_at(c, 40 + 16 * i))
}

/// The first `n` node entries of a content block.
pub open spec fn btree_entries(c: Seq<u8>, n: nat) -> Seq<(u64, u64)> {
    Seq::new(n, |i: int| btree_entry(c, i))
}

/// The content block: metadata, then the entries.
pub open spec fn btree_content(m: BtreeBinaryMetadata, entries: Seq<(u64, u64)>) -> Seq<u8> {
    btree_metadata_bytes(m) + pairs_bytes(entries)
}

/// A whole B-tree file.
pub open spec fn btree_file(m: BtreeBinaryMetadata, entries: Seq<(u64, u64)>, timestamp: u64) -> Seq<
    u8,
> {
    trid_file(IndexType::Btree, btree_content(m, entries), timestamp)
}

/// What the B-tree reader makes of a content block.
pub open spec fn parse_btree_content(c: Seq<u8>) -> Result<
    (BtreeBinaryMetadata, Map<u64, u64>),
    FormatError,
> {
    if c.len() < 32 {
        Err(FormatError::ContentTooShort)
    } else {
        let m = parse_btree_metadata(c.take(32))->Ok_0;
        if c.len() < 32 + 16 * m.node_count {
            Err(FormatError::TruncatedNodeEntry)
        } else {
            Ok((m, pairs_map(btree_entries(c, m.node_count as nat))))
        }
    }
}

/// What the B-tree reader makes of a file: its metadata and the map from
/// page id to RID, or why the file is refused.
pub open spec fn parse_btree_file(b: Seq<u8>) -> Result<
    (BtreeBinaryMetadata, Map<u64, u64>),
    FormatError,
> {
    match parse_trid_content(b, IndexType::Btree) {
        Err(e) => Err(e),
        Ok(c) => parse_btree_content(c),
    }
}

/// The entries' bytes have 16 bytes per entry, each entry where it belongs.
pub proof fn lemma_pairs_bytes(s: Seq<(u64, u64)>)
    ensures
        pairs_bytes(s).len() == 16 * s.len(),
        forall|i: int|
            0 <= i < s.len() ==> #[trigger] u64_at(pairs_bytes(s), 16 * i) == s[i].0 && u64_at(
                pairs_bytes(s),
                16 * i + 8,
            ) == s[i].1,
    decreases s.len(),
{
    lemma_le_lengths();
    if s.len() > 0 {
        let p = s.drop_last();
        lemma_pairs_bytes(p);
        let e = s.last();
        let pb = pairs_bytes(p);
        assert forall|i: int| 0 <= i < s.len() implies #[trigger] u64_at(pairs_bytes(s), 16 * i)
            == s[i].0 && u64_at(pairs_bytes(s), 16 * i + 8) == s[i].1 by {
            if i < p.len() {
                assert(u64_at(pb, 16 * i) == p[i].0);
                lemma_at_prefix(pb, pair_bytes(e), 16 * i);
                lemma_at_prefix(pb, pair_bytes(e), 16 * i + 8);
            } else {
                assert(i == p.len());
                lemma_at_shift(pb, pair_bytes(e), 0);
                lemma_at_shift(pb, pair_bytes(e), 8);
                lemma_u64_at(Seq::<u8>::empty(), e.0, spec_u64_to_le_bytes(e.1));
                assert(pair_bytes(e) =~= Seq::<u8>::empty() + spec_u64_to_le_bytes(e.0)
                    + spec_u64_to_le_bytes(e.1));
                lemma_u64_at(spec_u64_to_le_bytes(e.0), e.1, Seq::<u8>::empty());
                assert(pair_bytes(e) =~= spec_u64_to_le_bytes(e.0) + spec_u64_to_le_bytes(e.1)
                    + Seq::<u8>::empty());
            }
        }
    }
}

/// Reading a written B-tree file gives back its metadata (with the stored
/// width of the sequence number) and the page-to-RID map of the nodes, in
/// which a later node replaces an earlier one with the same page id.
pub proof fn lemma_btree_file_roundtrip(
    m: BtreeBinaryMetadata,
    nodes: Seq<(u64, u64)>,
    sorted: Seq<(u64, u64)>,
    timestamp: u64,
)
    requires
        m.node_count == nodes.len(),
        is_stable_key_sort(nodes, sorted),
        sorted.len() == nodes.len(),
    ensures
        parse_btree_file(btree_file(m, sorted, timestamp)) == Ok::<
            (BtreeBinaryMetadata, Map<u64, u64>),
            FormatError,
        >((btree_metadata_stored(m), pairs_map(nodes))),
{
    let c = btree_content(m, sorted);
    lemma_trid_file_roundtrip(IndexType::Btree, c, timestamp);
    lemma_btree_metadata_roundtrip(m);
    lemma_pairs_bytes(sorted);
    assert(c.take(32) =~= btree_metadata_bytes(m));
    let mb = btree_metadata_bytes(m);
    let pb = pairs_bytes(sorted);
    assert forall|i: int| 0 <= i < sorted.len() implies #[trigger] btree_entry(c, i) == sorted[i] by {
        assert(u64_at(pb, 16 * i) == sorted[i].0);
        lemma_at_shift(mb, pb, 16 * i);
        lemma_at_shift(mb, pb, 16 * i + 8);
    }
    assert(btree_entries(c, m.node_count as nat) =~= sorted);
    lemma_stable_sort_keeps_map(nodes, sorted);
}

/// Builds a B-tree file from metadata and node references.
pub struct BtreeBinaryWriter {
    metadata: BtreeBinaryMetadata,
    nodes: Vec<(u64, u64)>,
}

impl BtreeBinaryWriter {
    /// The metadata the file will carry.
    pub closed spec fn metadata(&self) -> BtreeBinaryMetadata {
        self.metadata
    }

    /// The node references written so far, in order.
    pub closed spec fn nodes(&self) -> Seq<(u64, u64)> {
        self.nodes@
    }

    /// The node count matches the nodes written.
    pub open spec fn wf(&self) -> bool {
        self.metadata().node_count == self.nodes().len()
    }

    pub fn new(order: u32, height: u32, root_rid: u64, generation: u64, sequence: u64) -> (w: Self)
        ensures
            w.wf(),
            w.nodes() == Seq::<(u64, u64)>::empty(),
            w.metadata() == (BtreeBinaryMetadata {
                order,
                height,
                node_count: 0,
                root_rid,
                generation,
                sequence,
            }),
    {
        BtreeBinaryWriter {
            metadata: BtreeBinaryMetadata {
                order,
                height,
                node_count: 0,
                root_rid,
                generation,
                sequence,
            },
            nodes: Vec::new(),
        }
    }

    /// Add a node reference (page id to RID).
    pub fn write_node(&mut self, page_id: u64, rid: u64) -> (r: Result<(), FormatError>)
        requires
            old(self).wf(),
            old(self).metadata().node_count < u32::MAX,
        ensures
            r is Ok,
            final(self).wf(),
            final(self).nodes() == old(self).nodes().push((page_id, rid)),
            final(self).metadata() == (BtreeBinaryMetadata {
                node_count: (old(self).metadata().node_count + 1) as u32,
                ..old(self).metadata()
            }),
    {
        self.nodes.push((page_id, rid));
        self.metadata.node_count = self.metadata.node_count + 1;
        Ok(())
    }

    /// The file's bytes: a header holding the CRC-32 of the content, then
    /// the metadata and the nodes ordered by page id (nodes with the same
    /// page id keep the order they were written in).
    pub fn finish(self) -> (out: Vec<u8>)
        requires
            self.wf(),
        ensures
            exists|sorted: Seq<(u64, u64)>, timestamp: u64|
                {
                    &&& is_stable_key_sort(self.nodes(), sorted)
                    &&& sorted.len() == self.nodes().len()
                    &&& out@ == #[trigger] btree_file(self.metadata(), sorted, timestamp)
                },
    {
        let mut content: Vec<u8> = Vec::new();
        let meta = self.metadata.to_bytes();
        append_bytes(&mut content, meta.as_slice());
        let sorted = stable_sort_by_key(&self.nodes);
        let mut i: usize = 0;
        while i < sorted.len()
            invariant
                i <= sorted@.len(),
                content@ == btree_metadata_bytes(self.metadata) + pairs_bytes(
                    sorted@.take(i as int),
                ),
            decreases sorted@.len() - i,
        {
            let (page_id, rid) = sorted[i];
            append_bytes(&mut content, u64_to_le_bytes(page_id).as_slice());
            append_bytes(&mut content, u64_to_le_bytes(rid).as_slice());
            proof {
                let t = sorted@.take(i + 1);
                assert(t.drop_last() =~= sorted@.take(i as int));
                assert(t.last() == (page_id, rid));
            }
            i = i + 1;
        }
        proof {
            assert(sorted@.take(i as int) =~= sorted@);
        }
        let out = finish_trid_file(IndexType::Btree, content.as_slice());
        proof {
            let ts = choose|ts: u64| out@ == trid_file(IndexType::Btree, content@, ts);
            assert(out@ == btree_file(self.metadata(), sorted@, ts));
        }
        out
    }
}

/// A validated B-tree file: its metadata and page-to-RID map.
#[derive(Debug)]
pub struct BtreeBinaryReader {
    metadata: BtreeBinaryMetadata,
    nodes: BTreeMap<u64, u64>,
}

impl BtreeBinaryReader {
    /// The file's metadata.
    pub closed spec fn metadata(&self) -> BtreeBinaryMetadata {
        self.metadata
    }

    /// The map from page id to RID.
    pub closed spec fn nodes(&self) -> Map<u64, u64> {
        self.nodes@
    }

    /// Validate and parse a B-tree file.
    #[verifier::loop_isolation(false)]
    pub fn open(bytes: &[u8]) -> (r: Result<Self, FormatError>)
        ensures
            match (r, parse_btree_file(bytes@)) {
                (Ok(reader), Ok((m, map))) => reader.metadata() == m && reader.nodes() == map,
                (Err(e1), Err(e2)) => e1 == e2,
                _ => false,
            },
    {
        let content = open_trid_content(bytes, IndexType::Btree)?;
        if content.len() < 32 {
            return Err(FormatError::ContentTooShort);
        }
        let meta_bytes = slice_subrange(content, 0, 32);
        let metadata = BtreeBinaryMetadata::from_bytes(meta_bytes)?;
        proof {
            assert(meta_bytes@ =~= content@.take(32));
        }
        let mut nodes: BTreeMap<u64, u64> = BTreeMap::new();
        let mut pos: usize = 32;
        let mut i: u32 = 0;
        let len = content.len();
        while i < metadata.node_count
            invariant
                len == content@.len(),
                i <= metadata.node_count,
                pos == 32 + 16 * i,
                pos <= len,
                nodes@ == pairs_map(btree_entries(content@, i as nat)),
            decreases metadata.node_count - i,
        {
            if len - pos < 16 {
                return Err(FormatError::TruncatedNodeEntry);
            }
            let page_id = read_u64_at(content, pos);
            let rid = read_u64_at(content, pos + 8);
            nodes.insert(page_id, rid);
            proof {
                let s = btree_entries(content@, (i + 1) as nat);
                assert(s.drop_last() =~= btree_entries(content@, i as nat));
                assert(s.last() == (page_id, rid));
            }
            pos = pos + 16;
            i = i + 1;
        }
        Ok(BtreeBinaryReader { metadata, nodes })
    }

    /// Number of nodes the file declares.
    pub fn node_count(&self) -> (n: u32)
        ensures
            n == self.metadata().node_count,
    {
        self.metadata.node_count
    }

    /// The RID of a page, if the file holds it.
    pub fn get_rid(&self, page_id: u64) -> (r: Option<u64>)
        ensures
            r == (if self.nodes().contains_key(page_id) {
                Some(self.nodes()[page_id])
            } else {
                None::<u64>
            }),
    {
        match self.nodes.get(&page_id) {
            Some(v) => Some(*v),
            None => None,
        }
    }

    pub fn root_rid(&self) -> (r: u64)
        ensures
            r == self.metadata().root_rid,
    {
        self.metadata.root_rid
    }

    pub fn height(&self) -> (r: u32)
        ensures
            r == self.metadata().height,
    {
        self.metadata.height
    }

    pub fn order(&self) -> (r: u32)
        ensures
            r == self.metadata().order,
    {
        self.metadata.order
    }
}

} // verus!
