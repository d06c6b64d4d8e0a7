use crate::errors::Result;
use crate::formats::codecs::{
    decode_envelope, encode_envelope, envelope_bytes, is_corrupt, lemma_envelope_roundtrip,
    open_envelope, BinaryFormatKind, FormatCodec,
};
use crate::io::binary::append_bytes;
use crate::le::{
    lemma_le_lengths, lemma_u32_at, lemma_u32s_bytes, lemma_u64_at, lemma_u64s_bytes, read_u32_at,
    read_u64_at, u32_at, u32s_bytes, u64_at, u64s_bytes,
};
use vstd::bytes::{spec_u32_to_le_bytes, spec_u64_to_le_bytes, u32_to_le_bytes, u64_to_le_bytes};
use vstd::prelude::*;

verus! {

/// A node of a vector graph: a record, its vector and its neighbours. The
/// vector's components are held as the bit patterns of their `f32` values,
/// which is how they are stored.
#[derive(Clone, Debug, PartialEq, Eq)]
pub struct VectorGraphNode {
    pub record_id: u64,
    pub vector: Vec<u32>,
    pub neighbors: Vec<u64>,
}

impl View for VectorGraphNode {
    type V = (u64, Seq<u32>, Seq<u64>);

    open spec fn view(&self) -> (u64, Seq<u32>, Seq<u64>) {
        (self.record_id, self.vector@, self.neighbors@)
    }
}

pub struct VectorGraphCodec;

/// The payload of a vector graph node.
pub open spec fn vector_graph_payload(v: (u64, Seq<u32>, Seq<u64>)) -> Seq<u8> {
    spec_u64_to_le_bytes(v.0) + spec_u32_to_le_bytes(v.1.len() as u32) + u32s_bytes(v.1)
        + spec_u32_to_le_bytes(v.2.len() as u32) + u64s_bytes(v.2)
}

/// The payload holds the record id, both counts and every component and
/// neighbour they announce (bytes after those are not read).
pub open spec fn vector_graph_fits(p: Seq<u8>) -> bool {
    &&& p.len() >= 12
    &&& 16 + 4 * (u32_at(p, 8) as int) <= p.len()
    &&& 16 + 4 * (u32_at(p, 8) as int) + 8 * (u32_at(p, 12 + 4 * (u32_at(p, 8) as int)) as int)
        <= p.len()
}

/// What the decoder reads from a payload that fits.
pub open spec fn vector_graph_fields(p: Seq<u8>) -> (u64, Seq<u32>, Seq<u64>) {
    let vl = u32_at(p, 8) as int;
    let nl = u32_at(p, 12 + 4 * vl) as int;
    (
        u64_at(p, 0),
        Seq::new(vl as nat, |i: int| u32_at(p, 12 + 4 * i)),
        Seq::new(nl as nat, |i: int| u64_at(p, 16 + 4 * vl + 8 * i)),
    )
}

/// What the vector graph decoder makes of enveloped bytes.
pub open spec fn decode_vector_graph(b: Seq<u8>) -> core::result::Result<(u64, Seq<u32>, Seq<u64>), Seq<char>> {
    match open_envelope(b, BinaryFormatKind::VectorGraph, 1) {
        Err(m) => Err(m),
        Ok(p) => Ok(vector_graph_fields(p)),
    }
}

impl FormatCodec<VectorGraphNode> for VectorGraphCodec {
    fn kind() -> (k: BinaryFormatKind)
        ensures
            k == BinaryFormatKind::VectorGraph,
    {
        BinaryFormatKind::VectorGraph
    }

    fn version() -> (v: u16)
        ensures
            v == 1,
    {
        1
    }

    /// The decoder indexes the payload without bounds checks, so an envelope
    /// that opens must hold every field it announces.
    open spec fn decodable(bytes: Seq<u8>) -> bool {
        match open_envelope(bytes, BinaryFormatKind::VectorGraph, 1) {
            Ok(p) => vector_graph_fits(p),
            Err(_) => true,
        }
    }

    fn encode(value: &VectorGraphNode) -> (r: Result<Vec<u8>>)
        ensures
            r matches Ok(b) && b@ == envelope_bytes(
                BinaryFormatKind::VectorGraph,
                1,
                vector_graph_payload(value@),
            ),
    {
        let mut payload: Vec<u8> = Vec::new();
        append_bytes(&mut payload, u64_to_le_bytes(value.record_id).as_slice());
        append_bytes(&mut payload, u32_to_le_bytes(value.vector.len() as u32).as_slice());
        let ghost head = payload@;
        let mut i: usize = 0;
        while i < value.vector.len()
            invariant
                i <= value.vector@.len(),
                payload@ == head + u32s_bytes(value.vector@.take(i as int)),
            decreases value.vector@.len() - i,
        {
            append_bytes(&mut payload, u32_to_le_bytes(value.vector[i]).as_slice());
            proof {
                assert(value.vector@.take(i + 1).drop_last() =~= value.vector@.take(i as int));
            }
            i = i + 1;
        }
        proof {
            assert(value.vector@.take(i as int) =~= value.vector@);
        }
        append_bytes(&mut payload, u32_to_le_bytes(value.neighbors.len() as u32).as_slice());
        let ghost mid = payload@;
        let mut j: usize = 0;
        while j < value.neighbors.len()
            invariant
                j <= value.neighbors@.len(),
                payload@ == mid + u64s_bytes(value.neighbors@.take(j as int)),
            decreases value.neighbors@.len() - j,
        {
            append_bytes(&mut payload, u64_to_le_bytes(value.neighbors[j]).as_slice());
            proof {
                assert(value.neighbors@.take(j + 1).drop_last() =~= value.neighbors@.take(
                    j as int,
                ));
            }
            j = j + 1;
        }
        proof {
            assert(value.neighbors@.take(j as int) =~= value.neighbors@);
            assert(payload@ =~= vector_graph_payload(value@));
        }
        Ok(encode_envelope(BinaryFormatKind::VectorGraph, 1, payload.as_slice()))
    }

    fn decode(bytes: &[u8]) -> (r: Result<VectorGraphNode>)
        ensures
            match (r, decode_vector_graph(bytes@)) {
                (Ok(v), Ok(w)) => v@ == w,
                (Err(e), Err(m)) => is_corrupt(e, m),
                _ => false,
            },
    {
        let payload = decode_envelope(bytes, BinaryFormatKind::VectorGraph, 1)?;
        let ghost p = payload@;
        let record_id = read_u64_at(payload, 0);
        let vector_len = read_u32_at(payload, 8);
        let mut vector: Vec<u32> = Vec::new();
        let mut i: u32 = 0;
        while i < vector_len
            invariant
                p == payload@,
                p.len() <= usize::MAX,
                vector_graph_fits(p),
                vector_len == u32_at(p, 8),
                i <= vector_len,
                vector@ == Seq::new(i as nat, |k: int| u32_at(p, 12 + 4 * k)),
            decreases vector_len - i,
        {
            vector.push(read_u32_at(payload, 12 + 4 * (i as usize)));
            i = i + 1;
            proof {
                assert(vector@ =~= Seq::new(i as nat, |k: int| u32_at(p, 12 + 4 * k)));
            }
        }
        let base: usize = 12 + 4 * (vector_len as usize);
        let neighbor_len = read_u32_at(payload, base);
        let mut neighbors: Vec<u64> = Vec::new();
        let mut j: u32 = 0;
        while j < neighbor_len
            invariant
                p == payload@,
                p.len() <= usize::MAX,
                vector_graph_fits(p),
                base == 12 + 4 * u32_at(p, 8),
                neighbor_len == u32_at(p, base as int),
                j <= neighbor_len,
                neighbors@ == Seq::new(j as nat, |k: int| u64_at(p, base + 4 + 8 * k)),
            decreases neighbor_len - j,
        {
            neighbors.push(read_u64_at(payload, base + 4 + 8 * (j as usize)));
            j = j + 1;
            proof {
                assert(neighbors@ =~= Seq::new(j as nat, |k: int| u64_at(p, base + 4 + 8 * k)));
            }
        }
        proof {
            assert(neighbors@ =~= vector_graph_fields(p).2);
        }
        Ok(VectorGraphNode { record_id, vector, neighbors })
    }
}

/// Decoding an encoded vector graph node gives it back.
pub proof fn lemma_vector_graph_roundtrip(v: (u64, Seq<u32>, Seq<u64>))
    requires
        16 + 4 * v.1.len() + 8 * v.2.len() <= u32::MAX,
    ensures
        decode_vector_graph(
            envelope_bytes(BinaryFormatKind::VectorGraph, 1, vector_graph_payload(v)),
        ) == core::result::Result::<(u64, Seq<u32>, Seq<u64>), Seq<char>>::Ok(v),
        VectorGraphCodec::decodable(
            envelope_bytes(BinaryFormatKind::VectorGraph, 1, vector_graph_payload(v)),
        ),
{
    lemma_le_lengths();
    let e = Seq::<u8>::empty();
    let r = spec_u64_to_le_bytes(v.0);
    let a = spec_u32_to_le_bytes(v.1.len() as u32);
    let vb = u32s_bytes(v.1);
    let b = spec_u32_to_le_bytes(v.2.len() as u32);
    let nb = u64s_bytes(v.2);
    let p = vector_graph_payload(v);
    lemma_u32s_bytes(r + a, v.1, b + nb);
    lemma_u64s_bytes(r + a + vb + b, v.2, e);
    lemma_envelope_roundtrip(BinaryFormatKind::VectorGraph, 1, p);
    lemma_u64_at(e, v.0, a + vb + b + nb);
    assert(p =~= e + r + (a + vb + b + nb));
    lemma_u32_at(r, v.1.len() as u32, vb + b + nb);
    assert(p =~= r + a + (vb + b + nb));
    lemma_u32_at(r + a + vb, v.2.len() as u32, nb);
    assert(p =~= (r + a + vb) + b + nb);
    assert(p =~= (r + a) + vb + (b + nb));
    assert(p =~= (r + a + vb + b) + nb + e);
    assert(vector_graph_fields(p).1 =~= v.1);
    assert(vector_graph_fields(p).2 =~= v.2);
}

} // verus!
