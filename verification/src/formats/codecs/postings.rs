use crate::errors::Result;
use crate::formats::codecs::{
    corrupt, decode_envelope, encode_envelope, envelope_bytes, field_u32, field_u64, is_corrupt,
    lemma_envelope_roundtrip, open_envelope, read_bytes, read_u32, read_u64, truncated_reason,
    BinaryFormatKind, FormatCodec,
};
use crate::io::binary::append_bytes;
use crate::le::{lemma_le_lengths, lemma_u32_at, lemma_u64s_bytes, u32_at, u64_at, u64s_bytes};
use vstd::bytes::{spec_u32_to_le_bytes, u32_to_le_bytes, u64_to_le_bytes};
use vstd::prelude::*;

verus! {

/// The records that hold a term.
#[derive(Clone, Debug, PartialEq, Eq)]
pub struct PostingsList {
    pub term: Vec<u8>,
    pub record_ids: Vec<u64>,
}

impl View for PostingsList {
    type V = (Seq<u8>, Seq<u64>);

    open spec fn view(&self) -> (Seq<u8>, Seq<u64>) {
        (self.term@, self.record_ids@)
    }
}

pub struct PostingsCodec;

/// The payload of a postings list.
pub open spec fn postings_payload(v: (Seq<u8>, Seq<u64>)) -> Seq<u8> {
    spec_u32_to_le_bytes(v.0.len() as u32) + v.0 + spec_u32_to_le_bytes(v.1.len() as u32)
        + u64s_bytes(v.1)
}

/// What the postings decoder makes of enveloped bytes.
pub open spec fn decode_postings(b: Seq<u8>) -> core::result::Result<(Seq<u8>, Seq<u64>), Seq<char>> {
    match open_envelope(b, BinaryFormatKind::Postings, 1) {
        Err(m) => Err(m),
        Ok(p) => match field_u32(p, 0) {
            None => Err(truncated_reason("postings term length"@)),
            Some(tl) => if 4 + tl > p.len() {
                Err(truncated_reason("postings term"@))
            } else {
                match field_u32(p, 4 + tl) {
                    None => Err(truncated_reason("postings count"@)),
                    Some(n) => if 8 + tl + 8 * n > p.len() {
                        Err(truncated_reason("postings record id"@))
                    } else if 8 + tl + 8 * n != p.len() {
                        Err("postings trailing bytes"@)
                    } else {
                        Ok(
                            (
                                p.subrange(4, 4 + tl),
                                Seq::new(n as nat, |i: int| u64_at(p, 8 + tl + 8 * i)),
                            ),
                        )
                    },
                }
            },
        },
    }
}

impl FormatCodec<PostingsList> for PostingsCodec {
    fn kind() -> (k: BinaryFormatKind)
        ensures
            k == BinaryFormatKind::Postings,
    {
        BinaryFormatKind::Postings
    }

    fn version() -> (v: u16)
        ensures
            v == 1,
    {
        1
    }

    open spec fn decodable(bytes: Seq<u8>) -> bool {
        true
    }

    fn encode(value: &PostingsList) -> (r: Result<Vec<u8>>)
        ensures
            r matches Ok(b) && b@ == envelope_bytes(
                BinaryFormatKind::Postings,
                1,
                postings_payload(value@),
            ),
    {
        let mut payload: Vec<u8> = Vec::new();
        append_bytes(&mut payload, u32_to_le_bytes(value.term.len() as u32).as_slice());
        append_bytes(&mut payload, value.term.as_slice());
        append_bytes(&mut payload, u32_to_le_bytes(value.record_ids.len() as u32).as_slice());
        let ghost head = payload@;
        let mut i: usize = 0;
        while i < value.record_ids.len()
            invariant
                i <= value.record_ids@.len(),
                payload@ == head + u64s_bytes(value.record_ids@.take(i as int)),
            decreases value.record_ids@.len() - i,
        {
            append_bytes(&mut payload, u64_to_le_bytes(value.record_ids[i]).as_slice());
            proof {
                let t = value.record_ids@.take(i + 1);
                assert(t.drop_last() =~= value.record_ids@.take(i as int));
            }
            i = i + 1;
        }
        proof {
            assert(value.record_ids@.take(i as int) =~= value.record_ids@);
        }
        Ok(encode_envelope(BinaryFormatKind::Postings, 1, payload.as_slice()))
    }

    #[verifier::loop_isolation(false)]
    fn decode(bytes: &[u8]) -> (r: Result<PostingsList>)
        ensures
            match (r, decode_postings(bytes@)) {
                (Ok(v), Ok(w)) => v@ == w,
                (Err(e), Err(m)) => is_corrupt(e, m),
                _ => false,
            },
    {
        let payload = decode_envelope(bytes, BinaryFormatKind::Postings, 1)?;
        let mut offset: usize = 0;
        let term_len = read_u32(payload, &mut offset, "postings term length")?;
        let term = read_bytes(payload, &mut offset, term_len as usize, "postings term")?;
        let count = read_u32(payload, &mut offset, "postings count")?;
        let ghost start = offset as int;
        let mut record_ids: Vec<u64> = Vec::new();
        let mut i: u32 = 0;
        while i < count
            invariant
                i <= count,
                offset == start + 8 * i,
                start == 8 + term_len,
                offset <= payload@.len(),
                record_ids@ == Seq::new(i as nat, |j: int| u64_at(payload@, start + 8 * j)),
            decreases count - i,
        {
            let id = read_u64(payload, &mut offset, "postings record id")?;
            record_ids.push(id);
            i = i + 1;
            proof {
                assert(record_ids@ =~= Seq::new(i as nat, |j: int| u64_at(payload@, start + 8 * j)));
            }
        }
        if offset != payload.len() {
            return Err(corrupt("postings trailing bytes"));
        }
        Ok(PostingsList { term, record_ids })
    }
}

/// Decoding an encoded postings list gives it back.
pub proof fn lemma_postings_roundtrip(v: (Seq<u8>, Seq<u64>))
    requires
        8 + v.0.len() + 8 * v.1.len() <= u32::MAX,
    ensures
        decode_postings(envelope_bytes(BinaryFormatKind::Postings, 1, postings_payload(v)))
            == core::result::Result::<(Seq<u8>, Seq<u64>), Seq<char>>::Ok(v),
{
    lemma_le_lengths();
    let p = postings_payload(v);
    let e = Seq::<u8>::empty();
    let tl = spec_u32_to_le_bytes(v.0.len() as u32);
    let nb = spec_u32_to_le_bytes(v.1.len() as u32);
    let wb = u64s_bytes(v.1);
    lemma_u64s_bytes(tl + v.0 + nb, v.1, e);
    lemma_envelope_roundtrip(BinaryFormatKind::Postings, 1, p);
    lemma_u32_at(e, v.0.len() as u32, v.0 + nb + wb);
    assert(p =~= e + tl + (v.0 + nb + wb));
    lemma_u32_at(tl + v.0, v.1.len() as u32, wb);
    assert(p =~= (tl + v.0) + nb + wb);
    assert(p.subrange(4, 4 + v.0.len() as int) =~= v.0);
    assert(p =~= (tl + v.0 + nb) + wb + e);
    assert(Seq::new(v.1.len(), |i: int| u64_at(p, 8 + v.0.len() as int + 8 * i)) =~= v.1);
}

} // verus!
