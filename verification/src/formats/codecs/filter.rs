use crate::errors::Result;
use crate::formats::codecs::{
    corrupt, decode_envelope, encode_envelope, envelope_bytes, field_u32, is_corrupt,
    lemma_envelope_roundtrip, open_envelope, read_bytes, read_u32, truncated_reason,
    BinaryFormatKind, FormatCodec,
};
use crate::io::binary::append_bytes;
use crate::le::{lemma_le_lengths, lemma_u32_at, u32_at};
use vstd::bytes::{spec_u32_to_le_bytes, u32_to_le_bytes};
use vstd::prelude::*;

verus! {

/// Key fences and bloom bits of a segment.
#[derive(Clone, Debug, PartialEq, Eq)]
pub struct FilterBlock {
    pub min_key: Vec<u8>,
    pub max_key: Vec<u8>,
    pub bloom_bits: Vec<u8>,
}

impl View for FilterBlock {
    type V = (Seq<u8>, Seq<u8>, Seq<u8>);

    open spec fn view(&self) -> (Seq<u8>, Seq<u8>, Seq<u8>) {
        (self.min_key@, self.max_key@, self.bloom_bits@)
    }
}

pub struct FilterCodec;

/// A length-prefixed field.
pub open spec fn len_prefixed(b: Seq<u8>) -> Seq<u8> {
    spec_u32_to_le_bytes(b.len() as u32) + b
}

/// The payload of a filter block.
pub open spec fn filter_payload(v: (Seq<u8>, Seq<u8>, Seq<u8>)) -> Seq<u8> {
    len_prefixed(v.0) + len_prefixed(v.1) + len_prefixed(v.2)
}

/// What the filter decoder makes of enveloped bytes.
pub open spec fn decode_filter(b: Seq<u8>) -> core::result::Result<
    (Seq<u8>, Seq<u8>, Seq<u8>),
    Seq<char>,
> {
    match open_envelope(b, BinaryFormatKind::Filter, 1) {
        Err(m) => Err(m),
        Ok(p) => match field_u32(p, 0) {
            None => Err(truncated_reason("filter min key length"@)),
            Some(l1) => if 4 + l1 > p.len() {
                Err(truncated_reason("filter min key"@))
            } else {
                match field_u32(p, 4 + l1) {
                    None => Err(truncated_reason("filter max key length"@)),
                    Some(l2) => if 8 + l1 + l2 > p.len() {
                        Err(truncated_reason("filter max key"@))
                    } else {
                        match field_u32(p, 8 + l1 + l2) {
                            None => Err(truncated_reason("filter bloom length"@)),
                            Some(l3) => if 12 + l1 + l2 + l3 > p.len() {
                                Err(truncated_reason("filter bloom bits"@))
                            } else if 12 + l1 + l2 + l3 != p.len() {
                                Err("filter trailing bytes"@)
                            } else {
                                Ok(
                                    (
                                        p.subrange(4, 4 + l1),
                                        p.subrange(8 + l1, 8 + l1 + l2),
                                        p.subrange(12 + l1 + l2, 12 + l1 + l2 + l3),
                                    ),
                                )
                            },
                        }
                    },
                }
            },
        },
    }
}

impl FormatCodec<FilterBlock> for FilterCodec {
    fn kind() -> (k: BinaryFormatKind)
        ensures
            k == BinaryFormatKind::Filter,
    {
        BinaryFormatKind::Filter
    }

    fn version() -> (v: u16)
        ensures
            v == 1,
    {
        1
    }

    open spec fn decodable(bytes: Seq<u8>) -> bool {
        true
    }

    fn encode(value: &FilterBlock) -> (r: Result<Vec<u8>>)
        ensures
            r matches Ok(b) && b@ == envelope_bytes(
                BinaryFormatKind::Filter,
                1,
                filter_payload(value@),
            ),
    {
        let mut payload: Vec<u8> = Vec::new();
        append_bytes(&mut payload, u32_to_le_bytes(value.min_key.len() as u32).as_slice());
        append_bytes(&mut payload, value.min_key.as_slice());
        append_bytes(&mut payload, u32_to_le_bytes(value.max_key.len() as u32).as_slice());
        append_bytes(&mut payload, value.max_key.as_slice());
        append_bytes(&mut payload, u32_to_le_bytes(value.bloom_bits.len() as u32).as_slice());
        append_bytes(&mut payload, value.bloom_bits.as_slice());
        proof {
            assert(payload@ =~= filter_payload(value@));
        }
        Ok(encode_envelope(BinaryFormatKind::Filter, 1, payload.as_slice()))
    }

    fn decode(bytes: &[u8]) -> (r: Result<FilterBlock>)
        ensures
            match (r, decode_filter(bytes@)) {
                (Ok(v), Ok(w)) => v@ == w,
                (Err(e), Err(m)) => is_corrupt(e, m),
                _ => false,
            },
    {
        let payload = decode_envelope(bytes, BinaryFormatKind::Filter, 1)?;
        let mut offset: usize = 0;
        let min_len = read_u32(payload, &mut offset, "filter min key length")?;
        let min_key = read_bytes(payload, &mut offset, min_len as usize, "filter min key")?;
        let max_len = read_u32(payload, &mut offset, "filter max key length")?;
        let max_key = read_bytes(payload, &mut offset, max_len as usize, "filter max key")?;
        let bloom_len = read_u32(payload, &mut offset, "filter bloom length")?;
        let bloom_bits = read_bytes(payload, &mut offset, bloom_len as usize, "filter bloom bits")?;
        if offset != payload.len() {
            return Err(corrupt("filter trailing bytes"));
        }
        Ok(FilterBlock { min_key, max_key, bloom_bits })
    }
}

/// Decoding an encoded filter block gives it back.
pub proof fn lemma_filter_roundtrip(v: (Seq<u8>, Seq<u8>, Seq<u8>))
    requires
        12 + v.0.len() + v.1.len() + v.2.len() <= u32::MAX,
    ensures
        decode_filter(envelope_bytes(BinaryFormatKind::Filter, 1, filter_payload(v)))
            == core::result::Result::<(Seq<u8>, Seq<u8>, Seq<u8>), Seq<char>>::Ok(v),
{
    lemma_le_lengths();
    let p = filter_payload(v);
    lemma_envelope_roundtrip(BinaryFormatKind::Filter, 1, p);
    let e = Seq::<u8>::empty();
    let a = spec_u32_to_le_bytes(v.0.len() as u32);
    let b = spec_u32_to_le_bytes(v.1.len() as u32);
    let c = spec_u32_to_le_bytes(v.2.len() as u32);
    lemma_u32_at(e, v.0.len() as u32, v.0 + len_prefixed(v.1) + len_prefixed(v.2));
    assert(p =~= e + a + (v.0 + len_prefixed(v.1) + len_prefixed(v.2)));
    lemma_u32_at(a + v.0, v.1.len() as u32, v.1 + len_prefixed(v.2));
    assert(p =~= (a + v.0) + b + (v.1 + len_prefixed(v.2)));
    lemma_u32_at(a + v.0 + b + v.1, v.2.len() as u32, v.2);
    assert(p =~= (a + v.0 + b + v.1) + c + v.2);
    assert(p.subrange(4, 4 + v.0.len() as int) =~= v.0);
    assert(p.subrange(8 + v.0.len() as int, 8 + v.0.len() + v.1.len() as int) =~= v.1);
    assert(p.subrange(12 + v.0.len() + v.1.len() as int, 12 + v.0.len() + v.1.len() + v.2.len() as int) =~= v.2);
}


/// An encoded filter block followed by any further bytes in the payload
/// is refused for its trailing bytes.
pub proof fn lemma_filter_trailing_refused(v: (Seq<u8>, Seq<u8>, Seq<u8>), t: Seq<u8>)
    requires
        t.len() > 0,
        12 + v.0.len() + v.1.len() + v.2.len() + t.len() <= u32::MAX,
    ensures
        decode_filter(envelope_bytes(BinaryFormatKind::Filter, 1, filter_payload(v) + t))
            == core::result::Result::<(Seq<u8>, Seq<u8>, Seq<u8>), Seq<char>>::Err("filter trailing bytes"@),
{
    lemma_le_lengths();
    let p = filter_payload(v) + t;
    lemma_envelope_roundtrip(BinaryFormatKind::Filter, 1, p);
    let e = Seq::<u8>::empty();
    let a = spec_u32_to_le_bytes(v.0.len() as u32);
    let b = spec_u32_to_le_bytes(v.1.len() as u32);
    let c = spec_u32_to_le_bytes(v.2.len() as u32);
    lemma_u32_at(e, v.0.len() as u32, v.0 + len_prefixed(v.1) + len_prefixed(v.2) + t);
    assert(p =~= e + a + (v.0 + len_prefixed(v.1) + len_prefixed(v.2) + t));
    lemma_u32_at(a + v.0, v.1.len() as u32, v.1 + len_prefixed(v.2) + t);
    assert(p =~= (a + v.0) + b + (v.1 + len_prefixed(v.2) + t));
    lemma_u32_at(a + v.0 + b + v.1, v.2.len() as u32, v.2 + t);
    assert(p =~= (a + v.0 + b + v.1) + c + (v.2 + t));
}

} // verus!
