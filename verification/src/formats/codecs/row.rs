use crate::errors::Result;
use crate::formats::codecs::{
    corrupt, decode_envelope, encode_envelope, envelope_bytes, is_corrupt, lemma_envelope_roundtrip,
    open_envelope, BinaryFormatKind, FormatCodec,
};
use crate::io::binary::{append_bytes, copy_bytes};
use crate::le::{lemma_le_lengths, lemma_u32_at, lemma_u64_at, read_u32_at, read_u64_at, u32_at, u64_at};
use vstd::bytes::{spec_u32_to_le_bytes, spec_u64_to_le_bytes, u32_to_le_bytes, u64_to_le_bytes};
use vstd::prelude::*;
use vstd::slice::slice_subrange;

verus! {

/// A record's bytes under its id.
#[derive(Clone, Debug, PartialEq, Eq)]
pub struct RowRecord {
    pub record_id: u64,
    pub bytes: Vec<u8>,
}

impl View for RowRecord {
    type V = (u64, Seq<u8>);

    open spec fn view(&self) -> (u64, Seq<u8>) {
        (self.record_id, self.bytes@)
    }
}

pub struct RowRecordCodec;

/// The payload of a row: id, length, bytes.
pub open spec fn row_payload(v: (u64, Seq<u8>)) -> Seq<u8> {
    spec_u64_to_le_bytes(v.0) + spec_u32_to_le_bytes(v.1.len() as u32) + v.1
}

/// What the row decoder makes of a payload.
pub open spec fn decode_row_payload(p: Seq<u8>) -> core::result::Result<(u64, Seq<u8>), Seq<char>> {
    if p.len() < 12 {
        Err("row payload too short"@)
    } else if p.len() != 12 + u32_at(p, 8) {
        Err("row length mismatch"@)
    } else {
        Ok((u64_at(p, 0), p.skip(12)))
    }
}

/// What the row decoder makes of enveloped bytes.
pub open spec fn decode_row(b: Seq<u8>) -> core::result::Result<(u64, Seq<u8>), Seq<char>> {
    match open_envelope(b, BinaryFormatKind::RowRecord, 1) {
        Err(m) => Err(m),
        Ok(p) => decode_row_payload(p),
    }
}

impl FormatCodec<RowRecord> for RowRecordCodec {
    fn kind() -> (k: BinaryFormatKind)
        ensures
            k == BinaryFormatKind::RowRecord,
    {
        BinaryFormatKind::RowRecord
    }

    fn version() -> (v: u16)
        ensures
            v == 1,
    {
        1
    }

    open spec fn decodable(bytes: Seq<u8>) -> bool {
        true
    }

    fn encode(value: &RowRecord) -> (r: Result<Vec<u8>>)
        ensures
            r matches Ok(b) && b@ == envelope_bytes(
                BinaryFormatKind::RowRecord,
                1,
                row_payload(value@),
            ),
    {
        let mut payload: Vec<u8> = Vec::new();
        append_bytes(&mut payload, u64_to_le_bytes(value.record_id).as_slice());
        append_bytes(&mut payload, u32_to_le_bytes(value.bytes.len() as u32).as_slice());
        append_bytes(&mut payload, value.bytes.as_slice());
        Ok(encode_envelope(BinaryFormatKind::RowRecord, 1, payload.as_slice()))
    }

    fn decode(bytes: &[u8]) -> (r: Result<RowRecord>)
        ensures
            match (r, decode_row(bytes@)) {
                (Ok(v), Ok(w)) => v@ == w,
                (Err(e), Err(m)) => is_corrupt(e, m),
                _ => false,
            },
    {
        let payload = decode_envelope(bytes, BinaryFormatKind::RowRecord, 1)?;
        if payload.len() < 12 {
            return Err(corrupt("row payload too short"));
        }
        let record_id = read_u64_at(payload, 0);
        let len = read_u32_at(payload, 8);
        if payload.len() - 12 != len as usize {
            return Err(corrupt("row length mismatch"));
        }
        let rest = slice_subrange(payload, 12, payload.len());
        proof {
            assert(rest@ =~= payload@.skip(12));
        }
        Ok(RowRecord { record_id, bytes: copy_bytes(rest) })
    }
}

/// Decoding an encoded row gives it back.
pub proof fn lemma_row_roundtrip(v: (u64, Seq<u8>))
    requires
        v.1.len() + 12 <= u32::MAX,
    ensures
        decode_row(envelope_bytes(BinaryFormatKind::RowRecord, 1, row_payload(v))) == core::result::Result::<
            (u64, Seq<u8>),
            Seq<char>,
        >::Ok(v),
{
    lemma_le_lengths();
    let p = row_payload(v);
    lemma_envelope_roundtrip(BinaryFormatKind::RowRecord, 1, p);
    let a = spec_u64_to_le_bytes(v.0);
    let n = spec_u32_to_le_bytes(v.1.len() as u32);
    lemma_u64_at(Seq::<u8>::empty(), v.0, n + v.1);
    assert(p =~= Seq::<u8>::empty() + a + (n + v.1));
    lemma_u32_at(a, v.1.len() as u32, v.1);
    assert(p.skip(12) =~= v.1);
}

} // verus!
