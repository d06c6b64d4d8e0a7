//! Versioned codecs for the engine's blocks: every block is framed by a
//! `TFMT` envelope that names its kind, version and payload length.
pub mod bitmap;
pub mod checkpoint;
pub mod columnar;
pub mod filter;
pub mod postings;
pub mod row;
pub mod vector_graph;

use crate::errors::{Result, TridentError};
use crate::io::binary::{append_bytes, copy_bytes};
use crate::le::{read_u16_at, read_u32_at, read_u64_at, u16_at, u32_at, u64_at};
use vstd::bytes::{spec_u16_to_le_bytes, spec_u32_to_le_bytes, u16_to_le_bytes, u32_to_le_bytes};
use vstd::prelude::*;
use vstd::slice::slice_subrange;

verus! {

/// The four bytes that open every envelope: "TFMT".
pub open spec fn format_magic() -> Seq<u8> {
    seq![0x54u8, 0x46u8, 0x4Du8, 0x54u8]
}

/// The kinds of block a codec can frame.
#[derive(Clone, Copy, Debug, PartialEq, Eq, Structural)]
pub enum BinaryFormatKind {
    RowRecord,
    ColumnarBlock,
    Postings,
    Bitmap,
    VectorGraph,
    Filter,
    Checkpoint,
}

/// The number that stands for a block kind in an envelope.
pub open spec fn kind_code(k: BinaryFormatKind) -> u16 {
    match k {
        BinaryFormatKind::RowRecord => 1,
        BinaryFormatKind::ColumnarBlock => 2,
        BinaryFormatKind::Postings => 3,
        BinaryFormatKind::Bitmap => 4,
        BinaryFormatKind::VectorGraph => 5,
        BinaryFormatKind::Filter => 6,
        BinaryFormatKind::Checkpoint => 7,
    }
}

impl BinaryFormatKind {
    pub fn code(self) -> (c: u16)
        ensures
            c == kind_code(self),
    {
        match self {
            BinaryFormatKind::RowRecord => 1,
            BinaryFormatKind::ColumnarBlock => 2,
            BinaryFormatKind::Postings => 3,
            BinaryFormatKind::Bitmap => 4,
            BinaryFormatKind::VectorGraph => 5,
            BinaryFormatKind::Filter => 6,
            BinaryFormatKind::Checkpoint => 7,
        }
    }
}

/// A codec that turns values of `T` into enveloped bytes and back.
pub trait FormatCodec<T> {
    /// The block kind the codec writes.
    fn kind() -> BinaryFormatKind;

    /// The payload version the codec writes.
    fn version() -> u16;

    /// Which encoded inputs the decoder accepts without failing hard.
    spec fn decodable(bytes: Seq<u8>) -> bool;

    fn encode(value: &T) -> Result<Vec<u8>>;

    fn decode(bytes: &[u8]) -> Result<T>
        requires
            Self::decodable(bytes@),
    ;
}

/// An envelope around a payload.
pub open spec fn envelope_bytes(kind: BinaryFormatKind, version: u16, payload: Seq<u8>) -> Seq<u8> {
    format_magic() + spec_u16_to_le_bytes(kind_code(kind)) + spec_u16_to_le_bytes(version)
        + spec_u32_to_le_bytes(payload.len() as u32) + payload
}

/// The payload of an envelope, or why the envelope is refused.
pub open spec fn open_envelope(bytes: Seq<u8>, kind: BinaryFormatKind, version: u16) -> core::result::Result<
    Seq<u8>,
    Seq<char>,
> {
    if bytes.len() < 12 || bytes.take(4) != format_magic() {
        Err("invalid format envelope"@)
    } else if u16_at(bytes, 4) != kind_code(kind) || u16_at(bytes, 6) != version {
        Err("format kind or version mismatch"@)
    } else if bytes.len() != 12 + u32_at(bytes, 8) {
        Err("format payload length mismatch"@)
    } else {
        Ok(bytes.skip(12))
    }
}

/// `e` is the error for corrupt in-memory bytes with the given reason.
pub open spec fn is_corrupt(e: TridentError, reason: Seq<char>) -> bool {
    e matches TridentError::Corrupt { path, reason: r } && path@ == "<memory>"@ && r@ == reason
}

/// The error for corrupt in-memory bytes.
pub fn corrupt(reason: &str) -> (e: TridentError)
    ensures
        is_corrupt(e, reason@),
{
    TridentError::Corrupt { path: String::from_str("<memory>"), reason: reason.to_owned() }
}

/// Frame a payload in an envelope.
pub fn encode_envelope(kind: BinaryFormatKind, version: u16, payload: &[u8]) -> (out: Vec<u8>)
    ensures
        out@ == envelope_bytes(kind, version, payload@),
{
    let mut out: Vec<u8> = Vec::new();
    out.push(0x54u8);
    out.push(0x46u8);
    out.push(0x4Du8);
    out.push(0x54u8);
    append_bytes(&mut out, u16_to_le_bytes(kind.code()).as_slice());
    append_bytes(&mut out, u16_to_le_bytes(version).as_slice());
    append_bytes(&mut out, u32_to_le_bytes(payload.len() as u32).as_slice());
    append_bytes(&mut out, payload);
    proof {
        assert(out@ =~= envelope_bytes(kind, version, payload@));
    }
    out
}

/// Check an envelope's magic, kind, version and length, and return its payload.
pub fn decode_envelope(bytes: &[u8], kind: BinaryFormatKind, version: u16) -> (r: Result<&[u8]>)
    ensures
        match (r, open_envelope(bytes@, kind, version)) {
            (Ok(p), Ok(sp)) => p@ == sp,
            (Err(e), Err(msg)) => is_corrupt(e, msg),
            _ => false,
        },
{
    if bytes.len() < 12 || !(bytes[0] == 0x54u8 && bytes[1] == 0x46u8 && bytes[2] == 0x4Du8
        && bytes[3] == 0x54u8) {
        proof {
            if bytes@.len() >= 12 && bytes@.take(4) == format_magic() {
                assert(bytes@.take(4)[0] == bytes@[0]);
                assert(bytes@.take(4)[1] == bytes@[1]);
                assert(bytes@.take(4)[2] == bytes@[2]);
                assert(bytes@.take(4)[3] == bytes@[3]);
            }
        }
        return Err(corrupt("invalid format envelope"));
    }
    proof {
        assert(bytes@.take(4) =~= format_magic());
    }
    let actual_kind = read_u16_at(bytes, 4);
    let actual_version = read_u16_at(bytes, 6);
    let payload_len = read_u32_at(bytes, 8);
    if actual_kind != kind.code() || actual_version != version {
        return Err(corrupt("format kind or version mismatch"));
    }
    if bytes.len() - 12 != payload_len as usize {
        return Err(corrupt("format payload length mismatch"));
    }
    let p = slice_subrange(bytes, 12, bytes.len());
    proof {
        assert(p@ =~= bytes@.skip(12));
    }
    Ok(p)
}

/// Opening an envelope returns the payload it was made with.
pub proof fn lemma_envelope_roundtrip(kind: BinaryFormatKind, version: u16, payload: Seq<u8>)
    requires
        payload.len() <= u32::MAX,
    ensures
        open_envelope(envelope_bytes(kind, version, payload), kind, version) == core::result::Result::<
            Seq<u8>,
            Seq<char>,
        >::Ok(payload),
{
    crate::le::lemma_le_lengths();
    let b = envelope_bytes(kind, version, payload);
    let m = format_magic();
    let k = spec_u16_to_le_bytes(kind_code(kind));
    let v = spec_u16_to_le_bytes(version);
    let n = spec_u32_to_le_bytes(payload.len() as u32);
    assert(b.take(4) =~= m);
    crate::le::lemma_u16_at(m, kind_code(kind), v + n + payload);
    assert(b =~= m + k + (v + n + payload));
    crate::le::lemma_u16_at(m + k, version, n + payload);
    assert(b =~= (m + k) + v + (n + payload));
    crate::le::lemma_u32_at(m + k + v, payload.len() as u32, payload);
    assert(b =~= (m + k + v) + n + payload);
    assert(b.skip(12) =~= payload);
}

/// The value of a `u32` field at `off`, if the payload holds it.
pub open spec fn field_u32(p: Seq<u8>, off: int) -> Option<u32> {
    if off + 4 <= p.len() {
        Some(u32_at(p, off))
    } else {
        None
    }
}

/// The value of a `u64` field at `off`, if the payload holds it.
pub open spec fn field_u64(p: Seq<u8>, off: int) -> Option<u64> {
    if off + 8 <= p.len() {
        Some(u64_at(p, off))
    } else {
        None
    }
}

/// The reason given when a labelled field is cut off.
pub open spec fn truncated_reason(label: Seq<char>) -> Seq<char> {
    label + " is truncated"@
}

fn truncated(label: &str) -> (e: TridentError)
    ensures
        is_corrupt(e, truncated_reason(label@)),
{
    let mut reason = String::from_str(label);
    reason.append(" is truncated");
    TridentError::Corrupt { path: String::from_str("<memory>"), reason }
}

/// Read a `u32` field at `*offset` and move past it.
pub(crate) fn read_u32(payload: &[u8], offset: &mut usize, label: &str) -> (r: Result<u32>)
    ensures
        match r {
            Ok(v) => field_u32(payload@, *old(offset) as int) == Some(v) && *final(offset)
                == *old(offset) + 4,
            Err(e) => field_u32(payload@, *old(offset) as int) is None && is_corrupt(
                e,
                truncated_reason(label@),
            ) && *final(offset) == *old(offset),
        },
{
    let off = *offset;
    if off > payload.len() || payload.len() - off < 4 {
        return Err(truncated(label));
    }
    *offset = off + 4;
    Ok(read_u32_at(payload, off))
}

/// Read a `u64` field at `*offset` and move past it.
pub(crate) fn read_u64(payload: &[u8], offset: &mut usize, label: &str) -> (r: Result<u64>)
    ensures
        match r {
            Ok(v) => field_u64(payload@, *old(offset) as int) == Some(v) && *final(offset)
                == *old(offset) + 8,
            Err(e) => field_u64(payload@, *old(offset) as int) is None && is_corrupt(
                e,
                truncated_reason(label@),
            ) && *final(offset) == *old(offset),
        },
{
    let off = *offset;
    if off > payload.len() || payload.len() - off < 8 {
        return Err(truncated(label));
    }
    *offset = off + 8;
    Ok(read_u64_at(payload, off))
}

/// Read `len` bytes at `*offset` and move past them.
pub(crate) fn read_bytes(payload: &[u8], offset: &mut usize, len: usize, label: &str) -> (r: Result<
    Vec<u8>,
>)
    ensures
        match r {
            Ok(v) => *old(offset) + len <= payload@.len() && v@ == payload@.subrange(
                *old(offset) as int,
                *old(offset) + len,
            ) && *final(offset) == *old(offset) + len,
            Err(e) => *old(offset) + len > payload@.len() && is_corrupt(
                e,
                truncated_reason(label@),
            ) && *final(offset) == *old(offset),
        },
{
    let off = *offset;
    if off > payload.len() || payload.len() - off < len {
        return Err(truncated(label));
    }
    *offset = off + len;
    Ok(copy_bytes(slice_subrange(payload, off, off + len)))
}

} // verus!
