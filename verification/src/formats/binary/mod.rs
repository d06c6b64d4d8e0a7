//! Binary formats of the index plugins: a `TRID` header with a CRC-32 of
//! the content, plugin metadata, then the plugin's entries.
pub mod adjacency;
pub mod btree;
pub mod hnsw;

use crate::formats::crc::{lemma_crc32_detects_byte_change, spec_crc32};
use crate::formats::{
    compute_crc32, header_bytes, lemma_header_roundtrip, parse_header, to_array32, ChecksumValidator,
    FormatError, FormatHeader, IndexType, FORMAT_VERSION, TRIDENT_MAGIC,
};
use crate::io::binary::append_bytes;
use vstd::prelude::*;
use vstd::slice::slice_subrange;

verus! {

/// The header a file of an index type carries for a content checksum and a
/// creation time.
pub open spec fn trid_header(t: IndexType, crc: u32, timestamp: u64) -> FormatHeader {
    FormatHeader {
        magic: TRIDENT_MAGIC,
        version: FORMAT_VERSION,
        index_type: t,
        crc32: crc,
        metadata_offset: 32,
        timestamp,
        reserved: 0,
    }
}

/// A whole file: the header, then the content.
pub open spec fn trid_file(t: IndexType, content: Seq<u8>, timestamp: u64) -> Seq<u8> {
    header_bytes(trid_header(t, spec_crc32(content), timestamp)) + content
}

/// The content of a file of type `t`, or why the file is refused.
pub open spec fn parse_trid_content(b: Seq<u8>, t: IndexType) -> Result<Seq<u8>, FormatError> {
    if b.len() < 32 {
        Err(FormatError::UnexpectedEof)
    } else {
        match parse_header(b.take(32)) {
            Err(e) => Err(e),
            Ok(h) => {
                let c = b.skip(32);
                if h.index_type != t {
                    Err(FormatError::IndexTypeMismatch(t))
                } else if spec_crc32(c) != h.crc32 {
                    Err(FormatError::ChecksumMismatch { expected: h.crc32, actual: spec_crc32(c) })
                } else {
                    Ok(c)
                }
            },
        }
    }
}

/// The content of a written file reads back unchanged.
pub proof fn lemma_trid_file_roundtrip(t: IndexType, content: Seq<u8>, timestamp: u64)
    ensures
        parse_trid_content(trid_file(t, content, timestamp), t) == Ok::<Seq<u8>, FormatError>(
            content,
        ),
{
    let h = trid_header(t, spec_crc32(content), timestamp);
    lemma_header_roundtrip(h);
    let f = trid_file(t, content, timestamp);
    assert(f.take(32) =~= header_bytes(h));
    assert(f.skip(32) =~= content);
}

/// Any one byte of a written file's content changed makes reading it
/// fail with a checksum mismatch naming both checksums.
pub proof fn lemma_trid_detects_byte_change(t: IndexType, content: Seq<u8>, timestamp: u64, i: int, x: u8)
    requires
        32 <= i < trid_file(t, content, timestamp).len(),
        x != trid_file(t, content, timestamp)[i],
    ensures
        ({
            let c2 = content.update(i - 32, x);
            &&& spec_crc32(c2) != spec_crc32(content)
            &&& parse_trid_content(trid_file(t, content, timestamp).update(i, x), t) == Err::<Seq<u8>, FormatError>(
                FormatError::ChecksumMismatch { expected: spec_crc32(content), actual: spec_crc32(c2) },
            )
        }),
{
    let h = trid_header(t, spec_crc32(content), timestamp);
    lemma_header_roundtrip(h);
    let f = trid_file(t, content, timestamp);
    assert(f.take(32) =~= header_bytes(h));
    assert(f.skip(32) =~= content);
    let g = f.update(i, x);
    assert(g.take(32) =~= f.take(32));
    assert(g.skip(32) =~= content.update(i - 32, x));
    assert(content[i - 32] == f[i]);
    lemma_crc32_detects_byte_change(content, i - 32, x);
}

/// Frame `content` with a header of type `t` holding its CRC-32.
pub fn finish_trid_file(t: IndexType, content: &[u8]) -> (out: Vec<u8>)
    ensures
        exists|timestamp: u64| out@ == #[trigger] trid_file(t, content@, timestamp),
{
    let mut header = FormatHeader::new(t, 32);
    let mut validator = ChecksumValidator::new();
    validator.update(content);
    proof {
        assert(Seq::<u8>::empty() + content@ =~= content@);
    }
    header.crc32 = validator.finalize();
    let mut out: Vec<u8> = Vec::new();
    let hb = header.to_bytes();
    append_bytes(&mut out, hb.as_slice());
    append_bytes(&mut out, content);
    proof {
        assert(header == trid_header(t, spec_crc32(content@), header.timestamp));
        assert(out@ == trid_file(t, content@, header.timestamp));
    }
    out
}

/// Check the header and the checksum of a file of type `t` and return its
/// content.
pub fn open_trid_content(bytes: &[u8], t: IndexType) -> (r: Result<&[u8], FormatError>)
    ensures
        match (r, parse_trid_content(bytes@, t)) {
            (Ok(c), Ok(sc)) => c@ == sc,
            (Err(e1), Err(e2)) => e1 == e2,
            _ => false,
        },
{
    if bytes.len() < 32 {
        return Err(FormatError::UnexpectedEof);
    }
    let head = slice_subrange(bytes, 0, 32);
    let header = FormatHeader::from_bytes(&to_array32(head))?;
    if header.magic != TRIDENT_MAGIC {
        return Err(FormatError::InvalidMagic(header.magic));
    }
    if header.index_type != t {
        return Err(FormatError::IndexTypeMismatch(t));
    }
    let content = slice_subrange(bytes, 32, bytes.len());
    proof {
        assert(head@ =~= bytes@.take(32));
        assert(content@ =~= bytes@.skip(32));
    }
    let computed_crc = compute_crc32(content);
    if computed_crc != header.crc32 {
        return Err(FormatError::ChecksumMismatch { expected: header.crc32, actual: computed_crc });
    }
    Ok(content)
}

} // verus!
