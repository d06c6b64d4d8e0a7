//! Block compression: a block as it stands, LZ4 with its length in front,
//! or a zstd frame.
use crate::errors::{Result, TridentError};
use crate::io::binary::copy_bytes;
use crate::text::concat_str;
use vstd::bytes::spec_u32_to_le_bytes;
use vstd::prelude::*;

verus! {

/// How a block is compressed.
#[derive(Clone, Copy, Debug, PartialEq, Eq, Structural)]
pub enum Compression {
    Uncompressed,
    Lz4,
    Zstd,
}

/// The zstd level blocks are compressed at.
pub const ZSTD_LEVEL: i32 = 3;

/// The most bytes a zstd block may decompress to: 128 MiB.
pub const ZSTD_MAX_BLOCK: usize = 134217728;

/// Names the block that `lz4_flex::compress_prepend_size` makes of
/// `input`.
pub uninterp spec fn lz4_block(input: Seq<u8>) -> Seq<u8>;

/// Names what `lz4_flex::decompress_size_prepended` makes of `input`:
/// the bytes, or none where it fails.
pub uninterp spec fn lz4_unblock(input: Seq<u8>) -> Option<Seq<u8>>;

/// Names the frame that `zstd::bulk::compress` makes of `data` at `level`.
pub uninterp spec fn zstd_frame(data: Seq<u8>, level: i32) -> Seq<u8>;

/// Names what `zstd::bulk::decompress` makes of `data` within `capacity`
/// bytes.
pub uninterp spec fn zstd_unframe(data: Seq<u8>, capacity: usize) -> Seq<u8>;

/// `lz4_flex::compress_prepend_size`. Trusted: the block named by
/// `lz4_block`, which starts with the input's length as a little-endian
/// `u32` (its source writes `input.len() as u32` first).
#[verifier::external_body]
fn lz4_compress(input: &[u8]) -> (out: Vec<u8>)
    ensures
        out@ == lz4_block(input@),
        out@.len() >= 4,
        out@.take(4) == spec_u32_to_le_bytes(input@.len() as u32),
{
    lz4_flex::compress_prepend_size(input)
}

/// `lz4_flex::decompress_size_prepended`, its error as text. Trusted: the
/// bytes named by `lz4_unblock`, or an error where that names none; input
/// shorter than the four length bytes is refused (its source reads them
/// first). The error text is its `Display`, which is not stated.
#[verifier::external_body]
fn lz4_decompress(input: &[u8]) -> (r: core::result::Result<Vec<u8>, String>)
    ensures
        match r {
            Ok(v) => lz4_unblock(input@) == Some(v@),
            Err(_) => lz4_unblock(input@) is None,
        },
        input@.len() < 4 ==> r is Err,
{
    match lz4_flex::decompress_size_prepended(input) {
        Ok(v) => Ok(v),
        Err(e) => Err(format!("{e}")),
    }
}

/// `zstd::bulk::compress`, its error as text. Trusted: on success, the
/// frame named by `zstd_frame`. Whether it succeeds is not stated (it
/// allocates a compression context), nor the error text.
#[verifier::external_body]
fn zstd_compress(data: &[u8], level: i32) -> (r: core::result::Result<Vec<u8>, String>)
    ensures
        r matches Ok(v) ==> v@ == zstd_frame(data@, level),
{
    match zstd::bulk::compress(data, level) {
        Ok(v) => Ok(v),
        Err(e) => Err(format!("{e}")),
    }
}

/// `zstd::bulk::decompress`, its error as text. Trusted: on success, the
/// bytes named by `zstd_unframe`, at most `capacity` of them (its
/// documentation: larger output is an error). Whether it succeeds is not
/// stated, nor the error text.
#[verifier::external_body]
fn zstd_decompress(data: &[u8], capacity: usize) -> (r: core::result::Result<Vec<u8>, String>)
    ensures
        r matches Ok(v) ==> v@ == zstd_unframe(data@, capacity) && v@.len() <= capacity,
{
    match zstd::bulk::decompress(data, capacity) {
        Ok(v) => Ok(v),
        Err(e) => Err(format!("{e}")),
    }
}

/// Compress a block with `codec`: as it stands, LZ4 with its length in
/// front, or a zstd frame at level 3 (an error from zstd is an I/O error).
pub fn encode_block(codec: Compression, bytes: &[u8]) -> (r: Result<Vec<u8>>)
    ensures
        codec == Compression::Uncompressed ==> (r matches Ok(v) && v@ == bytes@),
        codec == Compression::Lz4 ==> (r matches Ok(v) && v@ == lz4_block(bytes@)),
        codec == Compression::Zstd ==> match r {
            Ok(v) => v@ == zstd_frame(bytes@, ZSTD_LEVEL),
            Err(e) => e is Io,
        },
{
    match codec {
        Compression::Uncompressed => Ok(copy_bytes(bytes)),
        Compression::Lz4 => Ok(lz4_compress(bytes)),
        Compression::Zstd => match zstd_compress(bytes, ZSTD_LEVEL) {
            Ok(v) => Ok(v),
            Err(m) => Err(TridentError::Io(m)),
        },
    }
}

/// Decompress a block written with `codec`. An LZ4 failure is refused as
/// `lz4 decompression failed: ` and the reason; a zstd failure, or a zstd
/// block over 128 MiB, is an I/O error.
pub fn decode_block(codec: Compression, bytes: &[u8]) -> (r: Result<Vec<u8>>)
    ensures
        codec == Compression::Uncompressed ==> (r matches Ok(v) && v@ == bytes@),
        codec == Compression::Lz4 ==> match r {
            Ok(v) => lz4_unblock(bytes@) == Some(v@),
            Err(e) => lz4_unblock(bytes@) is None && (e matches TridentError::InvalidConfig(m)
                && m@.len() >= 26 && m@.take(26) == "lz4 decompression failed: "@),
        },
        codec == Compression::Zstd ==> match r {
            Ok(v) => v@ == zstd_unframe(bytes@, ZSTD_MAX_BLOCK) && v@.len() <= ZSTD_MAX_BLOCK,
            Err(e) => e is Io,
        },
{
    match codec {
        Compression::Uncompressed => Ok(copy_bytes(bytes)),
        Compression::Lz4 => match lz4_decompress(bytes) {
            Ok(v) => Ok(v),
            Err(m) => {
                proof {
                    reveal_strlit("lz4 decompression failed: ");
                }
                let s = concat_str("lz4 decompression failed: ", m.as_str());
                proof {
                    assert(s@.take(26) =~= "lz4 decompression failed: "@);
                }
                Err(TridentError::InvalidConfig(s))
            },
        },
        Compression::Zstd => match zstd_decompress(bytes, ZSTD_MAX_BLOCK) {
            Ok(v) => Ok(v),
            Err(m) => Err(TridentError::Io(m)),
        },
    }
}

} // verus!
