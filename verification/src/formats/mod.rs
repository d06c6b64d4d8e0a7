//! Standardized binary format utilities: the `TRID` header, CRC-32
//! corruption checks and a little-endian writer and reader.
pub mod binary;
pub mod codecs;
pub mod crc;

use crate::formats::crc::{
    crc32_absorbed, crc32_hasher_finalize, crc32_hasher_new, crc32_hasher_update, spec_crc32,
};
use crate::io::binary::append_bytes;
use crate::le::{lemma_le_lengths, read_u16_at, read_u32_at, read_u64_at, u16_at, u32_at, u64_at};
use vstd::bytes::*;
use vstd::prelude::*;

verus! {

/// Magic number identifying Trident index files: "TRID".
pub const TRIDENT_MAGIC: u32 = 0x5452_4944;

/// Current binary format version.
pub const FORMAT_VERSION: u16 = 1;

/// Index type identifiers for binary format headers.
#[derive(Clone, Copy, Debug, PartialEq, Eq, Structural)]
pub enum IndexType {
    Lsm,
    Btree,
    Adjacency,
    Hnsw,
}

/// The number that stands for an index type on disk.
pub open spec fn index_type_code(t: IndexType) -> u32 {
    match t {
        IndexType::Lsm => 1,
        IndexType::Btree => 2,
        IndexType::Adjacency => 3,
        IndexType::Hnsw => 4,
    }
}

/// The index type a number stands for, if any.
pub open spec fn index_type_of_code(v: u32) -> Option<IndexType> {
    if v == 1 {
        Some(IndexType::Lsm)
    } else if v == 2 {
        Some(IndexType::Btree)
    } else if v == 3 {
        Some(IndexType::Adjacency)
    } else if v == 4 {
        Some(IndexType::Hnsw)
    } else {
        None
    }
}

impl IndexType {
    pub fn to_u32(self) -> (v: u32)
        ensures
            v == index_type_code(self),
    {
        match self {
            IndexType::Lsm => 1,
            IndexType::Btree => 2,
            IndexType::Adjacency => 3,
            IndexType::Hnsw => 4,
        }
    }

    pub fn from_u32(v: u32) -> (r: Option<IndexType>)
        ensures
            r == index_type_of_code(v),
    {
        match v {
            1 => Some(IndexType::Lsm),
            2 => Some(IndexType::Btree),
            3 => Some(IndexType::Adjacency),
            4 => Some(IndexType::Hnsw),
            _ => None,
        }
    }
}

/// Decoding an index type's code gives the index type back.
pub proof fn lemma_index_type_code_roundtrip(t: IndexType)
    ensures
        index_type_of_code(index_type_code(t)) == Some(t),
{
}

/// A code decodes to an index type exactly when it is between 1 and 4, and
/// then it is that type's code.
pub proof fn lemma_index_type_code_inverse(v: u32)
    ensures
        index_type_of_code(v) is Some <==> 1 <= v <= 4,
        index_type_of_code(v) matches Some(t) ==> index_type_code(t) == v,
{
}

/// Why bytes were refused by a binary format reader.
#[derive(Clone, Debug, PartialEq, Eq, Structural)]
pub enum FormatError {
    /// The input ended before a fixed-size part was complete.
    UnexpectedEof,
    /// The header does not start with `TRID`.
    InvalidMagic(u32),
    /// The header carries a version this reader does not know.
    UnsupportedVersion(u16),
    /// The header carries an unknown index type code.
    InvalidIndexType(u32),
    /// The header names another index type than the reader's.
    IndexTypeMismatch(IndexType),
    /// The content does not match the header's CRC-32.
    ChecksumMismatch { expected: u32, actual: u32 },
    /// The content is too short for the metadata block.
    ContentTooShort,
    /// A metadata block is too short.
    MetadataTooShort,
    /// The content ends inside a node entry.
    TruncatedNodeEntry,
    /// The content ends inside a vector entry.
    TruncatedVectorEntry,
    /// The content ends inside an edge.
    TruncatedEdgeData,
}

/// The description of each format error.
pub open spec fn format_error_message(e: FormatError) -> Seq<char> {
    match e {
        FormatError::UnexpectedEof => "failed to fill whole buffer"@,
        FormatError::InvalidMagic(_) => "Invalid magic number"@,
        FormatError::UnsupportedVersion(_) => "Unsupported format version"@,
        FormatError::InvalidIndexType(_) => "Invalid index type"@,
        FormatError::IndexTypeMismatch(_) => "Index type mismatch"@,
        FormatError::ChecksumMismatch { .. } => "CRC32 mismatch"@,
        FormatError::ContentTooShort => "Content too short for metadata"@,
        FormatError::MetadataTooShort => "Metadata too short"@,
        FormatError::TruncatedNodeEntry => "Truncated node entry"@,
        FormatError::TruncatedVectorEntry => "Truncated vector entry"@,
        FormatError::TruncatedEdgeData => "Truncated edge data"@,
    }
}

impl FormatError {
    /// A human-readable description of the error.
    pub fn message(&self) -> (s: String)
        ensures
            s@ == format_error_message(*self),
    {
        match self {
            FormatError::UnexpectedEof => String::from_str("failed to fill whole buffer"),
            FormatError::InvalidMagic(_) => String::from_str("Invalid magic number"),
            FormatError::UnsupportedVersion(_) => String::from_str("Unsupported format version"),
            FormatError::InvalidIndexType(_) => String::from_str("Invalid index type"),
            FormatError::IndexTypeMismatch(_) => String::from_str("Index type mismatch"),
            FormatError::ChecksumMismatch { .. } => String::from_str("CRC32 mismatch"),
            FormatError::ContentTooShort => String::from_str("Content too short for metadata"),
            FormatError::MetadataTooShort => String::from_str("Metadata too short"),
            FormatError::TruncatedNodeEntry => String::from_str("Truncated node entry"),
            FormatError::TruncatedVectorEntry => String::from_str("Truncated vector entry"),
            FormatError::TruncatedEdgeData => String::from_str("Truncated edge data"),
        }
    }
}

/// Standard 32-byte binary format header.
#[derive(Clone, Debug, PartialEq, Eq, Structural)]
pub struct FormatHeader {
    pub magic: u32,
    pub version: u16,
    pub index_type: IndexType,
    pub crc32: u32,
    pub metadata_offset: u64,
    pub timestamp: u64,
    pub reserved: u16,
}

/// The 32 bytes that stand for a header.
pub open spec fn header_bytes(h: FormatHeader) -> Seq<u8> {
    spec_u32_to_le_bytes(h.magic) + spec_u16_to_le_bytes(h.version) + spec_u32_to_le_bytes(
        index_type_code(h.index_type),
    ) + spec_u32_to_le_bytes(h.crc32) + spec_u64_to_le_bytes(h.metadata_offset)
        + spec_u64_to_le_bytes(h.timestamp) + spec_u16_to_le_bytes(h.reserved)
}

/// What the header reader makes of 32 bytes.
pub open spec fn parse_header(b: Seq<u8>) -> Result<FormatHeader, FormatError> {
    let magic = u32_at(b, 0);
    let version = u16_at(b, 4);
    let code = u32_at(b, 6);
    if magic != TRIDENT_MAGIC {
        Err(FormatError::InvalidMagic(magic))
    } else if version != FORMAT_VERSION {
        Err(FormatError::UnsupportedVersion(version))
    } else if index_type_of_code(code) is None {
        Err(FormatError::InvalidIndexType(code))
    } else {
        Ok(
            FormatHeader {
                magic,
                version,
                index_type: index_type_of_code(code).unwrap(),
                crc32: u32_at(b, 10),
                metadata_offset: u64_at(b, 14),
                timestamp: u64_at(b, 22),
                reserved: u16_at(b, 30),
            },
        )
    }
}

/// Turn a vector of exactly 32 bytes into an array.
pub fn to_array32(v: &[u8]) -> (a: [u8; 32])
    requires
        v@.len() == 32,
    ensures
        a@ == v@,
{
    let a = [
        v[0], v[1], v[2], v[3], v[4], v[5], v[6], v[7], v[8], v[9], v[10], v[11], v[12], v[13],
        v[14], v[15], v[16], v[17], v[18], v[19], v[20], v[21], v[22], v[23], v[24], v[25], v[26],
        v[27], v[28], v[29], v[30], v[31],
    ];
    assert(a@ =~= v@);
    a
}

impl FormatHeader {
    /// A header with the current version, the given type and offset, a zero
    /// checksum and the current time.
    pub fn new(index_type: IndexType, metadata_offset: u64) -> (h: Self)
        ensures
            h.magic == TRIDENT_MAGIC,
            h.version == FORMAT_VERSION,
            h.index_type == index_type,
            h.crc32 == 0,
            h.metadata_offset == metadata_offset,
            h.reserved == 0,
    {
        FormatHeader {
            magic: TRIDENT_MAGIC,
            version: FORMAT_VERSION,
            index_type,
            crc32: 0,
            metadata_offset,
            timestamp: crate::clock::unix_millis() as u64,
            reserved: 0,
        }
    }

    /// Serialize the header to its 32 bytes.
    pub fn to_bytes(&self) -> (b: [u8; 32])
        ensures
            b@ == header_bytes(*self),
            b@.len() == 32,
    {
        let mut v: Vec<u8> = Vec::new();
        append_bytes(&mut v, u32_to_le_bytes(self.magic).as_slice());
        append_bytes(&mut v, u16_to_le_bytes(self.version).as_slice());
        append_bytes(&mut v, u32_to_le_bytes(self.index_type.to_u32()).as_slice());
        append_bytes(&mut v, u32_to_le_bytes(self.crc32).as_slice());
        append_bytes(&mut v, u64_to_le_bytes(self.metadata_offset).as_slice());
        append_bytes(&mut v, u64_to_le_bytes(self.timestamp).as_slice());
        append_bytes(&mut v, u16_to_le_bytes(self.reserved).as_slice());
        proof {
            lemma_le_lengths();
            assert(v@ =~= header_bytes(*self));
        }
        to_array32(v.as_slice())
    }

    /// Parse a header, refusing a wrong magic number, version or type code.
    pub fn from_bytes(bytes: &[u8; 32]) -> (r: Result<Self, FormatError>)
        ensures
            r == parse_header(bytes@),
    {
        let b = bytes.as_slice();
        let magic = read_u32_at(b, 0);
        if magic != TRIDENT_MAGIC {
            return Err(FormatError::InvalidMagic(magic));
        }
        let version = read_u16_at(b, 4);
        if version != FORMAT_VERSION {
            return Err(FormatError::UnsupportedVersion(version));
        }
        let code = read_u32_at(b, 6);
        let index_type = match IndexType::from_u32(code) {
            Some(t) => t,
            None => return Err(FormatError::InvalidIndexType(code)),
        };
        Ok(
            FormatHeader {
                magic,
                version,
                index_type,
                crc32: read_u32_at(b, 10),
                metadata_offset: read_u64_at(b, 14),
                timestamp: read_u64_at(b, 22),
                reserved: read_u16_at(b, 30),
            },
        )
    }
}

/// Parsing the bytes of a header with the current magic and version gives
/// the header back.
pub proof fn lemma_header_roundtrip(h: FormatHeader)
    requires
        h.magic == TRIDENT_MAGIC,
        h.version == FORMAT_VERSION,
    ensures
        header_bytes(h).len() == 32,
        parse_header(header_bytes(h)) == Ok::<FormatHeader, FormatError>(h),
{
    lemma_le_lengths();
    lemma_auto_spec_u16_to_from_le_bytes();
    lemma_auto_spec_u32_to_from_le_bytes();
    lemma_auto_spec_u64_to_from_le_bytes();
    let b = header_bytes(h);
    assert(b.subrange(0, 4) =~= spec_u32_to_le_bytes(h.magic));
    assert(b.subrange(4, 6) =~= spec_u16_to_le_bytes(h.version));
    assert(b.subrange(6, 10) =~= spec_u32_to_le_bytes(index_type_code(h.index_type)));
    assert(b.subrange(10, 14) =~= spec_u32_to_le_bytes(h.crc32));
    assert(b.subrange(14, 22) =~= spec_u64_to_le_bytes(h.metadata_offset));
    assert(b.subrange(22, 30) =~= spec_u64_to_le_bytes(h.timestamp));
    assert(b.subrange(30, 32) =~= spec_u16_to_le_bytes(h.reserved));
}

/// CRC-32 based corruption detection helper.
pub struct ChecksumValidator {
    hasher: crc32fast::Hasher,
}

impl View for ChecksumValidator {
    type V = Seq<u8>;

    /// The bytes fed to the validator so far.
    closed spec fn view(&self) -> Seq<u8> {
        crc32_absorbed(self.hasher)
    }
}

impl ChecksumValidator {
    pub fn new() -> (v: Self)
        ensures
            v@ == Seq::<u8>::empty(),
    {
        ChecksumValidator { hasher: crc32_hasher_new() }
    }

    pub fn update(&mut self, data: &[u8])
        ensures
            final(self)@ == old(self)@ + data@,
    {
        crc32_hasher_update(&mut self.hasher, data);
    }

    pub fn finalize(self) -> (crc: u32)
        ensures
            crc == spec_crc32(self@),
    {
        crc32_hasher_finalize(self.hasher)
    }
}

impl Default for ChecksumValidator {
    fn default() -> (v: Self)
        ensures
            v@ == Seq::<u8>::empty(),
    {
        Self::new()
    }
}

/// Compute the CRC-32 of `data`.
pub fn compute_crc32(data: &[u8]) -> (crc: u32)
    ensures
        crc == spec_crc32(data@),
{
    let mut hasher = crc32_hasher_new();
    crc32_hasher_update(&mut hasher, data);
    proof {
        assert(Seq::<u8>::empty() + data@ =~= data@);
    }
    crc32_hasher_finalize(hasher)
}

/// Whether `expected_crc` is the CRC-32 of `data`.
pub fn validate_crc32(data: &[u8], expected_crc: u32) -> (ok: bool)
    ensures
        ok == (spec_crc32(data@) == expected_crc),
{
    compute_crc32(data) == expected_crc
}

/// A little-endian buffer in front of a destination that receives it
/// when the buffer is flushed.
pub struct BinaryWriter<W> {
    writer: W,
    buffer: Vec<u8>,
}

impl<W> BinaryWriter<W> {
    /// The bytes buffered and not yet flushed.
    pub closed spec fn buffered(&self) -> Seq<u8> {
        self.buffer@
    }

    /// The destination of the flushed bytes.
    pub closed spec fn destination(&self) -> W {
        self.writer
    }

    pub fn new(writer: W) -> (w: Self)
        ensures
            w.buffered() == Seq::<u8>::empty(),
            w.destination() == writer,
    {
        BinaryWriter { writer, buffer: Vec::new() }
    }

    pub fn write_u32(&mut self, value: u32) -> (r: Result<(), FormatError>)
        ensures
            r is Ok,
            final(self).buffered() == old(self).buffered() + spec_u32_to_le_bytes(value),
            final(self).destination() == old(self).destination(),
    {
        append_bytes(&mut self.buffer, u32_to_le_bytes(value).as_slice());
        Ok(())
    }

    pub fn write_u64(&mut self, value: u64) -> (r: Result<(), FormatError>)
        ensures
            r is Ok,
            final(self).buffered() == old(self).buffered() + spec_u64_to_le_bytes(value),
            final(self).destination() == old(self).destination(),
    {
        append_bytes(&mut self.buffer, u64_to_le_bytes(value).as_slice());
        Ok(())
    }

    pub fn write_u16(&mut self, value: u16) -> (r: Result<(), FormatError>)
        ensures
            r is Ok,
            final(self).buffered() == old(self).buffered() + spec_u16_to_le_bytes(value),
            final(self).destination() == old(self).destination(),
    {
        append_bytes(&mut self.buffer, u16_to_le_bytes(value).as_slice());
        Ok(())
    }

    pub fn write_u8(&mut self, value: u8) -> (r: Result<(), FormatError>)
        ensures
            r is Ok,
            final(self).buffered() == old(self).buffered().push(value),
            final(self).destination() == old(self).destination(),
    {
        self.buffer.push(value);
        Ok(())
    }

    pub fn write_bytes(&mut self, data: &[u8]) -> (r: Result<(), FormatError>)
        ensures
            r is Ok,
            final(self).buffered() == old(self).buffered() + data@,
            final(self).destination() == old(self).destination(),
    {
        append_bytes(&mut self.buffer, data);
        Ok(())
    }

    pub fn buffer_len(&self) -> (n: usize)
        ensures
            n == self.buffered().len(),
    {
        self.buffer.len()
    }

    pub fn buffer(&self) -> (b: &[u8])
        ensures
            b@ == self.buffered(),
    {
        self.buffer.as_slice()
    }

    pub fn take_buffer(self) -> (b: Vec<u8>)
        ensures
            b@ == self.buffered(),
    {
        self.buffer
    }

    /// Split the writer into its destination and the buffered bytes, which
    /// the caller then writes to the destination.
    pub fn into_parts(self) -> (parts: (W, Vec<u8>))
        ensures
            parts.0 == self.destination(),
            parts.1@ == self.buffered(),
    {
        (self.writer, self.buffer)
    }
}

impl BinaryWriter<Vec<u8>> {
    /// The bytes the in-memory destination holds.
    pub closed spec fn sent(&self) -> Seq<u8> {
        self.writer@
    }

    /// Write the buffered bytes to the in-memory destination and empty the
    /// buffer.
    pub fn flush_buffer(&mut self) -> (r: Result<(), FormatError>)
        ensures
            r is Ok,
            final(self).sent() == old(self).sent() + old(self).buffered(),
            final(self).buffered() == Seq::<u8>::empty(),
    {
        append_bytes(&mut self.writer, self.buffer.as_slice());
        self.buffer.clear();
        Ok(())
    }
}

/// A little-endian reader over bytes already read from a source.
pub struct BinaryReader {
    data: Vec<u8>,
    buffer: Vec<u8>,
    offset: usize,
}

impl BinaryReader {
    /// The bytes the reader reads from.
    pub closed spec fn data(&self) -> Seq<u8> {
        self.data@
    }

    /// How many bytes have been consumed.
    pub closed spec fn consumed(&self) -> int {
        self.offset as int
    }

    /// The bytes of the last `read_exact`.
    pub closed spec fn last_read(&self) -> Seq<u8> {
        self.buffer@
    }

    pub closed spec fn wf(&self) -> bool {
        self.offset <= self.data@.len()
    }

    pub fn new(data: Vec<u8>) -> (r: Self)
        ensures
            r.wf(),
            r.data() == data@,
            r.consumed() == 0,
    {
        BinaryReader { data, buffer: Vec::new(), offset: 0 }
    }

    /// Read exactly `n` bytes into the internal buffer.
    pub fn read_exact(&mut self, n: usize) -> (r: Result<(), FormatError>)
        requires
            old(self).wf(),
        ensures
            final(self).wf(),
            final(self).data() == old(self).data(),
            match r {
                Ok(()) => {
                    &&& old(self).consumed() + n <= old(self).data().len()
                    &&& final(self).last_read() == old(self).data().subrange(
                        old(self).consumed(),
                        old(self).consumed() + n,
                    )
                    &&& final(self).consumed() == old(self).consumed() + n
                },
                Err(e) => {
                    &&& e == FormatError::UnexpectedEof
                    &&& old(self).consumed() + n > old(self).data().len()
                    &&& final(self).consumed() == old(self).consumed()
                },
            },
    {
        if n > self.data.len() - self.offset {
            return Err(FormatError::UnexpectedEof);
        }
        let mut buf: Vec<u8> = Vec::new();
        let mut i: usize = 0;
        let len = self.data.len();
        while i < n
            invariant
                len == self.data@.len(),
                self.offset + n <= self.data@.len(),
                i <= n,
                buf@ == self.data@.subrange(self.offset as int, self.offset + i),
            decreases n - i,
        {
            buf.push(self.data[self.offset + i]);
            proof {
                assert(buf@ =~= self.data@.subrange(self.offset as int, self.offset + i + 1));
            }
            i = i + 1;
        }
        self.buffer = buf;
        self.offset = self.offset + n;
        Ok(())
    }

    pub fn read_u32(&mut self) -> (r: Result<u32, FormatError>)
        requires
            old(self).wf(),
        ensures
            final(self).wf(),
            final(self).data() == old(self).data(),
            match r {
                Ok(v) => {
                    &&& old(self).consumed() + 4 <= old(self).data().len()
                    &&& v == u32_at(old(self).data(), old(self).consumed())
                    &&& final(self).consumed() == old(self).consumed() + 4
                },
                Err(e) => e == FormatError::UnexpectedEof && old(self).consumed() + 4 > old(
                    self,
                ).data().len(),
            },
    {
        let ghost c = self.consumed();
        self.read_exact(4)?;
        proof {
            assert(self.buffer@.subrange(0, 4) =~= self.data@.subrange(c, c + 4));
        }
        Ok(read_u32_at(self.buffer.as_slice(), 0))
    }

    pub fn read_u64(&mut self) -> (r: Result<u64, FormatError>)
        requires
            old(self).wf(),
        ensures
            final(self).wf(),
            final(self).data() == old(self).data(),
            match r {
                Ok(v) => {
                    &&& old(self).consumed() + 8 <= old(self).data().len()
                    &&& v == u64_at(old(self).data(), old(self).consumed())
                    &&& final(self).consumed() == old(self).consumed() + 8
                },
                Err(e) => e == FormatError::UnexpectedEof && old(self).consumed() + 8 > old(
                    self,
                ).data().len(),
            },
    {
        let ghost c = self.consumed();
        self.read_exact(8)?;
        proof {
            assert(self.buffer@.subrange(0, 8) =~= self.data@.subrange(c, c + 8));
        }
        Ok(read_u64_at(self.buffer.as_slice(), 0))
    }

    pub fn read_u16(&mut self) -> (r: Result<u16, FormatError>)
        requires
            old(self).wf(),
        ensures
            final(self).wf(),
            final(self).data() == old(self).data(),
            match r {
                Ok(v) => {
                    &&& old(self).consumed() + 2 <= old(self).data().len()
                    &&& v == u16_at(old(self).data(), old(self).consumed())
                    &&& final(self).consumed() == old(self).consumed() + 2
                },
                Err(e) => e == FormatError::UnexpectedEof && old(self).consumed() + 2 > old(
                    self,
                ).data().len(),
            },
    {
        let ghost c = self.consumed();
        self.read_exact(2)?;
        proof {
            assert(self.buffer@.subrange(0, 2) =~= self.data@.subrange(c, c + 2));
        }
        Ok(read_u16_at(self.buffer.as_slice(), 0))
    }

    pub fn read_u8(&mut self) -> (r: Result<u8, FormatError>)
        requires
            old(self).wf(),
        ensures
            final(self).wf(),
            final(self).data() == old(self).data(),
            match r {
                Ok(v) => {
                    &&& old(self).consumed() + 1 <= old(self).data().len()
                    &&& v == old(self).data()[old(self).consumed()]
                    &&& final(self).consumed() == old(self).consumed() + 1
                },
                Err(e) => e == FormatError::UnexpectedEof && old(self).consumed() + 1 > old(
                    self,
                ).data().len(),
            },
    {
        self.read_exact(1)?;
        Ok(self.buffer[0])
    }

    pub fn read_bytes(&mut self, n: usize) -> (r: Result<Vec<u8>, FormatError>)
        requires
            old(self).wf(),
        ensures
            final(self).wf(),
            final(self).data() == old(self).data(),
            match r {
                Ok(v) => {
                    &&& old(self).consumed() + n <= old(self).data().len()
                    &&& v@ == old(self).data().subrange(
                        old(self).consumed(),
                        old(self).consumed() + n,
                    )
                    &&& final(self).consumed() == old(self).consumed() + n
                },
                Err(e) => e == FormatError::UnexpectedEof && old(self).consumed() + n > old(
                    self,
                ).data().len(),
            },
    {
        self.read_exact(n)?;
        Ok(self.buffer.clone())
    }
}

} // verus!
