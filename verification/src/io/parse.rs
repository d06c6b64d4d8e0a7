//! Reading little-endian fields at an offset: the step-by-step statement
//! of a parse, the reader calls that follow it, and the facts that reading
//! back what was written gives it back.
use crate::errors::{Result, TridentError};
use crate::io::binary::BinaryReader;
use crate::le::{lemma_le_lengths, lemma_u32_at, lemma_u64_at, u32_at, u64_at};
use crate::text::{concat_str, dec_str, decimal_padded, hex_padded, hex_padded_string};
use vstd::bytes::{spec_u32_to_le_bytes, spec_u64_to_le_bytes};
use vstd::prelude::*;

verus! {

/// Bytes preceded by their length as a `u32`.
pub open spec fn len_bytes(b: Seq<u8>) -> Seq<u8> {
    spec_u32_to_le_bytes(b.len() as u32) + b
}

/// Why a read ran out of bytes.
pub open spec fn end_of_data() -> Seq<char> {
    "unexpected end of data"@
}

/// A byte at `o`.
pub open spec fn rd_u8(p: Seq<u8>, o: int) -> core::result::Result<(u8, int), Seq<char>> {
    if 0 <= o && o + 1 <= p.len() {
        Ok((p[o], o + 1))
    } else {
        Err(end_of_data())
    }
}

/// A little-endian `u32` at `o`.
pub open spec fn rd_u32(p: Seq<u8>, o: int) -> core::result::Result<(u32, int), Seq<char>> {
    if 0 <= o && o + 4 <= p.len() {
        Ok((u32_at(p, o), o + 4))
    } else {
        Err(end_of_data())
    }
}

/// A little-endian `u64` at `o`.
pub open spec fn rd_u64(p: Seq<u8>, o: int) -> core::result::Result<(u64, int), Seq<char>> {
    if 0 <= o && o + 8 <= p.len() {
        Ok((u64_at(p, o), o + 8))
    } else {
        Err(end_of_data())
    }
}

/// Length-prefixed bytes at `o`.
pub open spec fn rd_len_bytes(p: Seq<u8>, o: int) -> core::result::Result<(Seq<u8>, int), Seq<char>> {
    match rd_u32(p, o) {
        Err(m) => Err(m),
        Ok((n, o2)) => if o2 + n <= p.len() {
            Ok((p.subrange(o2, o2 + n), o2 + n))
        } else {
            Err(end_of_data())
        },
    }
}

/// A checksum as `{:#010x}` prints it: `0x` and eight hex digits.
pub open spec fn hex32(v: u32) -> Seq<char> {
    "0x"@ + hex_padded(v as nat, 8)
}

/// `e` reports corrupt bytes at `source` for `reason`.
pub open spec fn is_corrupt_at(e: TridentError, source: Seq<char>, reason: Seq<char>) -> bool {
    e matches TridentError::Corrupt { path, reason: r } && path@ == source && r@ == reason
}

pub fn corrupt_at(source: &str, reason: String) -> (e: TridentError)
    ensures
        is_corrupt_at(e, source@, reason@),
{
    TridentError::Corrupt { path: source.to_owned(), reason }
}

/// The same reader, moved on.
pub open spec fn same_input(a: BinaryReader, b: BinaryReader) -> bool {
    &&& b.wf()
    &&& b.data() == a.data()
    &&& b.source() == a.source()
}

/// The reader's step matches the spec's step.
pub open spec fn step_matches<T>(
    r: Result<T>,
    s: core::result::Result<(T, int), Seq<char>>,
    after: BinaryReader,
    source: Seq<char>,
) -> bool {
    match (r, s) {
        (Ok(v), Ok((sv, o))) => v == sv && after.pos() == o,
        (Err(e), Err(m)) => is_corrupt_at(e, source, m),
        _ => false,
    }
}

pub fn read_u8_step(reader: &mut BinaryReader) -> (r: Result<u8>)
    requires
        old(reader).wf(),
    ensures
        same_input(*old(reader), *final(reader)),
        step_matches(r, rd_u8(old(reader).data(), old(reader).pos()), *final(reader), old(reader).source()),
{
    proof {
        reader.lemma_pos();
    }
    reader.read_u8()
}

pub fn read_u32_step(reader: &mut BinaryReader) -> (r: Result<u32>)
    requires
        old(reader).wf(),
    ensures
        same_input(*old(reader), *final(reader)),
        step_matches(r, rd_u32(old(reader).data(), old(reader).pos()), *final(reader), old(reader).source()),
{
    proof {
        reader.lemma_pos();
    }
    reader.read_u32()
}

pub fn read_u64_step(reader: &mut BinaryReader) -> (r: Result<u64>)
    requires
        old(reader).wf(),
    ensures
        same_input(*old(reader), *final(reader)),
        step_matches(r, rd_u64(old(reader).data(), old(reader).pos()), *final(reader), old(reader).source()),
{
    proof {
        reader.lemma_pos();
    }
    reader.read_u64()
}

pub fn read_len_bytes_step(reader: &mut BinaryReader) -> (r: Result<Vec<u8>>)
    requires
        old(reader).wf(),
    ensures
        same_input(*old(reader), *final(reader)),
        match (r, rd_len_bytes(old(reader).data(), old(reader).pos())) {
            (Ok(v), Ok((sv, o))) => v@ == sv && final(reader).pos() == o,
            (Err(e), Err(m)) => is_corrupt_at(e, old(reader).source(), m),
            _ => false,
        },
{
    proof {
        reader.lemma_pos();
    }
    reader.read_len_bytes()
}

/// The message `prefix` followed by `tag` in decimal.
pub fn tag_message(prefix: &str, tag: u8) -> (m: String)
    ensures
        m@ == prefix@ + dec_str(tag as nat),
{
    let d = decimal_padded(tag as u64, 0);
    concat_str(prefix, d.as_str())
}

/// A checksum printed as `{:#010x}` does.
pub fn hex32_string(v: u32) -> (s: String)
    ensures
        s@ == hex32(v),
{
    let h = hex_padded_string(v as u64, 8);
    concat_str("0x", h.as_str())
}

pub proof fn lemma_rd_u8_at(a: Seq<u8>, x: u8, b: Seq<u8>)
    ensures
        rd_u8(a + seq![x] + b, a.len() as int) == core::result::Result::<(u8, int), Seq<char>>::Ok(
            (x, a.len() + 1int),
        ),
{
    assert((a + seq![x] + b)[a.len() as int] == x);
}

pub proof fn lemma_rd_u32_at(a: Seq<u8>, x: u32, b: Seq<u8>)
    ensures
        rd_u32(a + spec_u32_to_le_bytes(x) + b, a.len() as int) == core::result::Result::<
            (u32, int),
            Seq<char>,
        >::Ok((x, a.len() + 4int)),
{
    lemma_u32_at(a, x, b);
}

pub proof fn lemma_rd_u64_at(a: Seq<u8>, x: u64, b: Seq<u8>)
    ensures
        rd_u64(a + spec_u64_to_le_bytes(x) + b, a.len() as int) == core::result::Result::<
            (u64, int),
            Seq<char>,
        >::Ok((x, a.len() + 8int)),
{
    lemma_u64_at(a, x, b);
}

pub proof fn lemma_rd_len_bytes_at(a: Seq<u8>, k: Seq<u8>, b: Seq<u8>)
    requires
        k.len() <= u32::MAX,
    ensures
        rd_len_bytes(a + len_bytes(k) + b, a.len() as int) == core::result::Result::<
            (Seq<u8>, int),
            Seq<char>,
        >::Ok((k, a.len() + 4int + k.len())),
{
    lemma_le_lengths();
    let n = spec_u32_to_le_bytes(k.len() as u32);
    assert(a + len_bytes(k) + b =~= a + n + (k + b));
    lemma_rd_u32_at(a, k.len() as u32, k + b);
    assert((a + len_bytes(k) + b).subrange(a.len() + 4int, a.len() + 4int + k.len()) =~= k);
}

} // verus!
