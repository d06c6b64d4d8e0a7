//! The byte form of a B-tree index snapshot: a checksummed frame around a
//! payload holding the last sequence number, the page size, each key with
//! its updates, and the page metadata.
use crate::errors::Result;
use crate::index::inverted_format::{
    always_reads_back, lemma_rd_list_at, lemma_rd_rows_step, lemma_rows_bytes_step, rd_list,
    rd_rows, read_matches, reads_back, rows_bytes, Parsed,
};
use crate::index::versions::{History, Version};
use crate::io::binary::{BinaryReader, BinaryWriter};
use crate::io::checksum::{crc32c, spec_crc32c};
use crate::io::parse::{
    corrupt_at, hex32, hex32_string, lemma_rd_len_bytes_at, lemma_rd_u64_at, lemma_rd_u8_at,
    len_bytes, rd_len_bytes, rd_u64, rd_u8, read_len_bytes_step, read_u32_step, read_u64_step,
    read_u8_step, same_input, tag_message,
};
use crate::le::{lemma_le_lengths, lemma_u32_at, read_u32_at, u32_at};
use crate::store::RecordId;
use crate::text::dec_str;
use vstd::bytes::{spec_u32_to_le_bytes, spec_u64_to_le_bytes};
use vstd::prelude::*;
use vstd::slice::slice_subrange;
use vstd::string::*;

verus! {

broadcast use vstd::seq_lib::group_seq_lib_default;

/// The first four bytes of a snapshot, little-endian: "BTR2".
pub const BTREE_SNAPSHOT_MAGIC: u32 = 0x4254_5232;

/// The snapshot format's version byte.
pub const BTREE_SNAPSHOT_VERSION: u8 = 1;

/// A page row: number, key count, smallest and largest key.
pub type PageRow = (u64, u64, Seq<u8>, Seq<u8>);

/// What a snapshot payload holds.
pub struct BTreeSnapshot {
    pub next_sequence: u64,
    pub page_size: u64,
    pub entries: Seq<History>,
    pub pages: Seq<PageRow>,
}

/// A snapshot payload, as plain values.
pub struct BTreeSnapshotPayload {
    pub next_sequence: u64,
    pub page_size: u64,
    pub entries: Vec<(Vec<u8>, Vec<Version>)>,
    pub pages: Vec<(u64, u64, Vec<u8>, Vec<u8>)>,
}

/// Page rows as plain values.
pub open spec fn page_rows_view(v: Seq<(u64, u64, Vec<u8>, Vec<u8>)>) -> Seq<PageRow> {
    v.map_values(|p: (u64, u64, Vec<u8>, Vec<u8>)| (p.0, p.1, p.2@, p.3@))
}

/// Entries as plain values.
pub open spec fn entry_rows_view(v: Seq<(Vec<u8>, Vec<Version>)>) -> Seq<History> {
    v.map_values(|e: (Vec<u8>, Vec<Version>)| (e.0@, e.1@))
}

impl View for BTreeSnapshotPayload {
    type V = BTreeSnapshot;

    open spec fn view(&self) -> BTreeSnapshot {
        BTreeSnapshot {
            next_sequence: self.next_sequence,
            page_size: self.page_size,
            entries: entry_rows_view(self.entries@),
            pages: page_rows_view(self.pages@),
        }
    }
}

/// An update as bytes: its sequence, then 1 and the record, or 0.
pub open spec fn version_bytes(u: Version) -> Seq<u8> {
    spec_u64_to_le_bytes(u.sequence) + match u.rid {
        Some(r) => seq![1u8] + spec_u64_to_le_bytes(r.0),
        None => seq![0u8],
    }
}

/// How an update is written.
pub open spec fn version_enc() -> spec_fn(Version) -> Seq<u8> {
    |u: Version| version_bytes(u)
}

/// A key with its updates as bytes: the key, the count, each update.
pub open spec fn entry_bytes(e: History) -> Seq<u8> {
    len_bytes(e.0) + spec_u32_to_le_bytes(e.1.len() as u32) + rows_bytes(e.1, version_enc())
}

/// How an entry is written.
pub open spec fn entry_enc() -> spec_fn(History) -> Seq<u8> {
    |e: History| entry_bytes(e)
}

/// A page row as bytes.
pub open spec fn page_bytes(p: PageRow) -> Seq<u8> {
    spec_u64_to_le_bytes(p.0) + spec_u64_to_le_bytes(p.1) + len_bytes(p.2) + len_bytes(p.3)
}

/// How a page row is written.
pub open spec fn page_enc() -> spec_fn(PageRow) -> Seq<u8> {
    |p: PageRow| page_bytes(p)
}

/// The payload: the last sequence number, the page size, then the entries
/// and the pages, each list preceded by its count.
pub open spec fn btree_payload(s: BTreeSnapshot) -> Seq<u8> {
    spec_u64_to_le_bytes(s.next_sequence) + spec_u64_to_le_bytes(s.page_size) + spec_u32_to_le_bytes(
        s.entries.len() as u32,
    ) + rows_bytes(s.entries, entry_enc()) + spec_u32_to_le_bytes(s.pages.len() as u32) + rows_bytes(
        s.pages,
        page_enc(),
    )
}

/// The frame: magic, version, payload length, payload checksum, payload.
pub open spec fn btree_frame(payload: Seq<u8>) -> Seq<u8> {
    spec_u32_to_le_bytes(BTREE_SNAPSHOT_MAGIC) + seq![BTREE_SNAPSHOT_VERSION] + spec_u32_to_le_bytes(
        payload.len() as u32,
    ) + spec_u32_to_le_bytes(spec_crc32c(payload)) + payload
}

fn write_version(w: &mut BinaryWriter, u: Version)
    ensures
        final(w)@ == old(w)@ + version_bytes(u),
{
    w.write_u64(u.sequence);
    match u.rid {
        Some(r) => {
            w.write_u8(1);
            w.write_u64(r.0);
        },
        None => {
            w.write_u8(0);
        },
    }
    proof {
        assert(w@ =~= old(w)@ + version_bytes(u));
    }
}

fn write_entry(w: &mut BinaryWriter, key: &Vec<u8>, vs: &Vec<Version>)
    ensures
        final(w)@ == old(w)@ + entry_bytes((key@, vs@)),
{
    w.write_len_bytes(key.as_slice());
    w.write_u32(vs.len() as u32);
    let ghost start = w@;
    let mut i: usize = 0;
    proof {
        assert(vs@.take(0) =~= Seq::<Version>::empty());
        assert(w@ =~= start + rows_bytes(vs@.take(0), version_enc()));
    }
    while i < vs.len()
        invariant
            i <= vs@.len(),
            w@ == start + rows_bytes(vs@.take(i as int), version_enc()),
        decreases vs@.len() - i,
    {
        let ghost before = w@;
        write_version(w, vs[i]);
        proof {
            lemma_rows_bytes_step(vs@, version_enc(), i as int);
            assert(w@ =~= start + rows_bytes(vs@.take(i + 1), version_enc()));
        }
        i = i + 1;
    }
    proof {
        assert(vs@.take(i as int) =~= vs@);
        assert(w@ =~= old(w)@ + entry_bytes((key@, vs@)));
    }
}

/// The payload of a snapshot.
pub fn encode_btree_payload(s: &BTreeSnapshotPayload) -> (out: Vec<u8>)
    ensures
        out@ == btree_payload(s@),
{
    let ghost v = s@;
    let mut w = BinaryWriter::new();
    w.write_u64(s.next_sequence);
    w.write_u64(s.page_size);
    w.write_u32(s.entries.len() as u32);
    let ghost h1 = w@;
    let mut i: usize = 0;
    proof {
        assert(v.entries.take(0) =~= Seq::<History>::empty());
        assert(w@ =~= h1 + rows_bytes(v.entries.take(0), entry_enc()));
    }
    while i < s.entries.len()
        invariant
            v == s@,
            i <= v.entries.len(),
            v.entries.len() == s.entries@.len(),
            w@ == h1 + rows_bytes(v.entries.take(i as int), entry_enc()),
        decreases v.entries.len() - i,
    {
        write_entry(&mut w, &s.entries[i].0, &s.entries[i].1);
        proof {
            assert(v.entries[i as int] == (s.entries@[i as int].0@, s.entries@[i as int].1@));
            lemma_rows_bytes_step(v.entries, entry_enc(), i as int);
            assert(w@ =~= h1 + rows_bytes(v.entries.take(i + 1), entry_enc()));
        }
        i = i + 1;
    }
    proof {
        assert(v.entries.take(i as int) =~= v.entries);
    }
    w.write_u32(s.pages.len() as u32);
    let ghost h2 = w@;
    let mut j: usize = 0;
    proof {
        assert(v.pages.take(0) =~= Seq::<PageRow>::empty());
        assert(w@ =~= h2 + rows_bytes(v.pages.take(0), page_enc()));
    }
    while j < s.pages.len()
        invariant
            v == s@,
            j <= v.pages.len(),
            v.pages.len() == s.pages@.len(),
            w@ == h2 + rows_bytes(v.pages.take(j as int), page_enc()),
        decreases v.pages.len() - j,
    {
        let ghost before = w@;
        let pg = &s.pages[j];
        w.write_u64(pg.0);
        w.write_u64(pg.1);
        w.write_len_bytes(pg.2.as_slice());
        w.write_len_bytes(pg.3.as_slice());
        proof {
            assert(v.pages[j as int] == (pg.0, pg.1, pg.2@, pg.3@));
            assert(w@ =~= before + page_bytes(v.pages[j as int]));
            lemma_rows_bytes_step(v.pages, page_enc(), j as int);
            assert(w@ =~= h2 + rows_bytes(v.pages.take(j + 1), page_enc()));
        }
        j = j + 1;
    }
    proof {
        assert(v.pages.take(j as int) =~= v.pages);
        assert(w@ =~= btree_payload(v));
    }
    w.into_inner()
}

/// Frame a payload: magic, version, length, checksum, then the payload.
pub fn frame_btree_snapshot(payload: &[u8]) -> (out: Vec<u8>)
    ensures
        out@ == btree_frame(payload@),
{
    let mut out = BinaryWriter::new();
    out.write_u32(BTREE_SNAPSHOT_MAGIC);
    out.write_u8(BTREE_SNAPSHOT_VERSION);
    out.write_u32(payload.len() as u32);
    out.write_u32(crc32c(payload));
    out.write_bytes(payload);
    proof {
        assert(out@ =~= btree_frame(payload@));
    }
    out.into_inner()
}

/// An update at `o`: the sequence, a flag byte, and the record when the
/// flag is 1 (any other flag is a delete).
pub open spec fn rd_version(p: Seq<u8>, o: int) -> Parsed<Version> {
    match rd_u64(p, o) {
        Err(m) => Err(m),
        Ok((sq, o1)) => match rd_u8(p, o1) {
            Err(m) => Err(m),
            Ok((flag, o2)) => if flag == 1 {
                match rd_u64(p, o2) {
                    Err(m) => Err(m),
                    Ok((r, o3)) => Ok((Version { sequence: sq, rid: Some(RecordId(r)) }, o3)),
                }
            } else {
                Ok((Version { sequence: sq, rid: None }, o2))
            },
        },
    }
}

/// How an update is read.
pub open spec fn version_rd() -> spec_fn(Seq<u8>, int) -> Parsed<Version> {
    |p: Seq<u8>, o: int| rd_version(p, o)
}

/// An entry at `o`.
pub open spec fn rd_entry(p: Seq<u8>, o: int) -> Parsed<History> {
    match rd_len_bytes(p, o) {
        Err(m) => Err(m),
        Ok((k, o1)) => match rd_list(p, o1, version_rd()) {
            Err(m) => Err(m),
            Ok((vs, o2)) => Ok(((k, vs), o2)),
        },
    }
}

/// How an entry is read.
pub open spec fn entry_rd() -> spec_fn(Seq<u8>, int) -> Parsed<History> {
    |p: Seq<u8>, o: int| rd_entry(p, o)
}

/// A page row at `o`.
pub open spec fn rd_page(p: Seq<u8>, o: int) -> Parsed<PageRow> {
    match rd_u64(p, o) {
        Err(m) => Err(m),
        Ok((id, o1)) => match rd_u64(p, o1) {
            Err(m) => Err(m),
            Ok((n, o2)) => match rd_len_bytes(p, o2) {
                Err(m) => Err(m),
                Ok((lo, o3)) => match rd_len_bytes(p, o3) {
                    Err(m) => Err(m),
                    Ok((hi, o4)) => Ok(((id, n, lo, hi), o4)),
                },
            },
        },
    }
}

/// How a page row is read.
pub open spec fn page_rd() -> spec_fn(Seq<u8>, int) -> Parsed<PageRow> {
    |p: Seq<u8>, o: int| rd_page(p, o)
}

/// What a payload reads as; bytes after the last page are ignored.
pub open spec fn parse_btree_payload(p: Seq<u8>) -> core::result::Result<BTreeSnapshot, Seq<char>> {
    match rd_u64(p, 0) {
        Err(m) => Err(m),
        Ok((ns, o1)) => match rd_u64(p, o1) {
            Err(m) => Err(m),
            Ok((ps, o2)) => match rd_list(p, o2, entry_rd()) {
                Err(m) => Err(m),
                Ok((entries, o3)) => match rd_list(p, o3, page_rd()) {
                    Err(m) => Err(m),
                    Ok((pages, _)) => Ok(BTreeSnapshot { next_sequence: ns, page_size: ps, entries, pages }),
                },
            },
        },
    }
}

/// What snapshot bytes read as: the snapshot, or why they are refused.
pub open spec fn parse_btree_snapshot(b: Seq<u8>) -> core::result::Result<BTreeSnapshot, Seq<char>> {
    if b.len() < 13 {
        Err("truncated B-tree snapshot header"@)
    } else if u32_at(b, 0) != BTREE_SNAPSHOT_MAGIC {
        Err("bad B-tree snapshot magic"@)
    } else if b[4] != BTREE_SNAPSHOT_VERSION {
        Err("unsupported B-tree snapshot version "@ + dec_str(b[4] as nat))
    } else if b.len() < 13 + u32_at(b, 5) {
        Err("truncated B-tree snapshot payload"@)
    } else {
        let p = b.subrange(13, 13 + u32_at(b, 5));
        if spec_crc32c(p) != u32_at(b, 9) {
            Err(
                "B-tree snapshot checksum mismatch: expected "@ + hex32(u32_at(b, 9)) + ", got "@
                    + hex32(spec_crc32c(p)),
            )
        } else {
            parse_btree_payload(p)
        }
    }
}

fn read_version(reader: &mut BinaryReader) -> (r: Result<Version>)
    requires
        old(reader).wf(),
    ensures
        same_input(*old(reader), *final(reader)),
        read_matches(r, rd_version(old(reader).data(), old(reader).pos()), |u: Version| u, *final(reader), old(reader).source()),
{
    let sequence = read_u64_step(reader)?;
    let flag = read_u8_step(reader)?;
    if flag == 1 {
        let r = read_u64_step(reader)?;
        Ok(Version { sequence, rid: Some(RecordId(r)) })
    } else {
        Ok(Version { sequence, rid: None })
    }
}

#[verifier::loop_isolation(false)]
fn read_entry(reader: &mut BinaryReader) -> (r: Result<(Vec<u8>, Vec<Version>)>)
    requires
        old(reader).wf(),
    ensures
        same_input(*old(reader), *final(reader)),
        read_matches(
            r,
            rd_entry(old(reader).data(), old(reader).pos()),
            |e: (Vec<u8>, Vec<Version>)| (e.0@, e.1@),
            *final(reader),
            old(reader).source(),
        ),
{
    let ghost p = reader.data();
    let ghost src = reader.source();
    let key = read_len_bytes_step(reader)?;
    let n = read_u32_step(reader)?;
    let ghost o = reader.pos();
    let mut out: Vec<Version> = Vec::new();
    let mut i: u32 = 0;
    while i < n
        invariant
            reader.wf(),
            reader.data() == p,
            reader.source() == src,
            i <= n,
            rd_rows(p, o, n as nat, Seq::empty(), version_rd()) == rd_rows(
                p,
                reader.pos(),
                (n - i) as nat,
                out@,
                version_rd(),
            ),
        decreases n - i,
    {
        proof {
            lemma_rd_rows_step(p, reader.pos(), (n - i) as nat, out@, version_rd());
        }
        let u = read_version(reader)?;
        out.push(u);
        i = i + 1;
    }
    Ok((key, out))
}

fn read_page(reader: &mut BinaryReader) -> (r: Result<(u64, u64, Vec<u8>, Vec<u8>)>)
    requires
        old(reader).wf(),
    ensures
        same_input(*old(reader), *final(reader)),
        read_matches(
            r,
            rd_page(old(reader).data(), old(reader).pos()),
            |e: (u64, u64, Vec<u8>, Vec<u8>)| (e.0, e.1, e.2@, e.3@),
            *final(reader),
            old(reader).source(),
        ),
{
    let id = read_u64_step(reader)?;
    let n = read_u64_step(reader)?;
    let lo = read_len_bytes_step(reader)?;
    let hi = read_len_bytes_step(reader)?;
    Ok((id, n, lo, hi))
}

#[verifier::loop_isolation(false)]
fn read_entry_list(reader: &mut BinaryReader) -> (r: Result<Vec<(Vec<u8>, Vec<Version>)>>)
    requires
        old(reader).wf(),
    ensures
        same_input(*old(reader), *final(reader)),
        read_matches(
            r,
            rd_list(old(reader).data(), old(reader).pos(), entry_rd()),
            |v: Vec<(Vec<u8>, Vec<Version>)>| entry_rows_view(v@),
            *final(reader),
            old(reader).source(),
        ),
{
    let ghost p = reader.data();
    let ghost src = reader.source();
    let n = read_u32_step(reader)?;
    let ghost o = reader.pos();
    let mut out: Vec<(Vec<u8>, Vec<Version>)> = Vec::new();
    let mut i: u32 = 0;
    proof {
        assert(entry_rows_view(out@) =~= Seq::<History>::empty());
    }
    while i < n
        invariant
            reader.wf(),
            reader.data() == p,
            reader.source() == src,
            i <= n,
            rd_rows(p, o, n as nat, Seq::empty(), entry_rd()) == rd_rows(
                p,
                reader.pos(),
                (n - i) as nat,
                entry_rows_view(out@),
                entry_rd(),
            ),
        decreases n - i,
    {
        let ghost before = entry_rows_view(out@);
        proof {
            lemma_rd_rows_step(p, reader.pos(), (n - i) as nat, before, entry_rd());
        }
        let e = read_entry(reader)?;
        let ghost ev = (e.0@, e.1@);
        out.push(e);
        proof {
            assert(entry_rows_view(out@) =~= before.push(ev));
        }
        i = i + 1;
    }
    Ok(out)
}

#[verifier::loop_isolation(false)]
fn read_page_list(reader: &mut BinaryReader) -> (r: Result<Vec<(u64, u64, Vec<u8>, Vec<u8>)>>)
    requires
        old(reader).wf(),
    ensures
        same_input(*old(reader), *final(reader)),
        read_matches(
            r,
            rd_list(old(reader).data(), old(reader).pos(), page_rd()),
            |v: Vec<(u64, u64, Vec<u8>, Vec<u8>)>| page_rows_view(v@),
            *final(reader),
            old(reader).source(),
        ),
{
    let ghost p = reader.data();
    let ghost src = reader.source();
    let n = read_u32_step(reader)?;
    let ghost o = reader.pos();
    let mut out: Vec<(u64, u64, Vec<u8>, Vec<u8>)> = Vec::new();
    let mut i: u32 = 0;
    proof {
        assert(page_rows_view(out@) =~= Seq::<PageRow>::empty());
    }
    while i < n
        invariant
            reader.wf(),
            reader.data() == p,
            reader.source() == src,
            i <= n,
            rd_rows(p, o, n as nat, Seq::empty(), page_rd()) == rd_rows(
                p,
                reader.pos(),
                (n - i) as nat,
                page_rows_view(out@),
                page_rd(),
            ),
        decreases n - i,
    {
        let ghost before = page_rows_view(out@);
        proof {
            lemma_rd_rows_step(p, reader.pos(), (n - i) as nat, before, page_rd());
        }
        let e = read_page(reader)?;
        let ghost ev = (e.0, e.1, e.2@, e.3@);
        out.push(e);
        proof {
            assert(page_rows_view(out@) =~= before.push(ev));
        }
        i = i + 1;
    }
    Ok(out)
}

fn read_btree_payload(reader: &mut BinaryReader) -> (r: Result<BTreeSnapshotPayload>)
    requires
        old(reader).wf(),
        old(reader).pos() == 0,
    ensures
        match (r, parse_btree_payload(old(reader).data())) {
            (Ok(s), Ok(v)) => s@ == v,
            (Err(e), Err(m)) => crate::io::parse::is_corrupt_at(e, old(reader).source(), m),
            _ => false,
        },
{
    let next_sequence = read_u64_step(reader)?;
    let page_size = read_u64_step(reader)?;
    let entries = read_entry_list(reader)?;
    let pages = read_page_list(reader)?;
    Ok(BTreeSnapshotPayload { next_sequence, page_size, entries, pages })
}

/// Read a snapshot from its bytes; `source` names them in errors.
pub fn decode_btree_snapshot(bytes: &[u8], source: &str) -> (r: Result<BTreeSnapshotPayload>)
    ensures
        match (r, parse_btree_snapshot(bytes@)) {
            (Ok(s), Ok(v)) => s@ == v,
            (Err(e), Err(m)) => crate::io::parse::is_corrupt_at(e, source@, m),
            _ => false,
        },
{
    if bytes.len() < 13 {
        return Err(corrupt_at(source, String::from_str("truncated B-tree snapshot header")));
    }
    if read_u32_at(bytes, 0) != BTREE_SNAPSHOT_MAGIC {
        return Err(corrupt_at(source, String::from_str("bad B-tree snapshot magic")));
    }
    if bytes[4] != BTREE_SNAPSHOT_VERSION {
        return Err(corrupt_at(source, tag_message("unsupported B-tree snapshot version ", bytes[4])));
    }
    let payload_len = read_u32_at(bytes, 5);
    let expected_crc = read_u32_at(bytes, 9);
    if bytes.len() - 13 < payload_len as usize {
        return Err(corrupt_at(source, String::from_str("truncated B-tree snapshot payload")));
    }
    let payload = slice_subrange(bytes, 13, 13 + payload_len as usize);
    let actual_crc = crc32c(payload);
    if actual_crc != expected_crc {
        let mut m = String::from_str("B-tree snapshot checksum mismatch: expected ");
        let a = hex32_string(expected_crc);
        m.append(a.as_str());
        m.append(", got ");
        let b = hex32_string(actual_crc);
        m.append(b.as_str());
        return Err(corrupt_at(source, m));
    }
    let mut reader = BinaryReader::new(payload, source);
    read_btree_payload(&mut reader)
}


/// An update reads back from its bytes wherever they stand.
#[verifier::spinoff_prover]
proof fn lemma_version_reads(u: Version)
    ensures
        always_reads_back(version_rd(), version_enc(), u),
{
    lemma_le_lengths();
    assert forall|a: Seq<u8>, b: Seq<u8>| #[trigger] reads_back(version_rd(), version_enc(), u, a, b) by {
        let q = spec_u64_to_le_bytes(u.sequence);
        let p = a + version_bytes(u) + b;
        match u.rid {
            Some(r) => {
                let t = spec_u64_to_le_bytes(r.0);
                assert(p =~= a + q + (seq![1u8] + t + b));
                lemma_rd_u64_at(a, u.sequence, seq![1u8] + t + b);
                assert(p =~= (a + q) + seq![1u8] + (t + b));
                lemma_rd_u8_at(a + q, 1u8, t + b);
                assert(p =~= (a + q + seq![1u8]) + t + b);
                lemma_rd_u64_at(a + q + seq![1u8], r.0, b);
            },
            None => {
                assert(p =~= a + q + (seq![0u8] + b));
                lemma_rd_u64_at(a, u.sequence, seq![0u8] + b);
                assert(p =~= (a + q) + seq![0u8] + b);
                lemma_rd_u8_at(a + q, 0u8, b);
            },
        }
    }
}

/// An entry's key and update count fit the `u32` counts written before
/// them.
pub open spec fn entry_fits(e: History) -> bool {
    e.0.len() <= u32::MAX && e.1.len() <= u32::MAX
}

/// A page row's keys fit the `u32` lengths written before them.
pub open spec fn page_fits(p: PageRow) -> bool {
    p.2.len() <= u32::MAX && p.3.len() <= u32::MAX
}

/// Every count and length of the snapshot fits the `u32` written for it.
pub open spec fn btree_fits(s: BTreeSnapshot) -> bool {
    &&& s.entries.len() <= u32::MAX
    &&& s.pages.len() <= u32::MAX
    &&& forall|i: int| 0 <= i < s.entries.len() ==> entry_fits(#[trigger] s.entries[i])
    &&& forall|i: int| 0 <= i < s.pages.len() ==> page_fits(#[trigger] s.pages[i])
    &&& btree_payload(s).len() <= u32::MAX
}

#[verifier::spinoff_prover]
proof fn lemma_entry_reads(e: History)
    requires
        entry_fits(e),
    ensures
        always_reads_back(entry_rd(), entry_enc(), e),
{
    lemma_le_lengths();
    assert forall|i: int| 0 <= i < e.1.len() implies always_reads_back(version_rd(), version_enc(), #[trigger] e.1[i]) by {
        lemma_version_reads(e.1[i]);
    }
    assert forall|a: Seq<u8>, b: Seq<u8>| #[trigger] reads_back(entry_rd(), entry_enc(), e, a, b) by {
        let l = len_bytes(e.0);
        let vl = spec_u32_to_le_bytes(e.1.len() as u32) + rows_bytes(e.1, version_enc());
        let p = a + entry_bytes(e) + b;
        assert(p =~= a + l + (vl + b));
        lemma_rd_len_bytes_at(a, e.0, vl + b);
        assert(p =~= (a + l) + vl + b);
        lemma_rd_list_at(a + l, e.1, version_enc(), version_rd(), b);
    }
}

#[verifier::spinoff_prover]
proof fn lemma_page_reads(x: PageRow)
    requires
        page_fits(x),
    ensures
        always_reads_back(page_rd(), page_enc(), x),
{
    lemma_le_lengths();
    assert forall|a: Seq<u8>, b: Seq<u8>| #[trigger] reads_back(page_rd(), page_enc(), x, a, b) by {
        let q0 = spec_u64_to_le_bytes(x.0);
        let q1 = spec_u64_to_le_bytes(x.1);
        let l2 = len_bytes(x.2);
        let l3 = len_bytes(x.3);
        let p = a + page_bytes(x) + b;
        assert(p =~= a + q0 + (q1 + l2 + l3 + b));
        lemma_rd_u64_at(a, x.0, q1 + l2 + l3 + b);
        assert(p =~= (a + q0) + q1 + (l2 + l3 + b));
        lemma_rd_u64_at(a + q0, x.1, l2 + l3 + b);
        assert(p =~= (a + q0 + q1) + l2 + (l3 + b));
        lemma_rd_len_bytes_at(a + q0 + q1, x.2, l3 + b);
        assert(p =~= (a + q0 + q1 + l2) + l3 + b);
        lemma_rd_len_bytes_at(a + q0 + q1 + l2, x.3, b);
    }
}

/// A payload reads back as the snapshot it was written from.
#[verifier::spinoff_prover]
pub proof fn lemma_btree_payload_roundtrip(s: BTreeSnapshot)
    requires
        btree_fits(s),
    ensures
        parse_btree_payload(btree_payload(s)) == core::result::Result::<BTreeSnapshot, Seq<char>>::Ok(s),
{
    lemma_le_lengths();
    let a0 = spec_u64_to_le_bytes(s.next_sequence);
    let a1 = spec_u64_to_le_bytes(s.page_size);
    let l1 = spec_u32_to_le_bytes(s.entries.len() as u32) + rows_bytes(s.entries, entry_enc());
    let l2 = spec_u32_to_le_bytes(s.pages.len() as u32) + rows_bytes(s.pages, page_enc());
    let p = btree_payload(s);
    assert(p =~= a0 + a1 + l1 + l2);
    assert forall|i: int| 0 <= i < s.entries.len() implies always_reads_back(entry_rd(), entry_enc(), #[trigger] s.entries[i]) by {
        lemma_entry_reads(s.entries[i]);
    }
    assert forall|i: int| 0 <= i < s.pages.len() implies always_reads_back(page_rd(), page_enc(), #[trigger] s.pages[i]) by {
        lemma_page_reads(s.pages[i]);
    }
    assert(p =~= Seq::<u8>::empty() + a0 + (a1 + l1 + l2));
    lemma_rd_u64_at(Seq::<u8>::empty(), s.next_sequence, a1 + l1 + l2);
    assert(p =~= a0 + a1 + (l1 + l2));
    lemma_rd_u64_at(a0, s.page_size, l1 + l2);
    assert(p =~= (a0 + a1) + l1 + l2);
    lemma_rd_list_at(a0 + a1, s.entries, entry_enc(), entry_rd(), l2);
    assert(p =~= (a0 + a1 + l1) + l2 + Seq::<u8>::empty());
    lemma_rd_list_at(a0 + a1 + l1, s.pages, page_enc(), page_rd(), Seq::<u8>::empty());
}

/// Snapshot bytes read back as the snapshot they were written from.
#[verifier::spinoff_prover]
pub proof fn lemma_btree_snapshot_roundtrip(s: BTreeSnapshot)
    requires
        btree_fits(s),
    ensures
        parse_btree_snapshot(btree_frame(btree_payload(s))) == core::result::Result::<BTreeSnapshot, Seq<char>>::Ok(s),
{
    lemma_le_lengths();
    let p = btree_payload(s);
    let m = spec_u32_to_le_bytes(BTREE_SNAPSHOT_MAGIC);
    let v = seq![BTREE_SNAPSHOT_VERSION];
    let n = spec_u32_to_le_bytes(p.len() as u32);
    let c = spec_u32_to_le_bytes(spec_crc32c(p));
    let b = btree_frame(p);
    assert(b =~= Seq::<u8>::empty() + m + (v + n + c + p));
    lemma_u32_at(Seq::<u8>::empty(), BTREE_SNAPSHOT_MAGIC, v + n + c + p);
    assert(b[4] == BTREE_SNAPSHOT_VERSION);
    assert(b =~= (m + v) + n + (c + p));
    lemma_u32_at(m + v, p.len() as u32, c + p);
    assert(b =~= (m + v + n) + c + p);
    lemma_u32_at(m + v + n, spec_crc32c(p), p);
    assert(b.subrange(13, 13 + p.len() as int) =~= p);
    lemma_btree_payload_roundtrip(s);
}

} // verus!
