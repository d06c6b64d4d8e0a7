//! The byte form of an inverted index snapshot: a checksummed frame around
//! a payload of counted rows (terms, field pairs, term frequencies and
//! document lengths).
use crate::errors::Result;
use crate::io::binary::{BinaryReader, BinaryWriter};
use crate::io::checksum::{crc32c, spec_crc32c};
use crate::io::parse::{
    corrupt_at, end_of_data, hex32, hex32_string, is_corrupt_at, lemma_rd_len_bytes_at,
    lemma_rd_u32_at, lemma_rd_u64_at, len_bytes, rd_len_bytes, rd_u32, rd_u64, read_len_bytes_step,
    read_u32_step, read_u64_step, same_input, step_matches, tag_message,
};
use crate::le::{lemma_le_lengths, lemma_u32_at, lemma_u64_at, read_u32_at, u32_at, u64s_bytes};
use crate::text::dec_str;
use vstd::bytes::{spec_u32_to_le_bytes, spec_u64_to_le_bytes};
use vstd::prelude::*;
use vstd::slice::slice_subrange;
use vstd::string::*;

verus! {

broadcast use vstd::seq_lib::group_seq_lib_default;

/// The first four bytes of a snapshot, little-endian: "INV2".
pub const INVERTED_SNAPSHOT_MAGIC: u32 = 0x494E_5632;

/// The snapshot format's version byte.
pub const INVERTED_SNAPSHOT_VERSION: u8 = 1;

/// A term with the records filed under it.
pub type TermRow = (Seq<u8>, Seq<u64>);

/// A field, a term, and the records filed under both.
pub type PairRow = (Seq<u8>, Seq<u8>, Seq<u64>);

/// A term with its frequency in one document.
pub type FreqEntry = (Seq<u8>, u32);

/// A record with the frequencies of its terms.
pub type FreqRow = (u64, Seq<FreqEntry>);

/// A record with its length in terms.
pub type LengthRow = (u64, u32);

/// What a snapshot payload holds, row by row.
pub struct SnapshotRows {
    pub doc_count: u32,
    pub total_terms: u64,
    pub terms: Seq<TermRow>,
    pub pairs: Seq<PairRow>,
    pub freqs: Seq<FreqRow>,
    pub lengths: Seq<LengthRow>,
}

/// A snapshot payload, as plain values.
pub struct SnapshotPayload {
    pub doc_count: u32,
    pub total_terms: u64,
    pub terms: Vec<(Vec<u8>, Vec<u64>)>,
    pub pairs: Vec<(Vec<u8>, Vec<u8>, Vec<u64>)>,
    pub freqs: Vec<(u64, Vec<(Vec<u8>, u32)>)>,
    pub lengths: Vec<(u64, u32)>,
}

/// A frequency list as plain values.
pub open spec fn freq_list_view(v: Seq<(Vec<u8>, u32)>) -> Seq<FreqEntry> {
    v.map_values(|f: (Vec<u8>, u32)| (f.0@, f.1))
}

/// Term rows as plain values.
pub open spec fn term_rows_view(v: Seq<(Vec<u8>, Vec<u64>)>) -> Seq<TermRow> {
    v.map_values(|e: (Vec<u8>, Vec<u64>)| (e.0@, e.1@))
}

/// Field-pair rows as plain values.
pub open spec fn pair_rows_view(v: Seq<(Vec<u8>, Vec<u8>, Vec<u64>)>) -> Seq<PairRow> {
    v.map_values(|e: (Vec<u8>, Vec<u8>, Vec<u64>)| (e.0@, e.1@, e.2@))
}

/// Frequency rows as plain values.
pub open spec fn freq_rows_view(v: Seq<(u64, Vec<(Vec<u8>, u32)>)>) -> Seq<FreqRow> {
    v.map_values(|e: (u64, Vec<(Vec<u8>, u32)>)| (e.0, freq_list_view(e.1@)))
}

impl View for SnapshotPayload {
    type V = SnapshotRows;

    open spec fn view(&self) -> SnapshotRows {
        SnapshotRows {
            doc_count: self.doc_count,
            total_terms: self.total_terms,
            terms: term_rows_view(self.terms@),
            pairs: pair_rows_view(self.pairs@),
            freqs: freq_rows_view(self.freqs@),
            lengths: self.lengths@,
        }
    }
}

/// A list of records: its count, then each record.
pub open spec fn ids_le(ids: Seq<u64>) -> Seq<u8> {
    spec_u32_to_le_bytes(ids.len() as u32) + u64s_bytes(ids)
}

/// A term row as bytes.
pub open spec fn term_row_bytes(r: TermRow) -> Seq<u8> {
    len_bytes(r.0) + ids_le(r.1)
}

/// A field-pair row as bytes.
pub open spec fn pair_row_bytes(r: PairRow) -> Seq<u8> {
    len_bytes(r.0) + len_bytes(r.1) + ids_le(r.2)
}

/// A frequency entry as bytes.
pub open spec fn freq_entry_bytes(f: FreqEntry) -> Seq<u8> {
    len_bytes(f.0) + spec_u32_to_le_bytes(f.1)
}

/// Rows as bytes, one after the other, each written by `f`.
pub open spec fn rows_bytes<T>(rows: Seq<T>, f: spec_fn(T) -> Seq<u8>) -> Seq<u8>
    decreases rows.len(),
{
    if rows.len() == 0 {
        Seq::empty()
    } else {
        rows_bytes(rows.drop_last(), f) + f(rows.last())
    }
}

/// How a term row is written.
pub open spec fn term_enc() -> spec_fn(TermRow) -> Seq<u8> {
    |r: TermRow| term_row_bytes(r)
}

/// How a field-pair row is written.
pub open spec fn pair_enc() -> spec_fn(PairRow) -> Seq<u8> {
    |r: PairRow| pair_row_bytes(r)
}

/// How a frequency entry is written.
pub open spec fn freq_entry_enc() -> spec_fn(FreqEntry) -> Seq<u8> {
    |f: FreqEntry| freq_entry_bytes(f)
}

/// A frequency row as bytes: the record, the count, the entries.
pub open spec fn freq_row_bytes(r: FreqRow) -> Seq<u8> {
    spec_u64_to_le_bytes(r.0) + spec_u32_to_le_bytes(r.1.len() as u32) + rows_bytes(
        r.1,
        freq_entry_enc(),
    )
}

/// How a frequency row is written.
pub open spec fn freq_enc() -> spec_fn(FreqRow) -> Seq<u8> {
    |r: FreqRow| freq_row_bytes(r)
}

/// A length row as bytes.
pub open spec fn length_row_bytes(r: LengthRow) -> Seq<u8> {
    spec_u64_to_le_bytes(r.0) + spec_u32_to_le_bytes(r.1)
}

/// How a length row is written.
pub open spec fn length_enc() -> spec_fn(LengthRow) -> Seq<u8> {
    |r: LengthRow| length_row_bytes(r)
}

/// The payload: the document count and total term count, then each list
/// of rows preceded by its count.
pub open spec fn payload_bytes(s: SnapshotRows) -> Seq<u8> {
    spec_u32_to_le_bytes(s.doc_count) + spec_u64_to_le_bytes(s.total_terms)
        + spec_u32_to_le_bytes(s.terms.len() as u32) + rows_bytes(s.terms, term_enc())
        + spec_u32_to_le_bytes(s.pairs.len() as u32) + rows_bytes(s.pairs, pair_enc())
        + spec_u32_to_le_bytes(s.freqs.len() as u32) + rows_bytes(s.freqs, freq_enc())
        + spec_u32_to_le_bytes(s.lengths.len() as u32) + rows_bytes(s.lengths, length_enc())
}

/// The frame: magic, version, payload length, payload checksum, payload.
pub open spec fn snapshot_bytes(payload: Seq<u8>) -> Seq<u8> {
    spec_u32_to_le_bytes(INVERTED_SNAPSHOT_MAGIC) + seq![INVERTED_SNAPSHOT_VERSION]
        + spec_u32_to_le_bytes(payload.len() as u32) + spec_u32_to_le_bytes(spec_crc32c(payload))
        + payload
}

/// Rows `0..i` written, then row `i`: rows `0..i + 1` written.
pub proof fn lemma_rows_bytes_step<T>(rows: Seq<T>, f: spec_fn(T) -> Seq<u8>, i: int)
    requires
        0 <= i < rows.len(),
    ensures
        rows_bytes(rows.take(i + 1), f) == rows_bytes(rows.take(i), f) + f(rows[i]),
{
    assert(rows.take(i + 1).drop_last() =~= rows.take(i));
}

fn write_ids(w: &mut BinaryWriter, ids: &Vec<u64>)
    ensures
        final(w)@ == old(w)@ + ids_le(ids@),
{
    w.write_u32(ids.len() as u32);
    let ghost start = w@;
    let mut i: usize = 0;
    while i < ids.len()
        invariant
            i <= ids@.len(),
            w@ == start + u64s_bytes(ids@.take(i as int)),
        decreases ids@.len() - i,
    {
        w.write_u64(ids[i]);
        proof {
            assert(ids@.take(i + 1).drop_last() =~= ids@.take(i as int));
        }
        i = i + 1;
    }
    proof {
        assert(ids@.take(i as int) =~= ids@);
        assert(w@ =~= old(w)@ + ids_le(ids@));
    }
}

fn write_freq_row(w: &mut BinaryWriter, rid: u64, fl: &Vec<(Vec<u8>, u32)>)
    ensures
        final(w)@ == old(w)@ + freq_row_bytes((rid, freq_list_view(fl@))),
{
    let ghost v = freq_list_view(fl@);
    w.write_u64(rid);
    w.write_u32(fl.len() as u32);
    let ghost start = w@;
    let mut i: usize = 0;
    while i < fl.len()
        invariant
            v == freq_list_view(fl@),
            i <= fl@.len(),
            w@ == start + rows_bytes(v.take(i as int), freq_entry_enc()),
        decreases fl@.len() - i,
    {
        w.write_len_bytes(fl[i].0.as_slice());
        w.write_u32(fl[i].1);
        proof {
            lemma_rows_bytes_step(v, freq_entry_enc(), i as int);
        }
        i = i + 1;
    }
    proof {
        assert(v.take(i as int) =~= v);
        assert(w@ =~= old(w)@ + freq_row_bytes((rid, v)));
    }
}

/// Write the payload's bytes.
pub fn encode_payload(s: &SnapshotPayload) -> (out: Vec<u8>)
    ensures
        out@ == payload_bytes(s@),
{
    let ghost v = s@;
    let mut w = BinaryWriter::new();
    w.write_u32(s.doc_count);
    w.write_u64(s.total_terms);
    w.write_u32(s.terms.len() as u32);
    let ghost a = w@;
    let mut i: usize = 0;
    while i < s.terms.len()
        invariant
            v == s@,
            i <= s.terms@.len(),
            w@ == a + rows_bytes(v.terms.take(i as int), term_enc()),
        decreases s.terms@.len() - i,
    {
        w.write_len_bytes(s.terms[i].0.as_slice());
        write_ids(&mut w, &s.terms[i].1);
        proof {
            lemma_rows_bytes_step(v.terms, term_enc(), i as int);
        }
        i = i + 1;
    }
    proof {
        assert(v.terms.take(i as int) =~= v.terms);
    }
    w.write_u32(s.pairs.len() as u32);
    let ghost b = w@;
    let mut i: usize = 0;
    while i < s.pairs.len()
        invariant
            v == s@,
            i <= s.pairs@.len(),
            w@ == b + rows_bytes(v.pairs.take(i as int), pair_enc()),
        decreases s.pairs@.len() - i,
    {
        w.write_len_bytes(s.pairs[i].0.as_slice());
        w.write_len_bytes(s.pairs[i].1.as_slice());
        write_ids(&mut w, &s.pairs[i].2);
        proof {
            lemma_rows_bytes_step(v.pairs, pair_enc(), i as int);
        }
        i = i + 1;
    }
    proof {
        assert(v.pairs.take(i as int) =~= v.pairs);
    }
    w.write_u32(s.freqs.len() as u32);
    let ghost c = w@;
    let mut i: usize = 0;
    while i < s.freqs.len()
        invariant
            v == s@,
            i <= s.freqs@.len(),
            w@ == c + rows_bytes(v.freqs.take(i as int), freq_enc()),
        decreases s.freqs@.len() - i,
    {
        write_freq_row(&mut w, s.freqs[i].0, &s.freqs[i].1);
        proof {
            lemma_rows_bytes_step(v.freqs, freq_enc(), i as int);
        }
        i = i + 1;
    }
    proof {
        assert(v.freqs.take(i as int) =~= v.freqs);
    }
    w.write_u32(s.lengths.len() as u32);
    let ghost d = w@;
    let mut i: usize = 0;
    while i < s.lengths.len()
        invariant
            v == s@,
            i <= s.lengths@.len(),
            w@ == d + rows_bytes(v.lengths.take(i as int), length_enc()),
        decreases s.lengths@.len() - i,
    {
        w.write_u64(s.lengths[i].0);
        w.write_u32(s.lengths[i].1);
        proof {
            lemma_rows_bytes_step(v.lengths, length_enc(), i as int);
        }
        i = i + 1;
    }
    proof {
        assert(v.lengths.take(i as int) =~= v.lengths);
        assert(w@ =~= payload_bytes(v));
    }
    w.into_inner()
}

/// Frame a payload: magic, version, length, checksum, then the payload.
pub fn frame_snapshot(payload: &[u8]) -> (out: Vec<u8>)
    ensures
        out@ == snapshot_bytes(payload@),
{
    let mut out = BinaryWriter::new();
    out.write_u32(INVERTED_SNAPSHOT_MAGIC);
    out.write_u8(INVERTED_SNAPSHOT_VERSION);
    out.write_u32(payload.len() as u32);
    out.write_u32(crc32c(payload));
    out.write_bytes(payload);
    proof {
        assert(out@ =~= snapshot_bytes(payload@));
    }
    out.into_inner()
}

/// What a read at an offset gives: the value and the next offset, or why
/// it failed.
pub type Parsed<T> = core::result::Result<(T, int), Seq<char>>;

/// `k` more rows from `o` on, each read by `rd`, after those in `acc`.
pub open spec fn rd_rows<T>(
    p: Seq<u8>,
    o: int,
    k: nat,
    acc: Seq<T>,
    rd: spec_fn(Seq<u8>, int) -> Parsed<T>,
) -> Parsed<Seq<T>>
    decreases k,
{
    if k == 0 {
        Ok((acc, o))
    } else {
        match rd(p, o) {
            Err(m) => Err(m),
            Ok((x, o2)) => rd_rows(p, o2, (k - 1) as nat, acc.push(x), rd),
        }
    }
}

/// A `u32` count at `o`, then that many rows read by `rd`.
pub open spec fn rd_list<T>(p: Seq<u8>, o: int, rd: spec_fn(Seq<u8>, int) -> Parsed<T>) -> Parsed<
    Seq<T>,
> {
    match rd_u32(p, o) {
        Err(m) => Err(m),
        Ok((n, o2)) => rd_rows(p, o2, n as nat, Seq::empty(), rd),
    }
}

/// How a record is read.
pub open spec fn id_rd() -> spec_fn(Seq<u8>, int) -> Parsed<u64> {
    |p: Seq<u8>, o: int| rd_u64(p, o)
}

/// A term row at `o`.
pub open spec fn rd_term_row(p: Seq<u8>, o: int) -> Parsed<TermRow> {
    match rd_len_bytes(p, o) {
        Err(m) => Err(m),
        Ok((t, o1)) => match rd_list(p, o1, id_rd()) {
            Err(m) => Err(m),
            Ok((ids, o2)) => Ok(((t, ids), o2)),
        },
    }
}

/// How a term row is read.
pub open spec fn term_rd() -> spec_fn(Seq<u8>, int) -> Parsed<TermRow> {
    |p: Seq<u8>, o: int| rd_term_row(p, o)
}

/// A field-pair row at `o`.
pub open spec fn rd_pair_row(p: Seq<u8>, o: int) -> Parsed<PairRow> {
    match rd_len_bytes(p, o) {
        Err(m) => Err(m),
        Ok((f, o1)) => match rd_len_bytes(p, o1) {
            Err(m) => Err(m),
            Ok((t, o2)) => match rd_list(p, o2, id_rd()) {
                Err(m) => Err(m),
                Ok((ids, o3)) => Ok(((f, t, ids), o3)),
            },
        },
    }
}

/// How a field-pair row is read.
pub open spec fn pair_rd() -> spec_fn(Seq<u8>, int) -> Parsed<PairRow> {
    |p: Seq<u8>, o: int| rd_pair_row(p, o)
}

/// A frequency entry at `o`.
pub open spec fn rd_freq_entry(p: Seq<u8>, o: int) -> Parsed<FreqEntry> {
    match rd_len_bytes(p, o) {
        Err(m) => Err(m),
        Ok((t, o1)) => match rd_u32(p, o1) {
            Err(m) => Err(m),
            Ok((c, o2)) => Ok(((t, c), o2)),
        },
    }
}

/// How a frequency entry is read.
pub open spec fn freq_entry_rd() -> spec_fn(Seq<u8>, int) -> Parsed<FreqEntry> {
    |p: Seq<u8>, o: int| rd_freq_entry(p, o)
}

/// A frequency row at `o`.
pub open spec fn rd_freq_row(p: Seq<u8>, o: int) -> Parsed<FreqRow> {
    match rd_u64(p, o) {
        Err(m) => Err(m),
        Ok((rid, o1)) => match rd_list(p, o1, freq_entry_rd()) {
            Err(m) => Err(m),
            Ok((fl, o2)) => Ok(((rid, fl), o2)),
        },
    }
}

/// How a frequency row is read.
pub open spec fn freq_rd() -> spec_fn(Seq<u8>, int) -> Parsed<FreqRow> {
    |p: Seq<u8>, o: int| rd_freq_row(p, o)
}

/// A length row at `o`.
pub open spec fn rd_length_row(p: Seq<u8>, o: int) -> Parsed<LengthRow> {
    match rd_u64(p, o) {
        Err(m) => Err(m),
        Ok((rid, o1)) => match rd_u32(p, o1) {
            Err(m) => Err(m),
            Ok((n, o2)) => Ok(((rid, n), o2)),
        },
    }
}

/// How a length row is read.
pub open spec fn length_rd() -> spec_fn(Seq<u8>, int) -> Parsed<LengthRow> {
    |p: Seq<u8>, o: int| rd_length_row(p, o)
}

/// The counters and the term rows at the start of a payload.
pub open spec fn rd_front(p: Seq<u8>) -> Parsed<(u32, u64, Seq<TermRow>)> {
    match rd_u32(p, 0) {
        Err(m) => Err(m),
        Ok((dc, o1)) => match rd_u64(p, o1) {
            Err(m) => Err(m),
            Ok((tt, o2)) => match rd_list(p, o2, term_rd()) {
                Err(m) => Err(m),
                Ok((terms, o3)) => Ok(((dc, tt, terms), o3)),
            },
        },
    }
}

/// The field pairs, frequencies and lengths from `o` on.
pub open spec fn rd_back(p: Seq<u8>, o: int) -> Parsed<(Seq<PairRow>, Seq<FreqRow>, Seq<LengthRow>)> {
    match rd_list(p, o, pair_rd()) {
        Err(m) => Err(m),
        Ok((pairs, o1)) => match rd_list(p, o1, freq_rd()) {
            Err(m) => Err(m),
            Ok((freqs, o2)) => match rd_list(p, o2, length_rd()) {
                Err(m) => Err(m),
                Ok((lengths, o3)) => Ok(((pairs, freqs, lengths), o3)),
            },
        },
    }
}

/// What a payload reads as; bytes after the last row are ignored.
pub open spec fn parse_payload(p: Seq<u8>) -> core::result::Result<SnapshotRows, Seq<char>> {
    match rd_front(p) {
        Err(m) => Err(m),
        Ok(((dc, tt, terms), o)) => match rd_back(p, o) {
            Err(m) => Err(m),
            Ok(((pairs, freqs, lengths), _)) => Ok(
                SnapshotRows { doc_count: dc, total_terms: tt, terms, pairs, freqs, lengths },
            ),
        },
    }
}

/// What snapshot bytes read as: the rows, or why they are refused.
pub open spec fn parse_snapshot(b: Seq<u8>) -> core::result::Result<SnapshotRows, Seq<char>> {
    if b.len() < 13 {
        Err("truncated inverted index snapshot header"@)
    } else if u32_at(b, 0) != INVERTED_SNAPSHOT_MAGIC {
        Err("bad inverted index snapshot magic"@)
    } else if b[4] != INVERTED_SNAPSHOT_VERSION {
        Err("unsupported inverted index snapshot version "@ + dec_str(b[4] as nat))
    } else if b.len() < 13 + u32_at(b, 5) {
        Err("truncated inverted index snapshot payload"@)
    } else {
        let p = b.subrange(13, 13 + u32_at(b, 5));
        if spec_crc32c(p) != u32_at(b, 9) {
            Err(
                "inverted index snapshot checksum mismatch: expected "@ + hex32(u32_at(b, 9))
                    + ", got "@ + hex32(spec_crc32c(p)),
            )
        } else {
            parse_payload(p)
        }
    }
}

/// The reader's result matches the spec's read, with views taken by `view`.
pub open spec fn read_matches<T, V>(
    r: Result<T>,
    s: Parsed<V>,
    view: spec_fn(T) -> V,
    after: BinaryReader,
    source: Seq<char>,
) -> bool {
    match (r, s) {
        (Ok(v), Ok((sv, o))) => view(v) == sv && after.pos() == o,
        (Err(e), Err(m)) => is_corrupt_at(e, source, m),
        _ => false,
    }
}

/// Reading one more row: the rest of the list reads the same as before.
pub proof fn lemma_rd_rows_step<T>(
    p: Seq<u8>,
    o: int,
    k: nat,
    acc: Seq<T>,
    rd: spec_fn(Seq<u8>, int) -> Parsed<T>,
)
    requires
        k > 0,
    ensures
        rd_rows(p, o, k, acc, rd) == (match rd(p, o) {
            Err(m) => Err(m),
            Ok((x, o2)) => rd_rows(p, o2, (k - 1) as nat, acc.push(x), rd),
        }),
{
}

#[verifier::loop_isolation(false)]
fn read_ids(reader: &mut BinaryReader) -> (r: Result<Vec<u64>>)
    requires
        old(reader).wf(),
    ensures
        same_input(*old(reader), *final(reader)),
        read_matches(
            r,
            rd_list(old(reader).data(), old(reader).pos(), id_rd()),
            |v: Vec<u64>| v@,
            *final(reader),
            old(reader).source(),
        ),
{
    let ghost p = reader.data();
    let ghost src = reader.source();
    let n = read_u32_step(reader)?;
    let ghost o = reader.pos();
    let mut out: Vec<u64> = Vec::new();
    let mut i: u32 = 0;
    while i < n
        invariant
            reader.wf(),
            reader.data() == p,
            reader.source() == src,
            i <= n,
            rd_rows(p, o, n as nat, Seq::empty(), id_rd()) == rd_rows(
                p,
                reader.pos(),
                (n - i) as nat,
                out@,
                id_rd(),
            ),
        decreases n - i,
    {
        let ghost before = out@;
        proof {
            lemma_rd_rows_step(p, reader.pos(), (n - i) as nat, before, id_rd());
        }
        let x = read_u64_step(reader)?;
        out.push(x);
        i = i + 1;
    }
    Ok(out)
}

fn read_term_row(reader: &mut BinaryReader) -> (r: Result<(Vec<u8>, Vec<u64>)>)
    requires
        old(reader).wf(),
    ensures
        same_input(*old(reader), *final(reader)),
        read_matches(
            r,
            rd_term_row(old(reader).data(), old(reader).pos()),
            |e: (Vec<u8>, Vec<u64>)| (e.0@, e.1@),
            *final(reader),
            old(reader).source(),
        ),
{
    let t = read_len_bytes_step(reader)?;
    let ids = read_ids(reader)?;
    Ok((t, ids))
}

fn read_pair_row(reader: &mut BinaryReader) -> (r: Result<(Vec<u8>, Vec<u8>, Vec<u64>)>)
    requires
        old(reader).wf(),
    ensures
        same_input(*old(reader), *final(reader)),
        read_matches(
            r,
            rd_pair_row(old(reader).data(), old(reader).pos()),
            |e: (Vec<u8>, Vec<u8>, Vec<u64>)| (e.0@, e.1@, e.2@),
            *final(reader),
            old(reader).source(),
        ),
{
    let f = read_len_bytes_step(reader)?;
    let t = read_len_bytes_step(reader)?;
    let ids = read_ids(reader)?;
    Ok((f, t, ids))
}

fn read_freq_entry(reader: &mut BinaryReader) -> (r: Result<(Vec<u8>, u32)>)
    requires
        old(reader).wf(),
    ensures
        same_input(*old(reader), *final(reader)),
        read_matches(
            r,
            rd_freq_entry(old(reader).data(), old(reader).pos()),
            |e: (Vec<u8>, u32)| (e.0@, e.1),
            *final(reader),
            old(reader).source(),
        ),
{
    let t = read_len_bytes_step(reader)?;
    let c = read_u32_step(reader)?;
    Ok((t, c))
}

#[verifier::loop_isolation(false)]
fn read_freq_row(reader: &mut BinaryReader) -> (r: Result<(u64, Vec<(Vec<u8>, u32)>)>)
    requires
        old(reader).wf(),
    ensures
        same_input(*old(reader), *final(reader)),
        read_matches(
            r,
            rd_freq_row(old(reader).data(), old(reader).pos()),
            |e: (u64, Vec<(Vec<u8>, u32)>)| (e.0, freq_list_view(e.1@)),
            *final(reader),
            old(reader).source(),
        ),
{
    let ghost p = reader.data();
    let ghost src = reader.source();
    let rid = read_u64_step(reader)?;
    let n = read_u32_step(reader)?;
    let ghost o = reader.pos();
    let mut out: Vec<(Vec<u8>, u32)> = Vec::new();
    let mut i: u32 = 0;
    proof {
        assert(freq_list_view(out@) =~= Seq::<FreqEntry>::empty());
    }
    while i < n
        invariant
            reader.wf(),
            reader.data() == p,
            reader.source() == src,
            i <= n,
            rd_rows(p, o, n as nat, Seq::empty(), freq_entry_rd()) == rd_rows(
                p,
                reader.pos(),
                (n - i) as nat,
                freq_list_view(out@),
                freq_entry_rd(),
            ),
        decreases n - i,
    {
        let ghost before = freq_list_view(out@);
        proof {
            lemma_rd_rows_step(p, reader.pos(), (n - i) as nat, before, freq_entry_rd());
        }
        let e = read_freq_entry(reader)?;
        let ghost ev = (e.0@, e.1);
        out.push(e);
        proof {
            assert(freq_list_view(out@) =~= before.push(ev));
        }
        i = i + 1;
    }
    Ok((rid, out))
}

fn read_length_row(reader: &mut BinaryReader) -> (r: Result<(u64, u32)>)
    requires
        old(reader).wf(),
    ensures
        same_input(*old(reader), *final(reader)),
        read_matches(
            r,
            rd_length_row(old(reader).data(), old(reader).pos()),
            |e: (u64, u32)| e,
            *final(reader),
            old(reader).source(),
        ),
{
    let rid = read_u64_step(reader)?;
    let n = read_u32_step(reader)?;
    Ok((rid, n))
}

#[verifier::loop_isolation(false)]
fn read_term_list(reader: &mut BinaryReader) -> (r: Result<Vec<(Vec<u8>, Vec<u64>)>>)
    requires
        old(reader).wf(),
    ensures
        same_input(*old(reader), *final(reader)),
        read_matches(
            r,
            rd_list(old(reader).data(), old(reader).pos(), term_rd()),
            |v: Vec<(Vec<u8>, Vec<u64>)>| term_rows_view(v@),
            *final(reader),
            old(reader).source(),
        ),
{
    let ghost p = reader.data();
    let ghost src = reader.source();
    let n = read_u32_step(reader)?;
    let ghost o = reader.pos();
    let mut out: Vec<(Vec<u8>, Vec<u64>)> = Vec::new();
    let mut i: u32 = 0;
    proof {
        assert(term_rows_view(out@) =~= Seq::<TermRow>::empty());
    }
    while i < n
        invariant
            reader.wf(),
            reader.data() == p,
            reader.source() == src,
            i <= n,
            rd_rows(p, o, n as nat, Seq::empty(), term_rd()) == rd_rows(
                p,
                reader.pos(),
                (n - i) as nat,
                term_rows_view(out@),
                term_rd(),
            ),
        decreases n - i,
    {
        let ghost before = term_rows_view(out@);
        proof {
            lemma_rd_rows_step(p, reader.pos(), (n - i) as nat, before, term_rd());
        }
        let e = read_term_row(reader)?;
        let ghost ev = (e.0@, e.1@);
        out.push(e);
        proof {
            assert(term_rows_view(out@) =~= before.push(ev));
        }
        i = i + 1;
    }
    Ok(out)
}

#[verifier::loop_isolation(false)]
fn read_pair_list(reader: &mut BinaryReader) -> (r: Result<Vec<(Vec<u8>, Vec<u8>, Vec<u64>)>>)
    requires
        old(reader).wf(),
    ensures
        same_input(*old(reader), *final(reader)),
        read_matches(
            r,
            rd_list(old(reader).data(), old(reader).pos(), pair_rd()),
            |v: Vec<(Vec<u8>, Vec<u8>, Vec<u64>)>| pair_rows_view(v@),
            *final(reader),
            old(reader).source(),
        ),
{
    let ghost p = reader.data();
    let ghost src = reader.source();
    let n = read_u32_step(reader)?;
    let ghost o = reader.pos();
    let mut out: Vec<(Vec<u8>, Vec<u8>, Vec<u64>)> = Vec::new();
    let mut i: u32 = 0;
    proof {
        assert(pair_rows_view(out@) =~= Seq::<PairRow>::empty());
    }
    while i < n
        invariant
            reader.wf(),
            reader.data() == p,
            reader.source() == src,
            i <= n,
            rd_rows(p, o, n as nat, Seq::empty(), pair_rd()) == rd_rows(
                p,
                reader.pos(),
                (n - i) as nat,
                pair_rows_view(out@),
                pair_rd(),
            ),
        decreases n - i,
    {
        let ghost before = pair_rows_view(out@);
        proof {
            lemma_rd_rows_step(p, reader.pos(), (n - i) as nat, before, pair_rd());
        }
        let e = read_pair_row(reader)?;
        let ghost ev = (e.0@, e.1@, e.2@);
        out.push(e);
        proof {
            assert(pair_rows_view(out@) =~= before.push(ev));
        }
        i = i + 1;
    }
    Ok(out)
}

#[verifier::loop_isolation(false)]
fn read_freq_list(reader: &mut BinaryReader) -> (r: Result<Vec<(u64, Vec<(Vec<u8>, u32)>)>>)
    requires
        old(reader).wf(),
    ensures
        same_input(*old(reader), *final(reader)),
        read_matches(
            r,
            rd_list(old(reader).data(), old(reader).pos(), freq_rd()),
            |v: Vec<(u64, Vec<(Vec<u8>, u32)>)>| freq_rows_view(v@),
            *final(reader),
            old(reader).source(),
        ),
{
    let ghost p = reader.data();
    let ghost src = reader.source();
    let n = read_u32_step(reader)?;
    let ghost o = reader.pos();
    let mut out: Vec<(u64, Vec<(Vec<u8>, u32)>)> = Vec::new();
    let mut i: u32 = 0;
    proof {
        assert(freq_rows_view(out@) =~= Seq::<FreqRow>::empty());
    }
    while i < n
        invariant
            reader.wf(),
            reader.data() == p,
            reader.source() == src,
            i <= n,
            rd_rows(p, o, n as nat, Seq::empty(), freq_rd()) == rd_rows(
                p,
                reader.pos(),
                (n - i) as nat,
                freq_rows_view(out@),
                freq_rd(),
            ),
        decreases n - i,
    {
        let ghost before = freq_rows_view(out@);
        proof {
            lemma_rd_rows_step(p, reader.pos(), (n - i) as nat, before, freq_rd());
        }
        let e = read_freq_row(reader)?;
        let ghost ev = (e.0, freq_list_view(e.1@));
        out.push(e);
        proof {
            assert(freq_rows_view(out@) =~= before.push(ev));
        }
        i = i + 1;
    }
    Ok(out)
}

#[verifier::loop_isolation(false)]
fn read_length_list(reader: &mut BinaryReader) -> (r: Result<Vec<(u64, u32)>>)
    requires
        old(reader).wf(),
    ensures
        same_input(*old(reader), *final(reader)),
        read_matches(
            r,
            rd_list(old(reader).data(), old(reader).pos(), length_rd()),
            |v: Vec<(u64, u32)>| v@,
            *final(reader),
            old(reader).source(),
        ),
{
    let ghost p = reader.data();
    let ghost src = reader.source();
    let n = read_u32_step(reader)?;
    let ghost o = reader.pos();
    let mut out: Vec<(u64, u32)> = Vec::new();
    let mut i: u32 = 0;
    while i < n
        invariant
            reader.wf(),
            reader.data() == p,
            reader.source() == src,
            i <= n,
            rd_rows(p, o, n as nat, Seq::empty(), length_rd()) == rd_rows(
                p,
                reader.pos(),
                (n - i) as nat,
                out@,
                length_rd(),
            ),
        decreases n - i,
    {
        let ghost before = out@;
        proof {
            lemma_rd_rows_step(p, reader.pos(), (n - i) as nat, before, length_rd());
        }
        let e = read_length_row(reader)?;
        let ghost ev = e;
        out.push(e);
        proof {
            assert(out@ =~= before.push(ev));
        }
        i = i + 1;
    }
    Ok(out)
}

fn read_payload(reader: &mut BinaryReader) -> (r: Result<SnapshotPayload>)
    requires
        old(reader).wf(),
        old(reader).pos() == 0,
    ensures
        match (r, parse_payload(old(reader).data())) {
            (Ok(s), Ok(v)) => s@ == v,
            (Err(e), Err(m)) => is_corrupt_at(e, old(reader).source(), m),
            _ => false,
        },
{
    let doc_count = read_u32_step(reader)?;
    let total_terms = read_u64_step(reader)?;
    let terms = read_term_list(reader)?;
    let pairs = read_pair_list(reader)?;
    let freqs = read_freq_list(reader)?;
    let lengths = read_length_list(reader)?;
    Ok(SnapshotPayload { doc_count, total_terms, terms, pairs, freqs, lengths })
}

/// Read a snapshot's rows from its bytes; `source` names them in errors.
pub fn decode_snapshot(bytes: &[u8], source: &str) -> (r: Result<SnapshotPayload>)
    ensures
        match (r, parse_snapshot(bytes@)) {
            (Ok(s), Ok(v)) => s@ == v,
            (Err(e), Err(m)) => is_corrupt_at(e, source@, m),
            _ => false,
        },
{
    if bytes.len() < 13 {
        return Err(
            corrupt_at(source, String::from_str("truncated inverted index snapshot header")),
        );
    }
    let magic = read_u32_at(bytes, 0);
    if magic != INVERTED_SNAPSHOT_MAGIC {
        return Err(corrupt_at(source, String::from_str("bad inverted index snapshot magic")));
    }
    if bytes[4] != INVERTED_SNAPSHOT_VERSION {
        return Err(
            corrupt_at(
                source,
                tag_message("unsupported inverted index snapshot version ", bytes[4]),
            ),
        );
    }
    let payload_len = read_u32_at(bytes, 5);
    let expected_crc = read_u32_at(bytes, 9);
    if bytes.len() - 13 < payload_len as usize {
        return Err(
            corrupt_at(source, String::from_str("truncated inverted index snapshot payload")),
        );
    }
    let payload = slice_subrange(bytes, 13, 13 + payload_len as usize);
    let actual_crc = crc32c(payload);
    if actual_crc != expected_crc {
        let mut m = String::from_str("inverted index snapshot checksum mismatch: expected ");
        let a = hex32_string(expected_crc);
        m.append(a.as_str());
        m.append(", got ");
        let b = hex32_string(actual_crc);
        m.append(b.as_str());
        return Err(corrupt_at(source, m));
    }
    let mut reader = BinaryReader::new(payload, source);
    read_payload(&mut reader)
}

/// Reading `x`'s bytes, between `a` and `b`, gives `x` back and moves past
/// them.
pub open spec fn reads_back<T>(
    rd: spec_fn(Seq<u8>, int) -> Parsed<T>,
    f: spec_fn(T) -> Seq<u8>,
    x: T,
    a: Seq<u8>,
    b: Seq<u8>,
) -> bool {
    rd(a + f(x) + b, a.len() as int) == Parsed::<T>::Ok((x, (a.len() + f(x).len()) as int))
}

/// `x` reads back from its bytes wherever they stand.
pub open spec fn always_reads_back<T>(
    rd: spec_fn(Seq<u8>, int) -> Parsed<T>,
    f: spec_fn(T) -> Seq<u8>,
    x: T,
) -> bool {
    forall|a: Seq<u8>, b: Seq<u8>| #[trigger] reads_back(rd, f, x, a, b)
}

/// The bytes of a prefix of the rows are a prefix of the bytes of them all.
pub proof fn lemma_rows_bytes_prefix<T>(rows: Seq<T>, f: spec_fn(T) -> Seq<u8>, j: int)
    requires
        0 <= j <= rows.len(),
    ensures
        rows_bytes(rows.take(j), f).len() <= rows_bytes(rows, f).len(),
        rows_bytes(rows, f).take(rows_bytes(rows.take(j), f).len() as int) =~= rows_bytes(
            rows.take(j),
            f,
        ),
    decreases rows.len(),
{
    if j == rows.len() {
        assert(rows.take(j) =~= rows);
    } else {
        lemma_rows_bytes_prefix(rows.drop_last(), f, j);
        assert(rows.drop_last().take(j) =~= rows.take(j));
        let a = rows_bytes(rows.drop_last(), f);
        let n = rows_bytes(rows.take(j), f).len() as int;
        assert((a + f(rows.last())).take(n) =~= a.take(n));
    }
}

/// Having read the first `j` rows back from their bytes, the rest read
/// back too.
pub proof fn lemma_rd_rows_at<T>(
    h: Seq<u8>,
    rows: Seq<T>,
    j: int,
    f: spec_fn(T) -> Seq<u8>,
    rd: spec_fn(Seq<u8>, int) -> Parsed<T>,
    tail: Seq<u8>,
)
    requires
        0 <= j <= rows.len(),
        forall|i: int| 0 <= i < rows.len() ==> always_reads_back(rd, f, #[trigger] rows[i]),
    ensures
        rd_rows(
            h + rows_bytes(rows, f) + tail,
            (h.len() + rows_bytes(rows.take(j), f).len()) as int,
            (rows.len() - j) as nat,
            rows.take(j),
            rd,
        ) == Parsed::<Seq<T>>::Ok((rows, (h.len() + rows_bytes(rows, f).len()) as int)),
    decreases rows.len() - j,
{
    let p = h + rows_bytes(rows, f) + tail;
    if j == rows.len() {
        assert(rows.take(j) =~= rows);
    } else {
        let pre = rows_bytes(rows.take(j), f);
        let big = rows_bytes(rows.take(j + 1), f);
        lemma_rows_bytes_prefix(rows, f, j + 1);
        lemma_rows_bytes_step(rows, f, j);
        let rest = rows_bytes(rows, f).skip(big.len() as int);
        assert(rows_bytes(rows, f) =~= big + rest);
        assert(p =~= (h + pre) + f(rows[j]) + (rest + tail));
        assert(always_reads_back(rd, f, rows[j]));
        assert(reads_back(rd, f, rows[j], h + pre, rest + tail));
        assert(rows.take(j).push(rows[j]) =~= rows.take(j + 1));
        lemma_rd_rows_at(h, rows, j + 1, f, rd, tail);
    }
}

/// A counted list reads back from its bytes.
pub proof fn lemma_rd_list_at<T>(
    a: Seq<u8>,
    rows: Seq<T>,
    f: spec_fn(T) -> Seq<u8>,
    rd: spec_fn(Seq<u8>, int) -> Parsed<T>,
    b: Seq<u8>,
)
    requires
        rows.len() <= u32::MAX,
        forall|i: int| 0 <= i < rows.len() ==> always_reads_back(rd, f, #[trigger] rows[i]),
    ensures
        rd_list(a + (spec_u32_to_le_bytes(rows.len() as u32) + rows_bytes(rows, f)) + b, a.len() as int, rd)
            == Parsed::<Seq<T>>::Ok((rows, (a.len() + 4 + rows_bytes(rows, f).len()) as int)),
{
    lemma_le_lengths();
    let n = spec_u32_to_le_bytes(rows.len() as u32);
    let p = a + (n + rows_bytes(rows, f)) + b;
    assert(p =~= a + n + (rows_bytes(rows, f) + b));
    lemma_rd_u32_at(a, rows.len() as u32, rows_bytes(rows, f) + b);
    assert(p =~= (a + n) + rows_bytes(rows, f) + b);
    assert(rows.take(0) =~= Seq::<T>::empty());
    lemma_rd_rows_at(a + n, rows, 0, f, rd, b);
}

/// How a record is written.
pub open spec fn id_enc() -> spec_fn(u64) -> Seq<u8> {
    |x: u64| spec_u64_to_le_bytes(x)
}

/// Records written one by one are the records' words.
proof fn lemma_ids_rows(ids: Seq<u64>)
    ensures
        rows_bytes(ids, id_enc()) == u64s_bytes(ids),
    decreases ids.len(),
{
    if ids.len() > 0 {
        lemma_ids_rows(ids.drop_last());
    }
}

/// A list of records reads back.
pub proof fn lemma_rd_ids_at(a: Seq<u8>, ids: Seq<u64>, b: Seq<u8>)
    requires
        ids.len() <= u32::MAX,
    ensures
        rd_list(a + ids_le(ids) + b, a.len() as int, id_rd()) == Parsed::<Seq<u64>>::Ok(
            (ids, (a.len() + ids_le(ids).len()) as int),
        ),
{
    lemma_le_lengths();
    lemma_ids_rows(ids);
    assert forall|i: int| 0 <= i < ids.len() implies always_reads_back(id_rd(), id_enc(), #[trigger] ids[i]) by {
        assert forall|x: Seq<u8>, y: Seq<u8>| #[trigger] reads_back(id_rd(), id_enc(), ids[i], x, y) by {
            lemma_u64_at(x, ids[i], y);
        }
    }
    lemma_rd_list_at(a, ids, id_enc(), id_rd(), b);
}

/// A term row's lengths fit the `u32` counts written before them.
pub open spec fn term_row_fits(r: TermRow) -> bool {
    r.0.len() <= u32::MAX && r.1.len() <= u32::MAX
}

/// A field-pair row's lengths fit their `u32` counts.
pub open spec fn pair_row_fits(r: PairRow) -> bool {
    r.0.len() <= u32::MAX && r.1.len() <= u32::MAX && r.2.len() <= u32::MAX
}

/// A frequency row's lengths fit their `u32` counts.
pub open spec fn freq_row_fits(r: FreqRow) -> bool {
    &&& r.1.len() <= u32::MAX
    &&& forall|j: int| 0 <= j < r.1.len() ==> (#[trigger] r.1[j]).0.len() <= u32::MAX
}

/// Every count and length of the rows fits the `u32` written for it.
pub open spec fn rows_fit(s: SnapshotRows) -> bool {
    &&& s.terms.len() <= u32::MAX
    &&& s.pairs.len() <= u32::MAX
    &&& s.freqs.len() <= u32::MAX
    &&& s.lengths.len() <= u32::MAX
    &&& forall|i: int| 0 <= i < s.terms.len() ==> term_row_fits(#[trigger] s.terms[i])
    &&& forall|i: int| 0 <= i < s.pairs.len() ==> pair_row_fits(#[trigger] s.pairs[i])
    &&& forall|i: int| 0 <= i < s.freqs.len() ==> freq_row_fits(#[trigger] s.freqs[i])
    &&& payload_bytes(s).len() <= u32::MAX
}

proof fn lemma_term_row_reads(x: TermRow)
    requires
        term_row_fits(x),
    ensures
        always_reads_back(term_rd(), term_enc(), x),
{
    lemma_le_lengths();
    assert forall|a: Seq<u8>, b: Seq<u8>| #[trigger] reads_back(term_rd(), term_enc(), x, a, b) by {
        let l = len_bytes(x.0);
        let p = a + term_row_bytes(x) + b;
        assert(p =~= a + l + (ids_le(x.1) + b));
        lemma_rd_len_bytes_at(a, x.0, ids_le(x.1) + b);
        assert(p =~= (a + l) + ids_le(x.1) + b);
        lemma_rd_ids_at(a + l, x.1, b);
    }
}

proof fn lemma_pair_row_reads(x: PairRow)
    requires
        pair_row_fits(x),
    ensures
        always_reads_back(pair_rd(), pair_enc(), x),
{
    lemma_le_lengths();
    assert forall|a: Seq<u8>, b: Seq<u8>| #[trigger] reads_back(pair_rd(), pair_enc(), x, a, b) by {
        let l0 = len_bytes(x.0);
        let l1 = len_bytes(x.1);
        let p = a + pair_row_bytes(x) + b;
        assert(p =~= a + l0 + (l1 + ids_le(x.2) + b));
        lemma_rd_len_bytes_at(a, x.0, l1 + ids_le(x.2) + b);
        assert(p =~= (a + l0) + l1 + (ids_le(x.2) + b));
        lemma_rd_len_bytes_at(a + l0, x.1, ids_le(x.2) + b);
        assert(p =~= (a + l0 + l1) + ids_le(x.2) + b);
        lemma_rd_ids_at(a + l0 + l1, x.2, b);
    }
}

proof fn lemma_freq_entry_reads(x: FreqEntry)
    requires
        x.0.len() <= u32::MAX,
    ensures
        always_reads_back(freq_entry_rd(), freq_entry_enc(), x),
{
    lemma_le_lengths();
    assert forall|a: Seq<u8>, b: Seq<u8>| #[trigger] reads_back(
        freq_entry_rd(),
        freq_entry_enc(),
        x,
        a,
        b,
    ) by {
        let l = len_bytes(x.0);
        let c = spec_u32_to_le_bytes(x.1);
        let p = a + freq_entry_bytes(x) + b;
        assert(p =~= a + l + (c + b));
        lemma_rd_len_bytes_at(a, x.0, c + b);
        assert(p =~= (a + l) + c + b);
        lemma_rd_u32_at(a + l, x.1, b);
    }
}

proof fn lemma_freq_row_reads(x: FreqRow)
    requires
        freq_row_fits(x),
    ensures
        always_reads_back(freq_rd(), freq_enc(), x),
{
    lemma_le_lengths();
    assert forall|i: int| 0 <= i < x.1.len() implies always_reads_back(
        freq_entry_rd(),
        freq_entry_enc(),
        #[trigger] x.1[i],
    ) by {
        lemma_freq_entry_reads(x.1[i]);
    }
    assert forall|a: Seq<u8>, b: Seq<u8>| #[trigger] reads_back(freq_rd(), freq_enc(), x, a, b) by {
        let r = spec_u64_to_le_bytes(x.0);
        let body = spec_u32_to_le_bytes(x.1.len() as u32) + rows_bytes(x.1, freq_entry_enc());
        let p = a + freq_row_bytes(x) + b;
        assert(p =~= a + r + (body + b));
        lemma_rd_u64_at(a, x.0, body + b);
        assert(p =~= (a + r) + body + b);
        lemma_rd_list_at(a + r, x.1, freq_entry_enc(), freq_entry_rd(), b);
    }
}

proof fn lemma_length_row_reads(x: LengthRow)
    ensures
        always_reads_back(length_rd(), length_enc(), x),
{
    lemma_le_lengths();
    assert forall|a: Seq<u8>, b: Seq<u8>| #[trigger] reads_back(length_rd(), length_enc(), x, a, b) by {
        let r = spec_u64_to_le_bytes(x.0);
        let c = spec_u32_to_le_bytes(x.1);
        let p = a + length_row_bytes(x) + b;
        assert(p =~= a + r + (c + b));
        lemma_rd_u64_at(a, x.0, c + b);
        assert(p =~= (a + r) + c + b);
        lemma_rd_u32_at(a + r, x.1, b);
    }
}

/// A payload reads back as the rows it was written from.
pub proof fn lemma_payload_roundtrip(s: SnapshotRows)
    requires
        rows_fit(s),
    ensures
        parse_payload(payload_bytes(s)) == core::result::Result::<SnapshotRows, Seq<char>>::Ok(s),
{
    lemma_le_lengths();
    let a0 = spec_u32_to_le_bytes(s.doc_count);
    let a1 = spec_u64_to_le_bytes(s.total_terms);
    let l1 = spec_u32_to_le_bytes(s.terms.len() as u32) + rows_bytes(s.terms, term_enc());
    let l2 = spec_u32_to_le_bytes(s.pairs.len() as u32) + rows_bytes(s.pairs, pair_enc());
    let l3 = spec_u32_to_le_bytes(s.freqs.len() as u32) + rows_bytes(s.freqs, freq_enc());
    let l4 = spec_u32_to_le_bytes(s.lengths.len() as u32) + rows_bytes(s.lengths, length_enc());
    let p = payload_bytes(s);
    assert(p =~= a0 + a1 + l1 + l2 + l3 + l4);
    assert forall|i: int| 0 <= i < s.terms.len() implies always_reads_back(
        term_rd(),
        term_enc(),
        #[trigger] s.terms[i],
    ) by {
        lemma_term_row_reads(s.terms[i]);
    }
    assert forall|i: int| 0 <= i < s.pairs.len() implies always_reads_back(
        pair_rd(),
        pair_enc(),
        #[trigger] s.pairs[i],
    ) by {
        lemma_pair_row_reads(s.pairs[i]);
    }
    assert forall|i: int| 0 <= i < s.freqs.len() implies always_reads_back(
        freq_rd(),
        freq_enc(),
        #[trigger] s.freqs[i],
    ) by {
        lemma_freq_row_reads(s.freqs[i]);
    }
    assert forall|i: int| 0 <= i < s.lengths.len() implies always_reads_back(
        length_rd(),
        length_enc(),
        #[trigger] s.lengths[i],
    ) by {
        lemma_length_row_reads(s.lengths[i]);
    }
    assert(p =~= Seq::<u8>::empty() + a0 + (a1 + l1 + l2 + l3 + l4));
    lemma_rd_u32_at(Seq::<u8>::empty(), s.doc_count, a1 + l1 + l2 + l3 + l4);
    assert(p =~= a0 + a1 + (l1 + l2 + l3 + l4));
    lemma_rd_u64_at(a0, s.total_terms, l1 + l2 + l3 + l4);
    assert(p =~= (a0 + a1) + l1 + (l2 + l3 + l4));
    lemma_rd_list_at(a0 + a1, s.terms, term_enc(), term_rd(), l2 + l3 + l4);
    assert(p =~= (a0 + a1 + l1) + l2 + (l3 + l4));
    lemma_rd_list_at(a0 + a1 + l1, s.pairs, pair_enc(), pair_rd(), l3 + l4);
    assert(p =~= (a0 + a1 + l1 + l2) + l3 + l4);
    lemma_rd_list_at(a0 + a1 + l1 + l2, s.freqs, freq_enc(), freq_rd(), l4);
    assert(p =~= (a0 + a1 + l1 + l2 + l3) + l4 + Seq::<u8>::empty());
    lemma_rd_list_at(a0 + a1 + l1 + l2 + l3, s.lengths, length_enc(), length_rd(), Seq::<u8>::empty());
}

/// Snapshot bytes read back as the rows they were written from.
pub proof fn lemma_snapshot_roundtrip(s: SnapshotRows)
    requires
        rows_fit(s),
    ensures
        parse_snapshot(snapshot_bytes(payload_bytes(s))) == core::result::Result::<
            SnapshotRows,
            Seq<char>,
        >::Ok(s),
{
    lemma_le_lengths();
    let p = payload_bytes(s);
    let m = spec_u32_to_le_bytes(INVERTED_SNAPSHOT_MAGIC);
    let v = seq![INVERTED_SNAPSHOT_VERSION];
    let n = spec_u32_to_le_bytes(p.len() as u32);
    let c = spec_u32_to_le_bytes(spec_crc32c(p));
    let b = snapshot_bytes(p);
    assert(b =~= Seq::<u8>::empty() + m + (v + n + c + p));
    lemma_u32_at(Seq::<u8>::empty(), INVERTED_SNAPSHOT_MAGIC, v + n + c + p);
    assert(b[4] == INVERTED_SNAPSHOT_VERSION);
    assert(b =~= (m + v) + n + (c + p));
    lemma_u32_at(m + v, p.len() as u32, c + p);
    assert(b =~= (m + v + n) + c + p);
    lemma_u32_at(m + v + n, spec_crc32c(p), p);
    assert(b.subrange(13, 13 + p.len() as int) =~= p);
    lemma_payload_roundtrip(s);
}

/// The sum of `n` over the rows.
pub open spec fn rows_total<T>(rows: Seq<T>, n: spec_fn(T) -> nat) -> nat
    decreases rows.len(),
{
    if rows.len() == 0 {
        0
    } else {
        rows_total(rows.drop_last(), n) + n(rows.last())
    }
}

/// The number of records of a term row.
pub open spec fn term_row_ids() -> spec_fn(TermRow) -> nat {
    |r: TermRow| r.1.len()
}

/// The number of records of a field-pair row.
pub open spec fn pair_row_ids() -> spec_fn(PairRow) -> nat {
    |r: PairRow| r.2.len()
}

/// A read by `rd` that succeeds moves forward by at least `n` of what it
/// read, and stays within the bytes.
pub open spec fn weighs<T>(rd: spec_fn(Seq<u8>, int) -> Parsed<T>, n: spec_fn(T) -> nat) -> bool {
    forall|p: Seq<u8>, o: int|
        #![trigger rd(p, o)]
        0 <= o && rd(p, o) is Ok ==> o + n(rd(p, o)->Ok_0.0) <= rd(p, o)->Ok_0.1 <= p.len()
}

proof fn lemma_rd_ids_len(p: Seq<u8>, o: int, k: nat, acc: Seq<u64>)
    requires
        0 <= o <= p.len(),
        rd_rows(p, o, k, acc, id_rd()) is Ok,
    ensures
        ({
            let (xs, o2) = rd_rows(p, o, k, acc, id_rd())->Ok_0;
            xs.len() == acc.len() + k && o2 == o + 8 * k && o2 <= p.len()
        }),
    decreases k,
{
    if k > 0 {
        assert(id_rd()(p, o) == rd_u64(p, o));
        let (x, o1) = rd_u64(p, o)->Ok_0;
        lemma_rd_ids_len(p, o1, (k - 1) as nat, acc.push(x));
    }
}

proof fn lemma_rd_rows_weight<T>(
    p: Seq<u8>,
    o: int,
    k: nat,
    acc: Seq<T>,
    rd: spec_fn(Seq<u8>, int) -> Parsed<T>,
    n: spec_fn(T) -> nat,
)
    requires
        0 <= o <= p.len(),
        weighs(rd, n),
        rd_rows(p, o, k, acc, rd) is Ok,
    ensures
        ({
            let (rows, o2) = rd_rows(p, o, k, acc, rd)->Ok_0;
            rows_total(rows, n) + o <= rows_total(acc, n) + o2 && o2 <= p.len()
        }),
    decreases k,
{
    if k > 0 {
        let (x, o1) = rd(p, o)->Ok_0;
        assert(rd(p, o) is Ok);
        assert(acc.push(x).drop_last() =~= acc);
        lemma_rd_rows_weight(p, o1, (k - 1) as nat, acc.push(x), rd, n);
    }
}

proof fn lemma_term_rows_weigh()
    ensures
        weighs(term_rd(), term_row_ids()),
{
    assert forall|p: Seq<u8>, o: int| 0 <= o && #[trigger] term_rd()(p, o) is Ok implies o
        + term_row_ids()(term_rd()(p, o)->Ok_0.0) <= term_rd()(p, o)->Ok_0.1 <= p.len() by {
        let (t, o1) = rd_len_bytes(p, o)->Ok_0;
        let (c, o2) = rd_u32(p, o1)->Ok_0;
        lemma_rd_ids_len(p, o2, c as nat, Seq::empty());
    }
}

proof fn lemma_pair_rows_weigh()
    ensures
        weighs(pair_rd(), pair_row_ids()),
{
    assert forall|p: Seq<u8>, o: int| 0 <= o && #[trigger] pair_rd()(p, o) is Ok implies o
        + pair_row_ids()(pair_rd()(p, o)->Ok_0.0) <= pair_rd()(p, o)->Ok_0.1 <= p.len() by {
        let (f, o1) = rd_len_bytes(p, o)->Ok_0;
        let (t, o2) = rd_len_bytes(p, o1)->Ok_0;
        let (c, o3) = rd_u32(p, o2)->Ok_0;
        lemma_rd_ids_len(p, o3, c as nat, Seq::empty());
    }
}

/// The records listed in a snapshot's term rows, and in its field-pair
/// rows, are no more than its bytes.
pub proof fn lemma_parse_bounds(b: Seq<u8>)
    requires
        parse_snapshot(b) is Ok,
    ensures
        rows_total(parse_snapshot(b)->Ok_0.terms, term_row_ids()) <= b.len(),
        rows_total(parse_snapshot(b)->Ok_0.pairs, pair_row_ids()) <= b.len(),
{
    let p = b.subrange(13, 13 + u32_at(b, 5));
    lemma_term_rows_weigh();
    lemma_pair_rows_weigh();
    let (dc, o1) = rd_u32(p, 0)->Ok_0;
    let (tt, o2) = rd_u64(p, o1)->Ok_0;
    let (nt, o3) = rd_u32(p, o2)->Ok_0;
    lemma_rd_rows_weight(p, o3, nt as nat, Seq::empty(), term_rd(), term_row_ids());
    let ((dc2, tt2, terms), o4) = rd_front(p)->Ok_0;
    let (np, o5) = rd_u32(p, o4)->Ok_0;
    lemma_rd_rows_weight(p, o5, np as nat, Seq::empty(), pair_rd(), pair_row_ids());
}

} // verus!
