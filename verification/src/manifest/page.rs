//! The page-layout manifest: the tracked files, kept in path order, and
//! their checksummed byte form (magic, version, payload length, payload
//! checksum, payload).
use crate::bytes_order::{
    bytes_lt, compare_bytes, lemma_bytes_lt_irreflexive, lemma_bytes_lt_total, lemma_bytes_lt_transitive,
};
use crate::seqs::lemma_filter_prefix;
use crate::errors::{PraxisError, Result};
use crate::io::binary::{BinaryReader, BinaryWriter};
use crate::io::checksum::{crc32c, spec_crc32c};
use crate::io::parse::{
    corrupt_at, hex32, hex32_string, is_corrupt_at, lemma_rd_len_bytes_at, lemma_rd_u32_at,
    lemma_rd_u8_at, len_bytes, rd_len_bytes, rd_u32, rd_u8, read_len_bytes_step, read_u32_step,
    read_u8_step, same_input, tag_message,
};
use crate::le::{lemma_le_lengths, lemma_u32_at, read_u32_at, u32_at};
use crate::manifest::edit::ManifestTrackedFile;
use crate::text::{
    dec_str, hex_padded, hex_padded_string, str_equal, string_from_utf8, utf8_error_text,
};
use vstd::bytes::spec_u32_to_le_bytes;
use vstd::prelude::*;
use vstd::slice::slice_subrange;
use vstd::string::*;
use vstd::utf8::{decode_utf8, encode_utf8, encode_utf8_decode_utf8, encode_utf8_valid_utf8, valid_utf8};

verus! {

broadcast use vstd::seq_lib::group_seq_lib_default;

/// The first four bytes of a page manifest, little-endian: "TPMF".
pub const PAGE_MANIFEST_MAGIC: u32 = 0x5450_4d46;

/// The page manifest format's version byte.
pub const PAGE_MANIFEST_VERSION: u8 = 1;

/// The tracked files.
#[derive(Clone, Debug, PartialEq, Eq)]
pub struct PageLayoutManifest {
    pub files: Vec<ManifestTrackedFile>,
}

impl Default for PageLayoutManifest {
    /// No files.
    fn default() -> (m: PageLayoutManifest)
        ensures
            m.files@ == Seq::<ManifestTrackedFile>::empty(),
    {
        PageLayoutManifest { files: Vec::new() }
    }
}

/// A file's path as the bytes it is ordered by.
pub open spec fn path_key(f: ManifestTrackedFile) -> Seq<u8> {
    encode_utf8(f.path@)
}

/// The files whose path does not sort after `f`'s.
pub open spec fn not_after(f: ManifestTrackedFile) -> spec_fn(ManifestTrackedFile) -> bool {
    |e: ManifestTrackedFile| !bytes_lt(path_key(f), path_key(e))
}

/// `f` placed after every file whose path does not sort after its own.
pub open spec fn insert_by_path(v: Seq<ManifestTrackedFile>, f: ManifestTrackedFile) -> Seq<ManifestTrackedFile> {
    v.insert(v.filter(not_after(f)).len() as int, f)
}

/// The files of `rest` inserted by path, one after the other, into `acc`.
pub open spec fn sort_onto(acc: Seq<ManifestTrackedFile>, rest: Seq<ManifestTrackedFile>) -> Seq<ManifestTrackedFile>
    decreases rest.len(),
{
    if rest.len() == 0 {
        acc
    } else {
        sort_onto(insert_by_path(acc, rest[0]), rest.drop_first())
    }
}

/// The files stably sorted by path.
pub open spec fn sort_by_path(v: Seq<ManifestTrackedFile>) -> Seq<ManifestTrackedFile> {
    sort_onto(Seq::empty(), v)
}

/// How many files come before the first with path `p`.
pub open spec fn path_pos(v: Seq<ManifestTrackedFile>, p: Seq<char>) -> int
    decreases v.len(),
{
    if v.len() == 0 {
        0
    } else if v[0].path@ == p {
        0
    } else {
        1 + path_pos(v.drop_first(), p)
    }
}

/// The files after `f` is tracked: it replaces the first file with its
/// path; with none, it joins them and they are sorted by path.
pub open spec fn upserted(v: Seq<ManifestTrackedFile>, f: ManifestTrackedFile) -> Seq<ManifestTrackedFile> {
    if path_pos(v, f.path@) < v.len() {
        v.update(path_pos(v, f.path@), f)
    } else {
        sort_by_path(v.push(f))
    }
}

/// A prefix of files without path `p`, followed by one with it or by the
/// end, is where `path_pos` stops.
proof fn lemma_path_pos(v: Seq<ManifestTrackedFile>, p: Seq<char>, i: int)
    requires
        0 <= i <= v.len(),
        forall|j: int| 0 <= j < i ==> (#[trigger] v[j]).path@ != p,
        i < v.len() ==> v[i].path@ == p,
    ensures
        path_pos(v, p) == i,
    decreases i,
{
    if i > 0 {
        assert forall|j: int| 0 <= j < i - 1 implies (#[trigger] v.drop_first()[j]).path@ != p by {
            assert(v.drop_first()[j] == v[j + 1]);
        }
        lemma_path_pos(v.drop_first(), p, i - 1);
    }
}

/// Insert `f` after every file whose path does not sort after its own.
fn insert_file_by_path(out: &mut Vec<ManifestTrackedFile>, f: ManifestTrackedFile)
    ensures
        final(out)@ == insert_by_path(old(out)@, f),
{
    let ghost v = out@;
    let fk = f.path.as_str().as_bytes();
    let mut count: usize = 0;
    let mut j: usize = 0;
    proof {
        reveal(Seq::filter);
        assert(v.take(0).filter(not_after(f)) =~= Seq::<ManifestTrackedFile>::empty());
    }
    while j < out.len()
        invariant
            v == out@,
            fk@ == path_key(f),
            j <= v.len(),
            count == v.take(j as int).filter(not_after(f)).len(),
            count <= j,
        decreases v.len() - j,
    {
        proof {
            reveal(Seq::filter);
            assert(v.take(j + 1).drop_last() =~= v.take(j as int));
            assert(v.take(j + 1).last() == v[j as int]);
        }
        let ek = out[j].path.as_str().as_bytes();
        if compare_bytes(fk, ek) != -1 {
            count = count + 1;
        }
        j = j + 1;
    }
    proof {
        assert(v.take(j as int) =~= v);
        assert(count <= v.len());
    }
    out.insert(count, f);
}

/// The files stably sorted by path.
fn sort_files_by_path(v: Vec<ManifestTrackedFile>) -> (out: Vec<ManifestTrackedFile>)
    ensures
        out@ == sort_by_path(v@),
{
    let ghost orig = v@;
    let mut rest = v;
    let mut out: Vec<ManifestTrackedFile> = Vec::new();
    while rest.len() > 0
        invariant
            sort_onto(out@, rest@) == sort_by_path(orig),
        decreases rest@.len(),
    {
        let ghost r = rest@;
        let x = rest.remove(0);
        proof {
            assert(rest@ =~= r.drop_first());
        }
        insert_file_by_path(&mut out, x);
    }
    out
}

impl PageLayoutManifest {
    /// Track `file`: it replaces the first file with its path; with none,
    /// it joins the files and they are sorted by path.
    pub fn upsert_file(&mut self, file: ManifestTrackedFile)
        ensures
            final(self).files@ == upserted(old(self).files@, file),
    {
        let ghost v = self.files@;
        let mut i: usize = 0;
        while i < self.files.len()
            invariant
                v == self.files@,
                i <= v.len(),
                forall|j: int| 0 <= j < i ==> (#[trigger] v[j]).path@ != file.path@,
            ensures
                i <= v.len(),
                forall|j: int| 0 <= j < i ==> (#[trigger] v[j]).path@ != file.path@,
                i < v.len() ==> v[i as int].path@ == file.path@,
            decreases v.len() - i,
        {
            if str_equal(self.files[i].path.as_str(), file.path.as_str()) {
                break;
            }
            i = i + 1;
        }
        proof {
            lemma_path_pos(v, file.path@, i as int);
        }
        if i < self.files.len() {
            self.files.set(i, file);
        } else {
            let mut all = Vec::new();
            std::mem::swap(&mut all, &mut self.files);
            all.push(file);
            self.files = sort_files_by_path(all);
        }
    }
}

/// A string's bytes preceded by their length.
pub open spec fn str_field(s: Seq<char>) -> Seq<u8> {
    len_bytes(encode_utf8(s))
}

/// A tracked file as bytes: path, format, version (as a `u32`), checksum,
/// and 1 or 0 for recoverable.
pub open spec fn file_bytes(f: ManifestTrackedFile) -> Seq<u8> {
    str_field(f.path@) + str_field(f.format@) + spec_u32_to_le_bytes(f.format_version as u32) + str_field(
        f.checksum@,
    ) + seq![if f.recoverable {
        1u8
    } else {
        0u8
    }]
}

/// Files as bytes, one after the other.
pub open spec fn files_bytes(v: Seq<ManifestTrackedFile>) -> Seq<u8>
    decreases v.len(),
{
    if v.len() == 0 {
        Seq::empty()
    } else {
        files_bytes(v.drop_last()) + file_bytes(v.last())
    }
}

/// The payload: the file count, then each file.
pub open spec fn manifest_payload(v: Seq<ManifestTrackedFile>) -> Seq<u8> {
    spec_u32_to_le_bytes(v.len() as u32) + files_bytes(v)
}

/// The frame: magic, version, payload length, payload checksum, payload.
pub open spec fn manifest_frame(payload: Seq<u8>) -> Seq<u8> {
    spec_u32_to_le_bytes(PAGE_MANIFEST_MAGIC) + seq![PAGE_MANIFEST_VERSION] + spec_u32_to_le_bytes(
        payload.len() as u32,
    ) + spec_u32_to_le_bytes(spec_crc32c(payload)) + payload
}

fn write_str_field(w: &mut BinaryWriter, s: &String)
    ensures
        final(w)@ == old(w)@ + str_field(s@),
{
    w.write_len_bytes(s.as_str().as_bytes());
}

/// The payload of the manifest's files.
fn encode_manifest(manifest: &PageLayoutManifest) -> (out: Vec<u8>)
    ensures
        out@ == manifest_payload(manifest.files@),
{
    let ghost v = manifest.files@;
    let mut w = BinaryWriter::new();
    w.write_u32(manifest.files.len() as u32);
    let ghost head = w@;
    let mut i: usize = 0;
    proof {
        assert(v.take(0) =~= Seq::<ManifestTrackedFile>::empty());
        assert(w@ =~= head + files_bytes(v.take(0)));
    }
    while i < manifest.files.len()
        invariant
            v == manifest.files@,
            head == spec_u32_to_le_bytes(v.len() as u32),
            i <= v.len(),
            w@ == head + files_bytes(v.take(i as int)),
        decreases v.len() - i,
    {
        let f = &manifest.files[i];
        let ghost before = w@;
        write_str_field(&mut w, &f.path);
        write_str_field(&mut w, &f.format);
        w.write_u32(f.format_version as u32);
        write_str_field(&mut w, &f.checksum);
        w.write_u8(if f.recoverable {
            1u8
        } else {
            0u8
        });
        proof {
            assert(v.take(i + 1).drop_last() =~= v.take(i as int));
            assert(v.take(i + 1).last() == v[i as int]);
            assert(w@ =~= before + file_bytes(v[i as int]));
        }
        i = i + 1;
    }
    proof {
        assert(v.take(i as int) =~= v);
    }
    w.into_inner()
}

/// A tracked file as plain values: path, format, version, checksum,
/// recoverable.
pub type FileRow = (Seq<char>, Seq<char>, u16, Seq<char>, bool);

/// A file's plain values.
pub open spec fn file_row(f: ManifestTrackedFile) -> FileRow {
    (f.path@, f.format@, f.format_version, f.checksum@, f.recoverable)
}

/// The plain values of files.
pub open spec fn file_rows(v: Seq<ManifestTrackedFile>) -> Seq<FileRow> {
    v.map_values(|f: ManifestTrackedFile| file_row(f))
}

/// Why a manifest's bytes are refused: corrupt, for a reason; or a string
/// whose bytes are not UTF-8.
pub enum ManifestFault {
    Corrupt(Seq<char>),
    BadText(Seq<u8>),
}

/// What a read at an offset gives: the value and the next offset, or the
/// fault.
pub type ManifestRead<T> = core::result::Result<(T, int), ManifestFault>;

/// A length-prefixed UTF-8 string at `o`.
pub open spec fn rd_str(p: Seq<u8>, o: int) -> ManifestRead<Seq<char>> {
    match rd_len_bytes(p, o) {
        Err(m) => Err(ManifestFault::Corrupt(m)),
        Ok((b, o2)) => if valid_utf8(b) {
            Ok((decode_utf8(b), o2))
        } else {
            Err(ManifestFault::BadText(b))
        },
    }
}

/// A tracked file at `o`: the version is read as a `u32` and cut to 16
/// bits; any byte but 0 means recoverable.
pub open spec fn rd_file(p: Seq<u8>, o: int) -> ManifestRead<FileRow> {
    match rd_str(p, o) {
        Err(f) => Err(f),
        Ok((path, o1)) => match rd_str(p, o1) {
            Err(f) => Err(f),
            Ok((format, o2)) => match rd_u32(p, o2) {
                Err(m) => Err(ManifestFault::Corrupt(m)),
                Ok((v, o3)) => match rd_str(p, o3) {
                    Err(f) => Err(f),
                    Ok((ck, o4)) => match rd_u8(p, o4) {
                        Err(m) => Err(ManifestFault::Corrupt(m)),
                        Ok((r, o5)) => Ok(((path, format, v as u16, ck, r != 0), o5)),
                    },
                },
            },
        },
    }
}

/// `k` more files from `o` on, after those in `acc`.
pub open spec fn rd_files(p: Seq<u8>, o: int, k: nat, acc: Seq<FileRow>) -> ManifestRead<Seq<FileRow>>
    decreases k,
{
    if k == 0 {
        Ok((acc, o))
    } else {
        match rd_file(p, o) {
            Err(f) => Err(f),
            Ok((x, o2)) => rd_files(p, o2, (k - 1) as nat, acc.push(x)),
        }
    }
}

/// What a payload reads as: the count, then that many files; bytes after
/// the last are ignored.
pub open spec fn parse_manifest_payload(p: Seq<u8>) -> core::result::Result<Seq<FileRow>, ManifestFault> {
    match rd_u32(p, 0) {
        Err(m) => Err(ManifestFault::Corrupt(m)),
        Ok((n, o)) => match rd_files(p, o, n as nat, Seq::empty()) {
            Err(f) => Err(f),
            Ok((v, _)) => Ok(v),
        },
    }
}

/// What a page manifest's bytes read as: the files, or why they are
/// refused.
pub open spec fn parse_page_manifest(b: Seq<u8>) -> core::result::Result<Seq<FileRow>, ManifestFault> {
    if b.len() < 13 {
        Err(ManifestFault::Corrupt("truncated page manifest header"@))
    } else if u32_at(b, 0) != PAGE_MANIFEST_MAGIC {
        Err(ManifestFault::Corrupt("bad page manifest magic"@))
    } else if b[4] != PAGE_MANIFEST_VERSION {
        Err(ManifestFault::Corrupt("unsupported page manifest version "@ + dec_str(b[4] as nat)))
    } else if b.len() < 13 + u32_at(b, 5) {
        Err(ManifestFault::Corrupt("truncated page manifest payload"@))
    } else {
        let p = b.subrange(13, 13 + u32_at(b, 5));
        if spec_crc32c(p) != u32_at(b, 9) {
            Err(
                ManifestFault::Corrupt(
                    "page manifest checksum mismatch: expected "@ + hex32(u32_at(b, 9)) + ", got "@
                        + hex32(spec_crc32c(p)),
                ),
            )
        } else {
            parse_manifest_payload(p)
        }
    }
}

/// The error reports the fault: corrupt bytes at `source`, or the UTF-8
/// error's message as a refused configuration.
pub open spec fn fault_matches(e: PraxisError, f: ManifestFault, source: Seq<char>) -> bool {
    match f {
        ManifestFault::Corrupt(m) => is_corrupt_at(e, source, m),
        ManifestFault::BadText(b) => e matches PraxisError::InvalidConfig(s) && s@ == utf8_error_text(b),
    }
}

/// The reader's result matches the spec's read.
pub open spec fn read_agrees<T, V>(
    r: Result<T>,
    s: ManifestRead<V>,
    view: spec_fn(T) -> V,
    after: BinaryReader,
    source: Seq<char>,
) -> bool {
    match (r, s) {
        (Ok(v), Ok((sv, o))) => view(v) == sv && after.pos() == o,
        (Err(e), Err(f)) => fault_matches(e, f, source),
        _ => false,
    }
}

fn read_str(reader: &mut BinaryReader) -> (r: Result<String>)
    requires
        old(reader).wf(),
    ensures
        same_input(*old(reader), *final(reader)),
        read_agrees(r, rd_str(old(reader).data(), old(reader).pos()), |s: String| s@, *final(reader), old(reader).source()),
{
    let b = read_len_bytes_step(reader)?;
    match string_from_utf8(b) {
        Ok(s) => Ok(s),
        Err(m) => Err(PraxisError::InvalidConfig(m)),
    }
}

fn read_file(reader: &mut BinaryReader) -> (r: Result<ManifestTrackedFile>)
    requires
        old(reader).wf(),
    ensures
        same_input(*old(reader), *final(reader)),
        read_agrees(
            r,
            rd_file(old(reader).data(), old(reader).pos()),
            |f: ManifestTrackedFile| file_row(f),
            *final(reader),
            old(reader).source(),
        ),
{
    let path = read_str(reader)?;
    let format = read_str(reader)?;
    let v = read_u32_step(reader)?;
    let checksum = read_str(reader)?;
    let r = read_u8_step(reader)?;
    Ok(ManifestTrackedFile { path, format, format_version: #[verifier::truncate] (v as u16), checksum, recoverable: r != 0 })
}

#[verifier::loop_isolation(false)]
fn read_payload(reader: &mut BinaryReader) -> (r: Result<PageLayoutManifest>)
    requires
        old(reader).wf(),
        old(reader).pos() == 0,
    ensures
        match (r, parse_manifest_payload(old(reader).data())) {
            (Ok(m), Ok(v)) => file_rows(m.files@) == v,
            (Err(e), Err(f)) => fault_matches(e, f, old(reader).source()),
            _ => false,
        },
{
    let ghost p = reader.data();
    let ghost src = reader.source();
    let n = match read_u32_step(reader) {
        Ok(n) => n,
        Err(e) => {
            return Err(e);
        },
    };
    let ghost o = reader.pos();
    let mut files: Vec<ManifestTrackedFile> = Vec::new();
    let mut i: u32 = 0;
    proof {
        assert(file_rows(files@) =~= Seq::<FileRow>::empty());
    }
    while i < n
        invariant
            reader.wf(),
            reader.data() == p,
            reader.source() == src,
            i <= n,
            rd_files(p, o, n as nat, Seq::empty()) == rd_files(p, reader.pos(), (n - i) as nat, file_rows(files@)),
        decreases n - i,
    {
        let ghost before = file_rows(files@);
        let f = read_file(reader)?;
        files.push(f);
        proof {
            assert(file_rows(files@) =~= before.push(file_row(f)));
        }
        i = i + 1;
    }
    Ok(PageLayoutManifest { files })
}


/// A file's strings fit the `u32` lengths written before them.
pub open spec fn file_fits(f: ManifestTrackedFile) -> bool {
    &&& encode_utf8(f.path@).len() <= u32::MAX
    &&& encode_utf8(f.format@).len() <= u32::MAX
    &&& encode_utf8(f.checksum@).len() <= u32::MAX
}

/// The files, their count and their payload fit the `u32` lengths written
/// before them.
pub open spec fn manifest_fits(v: Seq<ManifestTrackedFile>) -> bool {
    &&& v.len() <= u32::MAX
    &&& forall|i: int| 0 <= i < v.len() ==> file_fits(#[trigger] v[i])
    &&& manifest_payload(v).len() <= u32::MAX
}

/// A string field reads back from its bytes.
#[verifier::spinoff_prover]
proof fn lemma_str_reads(a: Seq<u8>, t: Seq<char>, b: Seq<u8>)
    requires
        encode_utf8(t).len() <= u32::MAX,
    ensures
        rd_str(a + str_field(t) + b, a.len() as int) == ManifestRead::<Seq<char>>::Ok(
            (t, (a.len() + str_field(t).len()) as int),
        ),
{
    lemma_le_lengths();
    lemma_rd_len_bytes_at(a, encode_utf8(t), b);
    encode_utf8_valid_utf8(t);
    encode_utf8_decode_utf8(t);
}

/// A file reads back from its bytes, wherever they stand.
#[verifier::spinoff_prover]
#[verifier::rlimit(50)]
proof fn lemma_file_reads(a: Seq<u8>, f: ManifestTrackedFile, b: Seq<u8>)
    requires
        file_fits(f),
    ensures
        rd_file(a + file_bytes(f) + b, a.len() as int) == ManifestRead::<FileRow>::Ok(
            (file_row(f), (a.len() + file_bytes(f).len()) as int),
        ),
{
    lemma_le_lengths();
    let s1 = str_field(f.path@);
    let s2 = str_field(f.format@);
    let s3 = spec_u32_to_le_bytes(f.format_version as u32);
    let s4 = str_field(f.checksum@);
    let r: u8 = if f.recoverable {
        1u8
    } else {
        0u8
    };
    let s5 = seq![r];
    let p = a + file_bytes(f) + b;
    let o0 = a.len() as int;
    let o1 = o0 + s1.len();
    let o2 = o1 + s2.len();
    let o3 = o2 + 4;
    let o4 = o3 + s4.len();
    assert(file_bytes(f) =~= s1 + s2 + s3 + s4 + s5);
    assert(rd_str(p, o0) == ManifestRead::<Seq<char>>::Ok((f.path@, o1))) by {
        assert(p =~= a + s1 + (s2 + s3 + s4 + s5 + b));
        lemma_str_reads(a, f.path@, s2 + s3 + s4 + s5 + b);
    }
    assert(rd_str(p, o1) == ManifestRead::<Seq<char>>::Ok((f.format@, o2))) by {
        assert(p =~= (a + s1) + s2 + (s3 + s4 + s5 + b));
        lemma_str_reads(a + s1, f.format@, s3 + s4 + s5 + b);
    }
    assert(rd_u32(p, o2) == core::result::Result::<(u32, int), Seq<char>>::Ok((f.format_version as u32, o3))) by {
        assert(p =~= (a + s1 + s2) + s3 + (s4 + s5 + b));
        lemma_rd_u32_at(a + s1 + s2, f.format_version as u32, s4 + s5 + b);
    }
    assert(rd_str(p, o3) == ManifestRead::<Seq<char>>::Ok((f.checksum@, o4))) by {
        assert(p =~= (a + s1 + s2 + s3) + s4 + (s5 + b));
        lemma_str_reads(a + s1 + s2 + s3, f.checksum@, s5 + b);
    }
    assert(rd_u8(p, o4) == core::result::Result::<(u8, int), Seq<char>>::Ok((r, o4 + 1))) by {
        assert(p =~= (a + s1 + s2 + s3 + s4) + seq![r] + b);
        lemma_rd_u8_at(a + s1 + s2 + s3 + s4, r, b);
    }
    assert((f.format_version as u32) as u16 == f.format_version);
}

/// The bytes of the first `j` files are a prefix of the bytes of them all.
#[verifier::spinoff_prover]
proof fn lemma_files_bytes_prefix(v: Seq<ManifestTrackedFile>, j: int)
    requires
        0 <= j <= v.len(),
    ensures
        files_bytes(v.take(j)).len() <= files_bytes(v).len(),
        files_bytes(v).take(files_bytes(v.take(j)).len() as int) =~= files_bytes(v.take(j)),
    decreases v.len(),
{
    if j == v.len() {
        assert(v.take(j) =~= v);
    } else {
        lemma_files_bytes_prefix(v.drop_last(), j);
        assert(v.drop_last().take(j) =~= v.take(j));
        let a = files_bytes(v.drop_last());
        let n = files_bytes(v.take(j)).len() as int;
        assert((a + file_bytes(v.last())).take(n) =~= a.take(n));
    }
}

/// Having read the first `j` files back, the rest read back too.
#[verifier::spinoff_prover]
#[verifier::rlimit(40)]
proof fn lemma_rd_files_at(h: Seq<u8>, v: Seq<ManifestTrackedFile>, j: int, tail: Seq<u8>)
    requires
        0 <= j <= v.len(),
        forall|i: int| 0 <= i < v.len() ==> file_fits(#[trigger] v[i]),
    ensures
        rd_files(
            h + files_bytes(v) + tail,
            (h.len() + files_bytes(v.take(j)).len()) as int,
            (v.len() - j) as nat,
            file_rows(v.take(j)),
        ) == ManifestRead::<Seq<FileRow>>::Ok((file_rows(v), (h.len() + files_bytes(v).len()) as int)),
    decreases v.len() - j,
{
    let p = h + files_bytes(v) + tail;
    if j == v.len() {
        assert(v.take(j) =~= v);
    } else {
        let pre = files_bytes(v.take(j));
        let big = files_bytes(v.take(j + 1));
        lemma_files_bytes_prefix(v, j + 1);
        assert(v.take(j + 1).drop_last() =~= v.take(j));
        assert(v.take(j + 1).last() == v[j]);
        assert(big == pre + file_bytes(v[j]));
        let rest = files_bytes(v).skip(big.len() as int);
        assert(files_bytes(v) =~= big + rest);
        assert(p =~= (h + pre) + file_bytes(v[j]) + (rest + tail));
        lemma_file_reads(h + pre, v[j], rest + tail);
        assert(file_rows(v.take(j)).push(file_row(v[j])) =~= file_rows(v.take(j + 1)));
        lemma_rd_files_at(h, v, j + 1, tail);
    }
}

/// A page manifest's bytes read back as the files they were written from.
#[verifier::spinoff_prover]
pub proof fn lemma_manifest_roundtrip(v: Seq<ManifestTrackedFile>)
    requires
        manifest_fits(v),
    ensures
        parse_page_manifest(manifest_frame(manifest_payload(v))) == core::result::Result::<
            Seq<FileRow>,
            ManifestFault,
        >::Ok(file_rows(v)),
{
    lemma_le_lengths();
    let n = spec_u32_to_le_bytes(v.len() as u32);
    let p = manifest_payload(v);
    assert(p =~= Seq::<u8>::empty() + n + (files_bytes(v) + Seq::<u8>::empty()));
    lemma_rd_u32_at(Seq::<u8>::empty(), v.len() as u32, files_bytes(v) + Seq::<u8>::empty());
    assert(p =~= n + files_bytes(v) + Seq::<u8>::empty());
    assert(v.take(0) =~= Seq::<ManifestTrackedFile>::empty());
    assert(file_rows(v.take(0)) =~= Seq::<FileRow>::empty());
    lemma_rd_files_at(n, v, 0, Seq::<u8>::empty());
    let m = spec_u32_to_le_bytes(PAGE_MANIFEST_MAGIC);
    let ver = seq![PAGE_MANIFEST_VERSION];
    let l = spec_u32_to_le_bytes(p.len() as u32);
    let c = spec_u32_to_le_bytes(spec_crc32c(p));
    let b = manifest_frame(p);
    assert(b =~= Seq::<u8>::empty() + m + (ver + l + c + p));
    lemma_u32_at(Seq::<u8>::empty(), PAGE_MANIFEST_MAGIC, ver + l + c + p);
    assert(b[4] == PAGE_MANIFEST_VERSION);
    assert(b =~= (m + ver) + l + (c + p));
    lemma_u32_at(m + ver, p.len() as u32, c + p);
    assert(b =~= (m + ver + l) + c + p);
    lemma_u32_at(m + ver + l, spec_crc32c(p), p);
    assert(b.subrange(13, 13 + p.len() as int) =~= p);
}


/// Where the page manifest lives; reading and writing the file is the
/// caller's.
#[derive(Clone, Debug, PartialEq, Eq)]
pub struct PageManifestStore {
    path: String,
}

impl PageManifestStore {
    pub closed spec fn spec_path(&self) -> Seq<char> {
        self.path@
    }

    pub fn open(path: &str) -> (s: PageManifestStore)
        ensures
            s.spec_path() == path@,
    {
        PageManifestStore { path: String::from_str(path) }
    }

    pub fn path(&self) -> (p: &str)
        ensures
            p@ == self.spec_path(),
    {
        self.path.as_str()
    }

    /// The manifest's bytes: the frame around its payload.
    pub fn encode(&self, manifest: &PageLayoutManifest) -> (out: Vec<u8>)
        ensures
            out@ == manifest_frame(manifest_payload(manifest.files@)),
    {
        let payload = encode_manifest(manifest);
        let mut out = BinaryWriter::new();
        out.write_u32(PAGE_MANIFEST_MAGIC);
        out.write_u8(PAGE_MANIFEST_VERSION);
        out.write_u32(payload.len() as u32);
        out.write_u32(crc32c(payload.as_slice()));
        out.write_bytes(payload.as_slice());
        proof {
            assert(out@ =~= manifest_frame(payload@));
        }
        out.into_inner()
    }

    /// The manifest in `bytes`, read from the page manifest's file; errors
    /// name the store's path.
    pub fn decode(&self, bytes: &[u8]) -> (r: Result<PageLayoutManifest>)
        ensures
            match (r, parse_page_manifest(bytes@)) {
                (Ok(m), Ok(v)) => file_rows(m.files@) == v,
                (Err(e), Err(f)) => fault_matches(e, f, self.spec_path()),
                _ => false,
            },
    {
        let source = self.path.as_str();
        if bytes.len() < 13 {
            return Err(corrupt_at(source, String::from_str("truncated page manifest header")));
        }
        if read_u32_at(bytes, 0) != PAGE_MANIFEST_MAGIC {
            return Err(corrupt_at(source, String::from_str("bad page manifest magic")));
        }
        if bytes[4] != PAGE_MANIFEST_VERSION {
            return Err(corrupt_at(source, tag_message("unsupported page manifest version ", bytes[4])));
        }
        let len = read_u32_at(bytes, 5);
        let expected = read_u32_at(bytes, 9);
        if bytes.len() - 13 < len as usize {
            return Err(corrupt_at(source, String::from_str("truncated page manifest payload")));
        }
        let payload = slice_subrange(bytes, 13, 13 + len as usize);
        let actual = crc32c(payload);
        if actual != expected {
            let mut m = String::from_str("page manifest checksum mismatch: expected ");
            let a = hex32_string(expected);
            m.append(a.as_str());
            m.append(", got ");
            let b = hex32_string(actual);
            m.append(b.as_str());
            return Err(corrupt_at(source, m));
        }
        let mut reader = BinaryReader::new(payload, source);
        read_payload(&mut reader)
    }

    /// Track `file` in `manifest` (see `upserted`).
    pub fn track_file(&self, manifest: &mut PageLayoutManifest, file: ManifestTrackedFile)
        ensures
            final(manifest).files@ == upserted(old(manifest).files@, file),
    {
        manifest.upsert_file(file);
    }

    /// Track the file at `path` holding `bytes`: recoverable, with
    /// `format` at `format_version`, its checksum the CRC-32C of the bytes
    /// in eight lower-case hex digits.
    pub fn track_bytes(
        &self,
        manifest: &mut PageLayoutManifest,
        path: &str,
        format: &str,
        format_version: u16,
        bytes: &[u8],
    )
        ensures
            exists|f: ManifestTrackedFile| {
                &&& f.path@ == path@
                &&& f.format@ == format@
                &&& f.format_version == format_version
                &&& f.checksum@ == hex_padded(spec_crc32c(bytes@) as nat, 8)
                &&& f.recoverable
                &&& final(manifest).files@ == upserted(old(manifest).files@, f)
            },
    {
        let crc = crc32c(bytes);
        let checksum = hex_padded_string(crc as u64, 8);
        let f = ManifestTrackedFile::durable(path, format, format_version, checksum.as_str());
        let ghost g = f;
        self.track_file(manifest, f);
    }
}


/// Paths in strictly increasing order, so no path occurs twice.
pub open spec fn paths_sorted(v: Seq<ManifestTrackedFile>) -> bool {
    forall|i: int, j: int| 0 <= i < j < v.len() ==> bytes_lt(path_key(v[i]), path_key(v[j]))
}

/// How many leading files have paths that do not sort after `f`'s.
spec fn lead_len(v: Seq<ManifestTrackedFile>, f: ManifestTrackedFile) -> int
    decreases v.len(),
{
    if v.len() == 0 {
        0
    } else if !bytes_lt(path_key(f), path_key(v[0])) {
        1 + lead_len(v.drop_first(), f)
    } else {
        0
    }
}

proof fn lemma_lead(v: Seq<ManifestTrackedFile>, f: ManifestTrackedFile)
    requires
        paths_sorted(v),
    ensures
        0 <= lead_len(v, f) <= v.len(),
        forall|j: int| 0 <= j < lead_len(v, f) ==> !bytes_lt(path_key(f), path_key(#[trigger] v[j])),
        forall|j: int| lead_len(v, f) <= j < v.len() ==> bytes_lt(path_key(f), path_key(#[trigger] v[j])),
    decreases v.len(),
{
    if v.len() > 0 {
        let d = v.drop_first();
        assert forall|i: int, j: int| 0 <= i < j < d.len() implies bytes_lt(path_key(d[i]), path_key(d[j])) by {
            assert(d[i] == v[i + 1] && d[j] == v[j + 1]);
        }
        lemma_lead(d, f);
        if !bytes_lt(path_key(f), path_key(v[0])) {
            assert forall|j: int| 0 <= j < lead_len(v, f) implies !bytes_lt(path_key(f), path_key(#[trigger] v[j])) by {
                if j > 0 {
                    assert(v[j] == d[j - 1]);
                }
            }
            assert forall|j: int| lead_len(v, f) <= j < v.len() implies bytes_lt(path_key(f), path_key(#[trigger] v[j])) by {
                assert(v[j] == d[j - 1]);
            }
        } else {
            assert forall|j: int| lead_len(v, f) <= j < v.len() implies bytes_lt(path_key(f), path_key(#[trigger] v[j])) by {
                if j > 0 {
                    lemma_bytes_lt_transitive(path_key(f), path_key(v[0]), path_key(v[j]));
                }
            }
        }
    }
}

/// Inserting a file whose path sorts apart from every other keeps the
/// paths strictly sorted and adds only that file.
proof fn lemma_insert_sorted(v: Seq<ManifestTrackedFile>, f: ManifestTrackedFile)
    requires
        paths_sorted(v),
        forall|j: int| 0 <= j < v.len() ==> path_key(#[trigger] v[j]) != path_key(f),
    ensures
        paths_sorted(insert_by_path(v, f)),
        forall|x: ManifestTrackedFile| #[trigger] insert_by_path(v, f).contains(x) ==> x == f || v.contains(x),
{
    lemma_lead(v, f);
    let q = lead_len(v, f);
    lemma_filter_prefix(v, not_after(f), q);
    assert(v.filter(not_after(f)).len() == q);
    let w = insert_by_path(v, f);
    assert(w == v.insert(q, f));
    assert forall|j: int| 0 <= j < q implies bytes_lt(path_key(#[trigger] v[j]), path_key(f)) by {
        lemma_bytes_lt_total(path_key(v[j]), path_key(f));
    }
    assert forall|i: int, j: int| 0 <= i < j < w.len() implies bytes_lt(path_key(w[i]), path_key(w[j])) by {
        if j < q {
            assert(w[i] == v[i] && w[j] == v[j]);
        } else if j == q {
            assert(w[i] == v[i]);
        } else if i < q {
            assert(w[i] == v[i] && w[j] == v[j - 1]);
            lemma_bytes_lt_transitive(path_key(v[i]), path_key(f), path_key(v[j - 1]));
        } else if i == q {
            assert(w[j] == v[j - 1]);
        } else {
            assert(w[i] == v[i - 1] && w[j] == v[j - 1]);
        }
    }
    assert forall|x: ManifestTrackedFile| #[trigger] w.contains(x) implies x == f || v.contains(x) by {
        let m = choose|m: int| 0 <= m < w.len() && w[m] == x;
        if m < q {
            assert(w[m] == v[m]);
        } else if m > q {
            assert(w[m] == v[m - 1]);
        }
    }
}

/// Inserting files whose paths sort apart from each other and from those
/// already there keeps the paths strictly sorted.
proof fn lemma_sort_onto_sorted(acc: Seq<ManifestTrackedFile>, rest: Seq<ManifestTrackedFile>)
    requires
        paths_sorted(acc),
        forall|i: int, j: int| 0 <= i < j < rest.len() ==> path_key(#[trigger] rest[i]) != path_key(#[trigger] rest[j]),
        forall|a: ManifestTrackedFile, i: int| #[trigger] acc.contains(a) && 0 <= i < rest.len() ==> path_key(a)
            != path_key(#[trigger] rest[i]),
    ensures
        paths_sorted(sort_onto(acc, rest)),
    decreases rest.len(),
{
    if rest.len() > 0 {
        let f = rest[0];
        assert forall|j: int| 0 <= j < acc.len() implies path_key(#[trigger] acc[j]) != path_key(f) by {
            assert(acc.contains(acc[j]));
        }
        lemma_insert_sorted(acc, f);
        let acc2 = insert_by_path(acc, f);
        let r2 = rest.drop_first();
        assert forall|i: int, j: int| 0 <= i < j < r2.len() implies path_key(#[trigger] r2[i]) != path_key(#[trigger] r2[j]) by {
            assert(r2[i] == rest[i + 1] && r2[j] == rest[j + 1]);
        }
        assert forall|a: ManifestTrackedFile, i: int| #[trigger] acc2.contains(a) && 0 <= i < r2.len() implies path_key(a)
            != path_key(#[trigger] r2[i]) by {
            assert(r2[i] == rest[i + 1]);
            if a != f {
                assert(acc.contains(a));
            }
        }
        lemma_sort_onto_sorted(acc2, r2);
    }
}

/// Where `path_pos` stops: every file before has another path, and the
/// file there, if any, has this one.
proof fn lemma_path_pos_stops(v: Seq<ManifestTrackedFile>, p: Seq<char>)
    ensures
        0 <= path_pos(v, p) <= v.len(),
        forall|j: int| 0 <= j < path_pos(v, p) ==> (#[trigger] v[j]).path@ != p,
        path_pos(v, p) < v.len() ==> v[path_pos(v, p)].path@ == p,
    decreases v.len(),
{
    if v.len() > 0 && v[0].path@ != p {
        let d = v.drop_first();
        lemma_path_pos_stops(d, p);
        assert forall|j: int| 0 <= j < path_pos(v, p) implies (#[trigger] v[j]).path@ != p by {
            if j > 0 {
                assert(v[j] == d[j - 1]);
            }
        }
    }
}

/// Tracking a file keeps the paths strictly sorted, with no path twice:
/// a file with the same path is replaced in place, and otherwise the new
/// file joins at its place in path order.
pub proof fn lemma_upsert_keeps_sorted(v: Seq<ManifestTrackedFile>, f: ManifestTrackedFile)
    requires
        paths_sorted(v),
    ensures
        paths_sorted(upserted(v, f)),
        upserted(v, f).contains(f),
        path_pos(v, f.path@) < v.len() ==> upserted(v, f) == v.update(path_pos(v, f.path@), f),
{
    broadcast use encode_utf8_decode_utf8;

    lemma_path_pos_stops(v, f.path@);
    let p = path_pos(v, f.path@);
    if p < v.len() {
        let w = v.update(p, f);
        assert(path_key(f) == path_key(v[p]));
        assert forall|i: int, j: int| 0 <= i < j < w.len() implies bytes_lt(path_key(w[i]), path_key(w[j])) by {
            assert(path_key(w[i]) == path_key(v[i]) && path_key(w[j]) == path_key(v[j]));
        }
        assert(w[p] == f);
    } else {
        let r = v.push(f);
        assert forall|i: int, j: int| 0 <= i < j < r.len() implies path_key(#[trigger] r[i]) != path_key(#[trigger] r[j]) by {
            if j < v.len() {
                assert(r[i] == v[i] && r[j] == v[j]);
                lemma_bytes_lt_irreflexive(path_key(v[i]));
            } else {
                assert(r[i] == v[i] && r[j] == f);
                assert(v[i].path@ != f.path@);
                if path_key(v[i]) == path_key(f) {
                    assert(decode_utf8(encode_utf8(v[i].path@)) == v[i].path@);
                    assert(decode_utf8(encode_utf8(f.path@)) == f.path@);
                }
            }
        }
        assert(paths_sorted(Seq::<ManifestTrackedFile>::empty()));
        lemma_sort_onto_sorted(Seq::empty(), r);
        assert(r[r.len() - 1] == f);
        lemma_sort_onto_contains(Seq::empty(), r, f);
    }
}

/// Every file of `rest` ends up among the files sorted onto `acc`.
proof fn lemma_sort_onto_contains(acc: Seq<ManifestTrackedFile>, rest: Seq<ManifestTrackedFile>, x: ManifestTrackedFile)
    requires
        acc.contains(x) || rest.contains(x),
    ensures
        sort_onto(acc, rest).contains(x),
    decreases rest.len(),
{
    if rest.len() > 0 {
        let f = rest[0];
        let q = acc.filter(not_after(f)).len() as int;
        let acc2 = insert_by_path(acc, f);
        assert(acc.filter(not_after(f)).len() <= acc.len()) by {
            acc.lemma_filter_len(not_after(f));
        }
        if x == f {
            assert(acc2[q] == f);
        } else if acc.contains(x) {
            let m = choose|m: int| 0 <= m < acc.len() && acc[m] == x;
            if m < q {
                assert(acc2[m] == x);
            } else {
                assert(acc2[m + 1] == x);
            }
        } else {
            let m = choose|m: int| 0 <= m < rest.len() && rest[m] == x;
            assert(rest.drop_first()[m - 1] == x);
        }
        lemma_sort_onto_contains(acc2, rest.drop_first(), x);
    }
}

} // verus!
