//! A B-tree page: entries ordered by key and, within a key, newest sequence
//! first; its slotted layout; and its checksummed byte form.
use crate::bytes_order::{
    bytes_lt, compare_bytes, lemma_bytes_lt_asymmetric, lemma_bytes_lt_irreflexive,
    lemma_bytes_lt_total, lemma_bytes_lt_transitive,
};
use crate::errors::{Result, TridentError};
use crate::io::binary::{copy_bytes, is_end_of_data, BinaryReader, BinaryWriter};
use crate::io::checksum::{crc32c, lemma_crc32c_detects_byte_change, spec_crc32c};
use crate::io::parse::{
    corrupt_at, end_of_data, hex32, hex32_string, is_corrupt_at, lemma_rd_len_bytes_at, lemma_rd_u32_at,
    lemma_rd_u64_at, lemma_rd_u8_at, len_bytes, rd_len_bytes, rd_u32, rd_u64, rd_u8, read_len_bytes_step,
    read_u32_step, read_u64_step, read_u8_step, same_input, step_matches, tag_message,
};
use crate::le::{lemma_le_lengths, lemma_u32_at, lemma_u64_at, read_u32_at, u32_at, u64_at};
use crate::text::{concat_str, dec_str, decimal_padded, hex_padded, hex_padded_string, zero_pad};
use vstd::bytes::{spec_u32_from_le_bytes, spec_u32_to_le_bytes, spec_u64_from_le_bytes, spec_u64_to_le_bytes};
use vstd::slice::slice_subrange;
use vstd::string::*;
use crate::seqs::lemma_filter_none;
use crate::store::RecordId;
use vstd::prelude::*;

verus! {

broadcast use vstd::seq_lib::group_seq_lib_default;

/// The first four bytes of a page, little-endian: "BGPT".
pub const BTREE_PAGE_MAGIC: u32 = 0x5450_4742;

/// The page format's version byte.
pub const BTREE_PAGE_VERSION: u8 = 2;

/// The size of a page in bytes.
pub const DEFAULT_PAGE_SIZE: u32 = 16384;

/// The identifier of a page.
#[derive(Clone, Copy, Debug, PartialEq, Eq, Structural)]
pub struct BTreePageId(pub u64);

/// Whether a page is a leaf or an internal page.
#[derive(Clone, Copy, Debug, PartialEq, Eq, Structural)]
pub enum BTreePageKind {
    Leaf,
    Internal,
}

/// One versioned entry: a key, the sequence number it was written at, the
/// record it points to, whether it is a ghost (logically deleted), and the
/// page that holds its overflow, if any.
#[derive(Clone, Debug, PartialEq, Eq)]
pub struct BTreePageEntry {
    pub key: Vec<u8>,
    pub sequence: u64,
    pub rid: RecordId,
    pub is_ghost: bool,
    pub overflow_page: Option<BTreePageId>,
}

/// An entry seen as plain values.
pub struct EntryView {
    pub key: Seq<u8>,
    pub sequence: u64,
    pub rid: RecordId,
    pub is_ghost: bool,
    pub overflow_page: Option<BTreePageId>,
}

impl View for BTreePageEntry {
    type V = EntryView;

    open spec fn view(&self) -> EntryView {
        EntryView {
            key: self.key@,
            sequence: self.sequence,
            rid: self.rid,
            is_ghost: self.is_ghost,
            overflow_page: self.overflow_page,
        }
    }
}

/// The entries seen as plain values.
pub open spec fn entries_view(s: Seq<BTreePageEntry>) -> Seq<EntryView> {
    s.map_values(|e: BTreePageEntry| e@)
}

/// A copy of an entry.
pub fn copy_entry(e: &BTreePageEntry) -> (c: BTreePageEntry)
    ensures
        c@ == e@,
{
    BTreePageEntry {
        key: copy_bytes(e.key.as_slice()),
        sequence: e.sequence,
        rid: e.rid,
        is_ghost: e.is_ghost,
        overflow_page: e.overflow_page,
    }
}

/// A page seen as plain values.
pub struct PageView {
    pub page_id: BTreePageId,
    pub kind: BTreePageKind,
    pub page_lsn: u64,
    pub left_sibling: Option<BTreePageId>,
    pub right_sibling: Option<BTreePageId>,
    pub low_fence: Option<Seq<u8>>,
    pub high_fence: Option<Seq<u8>>,
    pub compressed: bool,
    pub entries: Seq<EntryView>,
}

/// A page of the B-tree.
#[derive(Debug)]
pub struct BTreePage {
    pub page_id: BTreePageId,
    pub kind: BTreePageKind,
    pub page_lsn: u64,
    pub left_sibling: Option<BTreePageId>,
    pub right_sibling: Option<BTreePageId>,
    pub low_fence: Option<Vec<u8>>,
    pub high_fence: Option<Vec<u8>>,
    pub compressed: bool,
    entries: Vec<BTreePageEntry>,
}

/// A fence seen as plain values.
pub open spec fn fence_view(f: Option<Vec<u8>>) -> Option<Seq<u8>> {
    match f {
        Some(b) => Some(b@),
        None => None,
    }
}

impl View for BTreePage {
    type V = PageView;

    closed spec fn view(&self) -> PageView {
        PageView {
            page_id: self.page_id,
            kind: self.kind,
            page_lsn: self.page_lsn,
            left_sibling: self.left_sibling,
            right_sibling: self.right_sibling,
            low_fence: fence_view(self.low_fence),
            high_fence: fence_view(self.high_fence),
            compressed: self.compressed,
            entries: entries_view(self.entries@),
        }
    }
}

/// The entry is visible at `sequence` under `key`: not a ghost, with that
/// key, and written at or before that sequence.
pub open spec fn visible_at(e: EntryView, key: Seq<u8>, sequence: u64) -> bool {
    !e.is_ghost && e.key == key && e.sequence <= sequence
}

/// The entry has exactly this key and sequence.
pub open spec fn written_at(e: EntryView, key: Seq<u8>, sequence: u64) -> bool {
    e.key == key && e.sequence == sequence
}

/// `i` is the first entry that satisfies `p`.
pub open spec fn is_first(s: Seq<EntryView>, p: spec_fn(EntryView) -> bool, i: int) -> bool {
    &&& 0 <= i < s.len()
    &&& p(s[i])
    &&& forall|j: int| 0 <= j < i ==> !p(#[trigger] s[j])
}

/// No entry satisfies `p`.
pub open spec fn none_match(s: Seq<EntryView>, p: spec_fn(EntryView) -> bool) -> bool {
    forall|j: int| 0 <= j < s.len() ==> !p(#[trigger] s[j])
}

/// At most one entry is the first to satisfy `p`, and either one is or
/// none satisfies it: so `find_at` reads, and `mark_ghost` marks, the same
/// single entry, and `mark_ghost` finds one exactly when `find_at` does.
pub proof fn lemma_first_unique(s: Seq<EntryView>, p: spec_fn(EntryView) -> bool, i: int, j: int)
    ensures
        is_first(s, p, i) && is_first(s, p, j) ==> i == j,
        is_first(s, p, i) ==> !none_match(s, p),
        none_match(s, p) || exists|k: int| is_first(s, p, k),
    decreases s.len(),
{
    if is_first(s, p, i) && is_first(s, p, j) {
        if i < j {
            assert(!p(s[i]));
        } else if j < i {
            assert(!p(s[j]));
        }
    }
    if !none_match(s, p) {
        let m = choose|m: int| 0 <= m < s.len() && p(s[m]);
        lemma_first_exists(s, p, m);
    }
}

/// Where some entry satisfies `p`, a first one does.
proof fn lemma_first_exists(s: Seq<EntryView>, p: spec_fn(EntryView) -> bool, m: int)
    requires
        0 <= m < s.len(),
        p(s[m]),
    ensures
        exists|k: int| is_first(s, p, k),
    decreases m,
{
    if forall|j: int| 0 <= j < m ==> !p(#[trigger] s[j]) {
        assert(is_first(s, p, m));
    } else {
        let j = choose|j: int| 0 <= j < m && p(s[j]);
        lemma_first_exists(s, p, j);
    }
}

/// Entry `i` is what a read of `key` at `sequence` returns: it is not a
/// ghost, has that key and a sequence no later, and no earlier entry is
/// such an entry.
pub open spec fn read_hit(s: Seq<EntryView>, key: Seq<u8>, sequence: u64, i: int) -> bool {
    &&& 0 <= i < s.len()
    &&& !s[i].is_ghost
    &&& s[i].key == key
    &&& s[i].sequence <= sequence
    &&& forall|j: int| 0 <= j < i ==> (#[trigger] s[j]).is_ghost || s[j].key != key || s[j].sequence > sequence
}

/// A read of `key` at `sequence` finds nothing: every entry is a ghost,
/// has another key, or a later sequence.
pub open spec fn read_miss(s: Seq<EntryView>, key: Seq<u8>, sequence: u64) -> bool {
    forall|j: int| 0 <= j < s.len() ==> (#[trigger] s[j]).is_ghost || s[j].key != key || s[j].sequence > sequence
}

/// The first visible entry is the one a read returns, and none visible
/// means a read finds nothing.
proof fn lemma_visible_reads(s: Seq<EntryView>, key: Seq<u8>, sequence: u64)
    ensures
        forall|i: int| #[trigger] is_first(s, visible(key, sequence), i) ==> read_hit(s, key, sequence, i),
        none_match(s, visible(key, sequence)) ==> read_miss(s, key, sequence),
{
    assert forall|i: int| #[trigger] is_first(s, visible(key, sequence), i) implies read_hit(s, key, sequence, i) by {
        assert forall|j: int| 0 <= j < i implies (#[trigger] s[j]).is_ghost || s[j].key != key || s[j].sequence > sequence by {
            assert(!visible(key, sequence)(s[j]));
        }
    }
    if none_match(s, visible(key, sequence)) {
        assert forall|j: int| 0 <= j < s.len() implies (#[trigger] s[j]).is_ghost || s[j].key != key || s[j].sequence
            > sequence by {
            assert(!visible(key, sequence)(s[j]));
        }
    }
}

/// A ghost is never read: once the entry a read returns is marked a
/// ghost, a read at the same key and sequence returns a later entry or
/// nothing, and never a ghost.
pub proof fn lemma_ghost_not_read(s: Seq<EntryView>, key: Seq<u8>, sequence: u64, i: int, k: int)
    requires
        read_hit(s, key, sequence, i),
        read_hit(s.update(i, EntryView { is_ghost: true, ..s[i] }), key, sequence, k),
    ensures
        k > i,
        !s.update(i, EntryView { is_ghost: true, ..s[i] })[k].is_ghost,
{
    let s2 = s.update(i, EntryView { is_ghost: true, ..s[i] });
    if k < i {
        assert(s2[k] == s[k]);
    } else if k == i {
        assert(s2[i].is_ghost);
    }
}

/// The predicate "visible at `sequence` under `key`".
pub open spec fn visible(key: Seq<u8>, sequence: u64) -> spec_fn(EntryView) -> bool {
    |e: EntryView| visible_at(e, key, sequence)
}

/// The predicate "written at `sequence` under `key`".
pub open spec fn written(key: Seq<u8>, sequence: u64) -> spec_fn(EntryView) -> bool {
    |e: EntryView| written_at(e, key, sequence)
}

/// The same page with other entries.
pub open spec fn with_entries(v: PageView, entries: Seq<EntryView>) -> PageView {
    PageView { entries, ..v }
}

impl BTreePage {
    /// An empty leaf page.
    pub fn leaf(page_id: BTreePageId, page_lsn: u64) -> (p: BTreePage)
        ensures
            p@ == (PageView {
                page_id,
                kind: BTreePageKind::Leaf,
                page_lsn,
                left_sibling: None,
                right_sibling: None,
                low_fence: None,
                high_fence: None,
                compressed: false,
                entries: Seq::empty(),
            }),
    {
        let p = BTreePage {
            page_id,
            kind: BTreePageKind::Leaf,
            page_lsn,
            left_sibling: None,
            right_sibling: None,
            low_fence: None,
            high_fence: None,
            compressed: false,
            entries: Vec::new(),
        };
        proof {
            assert(entries_view(p.entries@) =~= Seq::<EntryView>::empty());
        }
        p
    }

    /// The page's id.
    pub fn id(&self) -> (id: BTreePageId)
        ensures
            id == self@.page_id,
    {
        self.page_id
    }

    /// The page's right sibling.
    pub fn right(&self) -> (r: Option<BTreePageId>)
        ensures
            r == self@.right_sibling,
    {
        self.right_sibling
    }

    /// Set the page's right sibling.
    pub fn set_right(&mut self, right: Option<BTreePageId>)
        ensures
            final(self)@ == (PageView { right_sibling: right, ..old(self)@ }),
    {
        self.right_sibling = right;
    }

    /// The entries, in page order.
    pub fn entries(&self) -> (s: &[BTreePageEntry])
        ensures
            entries_view(s@) == self@.entries,
    {
        self.entries.as_slice()
    }

    /// Where the first entry that satisfies `visible` or `written` is.
    fn find_first(&self, key: &[u8], sequence: u64, exact: bool) -> (r: Option<usize>)
        ensures
            match r {
                Some(i) => is_first(
                    self@.entries,
                    if exact {
                        written(key@, sequence)
                    } else {
                        visible(key@, sequence)
                    },
                    i as int,
                ),
                None => none_match(
                    self@.entries,
                    if exact {
                        written(key@, sequence)
                    } else {
                        visible(key@, sequence)
                    },
                ),
            },
    {
        let ghost p = if exact {
            written(key@, sequence)
        } else {
            visible(key@, sequence)
        };
        let ghost s = self@.entries;
        let mut i: usize = 0;
        while i < self.entries.len()
            invariant
                s == entries_view(self.entries@),
                p == (if exact {
                    written(key@, sequence)
                } else {
                    visible(key@, sequence)
                }),
                i <= self.entries@.len(),
                forall|j: int| 0 <= j < i ==> !p(#[trigger] s[j]),
            decreases self.entries@.len() - i,
        {
            let e = &self.entries[i];
            let hit = if exact {
                e.sequence == sequence && compare_bytes(e.key.as_slice(), key) == 0
            } else {
                !e.is_ghost && e.sequence <= sequence && compare_bytes(e.key.as_slice(), key) == 0
            };
            proof {
                assert(s[i as int] == e@);
            }
            if hit {
                return Some(i);
            }
            i = i + 1;
        }
        None
    }

    /// The record of the first entry visible at `sequence` under `key`.
    pub fn find_at(&self, key: &[u8], sequence: u64) -> (r: Option<RecordId>)
        ensures
            match r {
                Some(rid) => exists|i: int|
                    is_first(self@.entries, visible(key@, sequence), i) && self@.entries[i].rid
                        == rid,
                None => none_match(self@.entries, visible(key@, sequence)),
            },
            match r {
                Some(rid) => exists|i: int| #[trigger] read_hit(self@.entries, key@, sequence, i) && self@.entries[i].rid == rid,
                None => read_miss(self@.entries, key@, sequence),
            },
    {
        proof {
            lemma_visible_reads(self@.entries, key@, sequence);
        }
        match self.find_first(key, sequence, false) {
            Some(i) => {
                proof {
                    assert(self@.entries[i as int] == self.entries@[i as int]@);
                }
                Some(self.entries[i].rid)
            },
            None => None,
        }
    }

    /// Mark the first entry visible at `sequence` under `key` as a ghost;
    /// false, changing nothing, if there is none.
    pub fn mark_ghost(&mut self, key: &[u8], sequence: u64) -> (found: bool)
        ensures
            found ==> exists|i: int|
                is_first(old(self)@.entries, visible(key@, sequence), i) && final(self)@
                    == with_entries(
                    old(self)@,
                    old(self)@.entries.update(i, EntryView { is_ghost: true, ..old(self)@.entries[i] }),
                ),
            !found ==> none_match(old(self)@.entries, visible(key@, sequence)) && final(self)@
                == old(self)@,
            found ==> exists|i: int| #[trigger] read_hit(old(self)@.entries, key@, sequence, i) && !old(self)@.entries[i].is_ghost
                && final(self)@.entries[i].is_ghost,
            !found ==> read_miss(old(self)@.entries, key@, sequence),
    {
        proof {
            lemma_visible_reads(old(self)@.entries, key@, sequence);
        }
        match self.find_first(key, sequence, false) {
            Some(i) => {
                let mut e = self.entries.remove(i);
                e.is_ghost = true;
                self.entries.insert(i, e);
                proof {
                    assert(entries_view(self.entries@) =~= old(self)@.entries.update(
                        i as int,
                        EntryView { is_ghost: true, ..old(self)@.entries[i as int] },
                    ));
                    assert(self@ == with_entries(
                        old(self)@,
                        old(self)@.entries.update(
                            i as int,
                            EntryView { is_ghost: true, ..old(self)@.entries[i as int] },
                        ),
                    ));
                }
                true
            },
            None => false,
        }
    }

    /// Point the first entry written at `sequence` under `key` at an
    /// overflow page; false, changing nothing, if there is none.
    pub fn set_overflow_page(&mut self, key: &[u8], sequence: u64, overflow_page: BTreePageId) -> (found: bool)
        ensures
            found ==> exists|i: int|
                is_first(old(self)@.entries, written(key@, sequence), i) && final(self)@
                    == with_entries(
                    old(self)@,
                    old(self)@.entries.update(
                        i,
                        EntryView { overflow_page: Some(overflow_page), ..old(self)@.entries[i] },
                    ),
                ),
            !found ==> none_match(old(self)@.entries, written(key@, sequence)) && final(self)@
                == old(self)@,
    {
        match self.find_first(key, sequence, true) {
            Some(i) => {
                let mut e = self.entries.remove(i);
                e.overflow_page = Some(overflow_page);
                self.entries.insert(i, e);
                proof {
                    assert(entries_view(self.entries@) =~= old(self)@.entries.update(
                        i as int,
                        EntryView { overflow_page: Some(overflow_page), ..old(self)@.entries[i as int] },
                    ));
                    assert(self@ == with_entries(
                        old(self)@,
                        old(self)@.entries.update(
                            i as int,
                            EntryView { overflow_page: Some(overflow_page), ..old(self)@.entries[i as int] },
                        ),
                    ));
                }
                true
            },
            None => false,
        }
    }
}


/// Entry `a` sorts strictly before entry `b`: by key, and within a key the
/// newer sequence first.
pub open spec fn entry_lt(a: EntryView, b: EntryView) -> bool {
    bytes_lt(a.key, b.key) || (a.key == b.key && a.sequence > b.sequence)
}

/// The entries are in page order.
pub open spec fn entries_sorted(s: Seq<EntryView>) -> bool {
    forall|i: int, j: int| 0 <= i < j < s.len() ==> !entry_lt(#[trigger] s[j], #[trigger] s[i])
}

/// `out` is `input` in page order, with the entries of the same key and
/// sequence kept in their relative order.
pub open spec fn is_stable_sort(input: Seq<EntryView>, out: Seq<EntryView>) -> bool {
    &&& out.len() == input.len()
    &&& entries_sorted(out)
    &&& forall|k: Seq<u8>, q: u64| #[trigger] out.filter(written(k, q)) == input.filter(written(k, q))
}

/// An entry occurs in a list as often as in the entries of its key and
/// sequence.
proof fn lemma_count_in_filter(s: Seq<EntryView>, e: EntryView)
    ensures
        s.to_multiset().count(e) == s.filter(written(e.key, e.sequence)).to_multiset().count(e),
    decreases s.len(),
{
    broadcast use vstd::seq_lib::group_to_multiset_ensures;

    if s.len() == 0 {
        assert(s.filter(written(e.key, e.sequence)) =~= Seq::<EntryView>::empty()) by {
            reveal(Seq::filter);
        }
    } else {
        let d = s.drop_last();
        let x = s.last();
        assert(d.push(x) =~= s);
        lemma_count_in_filter(d, e);
        d.lemma_filter_push(x, written(e.key, e.sequence));
    }
}

/// A stable sort is a permutation: the sorted list holds each entry as
/// often as the input did. So after `insert`, the entries are the old
/// ones and the new one, in page order.
pub proof fn lemma_stable_sort_permutes(input: Seq<EntryView>, out: Seq<EntryView>)
    requires
        is_stable_sort(input, out),
    ensures
        out.to_multiset() =~= input.to_multiset(),
        entries_sorted(out),
{
    assert forall|e: EntryView| #[trigger] out.to_multiset().count(e) == input.to_multiset().count(e) by {
        lemma_count_in_filter(out, e);
        lemma_count_in_filter(input, e);
        assert(out.filter(written(e.key, e.sequence)) == input.filter(written(e.key, e.sequence)));
    }
}

/// The page order is a strict weak order: irreflexive, transitive, and any
/// two entries are ordered unless they share key and sequence.
pub proof fn lemma_entry_order(a: EntryView, b: EntryView, c: EntryView)
    ensures
        !entry_lt(a, a),
        entry_lt(a, b) && entry_lt(b, c) ==> entry_lt(a, c),
        entry_lt(a, b) || entry_lt(b, a) || written_at(b, a.key, a.sequence),
        entry_lt(a, b) ==> !entry_lt(b, a),
        entry_lt(a, b) && !entry_lt(c, b) ==> entry_lt(a, c),
{
    lemma_bytes_lt_irreflexive(a.key);
    lemma_bytes_lt_irreflexive(b.key);
    lemma_bytes_lt_total(a.key, b.key);
    lemma_bytes_lt_total(b.key, c.key);
    if bytes_lt(a.key, b.key) && bytes_lt(b.key, c.key) {
        lemma_bytes_lt_transitive(a.key, b.key, c.key);
    }
    if bytes_lt(a.key, b.key) {
        lemma_bytes_lt_asymmetric(a.key, b.key);
    }
    if bytes_lt(b.key, c.key) {
        lemma_bytes_lt_asymmetric(b.key, c.key);
    }
}

/// A one-element sequence filters to itself or to nothing.
proof fn lemma_filter_single<A>(x: A, p: spec_fn(A) -> bool)
    ensures
        seq![x].filter(p) == (if p(x) {
            seq![x]
        } else {
            Seq::<A>::empty()
        }),
{
    reveal(Seq::filter);
    assert(seq![x].drop_last() =~= Seq::<A>::empty());
    assert(Seq::<A>::empty().filter(p) == Seq::<A>::empty());
    if p(x) {
        assert(Seq::<A>::empty().push(x) =~= seq![x]);
    }
}

/// Inserting an entry after every entry that does not sort after it keeps
/// the order, and keeps the entries of each key and sequence in the order
/// they would have with the entry appended.
proof fn lemma_insert_keeps_stable(s: Seq<EntryView>, p: int, x: EntryView)
    requires
        entries_sorted(s),
        0 <= p <= s.len(),
        forall|j: int| 0 <= j < p ==> !entry_lt(x, #[trigger] s[j]),
        forall|j: int| p <= j < s.len() ==> entry_lt(x, #[trigger] s[j]),
    ensures
        entries_sorted(s.insert(p, x)),
        forall|k: Seq<u8>, q: u64| #[trigger] s.insert(p, x).filter(written(k, q)) == s.push(
            x,
        ).filter(written(k, q)),
{
    let t = s.insert(p, x);
    let a = s.take(p);
    let b = s.skip(p);
    assert(t =~= a + seq![x] + b);
    assert(s =~= a + b);
    assert forall|i: int, j: int| 0 <= i < j < t.len() implies !entry_lt(
        #[trigger] t[j],
        #[trigger] t[i],
    ) by {
        if j < p {
            assert(t[i] == s[i] && t[j] == s[j]);
        } else if j == p {
            assert(t[i] == s[i]);
        } else if i == p {
            assert(t[j] == s[j - 1]);
            lemma_entry_order(x, s[j - 1], x);
        } else if i < p {
            assert(t[i] == s[i] && t[j] == s[j - 1]);
        } else {
            assert(t[i] == s[i - 1] && t[j] == s[j - 1]);
        }
    }
    assert forall|k: Seq<u8>, q: u64| #[trigger] t.filter(written(k, q)) == s.push(x).filter(
        written(k, q),
    ) by {
        let w = written(k, q);
        lemma_filter_single(x, w);
        s.lemma_filter_push(x, w);
        if w(x) {
            assert forall|j: int| 0 <= j < b.len() implies !w(#[trigger] b[j]) by {
                assert(b[j] == s[p + j]);
                lemma_entry_order(x, b[j], x);
            }
            lemma_filter_none(b, w);
        }
        assert((a + seq![x] + b).filter(w) == (a + seq![x]).filter(w) + b.filter(w));
        assert((a + seq![x]).filter(w) == a.filter(w) + seq![x].filter(w));
        assert((a + b).filter(w) == a.filter(w) + b.filter(w));
        if w(x) {
            assert(t.filter(w) =~= s.filter(w).push(x));
        } else {
            assert(t.filter(w) =~= s.filter(w));
        }
    }
}

/// Entries in page order are a stable sort of themselves.
pub proof fn lemma_stable_sort_refl(s: Seq<EntryView>)
    requires
        entries_sorted(s),
    ensures
        is_stable_sort(s, s),
{
}

/// Sorting stably, then adding an entry and sorting stably again, sorts
/// stably the input with the entry added.
pub proof fn lemma_stable_sort_extend(a: Seq<EntryView>, b: Seq<EntryView>, x: EntryView, c: Seq<EntryView>)
    requires
        is_stable_sort(a, b),
        is_stable_sort(b.push(x), c),
    ensures
        is_stable_sort(a.push(x), c),
{
    assert forall|k: Seq<u8>, q: u64| #[trigger] c.filter(written(k, q)) == a.push(x).filter(
        written(k, q),
    ) by {
        a.lemma_filter_push(x, written(k, q));
        b.lemma_filter_push(x, written(k, q));
    }
}

/// Put `x` into the ordered entries after every entry that does not sort
/// after it.
fn insert_in_order(out: &mut Vec<BTreePageEntry>, x: BTreePageEntry)
    requires
        entries_sorted(entries_view(old(out)@)),
    ensures
        entries_sorted(entries_view(final(out)@)),
        entries_view(final(out)@).len() == entries_view(old(out)@).len() + 1,
        forall|k: Seq<u8>, q: u64| #[trigger] entries_view(final(out)@).filter(written(k, q))
            == entries_view(old(out)@).push(x@).filter(written(k, q)),
{
    let ghost s = entries_view(out@);
    let mut p: usize = out.len();
    while p > 0 && (compare_bytes(x.key.as_slice(), out[p - 1].key.as_slice()) == -1 || (
    compare_bytes(x.key.as_slice(), out[p - 1].key.as_slice()) == 0 && x.sequence > out[p
        - 1].sequence))
        invariant
            s == entries_view(out@),
            p <= out@.len(),
            entries_sorted(s),
            forall|j: int| p <= j < s.len() ==> entry_lt(x@, #[trigger] s[j]),
        decreases p,
    {
        proof {
            assert(s[p - 1] == out@[p - 1]@);
        }
        p = p - 1;
    }
    proof {
        assert forall|j: int| 0 <= j < p implies !entry_lt(x@, #[trigger] s[j]) by {
            assert(s[p - 1] == out@[p - 1]@);
            assert(!entry_lt(x@, s[p - 1]));
            if j < p - 1 {
                assert(!entry_lt(s[p - 1], s[j]));
                if entry_lt(x@, s[j]) {
                    lemma_entry_order(x@, s[j], s[p - 1]);
                }
            }
        }
        lemma_insert_keeps_stable(s, p as int, x@);
    }
    out.insert(p, x);
    proof {
        assert(entries_view(out@) =~= s.insert(p as int, x@));
    }
}

/// The entries of `src` in page order, stably; only those that are not
/// ghosts when `live_only` is set.
fn sorted_copy(src: &Vec<BTreePageEntry>, live_only: bool) -> (out: Vec<BTreePageEntry>)
    ensures
        is_stable_sort(
            if live_only {
                entries_view(src@).filter(|e: EntryView| !e.is_ghost)
            } else {
                entries_view(src@)
            },
            entries_view(out@),
        ),
{
    let ghost keep = |e: EntryView| !e.is_ghost;
    let ghost input = entries_view(src@);
    let mut out: Vec<BTreePageEntry> = Vec::new();
    let mut i: usize = 0;
    proof {
        assert(entries_view(out@) =~= Seq::<EntryView>::empty());
        assert(input.take(0) =~= Seq::<EntryView>::empty());
        lemma_filter_none(Seq::<EntryView>::empty(), keep);
    }
    while i < src.len()
        invariant
            input == entries_view(src@),
            keep == (|e: EntryView| !e.is_ghost),
            i <= src@.len(),
            is_stable_sort(
                if live_only {
                    input.take(i as int).filter(keep)
                } else {
                    input.take(i as int)
                },
                entries_view(out@),
            ),
        decreases src@.len() - i,
    {
        let ghost before = entries_view(out@);
        let ghost prefix = input.take(i as int);
        proof {
            assert(input.take(i + 1) =~= prefix.push(src@[i as int]@));
            prefix.lemma_filter_push(src@[i as int]@, keep);
        }
        if !live_only || !src[i].is_ghost {
            let e = copy_entry(&src[i]);
            insert_in_order(&mut out, e);
            proof {
                let inp = if live_only {
                    prefix.filter(keep)
                } else {
                    prefix
                };
                assert forall|k: Seq<u8>, q: u64| #[trigger] entries_view(out@).filter(
                    written(k, q),
                ) == inp.push(e@).filter(written(k, q)) by {
                    before.lemma_filter_push(e@, written(k, q));
                    inp.lemma_filter_push(e@, written(k, q));
                }
            }
        }
        i = i + 1;
    }
    proof {
        assert(input.take(i as int) =~= input);
    }
    out
}

impl BTreePage {
    /// Add an entry that is not a ghost and has no overflow page, then put
    /// the entries in page order (stably: of the entries with the same key
    /// and sequence, the new one comes last).
    pub fn insert(&mut self, key: &[u8], sequence: u64, rid: RecordId)
        ensures
            final(self)@ == with_entries(old(self)@, final(self)@.entries),
            is_stable_sort(
                old(self)@.entries.push(
                    EntryView { key: key@, sequence, rid, is_ghost: false, overflow_page: None },
                ),
                final(self)@.entries,
            ),
    {
        let e = BTreePageEntry {
            key: copy_bytes(key),
            sequence,
            rid,
            is_ghost: false,
            overflow_page: None,
        };
        let ghost ev = e@;
        let ghost old_entries = entries_view(self.entries@);
        let mut out = sorted_copy(&self.entries, false);
        let ghost before = entries_view(out@);
        insert_in_order(&mut out, e);
        proof {
            assert forall|k: Seq<u8>, q: u64| #[trigger] entries_view(out@).filter(written(k, q))
                == old_entries.push(ev).filter(written(k, q)) by {
                before.lemma_filter_push(ev, written(k, q));
                old_entries.lemma_filter_push(ev, written(k, q));
            }
        }
        self.entries = out;
    }

    /// Drop the ghost entries and put the rest in page order (stably).
    pub fn defragment(&mut self)
        ensures
            final(self)@ == with_entries(old(self)@, final(self)@.entries),
            is_stable_sort(
                old(self)@.entries.filter(|e: EntryView| !e.is_ghost),
                final(self)@.entries,
            ),
    {
        let out = sorted_copy(&self.entries, true);
        self.entries = out;
    }
}


/// Where an entry's cell sits in the slotted layout.
#[derive(Clone, Copy, Debug, PartialEq, Eq, Structural)]
pub struct BTreePageSlot {
    pub offset: u32,
    pub len: u32,
    pub is_ghost: bool,
}

/// How a page's entries lay out in a slotted page of the default size:
/// cells from the header on, the slot directory at the end.
#[derive(Clone, Debug, PartialEq, Eq)]
pub struct BTreeSlottedLayout {
    pub page_size: u32,
    pub header_len: u32,
    pub free_space_start: u32,
    pub free_space_end: u32,
    pub slot_directory: Vec<BTreePageSlot>,
    pub overflow_page_count: u32,
    pub compressed: bool,
}

/// `a + b`, or `u32::MAX` if that does not fit.
pub open spec fn sat_add(a: u32, b: u32) -> u32 {
    if a + b > u32::MAX {
        u32::MAX
    } else {
        (a + b) as u32
    }
}

/// The size of an entry's cell: a length-prefixed key, the sequence, the
/// record, the ghost flag and the overflow option (counted with saturation,
/// the key length taken as its low 32 bits).
pub open spec fn cell_len(e: EntryView) -> u32 {
    sat_add(sat_add(sat_add(sat_add(sat_add(4, e.key.len() as u32), 8), 8), 1), 9)
}

/// The offset of the `i`-th cell: the header's 64 bytes, then the cells
/// before it (saturating).
pub open spec fn cell_offset(s: Seq<EntryView>, i: nat) -> u32
    decreases i,
{
    if i == 0 {
        64
    } else {
        sat_add(cell_offset(s, (i - 1) as nat), cell_len(s[i - 1]))
    }
}

/// The entry has an overflow page.
pub open spec fn has_overflow(e: EntryView) -> bool {
    e.overflow_page is Some
}

/// The layout of the entries.
pub open spec fn layout_of(v: PageView) -> (u32, u32, Seq<BTreePageSlot>, u32) {
    let s = v.entries;
    let slot_bytes: u32 = if (s.len() as u32) * 8 > u32::MAX {
        u32::MAX
    } else {
        ((s.len() as u32) * 8) as u32
    };
    (
        cell_offset(s, s.len()),
        if slot_bytes > DEFAULT_PAGE_SIZE {
            0
        } else {
            (DEFAULT_PAGE_SIZE - slot_bytes) as u32
        },
        Seq::new(
            s.len(),
            |i: int| BTreePageSlot { offset: cell_offset(s, i as nat), len: cell_len(s[i]), is_ghost: s[i].is_ghost },
        ),
        s.filter(|e: EntryView| has_overflow(e)).len() as u32,
    )
}

/// The cell size of an entry.
fn entry_cell_len(entry: &BTreePageEntry) -> (n: u32)
    ensures
        n == cell_len(entry@),
{
    4u32.saturating_add(entry.key.len() as u32).saturating_add(8).saturating_add(8).saturating_add(
        1,
    ).saturating_add(9)
}

impl BTreePage {
    /// The slotted layout of the page: each entry's cell offset and size,
    /// where free space starts and ends, and how many entries overflow.
    pub fn slotted_layout(&self) -> (l: BTreeSlottedLayout)
        requires
            self@.entries.filter(|e: EntryView| has_overflow(e)).len() <= u32::MAX,
        ensures
            l.page_size == DEFAULT_PAGE_SIZE,
            l.header_len == 64,
            l.free_space_start == layout_of(self@).0,
            l.free_space_end == layout_of(self@).1,
            l.slot_directory@ == layout_of(self@).2,
            l.overflow_page_count == layout_of(self@).3,
            l.compressed == self@.compressed,
    {
        let ghost s = self@.entries;
        let ghost has = |e: EntryView| has_overflow(e);
        let header_len: u32 = 64;
        let mut offset: u32 = header_len;
        let mut slots: Vec<BTreePageSlot> = Vec::new();
        let mut overflow_page_count: u32 = 0;
        let mut i: usize = 0;
        proof {
            assert(s.take(0) =~= Seq::<EntryView>::empty());
            lemma_filter_none(Seq::<EntryView>::empty(), has);
        }
        while i < self.entries.len()
            invariant
                s == entries_view(self.entries@),
                has == (|e: EntryView| has_overflow(e)),
                s.filter(has).len() <= u32::MAX,
                i <= s.len(),
                offset == cell_offset(s, i as nat),
                slots@ == Seq::new(
                    i as nat,
                    |j: int| BTreePageSlot { offset: cell_offset(s, j as nat), len: cell_len(s[j]), is_ghost: s[j].is_ghost },
                ),
                overflow_page_count == s.take(i as int).filter(has).len(),
            decreases s.len() - i,
        {
            let entry = &self.entries[i];
            proof {
                assert(s[i as int] == entry@);
                assert(s.take(i + 1) =~= s.take(i as int).push(entry@));
                s.take(i as int).lemma_filter_push(entry@, has);
                s.lemma_filter_len(has);
                lemma_filter_take_len(s, has, i as int + 1);
            }
            let len = entry_cell_len(entry);
            if entry.overflow_page.is_some() {
                overflow_page_count = overflow_page_count + 1;
            }
            slots.push(BTreePageSlot { offset, len, is_ghost: entry.is_ghost });
            offset = offset.saturating_add(len);
            i = i + 1;
            proof {
                assert(slots@ =~= Seq::new(
                    i as nat,
                    |j: int| BTreePageSlot { offset: cell_offset(s, j as nat), len: cell_len(s[j]), is_ghost: s[j].is_ghost },
                ));
            }
        }
        proof {
            assert(s.take(i as int) =~= s);
        }
        let n32 = slots.len() as u32;
        let slot_bytes = match n32.checked_mul(8) {
            Some(b) => b,
            None => u32::MAX,
        };
        BTreeSlottedLayout {
            page_size: DEFAULT_PAGE_SIZE,
            header_len,
            free_space_start: offset,
            free_space_end: DEFAULT_PAGE_SIZE.saturating_sub(slot_bytes),
            slot_directory: slots,
            overflow_page_count,
            compressed: self.compressed,
        }
    }
}

/// Filtering a prefix keeps no more than filtering the whole.
proof fn lemma_filter_take_len<A>(s: Seq<A>, p: spec_fn(A) -> bool, i: int)
    requires
        0 <= i <= s.len(),
    ensures
        s.take(i).filter(p).len() <= s.filter(p).len(),
    decreases s.len() - i,
{
    if i < s.len() {
        lemma_filter_take_len(s, p, i + 1);
        assert(s.take(i + 1) =~= s.take(i).push(s[i]));
        s.take(i).lemma_filter_push(s[i], p);
    } else {
        assert(s.take(i) =~= s);
    }
}


/// The byte of a page kind.
pub open spec fn kind_tag(k: BTreePageKind) -> u8 {
    match k {
        BTreePageKind::Leaf => 1,
        BTreePageKind::Internal => 2,
    }
}

/// The byte of a flag.
pub open spec fn flag_byte(b: bool) -> u8 {
    if b {
        1
    } else {
        0
    }
}

/// An optional page id: a tag byte, then the id (zero when absent).
pub open spec fn opt_id_bytes(o: Option<BTreePageId>) -> Seq<u8> {
    match o {
        Some(id) => seq![1u8] + spec_u64_to_le_bytes(id.0),
        None => seq![0u8] + spec_u64_to_le_bytes(0),
    }
}


/// A fence: its bytes, length-prefixed, empty when absent.
pub open spec fn fence_bytes(f: Option<Seq<u8>>) -> Seq<u8> {
    len_bytes(
        match f {
            Some(b) => b,
            None => Seq::empty(),
        },
    )
}

/// An entry's bytes.
pub open spec fn entry_bytes(e: EntryView) -> Seq<u8> {
    len_bytes(e.key) + spec_u64_to_le_bytes(e.sequence) + spec_u64_to_le_bytes(e.rid.0) + seq![
        flag_byte(e.is_ghost),
    ] + opt_id_bytes(e.overflow_page)
}

/// The entries' bytes, one after another.
pub open spec fn entries_bytes(s: Seq<EntryView>) -> Seq<u8>
    decreases s.len(),
{
    if s.len() == 0 {
        Seq::empty()
    } else {
        entries_bytes(s.drop_last()) + entry_bytes(s.last())
    }
}

/// The payload of a page.
pub open spec fn page_payload(v: PageView) -> Seq<u8> {
    spec_u64_to_le_bytes(v.page_id.0) + seq![kind_tag(v.kind)] + spec_u64_to_le_bytes(v.page_lsn)
        + opt_id_bytes(v.left_sibling) + opt_id_bytes(v.right_sibling) + fence_bytes(v.low_fence)
        + fence_bytes(v.high_fence) + seq![flag_byte(v.compressed)] + spec_u32_to_le_bytes(
        v.entries.len() as u32,
    ) + entries_bytes(v.entries)
}

/// A page's bytes: magic, version, payload length, CRC-32C of the payload,
/// payload.
pub open spec fn page_bytes(v: PageView) -> Seq<u8> {
    let p = page_payload(v);
    spec_u32_to_le_bytes(BTREE_PAGE_MAGIC) + seq![BTREE_PAGE_VERSION] + spec_u32_to_le_bytes(
        p.len() as u32,
    ) + spec_u32_to_le_bytes(spec_crc32c(p)) + p
}






/// An optional page id at `o`; a tag other than 0 and 1 is refused with
/// `bad` followed by the tag in decimal.
pub open spec fn rd_opt_id(p: Seq<u8>, o: int, bad: Seq<char>) -> core::result::Result<
    (Option<BTreePageId>, int),
    Seq<char>,
> {
    match rd_u8(p, o) {
        Err(m) => Err(m),
        Ok((t, o2)) => if t == 0 {
            match rd_u64(p, o2) {
                Err(m) => Err(m),
                Ok((_, o3)) => Ok((None, o3)),
            }
        } else if t == 1 {
            match rd_u64(p, o2) {
                Err(m) => Err(m),
                Ok((id, o3)) => Ok((Some(BTreePageId(id)), o3)),
            }
        } else {
            Err(bad + dec_str(t as nat))
        },
    }
}

/// The message for a bad option tag of an entry's overflow page or the left
/// sibling.
pub open spec fn bad_option_tag() -> Seq<char> {
    "invalid B-tree page-id option tag "@
}

/// The message for a bad tag of the right sibling.
pub open spec fn bad_sibling_tag() -> Seq<char> {
    "invalid B-tree sibling tag "@
}

/// The message for a bad page kind.
pub open spec fn bad_kind() -> Seq<char> {
    "invalid B-tree page kind "@
}

/// An entry at `o`.
pub open spec fn rd_entry(p: Seq<u8>, o: int) -> core::result::Result<(EntryView, int), Seq<char>> {
    match rd_len_bytes(p, o) {
        Err(m) => Err(m),
        Ok((key, o1)) => match rd_u64(p, o1) {
            Err(m) => Err(m),
            Ok((sequence, o2)) => match rd_u64(p, o2) {
                Err(m) => Err(m),
                Ok((rid, o3)) => match rd_u8(p, o3) {
                    Err(m) => Err(m),
                    Ok((g, o4)) => match rd_opt_id(p, o4, bad_option_tag()) {
                        Err(m) => Err(m),
                        Ok((overflow_page, o5)) => Ok(
                            (
                                EntryView {
                                    key,
                                    sequence,
                                    rid: RecordId(rid),
                                    is_ghost: g != 0,
                                    overflow_page,
                                },
                                o5,
                            ),
                        ),
                    },
                },
            },
        },
    }
}

/// `k` more entries from `o` on, after those in `acc`.
pub open spec fn rd_entries(p: Seq<u8>, o: int, k: nat, acc: Seq<EntryView>) -> core::result::Result<
    (Seq<EntryView>, int),
    Seq<char>,
>
    decreases k,
{
    if k == 0 {
        Ok((acc, o))
    } else {
        match rd_entry(p, o) {
            Err(m) => Err(m),
            Ok((e, o2)) => rd_entries(p, o2, (k - 1) as nat, acc.push(e)),
        }
    }
}

/// A fence as read: empty means absent.
pub open spec fn fence_of(b: Seq<u8>) -> Option<Seq<u8>> {
    if b.len() == 0 {
        None
    } else {
        Some(b)
    }
}

/// The page kind of a tag byte.
pub open spec fn kind_of(t: u8) -> BTreePageKind {
    if t == 1 {
        BTreePageKind::Leaf
    } else {
        BTreePageKind::Internal
    }
}

/// The page id, kind tag and log sequence number at the start of a
/// payload.
pub open spec fn rd_head(p: Seq<u8>) -> core::result::Result<(u64, u8, u64, int), Seq<char>> {
    match rd_u64(p, 0) {
        Err(m) => Err(m),
        Ok((page_id, o1)) => match rd_u8(p, o1) {
            Err(m) => Err(m),
            Ok((kt, o2)) => if kt != 1 && kt != 2 {
                Err(bad_kind() + dec_str(kt as nat))
            } else {
                match rd_u64(p, o2) {
                    Err(m) => Err(m),
                    Ok((lsn, o3)) => Ok((page_id, kt, lsn, o3)),
                }
            },
        },
    }
}

/// The two siblings at `o`.
pub open spec fn rd_siblings(p: Seq<u8>, o: int) -> core::result::Result<
    (Option<BTreePageId>, Option<BTreePageId>, int),
    Seq<char>,
> {
    match rd_opt_id(p, o, bad_option_tag()) {
        Err(m) => Err(m),
        Ok((left, o4)) => match rd_opt_id(p, o4, bad_sibling_tag()) {
            Err(m) => Err(m),
            Ok((right, o5)) => Ok((left, right, o5)),
        },
    }
}

/// The two fences, the compression flag and the entry count at `o`.
pub open spec fn rd_fences(p: Seq<u8>, o: int) -> core::result::Result<
    (Seq<u8>, Seq<u8>, u8, u32, int),
    Seq<char>,
> {
    match rd_len_bytes(p, o) {
        Err(m) => Err(m),
        Ok((low, o6)) => match rd_len_bytes(p, o6) {
            Err(m) => Err(m),
            Ok((high, o7)) => match rd_u8(p, o7) {
                Err(m) => Err(m),
                Ok((c, o8)) => match rd_u32(p, o8) {
                    Err(m) => Err(m),
                    Ok((n, o9)) => Ok((low, high, c, n, o9)),
                },
            },
        },
    }
}

/// What a payload reads as (bytes after the last entry are not read).
pub open spec fn parse_payload(p: Seq<u8>) -> core::result::Result<PageView, Seq<char>> {
    match rd_head(p) {
        Err(m) => Err(m),
        Ok((page_id, kt, lsn, o3)) => match rd_siblings(p, o3) {
            Err(m) => Err(m),
            Ok((left, right, o5)) => match rd_fences(p, o5) {
                Err(m) => Err(m),
                Ok((low, high, c, n, o9)) => match rd_entries(p, o9, n as nat, Seq::empty()) {
                    Err(m) => Err(m),
                    Ok((entries, _)) => Ok(
                        PageView {
                            page_id: BTreePageId(page_id),
                            kind: kind_of(kt),
                            page_lsn: lsn,
                            left_sibling: left,
                            right_sibling: right,
                            low_fence: fence_of(low),
                            high_fence: fence_of(high),
                            compressed: c != 0,
                            entries,
                        },
                    ),
                },
            },
        },
    }
}


/// What bytes read as: a page, or why they are refused.
pub open spec fn parse_page(b: Seq<u8>) -> core::result::Result<PageView, Seq<char>> {
    if b.len() < 13 {
        Err("truncated B-tree page header"@)
    } else if u32_at(b, 0) != BTREE_PAGE_MAGIC {
        Err("bad B-tree page magic"@)
    } else if b[4] != BTREE_PAGE_VERSION {
        Err("unsupported B-tree page version "@ + dec_str(b[4] as nat))
    } else if b.len() < 13 + u32_at(b, 5) {
        Err("truncated B-tree page payload"@)
    } else {
        let p = b.subrange(13, 13 + u32_at(b, 5));
        if spec_crc32c(p) != u32_at(b, 9) {
            Err(
                "B-tree page checksum mismatch: expected "@ + hex32(u32_at(b, 9)) + ", got "@
                    + hex32(spec_crc32c(p)),
            )
        } else {
            parse_payload(p)
        }
    }
}










fn read_optional_page_id(reader: &mut BinaryReader, bad: &str) -> (r: Result<Option<BTreePageId>>)
    requires
        old(reader).wf(),
    ensures
        same_input(*old(reader), *final(reader)),
        step_matches(
            r,
            rd_opt_id(old(reader).data(), old(reader).pos(), bad@),
            *final(reader),
            old(reader).source(),
        ),
{
    let tag = read_u8_step(reader)?;
    if tag == 0 {
        let _ = read_u64_step(reader)?;
        Ok(None)
    } else if tag == 1 {
        let id = read_u64_step(reader)?;
        Ok(Some(BTreePageId(id)))
    } else {
        Err(corrupt_at(reader.source_str(), tag_message(bad, tag)))
    }
}

fn read_entry(reader: &mut BinaryReader) -> (r: Result<BTreePageEntry>)
    requires
        old(reader).wf(),
    ensures
        same_input(*old(reader), *final(reader)),
        match (r, rd_entry(old(reader).data(), old(reader).pos())) {
            (Ok(v), Ok((sv, o))) => v@ == sv && final(reader).pos() == o,
            (Err(e), Err(m)) => is_corrupt_at(e, old(reader).source(), m),
            _ => false,
        },
{
    let key = read_len_bytes_step(reader)?;
    let sequence = read_u64_step(reader)?;
    let rid = read_u64_step(reader)?;
    let g = read_u8_step(reader)?;
    let overflow_page = read_optional_page_id(reader, "invalid B-tree page-id option tag ")?;
    Ok(BTreePageEntry { key, sequence, rid: RecordId(rid), is_ghost: g != 0, overflow_page })
}



/// A fence as read: empty bytes mean no fence.
fn empty_to_none(bytes: Vec<u8>) -> (r: Option<Vec<u8>>)
    ensures
        fence_view(r) == fence_of(bytes@),
{
    if bytes.len() == 0 {
        None
    } else {
        Some(bytes)
    }
}

#[verifier::loop_isolation(false)]
fn read_page_payload(reader: &mut BinaryReader) -> (r: Result<BTreePage>)
    requires
        old(reader).wf(),
        old(reader).pos() == 0,
    ensures
        match (r, parse_payload(old(reader).data())) {
            (Ok(p), Ok(v)) => p@ == v,
            (Err(e), Err(m)) => is_corrupt_at(e, old(reader).source(), m),
            _ => false,
        },
{
    let ghost p = reader.data();
    let ghost src = reader.source();
    let page_id = read_u64_step(reader)?;
    let kt = read_u8_step(reader)?;
    if kt != 1 && kt != 2 {
        return Err(corrupt_at(reader.source_str(), tag_message("invalid B-tree page kind ", kt)));
    }
    let kind = if kt == 1 {
        BTreePageKind::Leaf
    } else {
        BTreePageKind::Internal
    };
    let page_lsn = read_u64_step(reader)?;
    let left_sibling = read_optional_page_id(reader, "invalid B-tree page-id option tag ")?;
    let right_sibling = read_optional_page_id(reader, "invalid B-tree sibling tag ")?;
    let low = read_len_bytes_step(reader)?;
    let high = read_len_bytes_step(reader)?;
    let c = read_u8_step(reader)?;
    let count = read_u32_step(reader)?;
    let ghost o9 = reader.pos();
    let mut entries: Vec<BTreePageEntry> = Vec::new();
    let mut i: u32 = 0;
    proof {
        assert(entries_view(entries@) =~= Seq::<EntryView>::empty());
    }
    while i < count
        invariant
            reader.wf(),
            reader.data() == p,
            reader.source() == src,
            i <= count,
            rd_entries(p, o9, count as nat, Seq::empty()) == rd_entries(
                p,
                reader.pos(),
                (count - i) as nat,
                entries_view(entries@),
            ),
        decreases count - i,
    {
        let ghost before = entries_view(entries@);
        let e = read_entry(reader)?;
        let ghost ev = e@;
        entries.push(e);
        proof {
            assert(entries_view(entries@) =~= before.push(ev));
        }
        i = i + 1;
    }
    let low_fence = empty_to_none(low);
    let high_fence = empty_to_none(high);
    let page = BTreePage {
        page_id: BTreePageId(page_id),
        kind,
        page_lsn,
        left_sibling,
        right_sibling,
        low_fence,
        high_fence,
        compressed: c != 0,
        entries,
    };
    Ok(page)
}

fn write_optional_page_id(writer: &mut BinaryWriter, page_id: Option<BTreePageId>)
    ensures
        final(writer)@ == old(writer)@ + opt_id_bytes(page_id),
{
    match page_id {
        Some(id) => {
            writer.write_u8(1);
            writer.write_u64(id.0);
        },
        None => {
            writer.write_u8(0);
            writer.write_u64(0);
        },
    }
    proof {
        assert(final(writer)@ =~= old(writer)@ + opt_id_bytes(page_id));
    }
}

fn write_fence(writer: &mut BinaryWriter, fence: &Option<Vec<u8>>)
    ensures
        final(writer)@ == old(writer)@ + fence_bytes(fence_view(*fence)),
{
    match fence {
        Some(f) => writer.write_len_bytes(f.as_slice()),
        None => {
            let empty: Vec<u8> = Vec::new();
            writer.write_len_bytes(empty.as_slice());
        },
    }
}

fn write_entry(writer: &mut BinaryWriter, e: &BTreePageEntry)
    ensures
        final(writer)@ == old(writer)@ + entry_bytes(e@),
{
    writer.write_len_bytes(e.key.as_slice());
    writer.write_u64(e.sequence);
    writer.write_u64(e.rid.0);
    writer.write_u8(if e.is_ghost {
        1
    } else {
        0
    });
    write_optional_page_id(writer, e.overflow_page);
    proof {
        assert(final(writer)@ =~= old(writer)@ + entry_bytes(e@));
    }
}

impl BTreePage {
    /// The page's checksummed bytes.
    pub fn to_bytes(&self) -> (b: Vec<u8>)
        ensures
            b@ == page_bytes(self@),
    {
        let ghost v = self@;
        let mut payload = BinaryWriter::new();
        payload.write_u64(self.page_id.0);
        payload.write_u8(
            match self.kind {
                BTreePageKind::Leaf => 1,
                BTreePageKind::Internal => 2,
            },
        );
        payload.write_u64(self.page_lsn);
        write_optional_page_id(&mut payload, self.left_sibling);
        write_optional_page_id(&mut payload, self.right_sibling);
        write_fence(&mut payload, &self.low_fence);
        write_fence(&mut payload, &self.high_fence);
        payload.write_u8(if self.compressed {
            1
        } else {
            0
        });
        payload.write_u32(self.entries.len() as u32);
        let ghost head = payload@;
        let mut i: usize = 0;
        while i < self.entries.len()
            invariant
                v == self@,
                v.entries == entries_view(self.entries@),
                i <= self.entries@.len(),
                payload@ == head + entries_bytes(v.entries.take(i as int)),
            decreases self.entries@.len() - i,
        {
            write_entry(&mut payload, &self.entries[i]);
            proof {
                assert(v.entries.take(i + 1).drop_last() =~= v.entries.take(i as int));
                assert(v.entries[i as int] == self.entries@[i as int]@);
            }
            i = i + 1;
        }
        proof {
            assert(v.entries.take(i as int) =~= v.entries);
            assert(payload@ =~= page_payload(v));
        }
        let payload = payload.into_inner();
        let mut out = BinaryWriter::new();
        out.write_u32(BTREE_PAGE_MAGIC);
        out.write_u8(BTREE_PAGE_VERSION);
        out.write_u32(payload.len() as u32);
        out.write_u32(crc32c(payload.as_slice()));
        out.write_bytes(payload.as_slice());
        proof {
            assert(out@ =~= page_bytes(v));
        }
        out.into_inner()
    }

    /// Read a page from its bytes; `source` names them in errors.
    pub fn from_bytes(bytes: &[u8], source: &str) -> (r: Result<BTreePage>)
        ensures
            match (r, parse_page(bytes@)) {
                (Ok(p), Ok(v)) => p@ == v,
                (Err(e), Err(m)) => is_corrupt_at(e, source@, m),
                _ => false,
            },
    {
        if bytes.len() < 13 {
            return Err(corrupt_at(source, String::from_str("truncated B-tree page header")));
        }
        let magic = read_u32_at(bytes, 0);
        if magic != BTREE_PAGE_MAGIC {
            return Err(corrupt_at(source, String::from_str("bad B-tree page magic")));
        }
        if bytes[4] != BTREE_PAGE_VERSION {
            return Err(
                corrupt_at(source, tag_message("unsupported B-tree page version ", bytes[4])),
            );
        }
        let payload_len = read_u32_at(bytes, 5);
        let expected_crc = read_u32_at(bytes, 9);
        if bytes.len() - 13 < payload_len as usize {
            return Err(corrupt_at(source, String::from_str("truncated B-tree page payload")));
        }
        let payload = slice_subrange(bytes, 13, 13 + payload_len as usize);
        let actual_crc = crc32c(payload);
        if actual_crc != expected_crc {
            let mut m = String::from_str("B-tree page checksum mismatch: expected ");
            let a = hex32_string(expected_crc);
            m.append(a.as_str());
            m.append(", got ");
            let b = hex32_string(actual_crc);
            m.append(b.as_str());
            return Err(corrupt_at(source, m));
        }
        let mut reader = BinaryReader::new(payload, source);
        read_page_payload(&mut reader)
    }
}






proof fn lemma_rd_opt_id_at(a: Seq<u8>, o: Option<BTreePageId>, b: Seq<u8>, bad: Seq<char>)
    ensures
        opt_id_bytes(o).len() == 9,
        rd_opt_id(a + opt_id_bytes(o) + b, a.len() as int, bad) == core::result::Result::<
            (Option<BTreePageId>, int),
            Seq<char>,
        >::Ok((o, a.len() + 9int)),
{
    lemma_le_lengths();
    let t: u8 = match o {
        Some(_) => 1,
        None => 0,
    };
    let x: u64 = match o {
        Some(id) => id.0,
        None => 0,
    };
    assert(opt_id_bytes(o) =~= seq![t] + spec_u64_to_le_bytes(x));
    assert(a + opt_id_bytes(o) + b =~= a + seq![t] + (spec_u64_to_le_bytes(x) + b));
    lemma_rd_u8_at(a, t, spec_u64_to_le_bytes(x) + b);
    assert(a + opt_id_bytes(o) + b =~= (a + seq![t]) + spec_u64_to_le_bytes(x) + b);
    lemma_rd_u64_at(a + seq![t], x, b);
}

proof fn lemma_rd_entry_at(a: Seq<u8>, e: EntryView, b: Seq<u8>)
    requires
        e.key.len() <= u32::MAX,
    ensures
        entry_bytes(e).len() == 30 + e.key.len(),
        rd_entry(a + entry_bytes(e) + b, a.len() as int) == core::result::Result::<
            (EntryView, int),
            Seq<char>,
        >::Ok((e, a.len() + entry_bytes(e).len() as int)),
{
    lemma_le_lengths();
    let p0 = len_bytes(e.key);
    let p1 = spec_u64_to_le_bytes(e.sequence);
    let p2 = spec_u64_to_le_bytes(e.rid.0);
    let p3 = seq![flag_byte(e.is_ghost)];
    let p4 = opt_id_bytes(e.overflow_page);
    let s = a + entry_bytes(e) + b;
    lemma_rd_opt_id_at(a + p0 + p1 + p2 + p3, e.overflow_page, b, bad_option_tag());
    assert(s =~= a + p0 + (p1 + p2 + p3 + p4 + b));
    lemma_rd_len_bytes_at(a, e.key, p1 + p2 + p3 + p4 + b);
    assert(s =~= (a + p0) + p1 + (p2 + p3 + p4 + b));
    lemma_rd_u64_at(a + p0, e.sequence, p2 + p3 + p4 + b);
    assert(s =~= (a + p0 + p1) + p2 + (p3 + p4 + b));
    lemma_rd_u64_at(a + p0 + p1, e.rid.0, p3 + p4 + b);
    assert(s =~= (a + p0 + p1 + p2) + p3 + (p4 + b));
    lemma_rd_u8_at(a + p0 + p1 + p2, flag_byte(e.is_ghost), p4 + b);
    assert(s =~= (a + p0 + p1 + p2 + p3) + p4 + b);
}

/// The encoding of a prefix of the entries is a prefix of the encoding of
/// them all.
proof fn lemma_entries_bytes_prefix(es: Seq<EntryView>, j: int)
    requires
        0 <= j <= es.len(),
    ensures
        entries_bytes(es.take(j)).len() <= entries_bytes(es).len(),
        entries_bytes(es).take(entries_bytes(es.take(j)).len() as int) =~= entries_bytes(
            es.take(j),
        ),
    decreases es.len(),
{
    if j == es.len() {
        assert(es.take(j) =~= es);
    } else {
        lemma_entries_bytes_prefix(es.drop_last(), j);
        assert(es.drop_last().take(j) =~= es.take(j));
        let a = entries_bytes(es.drop_last());
        let b = entry_bytes(es.last());
        let n = entries_bytes(es.take(j)).len() as int;
        assert((a + b).take(n) =~= a.take(n));
    }
}

/// Reading the entries back from their encoding, having read the first `j`,
/// yields them all.
#[verifier::spinoff_prover]
#[verifier::rlimit(50)]
proof fn lemma_rd_entries_at(h: Seq<u8>, es: Seq<EntryView>, j: int)
    requires
        0 <= j <= es.len(),
        forall|i: int| 0 <= i < es.len() ==> #[trigger] es[i].key.len() <= u32::MAX,
    ensures
        rd_entries(
            h + entries_bytes(es),
            h.len() + entries_bytes(es.take(j)).len() as int,
            (es.len() - j) as nat,
            es.take(j),
        ) == core::result::Result::<(Seq<EntryView>, int), Seq<char>>::Ok(
            (es, (h + entries_bytes(es)).len() as int),
        ),
    decreases es.len() - j,
{
    let p = h + entries_bytes(es);
    if j == es.len() {
        assert(es.take(j) =~= es);
    } else {
        let pre = entries_bytes(es.take(j));
        let big = entries_bytes(es.take(j + 1));
        lemma_entries_bytes_prefix(es, j + 1);
        assert(es.take(j + 1).drop_last() =~= es.take(j));
        assert(big == pre + entry_bytes(es[j]));
        let rest = entries_bytes(es).skip(big.len() as int);
        assert(entries_bytes(es) =~= big + rest);
        assert(p =~= (h + pre) + entry_bytes(es[j]) + rest);
        lemma_rd_entry_at(h + pre, es[j], rest);
        assert(es.take(j).push(es[j]) =~= es.take(j + 1));
        lemma_rd_entries_at(h, es, j + 1);
    }
}

/// The fence's bytes as written.
pub open spec fn fence_or_empty(f: Option<Seq<u8>>) -> Seq<u8> {
    match f {
        Some(b) => b,
        None => Seq::empty(),
    }
}

proof fn lemma_rd_head_at(v: PageView, b: Seq<u8>)
    ensures
        rd_head(
            spec_u64_to_le_bytes(v.page_id.0) + seq![kind_tag(v.kind)] + spec_u64_to_le_bytes(
                v.page_lsn,
            ) + b,
        ) == core::result::Result::<(u64, u8, u64, int), Seq<char>>::Ok(
            (v.page_id.0, kind_tag(v.kind), v.page_lsn, 17),
        ),
{
    lemma_le_lengths();
    let q0 = spec_u64_to_le_bytes(v.page_id.0);
    let q1 = seq![kind_tag(v.kind)];
    let q2 = spec_u64_to_le_bytes(v.page_lsn);
    let p = q0 + q1 + q2 + b;
    let e = Seq::<u8>::empty();
    assert(p =~= e + q0 + (q1 + q2 + b));
    lemma_rd_u64_at(e, v.page_id.0, q1 + q2 + b);
    assert(p =~= q0 + q1 + (q2 + b));
    lemma_rd_u8_at(q0, kind_tag(v.kind), q2 + b);
    assert(p =~= (q0 + q1) + q2 + b);
    lemma_rd_u64_at(q0 + q1, v.page_lsn, b);
}

proof fn lemma_rd_siblings_at(a: Seq<u8>, v: PageView, b: Seq<u8>)
    ensures
        rd_siblings(a + opt_id_bytes(v.left_sibling) + opt_id_bytes(v.right_sibling) + b, a.len() as int)
            == core::result::Result::<(Option<BTreePageId>, Option<BTreePageId>, int), Seq<char>>::Ok(
            (v.left_sibling, v.right_sibling, a.len() + 18int),
        ),
{
    let q3 = opt_id_bytes(v.left_sibling);
    let q4 = opt_id_bytes(v.right_sibling);
    let p = a + q3 + q4 + b;
    assert(p =~= a + q3 + (q4 + b));
    lemma_rd_opt_id_at(a, v.left_sibling, q4 + b, bad_option_tag());
    lemma_rd_opt_id_at(a + q3, v.right_sibling, b, bad_sibling_tag());
}

proof fn lemma_rd_fences_at(a: Seq<u8>, v: PageView, b: Seq<u8>)
    requires
        v.entries.len() <= u32::MAX,
        fence_or_empty(v.low_fence).len() <= u32::MAX,
        fence_or_empty(v.high_fence).len() <= u32::MAX,
    ensures
        rd_fences(
            a + fence_bytes(v.low_fence) + fence_bytes(v.high_fence) + seq![flag_byte(v.compressed)]
                + spec_u32_to_le_bytes(v.entries.len() as u32) + b,
            a.len() as int,
        ) == core::result::Result::<(Seq<u8>, Seq<u8>, u8, u32, int), Seq<char>>::Ok(
            (
                fence_or_empty(v.low_fence),
                fence_or_empty(v.high_fence),
                flag_byte(v.compressed),
                v.entries.len() as u32,
                a.len() + 8int + fence_or_empty(v.low_fence).len() + fence_or_empty(v.high_fence).len()
                    + 5,
            ),
        ),
{
    lemma_le_lengths();
    let low = fence_or_empty(v.low_fence);
    let high = fence_or_empty(v.high_fence);
    let q5 = len_bytes(low);
    let q6 = len_bytes(high);
    let q7 = seq![flag_byte(v.compressed)];
    let q8 = spec_u32_to_le_bytes(v.entries.len() as u32);
    let p = a + q5 + q6 + q7 + q8 + b;
    assert(p =~= a + q5 + (q6 + q7 + q8 + b));
    lemma_rd_len_bytes_at(a, low, q6 + q7 + q8 + b);
    assert(p =~= (a + q5) + q6 + (q7 + q8 + b));
    lemma_rd_len_bytes_at(a + q5, high, q7 + q8 + b);
    assert(p =~= (a + q5 + q6) + q7 + (q8 + b));
    lemma_rd_u8_at(a + q5 + q6, flag_byte(v.compressed), q8 + b);
    assert(p =~= (a + q5 + q6 + q7) + q8 + b);
    lemma_rd_u32_at(a + q5 + q6 + q7, v.entries.len() as u32, b);
}

/// A payload whose steps read as the page's fields reads as the page.
proof fn lemma_parse_payload_steps(p: Seq<u8>, v: PageView, o9: int)
    requires
        rd_head(p) == core::result::Result::<(u64, u8, u64, int), Seq<char>>::Ok(
            (v.page_id.0, kind_tag(v.kind), v.page_lsn, 17),
        ),
        rd_siblings(p, 17) == core::result::Result::<
            (Option<BTreePageId>, Option<BTreePageId>, int),
            Seq<char>,
        >::Ok((v.left_sibling, v.right_sibling, 35)),
        rd_fences(p, 35) == core::result::Result::<(Seq<u8>, Seq<u8>, u8, u32, int), Seq<char>>::Ok(
            (
                fence_or_empty(v.low_fence),
                fence_or_empty(v.high_fence),
                flag_byte(v.compressed),
                v.entries.len() as u32,
                o9,
            ),
        ),
        v.entries.len() <= u32::MAX,
        rd_entries(p, o9, v.entries.len(), Seq::empty()) == core::result::Result::<
            (Seq<EntryView>, int),
            Seq<char>,
        >::Ok((v.entries, p.len() as int)),
        fence_of(fence_or_empty(v.low_fence)) == v.low_fence,
        fence_of(fence_or_empty(v.high_fence)) == v.high_fence,
    ensures
        parse_payload(p) == core::result::Result::<PageView, Seq<char>>::Ok(v),
{
    assert(kind_of(kind_tag(v.kind)) == v.kind);
    assert((flag_byte(v.compressed) != 0) == v.compressed);
}

/// The parts of a page's payload: header, siblings, fences with the flag
/// and count, entries.
pub open spec fn payload_parts(v: PageView) -> (Seq<u8>, Seq<u8>, Seq<u8>, Seq<u8>) {
    (
        spec_u64_to_le_bytes(v.page_id.0) + seq![kind_tag(v.kind)] + spec_u64_to_le_bytes(
            v.page_lsn,
        ),
        opt_id_bytes(v.left_sibling) + opt_id_bytes(v.right_sibling),
        fence_bytes(v.low_fence) + fence_bytes(v.high_fence) + seq![flag_byte(v.compressed)]
            + spec_u32_to_le_bytes(v.entries.len() as u32),
        entries_bytes(v.entries),
    )
}

proof fn lemma_payload_parts(v: PageView)
    ensures
        ({
            let (a, b, c, d) = payload_parts(v);
            &&& page_payload(v) == a + b + c + d
            &&& a.len() == 17
            &&& b.len() == 18
            &&& c.len() == 8 + fence_or_empty(v.low_fence).len() + fence_or_empty(v.high_fence).len()
                + 5
        }),
{
    lemma_le_lengths();
    lemma_rd_opt_id_at(Seq::empty(), v.left_sibling, Seq::empty(), bad_option_tag());
    lemma_rd_opt_id_at(Seq::empty(), v.right_sibling, Seq::empty(), bad_option_tag());
    let (a, b, c, d) = payload_parts(v);
    assert(page_payload(v) =~= a + b + c + d);
}

proof fn lemma_step_head(v: PageView)
    ensures
        rd_head(page_payload(v)) == core::result::Result::<(u64, u8, u64, int), Seq<char>>::Ok(
            (v.page_id.0, kind_tag(v.kind), v.page_lsn, 17),
        ),
{
    lemma_payload_parts(v);
    let (a, b, c, d) = payload_parts(v);
    assert(a + b + c + d =~= a + (b + c + d));
    lemma_rd_head_at(v, b + c + d);
}

proof fn lemma_step_siblings(v: PageView)
    ensures
        rd_siblings(page_payload(v), 17) == core::result::Result::<
            (Option<BTreePageId>, Option<BTreePageId>, int),
            Seq<char>,
        >::Ok((v.left_sibling, v.right_sibling, 35)),
{
    lemma_payload_parts(v);
    let (a, b, c, d) = payload_parts(v);
    assert(a + b + c + d =~= a + opt_id_bytes(v.left_sibling) + opt_id_bytes(v.right_sibling) + (c
        + d));
    lemma_rd_siblings_at(a, v, c + d);
}

proof fn lemma_step_fences(v: PageView)
    requires
        v.entries.len() <= u32::MAX,
        fence_or_empty(v.low_fence).len() <= u32::MAX,
        fence_or_empty(v.high_fence).len() <= u32::MAX,
    ensures
        rd_fences(page_payload(v), 35) == core::result::Result::<
            (Seq<u8>, Seq<u8>, u8, u32, int),
            Seq<char>,
        >::Ok(
            (
                fence_or_empty(v.low_fence),
                fence_or_empty(v.high_fence),
                flag_byte(v.compressed),
                v.entries.len() as u32,
                35int + 8 + fence_or_empty(v.low_fence).len() + fence_or_empty(v.high_fence).len() + 5,
            ),
        ),
{
    lemma_payload_parts(v);
    let (a, b, c, d) = payload_parts(v);
    assert(a + b + c + d =~= (a + b) + fence_bytes(v.low_fence) + fence_bytes(v.high_fence) + seq![
        flag_byte(v.compressed),
    ] + spec_u32_to_le_bytes(v.entries.len() as u32) + d);
    lemma_rd_fences_at(a + b, v, d);
}

proof fn lemma_step_entries(v: PageView)
    requires
        forall|i: int| 0 <= i < v.entries.len() ==> #[trigger] v.entries[i].key.len() <= u32::MAX,
    ensures
        rd_entries(
            page_payload(v),
            35int + 8 + fence_or_empty(v.low_fence).len() + fence_or_empty(v.high_fence).len() + 5,
            v.entries.len(),
            Seq::empty(),
        ) == core::result::Result::<(Seq<EntryView>, int), Seq<char>>::Ok(
            (v.entries, page_payload(v).len() as int),
        ),
{
    lemma_payload_parts(v);
    let (a, b, c, d) = payload_parts(v);
    assert(v.entries.take(0) =~= Seq::<EntryView>::empty());
    assert(entries_bytes(Seq::<EntryView>::empty()).len() == 0);
    lemma_rd_entries_at(a + b + c, v.entries, 0);
}

/// Reading a page's payload gives the page back.
proof fn lemma_payload_roundtrip(v: PageView)
    requires
        v.entries.len() <= u32::MAX,
        forall|i: int| 0 <= i < v.entries.len() ==> #[trigger] v.entries[i].key.len() <= u32::MAX,
        v.low_fence matches Some(f) ==> 0 < f.len() <= u32::MAX,
        v.high_fence matches Some(f) ==> 0 < f.len() <= u32::MAX,
    ensures
        parse_payload(page_payload(v)) == core::result::Result::<PageView, Seq<char>>::Ok(v),
{
    let o9: int = 35int + 8 + fence_or_empty(v.low_fence).len() + fence_or_empty(v.high_fence).len()
        + 5;
    lemma_step_head(v);
    lemma_step_siblings(v);
    lemma_step_fences(v);
    lemma_step_entries(v);
    lemma_parse_payload_steps(page_payload(v), v, o9);
}

/// Reading a page's bytes gives the page back, provided its fences are
/// absent or non-empty (an empty fence reads as absent) and its sizes fit
/// the format's 32-bit lengths.
#[verifier::spinoff_prover]
#[verifier::rlimit(50)]
pub proof fn lemma_page_roundtrip(v: PageView)
    requires
        page_payload(v).len() <= u32::MAX,
        v.entries.len() <= u32::MAX,
        forall|i: int| 0 <= i < v.entries.len() ==> #[trigger] v.entries[i].key.len() <= u32::MAX,
        v.low_fence matches Some(f) ==> 0 < f.len() <= u32::MAX,
        v.high_fence matches Some(f) ==> 0 < f.len() <= u32::MAX,
    ensures
        parse_page(page_bytes(v)) == core::result::Result::<PageView, Seq<char>>::Ok(v),
{
    lemma_le_lengths();
    lemma_payload_roundtrip(v);
    let p = page_payload(v);
    let e = Seq::<u8>::empty();
    let b = page_bytes(v);
    let m = spec_u32_to_le_bytes(BTREE_PAGE_MAGIC);
    let n = spec_u32_to_le_bytes(p.len() as u32);
    let c = spec_u32_to_le_bytes(spec_crc32c(p));
    assert(b =~= e + m + (seq![BTREE_PAGE_VERSION] + n + c + p));
    lemma_u32_at(e, BTREE_PAGE_MAGIC, seq![BTREE_PAGE_VERSION] + n + c + p);
    assert(b =~= (m + seq![BTREE_PAGE_VERSION]) + n + (c + p));
    lemma_u32_at(m + seq![BTREE_PAGE_VERSION], p.len() as u32, c + p);
    assert(b =~= (m + seq![BTREE_PAGE_VERSION] + n) + c + p);
    lemma_u32_at(m + seq![BTREE_PAGE_VERSION] + n, spec_crc32c(p), p);
    assert(b[4] == BTREE_PAGE_VERSION);
    assert(b.subrange(13, 13 + p.len() as int) =~= p);
}


/// Any one byte of a page's bytes changed past the 13-byte header makes
/// reading the page fail with a checksum mismatch.
pub proof fn lemma_page_detects_byte_change(v: PageView, i: int, x: u8)
    requires
        page_payload(v).len() <= u32::MAX,
        13 <= i < page_bytes(v).len(),
        x != page_bytes(v)[i],
    ensures
        ({
            let p = page_payload(v);
            let q = page_bytes(v).update(i, x).subrange(13, page_bytes(v).len() as int);
            &&& spec_crc32c(q) != spec_crc32c(p)
            &&& parse_page(page_bytes(v).update(i, x)) == core::result::Result::<PageView, Seq<char>>::Err(
                "B-tree page checksum mismatch: expected "@ + hex32(spec_crc32c(p)) + ", got "@ + hex32(
                    spec_crc32c(q),
                ),
            )
        }),
{
    lemma_le_lengths();
    let p = page_payload(v);
    let e = Seq::<u8>::empty();
    let b = page_bytes(v);
    let m = spec_u32_to_le_bytes(BTREE_PAGE_MAGIC);
    let n = spec_u32_to_le_bytes(p.len() as u32);
    let c = spec_u32_to_le_bytes(spec_crc32c(p));
    let h = m + seq![BTREE_PAGE_VERSION] + n + c;
    assert(b =~= h + p);
    let b2 = b.update(i, x);
    let q = p.update(i - 13, x);
    assert(b2 =~= h + q);
    assert(b2 =~= e + m + (seq![BTREE_PAGE_VERSION] + n + c + q));
    lemma_u32_at(e, BTREE_PAGE_MAGIC, seq![BTREE_PAGE_VERSION] + n + c + q);
    assert(b2 =~= (m + seq![BTREE_PAGE_VERSION]) + n + (c + q));
    lemma_u32_at(m + seq![BTREE_PAGE_VERSION], p.len() as u32, c + q);
    assert(b2 =~= (m + seq![BTREE_PAGE_VERSION] + n) + c + q);
    lemma_u32_at(m + seq![BTREE_PAGE_VERSION] + n, spec_crc32c(p), q);
    assert(b2[4] == BTREE_PAGE_VERSION);
    assert(b2.subrange(13, 13 + p.len() as int) =~= q);
    assert(b2.subrange(13, b.len() as int) =~= q);
    assert(p[i - 13] == b[i]);
    lemma_crc32c_detects_byte_change(p, i - 13, x);
}

} // verus!
