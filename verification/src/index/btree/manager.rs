//! Allocation, lookup and splitting of B-tree pages.
use crate::errors::{Result, TridentError};
use crate::index::btree::page::{
    copy_entry, entries_view, is_stable_sort, BTreePage, BTreePageEntry, BTreePageId,
    BTreePageKind, EntryView, PageView,
};
use crate::io::binary::copy_bytes;
use crate::store::RecordId;
use std::collections::BTreeMap;
use vstd::prelude::*;

verus! {

broadcast use vstd::seq_lib::group_seq_lib_default;

/// The outcome of a split: the page that kept the lower entries, the new
/// page that took the upper ones, and the first key of the upper half.
#[derive(Clone, Debug, PartialEq, Eq)]
pub struct BTreePageSplit {
    pub left: BTreePageId,
    pub right: BTreePageId,
    pub fence_key: Vec<u8>,
}

/// The pages of a B-tree, by id, and the next id to hand out.
#[derive(Debug)]
pub struct BTreePageManager {
    next_page_id: u64,
    pages: BTreeMap<u64, BTreePage>,
}

/// `a + 1`, or `u64::MAX` if that does not fit.
pub open spec fn sat_inc(a: u64) -> u64 {
    if a == u64::MAX {
        a
    } else {
        (a + 1) as u64
    }
}

/// An empty leaf as a view.
pub open spec fn leaf_view(page_id: BTreePageId, page_lsn: u64) -> PageView {
    PageView {
        page_id,
        kind: BTreePageKind::Leaf,
        page_lsn,
        left_sibling: None,
        right_sibling: None,
        low_fence: None,
        high_fence: None,
        compressed: false,
        entries: Seq::empty(),
    }
}

/// An entry as a page insert makes it: the key, sequence and record of `e`,
/// not a ghost and without an overflow page.
pub open spec fn as_inserted(e: EntryView) -> EntryView {
    EntryView { key: e.key, sequence: e.sequence, rid: e.rid, is_ghost: false, overflow_page: None }
}

/// The entries as page inserts make them.
pub open spec fn reinserted(s: Seq<EntryView>) -> Seq<EntryView> {
    s.map_values(|e: EntryView| as_inserted(e))
}

/// The page under `k`, to change in place (std's `BTreeMap::get_mut`).
///
/// Trusted: if the key is present the result is its page and the map
/// afterwards holds, under that key, whatever the page became; otherwise the
/// result is `None` and the map is unchanged.
#[verifier::external_body]
fn map_get_mut(m: &mut BTreeMap<u64, BTreePage>, k: u64) -> (r: Option<&mut BTreePage>)
    ensures
        match r {
            Some(p) => old(m)@.contains_key(k) && *p == old(m)@[k] && final(m)@ == old(m)@.insert(
                k,
                *final(p),
            ),
            None => !old(m)@.contains_key(k) && final(m)@ == old(m)@,
        },
{
    m.get_mut(&k)
}

impl BTreePageManager {
    /// The next page id to hand out.
    pub closed spec fn next(&self) -> u64 {
        self.next_page_id
    }

    /// The pages by id.
    pub closed spec fn pages(&self) -> Map<u64, PageView> {
        self.pages@.map_values(|p: BTreePage| p@)
    }

    pub fn new() -> (m: BTreePageManager)
        ensures
            m.next() == 1,
            m.pages() == Map::<u64, PageView>::empty(),
    {
        let m = BTreePageManager { next_page_id: 1, pages: BTreeMap::new() };
        proof {
            assert(m.pages() =~= Map::<u64, PageView>::empty());
        }
        m
    }

    /// Hand out the next id for a new empty leaf.
    pub fn allocate_leaf(&mut self, page_lsn: u64) -> (id: BTreePageId)
        ensures
            id.0 == old(self).next(),
            final(self).next() == sat_inc(old(self).next()),
            final(self).pages() == old(self).pages().insert(id.0, leaf_view(id, page_lsn)),
    {
        let page_id = BTreePageId(self.next_page_id);
        self.next_page_id = self.next_page_id.saturating_add(1);
        let leaf = BTreePage::leaf(page_id, page_lsn);
        let ghost lv = leaf@;
        let ghost before = self.pages@;
        self.pages.insert(page_id.0, leaf);
        proof {
            assert(self.pages() =~= old(self).pages().insert(page_id.0, lv));
        }
        page_id
    }

    /// The page with this id.
    pub fn page(&self, page_id: BTreePageId) -> (r: Result<&BTreePage>)
        ensures
            match r {
                Ok(p) => self.pages().contains_key(page_id.0) && p@ == self.pages()[page_id.0],
                Err(e) => !self.pages().contains_key(page_id.0) && e is KeyNotFound,
            },
    {
        match self.pages.get(&page_id.0) {
            Some(p) => Ok(p),
            None => Err(TridentError::KeyNotFound),
        }
    }

    /// The page with this id, to change in place.
    pub fn page_mut(&mut self, page_id: BTreePageId) -> (r: Result<&mut BTreePage>)
        ensures
            final(self).next() == old(self).next(),
            match r {
                Ok(p) => old(self).pages().contains_key(page_id.0) && p@ == old(self).pages()[page_id.0]
                    && final(self).pages() == old(self).pages().insert(page_id.0, final(p)@),
                Err(e) => !old(self).pages().contains_key(page_id.0) && e is KeyNotFound
                    && final(self).pages() == old(self).pages(),
            },
    {
        match map_get_mut(&mut self.pages, page_id.0) {
            Some(p) => Ok(p),
            None => Err(TridentError::KeyNotFound),
        }
    }

    /// The number of pages.
    pub fn page_count(&self) -> (n: usize)
        ensures
            n == self.pages().len(),
    {
        proof {
            assert(self.pages().dom() =~= self.pages@.dom());
        }
        self.pages.len()
    }

    /// Take a page out.
    fn take_page(&mut self, page_id: BTreePageId) -> (r: Result<BTreePage>)
        ensures
            final(self).next() == old(self).next(),
            match r {
                Ok(p) => old(self).pages().contains_key(page_id.0) && p@ == old(self).pages()[page_id.0]
                    && final(self).pages() == old(self).pages().remove(page_id.0),
                Err(e) => !old(self).pages().contains_key(page_id.0) && e is KeyNotFound
                    && final(self).pages() == old(self).pages(),
            },
    {
        match self.pages.remove(&page_id.0) {
            Some(p) => {
                proof {
                    assert(self.pages() =~= old(self).pages().remove(page_id.0));
                }
                Ok(p)
            },
            None => {
                proof {
                    assert(self.pages@ =~= old(self).pages@);
                }
                Err(TridentError::KeyNotFound)
            },
        }
    }

    /// Put a page in under `id`.
    fn put_page(&mut self, id: u64, page: BTreePage)
        ensures
            final(self).next() == old(self).next(),
            final(self).pages() == old(self).pages().insert(id, page@),
    {
        let ghost pv = page@;
        self.pages.insert(id, page);
        proof {
            assert(self.pages() =~= old(self).pages().insert(id, pv));
        }
    }

    /// Insert an entry into a leaf; fails if there is no such page.
    pub fn insert_leaf(&mut self, page_id: BTreePageId, key: &[u8], sequence: u64, rid: RecordId) -> (r: Result<()>)
        ensures
            final(self).next() == old(self).next(),
            match r {
                Ok(_) => old(self).pages().contains_key(page_id.0) && exists|v: PageView|
                    #![auto]
                    {
                        &&& v == PageView { entries: v.entries, ..old(self).pages()[page_id.0] }
                        &&& is_stable_sort(
                            old(self).pages()[page_id.0].entries.push(
                                EntryView {
                                    key: key@,
                                    sequence,
                                    rid,
                                    is_ghost: false,
                                    overflow_page: None,
                                },
                            ),
                            v.entries,
                        )
                        &&& final(self).pages() == old(self).pages().insert(page_id.0, v)
                    },
                Err(e) => !old(self).pages().contains_key(page_id.0) && e is KeyNotFound
                    && final(self).pages() == old(self).pages(),
            },
    {
        let mut page = self.take_page(page_id)?;
        page.insert(key, sequence, rid);
        self.put_page(page_id.0, page);
        proof {
            assert(self.pages() =~= old(self).pages().insert(page_id.0, page@));
        }
        Ok(())
    }
}


/// The message of a split of a page with fewer than two entries.
pub open spec fn split_too_small() -> Seq<char> {
    "cannot split an empty B-tree page"@
}

/// The pages after splitting page `p` (whose view was `orig`) at `mid`
/// into itself and the new leaf `r`, both at `lsn`: the left page holds the
/// lower entries re-inserted (`le`), the right page the upper ones (`re`),
/// and it takes over the right sibling. When `r` is `p` itself (the id
/// counter has saturated) the two are one page.
pub open spec fn split_pages(
    pages: Map<u64, PageView>,
    p: BTreePageId,
    r: BTreePageId,
    lsn: u64,
    orig: PageView,
    le: Seq<EntryView>,
    re: Seq<EntryView>,
) -> Map<u64, PageView> {
    if r == p {
        pages.insert(p.0, PageView { right_sibling: orig.right_sibling, entries: re, ..leaf_view(p, lsn) })
    } else {
        pages.insert(p.0, PageView { right_sibling: Some(r), entries: le, ..leaf_view(p, lsn) }).insert(
            r.0,
            PageView { right_sibling: orig.right_sibling, entries: re, ..leaf_view(r, lsn) },
        )
    }
}

/// Insert into `page` the key, sequence and record of each entry of `src`
/// from `from` to `to`, in order.
fn insert_all(page: &mut BTreePage, src: &Vec<BTreePageEntry>, from: usize, to: usize)
    requires
        from <= to <= src@.len(),
        crate::index::btree::page::entries_sorted(old(page)@.entries),
    ensures
        final(page)@ == (PageView { entries: final(page)@.entries, ..old(page)@ }),
        is_stable_sort(
            old(page)@.entries + reinserted(entries_view(src@).subrange(from as int, to as int)),
            final(page)@.entries,
        ),
{
    let ghost base = old(page)@.entries;
    let ghost items = reinserted(entries_view(src@).subrange(from as int, to as int));
    let mut i: usize = from;
    proof {
        crate::index::btree::page::lemma_stable_sort_refl(page@.entries);
        assert(base + items.take(0) =~= base);
    }
    while i < to
        invariant
            from <= i <= to <= src@.len(),
            base == old(page)@.entries,
            items == reinserted(entries_view(src@).subrange(from as int, to as int)),
            page@ == (PageView { entries: page@.entries, ..old(page)@ }),
            is_stable_sort(base + items.take(i - from), page@.entries),
        decreases to - i,
    {
        let ghost before = page@.entries;
        let e = &src[i];
        page.insert(e.key.as_slice(), e.sequence, e.rid);
        proof {
            let x = EntryView { key: e.key@, sequence: e.sequence, rid: e.rid, is_ghost: false, overflow_page: None };
            assert(items[i - from] == x);
            assert((base + items.take(i - from)).push(x) =~= base + items.take(i + 1 - from));
            crate::index::btree::page::lemma_stable_sort_extend(
                base + items.take(i - from),
                before,
                x,
                page@.entries,
            );
        }
        i = i + 1;
    }
    proof {
        assert(items.take(to - from) =~= items);
    }
}

/// Copies of a page's entries.
fn copy_entries(s: &[BTreePageEntry]) -> (out: Vec<BTreePageEntry>)
    ensures
        entries_view(out@) == entries_view(s@),
{
    let mut out: Vec<BTreePageEntry> = Vec::new();
    let mut i: usize = 0;
    while i < s.len()
        invariant
            i <= s@.len(),
            out@.len() == i,
            forall|j: int| 0 <= j < i ==> #[trigger] out@[j]@ == s@[j]@,
        decreases s@.len() - i,
    {
        let c = copy_entry(&s[i]);
        out.push(c);
        i = i + 1;
    }
    proof {
        assert(entries_view(out@) =~= entries_view(s@));
    }
    out
}

impl BTreePageManager {
    /// Split a leaf in two: it keeps the lower half of its entries, re-inserted
    /// into an empty leaf at `page_lsn` whose right sibling is a new leaf; the
    /// new leaf takes the upper half and the old right sibling. Fails if the
    /// page does not exist or has fewer than two entries.
    pub fn split_leaf(&mut self, page_id: BTreePageId, page_lsn: u64) -> (r: Result<BTreePageSplit>)
        ensures
            match r {
                Err(e) => final(self).pages() == old(self).pages() && final(self).next() == old(
                    self,
                ).next() && if old(self).pages().contains_key(page_id.0) {
                    old(self).pages()[page_id.0].entries.len() / 2 == 0 && (e matches TridentError::InvalidConfig(m)
                        && m@ == split_too_small())
                } else {
                    e is KeyNotFound
                },
                Ok(s) => {
                    let orig = old(self).pages()[page_id.0];
                    let mid = orig.entries.len() / 2;
                    let right = BTreePageId(old(self).next());
                    &&& old(self).pages().contains_key(page_id.0)
                    &&& mid > 0
                    &&& s.left == page_id
                    &&& s.right == right
                    &&& s.fence_key@ == orig.entries[mid as int].key
                    &&& final(self).next() == sat_inc(old(self).next())
                    &&& exists|le: Seq<EntryView>, re: Seq<EntryView>|
                        {
                            &&& is_stable_sort(reinserted(orig.entries.take(mid as int)), le)
                            &&& is_stable_sort(
                                (if right == page_id {
                                    le
                                } else {
                                    Seq::empty()
                                }) + reinserted(orig.entries.skip(mid as int)),
                                re,
                            )
                            &&& final(self).pages() == split_pages(
                                old(self).pages(),
                                page_id,
                                right,
                                page_lsn,
                                orig,
                                le,
                                re,
                            )
                        }
                },
            },
    {
        let original = self.page(page_id)?;
        let ghost orig = original@;
        let src = copy_entries(original.entries());
        let orig_right = original.right();
        let n = src.len();
        let mid = n / 2;
        if mid == 0 {
            return Err(TridentError::InvalidConfig(String::from_str("cannot split an empty B-tree page")));
        }
        let ghost pages0 = self.pages();
        let right_id = self.allocate_leaf(page_lsn);
        let ghost pages1 = self.pages();
        let _old_left = match self.take_page(page_id) {
            Ok(p) => p,
            Err(e) => {
                proof {
                    assert(pages1.contains_key(page_id.0));
                }
                return Err(e);
            },
        };
        let mut left = BTreePage::leaf(page_id, page_lsn);
        left.set_right(Some(right_id));
        insert_all(&mut left, &src, 0, mid);
        let ghost le = left@.entries;
        proof {
            assert(Seq::<EntryView>::empty() + reinserted(entries_view(src@).subrange(0, mid as int))
                =~= reinserted(orig.entries.take(mid as int)));
        }
        self.put_page(page_id.0, left);
        let ghost pages2 = self.pages();
        let mut right = match self.take_page(right_id) {
            Ok(p) => p,
            Err(e) => {
                proof {
                    assert(pages2.contains_key(right_id.0));
                }
                return Err(e);
            },
        };
        let ghost base = right@.entries;
        right.set_right(orig_right);
        insert_all(&mut right, &src, mid, n);
        let ghost re = right@.entries;
        proof {
            assert(reinserted(entries_view(src@).subrange(mid as int, n as int)) =~= reinserted(
                orig.entries.skip(mid as int),
            ));
            if right_id == page_id {
                assert(base == le);
            } else {
                assert(base =~= Seq::<EntryView>::empty());
            }
        }
        self.put_page(right_id.0, right);
        proof {
            assert(self.pages() =~= split_pages(pages0, page_id, right_id, page_lsn, orig, le, re));
        }
        let fence_key = copy_bytes(src[mid].key.as_slice());
        proof {
            assert(entries_view(src@)[mid as int] == src@[mid as int]@);
        }
        Ok(BTreePageSplit { left: page_id, right: right_id, fence_key })
    }
}

} // verus!
