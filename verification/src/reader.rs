use vstd::prelude::*;
use vstd::slice::{slice_subrange, slice_to_vec};
use crate::book::{
    book_magic, book_open, book_open_safe, book_read_chapter, book_read_safe, spec_book_parse,
    CHAPTER_PAGES, CHAPTER_PAGE_INDEX, CHAPTER_SNAP_META, SNAPFILE_MAGIC,
};
use crate::codec::{
    cbor_region_bounded, decode_index, decode_meta, read_be_arg, read_u64_be, spec_decode_index,
    spec_decode_meta,
};
use crate::error::SnapError;
use crate::index::{entries_contain, entries_location, PageIndex, PageLocation, MAX_PAGE_ORDINAL};
use crate::meta::SnapFileMeta;
use crate::page::Page;

verus! {

/// The pages a pages region can serve against an index: each indexed
/// page number whose bytes lie within the region, mapped to its bytes.
pub open spec fn entries_page_map(s: Seq<(u64, PageLocation)>, pb: Seq<u8>) -> Map<u64, Seq<u8>> {
    Map::new(
        |p: u64| entries_contain(s, p) && 8192 * entries_location(s, p) + 8192 <= pb.len(),
        |p: u64| pb.subrange(
            8192 * entries_location(s, p),
            8192 * entries_location(s, p) + 8192,
        ),
    )
}

/// Each entry of a strictly sorted index whose page lies within the
/// region is served under its own page number, with the bytes at its
/// own ordinal.
pub proof fn lemma_entry_serves(s: Seq<(u64, PageLocation)>, pb: Seq<u8>, t: int)
    requires
        crate::index::entries_sorted(s),
        0 <= t < s.len(),
        8192 * s[t].1.0 + 8192 <= pb.len(),
    ensures
        entries_page_map(s, pb).dom().contains(s[t].0),
        entries_page_map(s, pb)[s[t].0] == pb.subrange(8192 * s[t].1.0, 8192 * s[t].1.0 + 8192),
{
    assert(entries_contain(s, s[t].0)) by {
        assert(0 <= t < s.len() && s[t].0 == s[t].0);
    }
    let j = choose|j: int| 0 <= j < s.len() && (#[trigger] s[j]).0 == s[t].0;
    crate::index::lemma_entries_unique(s, t, j);
    assert(entries_location(s, s[t].0) == s[t].1.0);
}

/// A read-only snapshot file, loaded from its bytes.
#[derive(Debug)]
pub struct SnapFile {
    /// The loaded page index.
    pub page_index: PageIndex,
    /// The bytes of the identity region, when the file has one.
    pub meta_bytes: Option<Vec<u8>>,
    /// The bytes of the pages region, when the file has one.
    pub pages: Option<Vec<u8>>,
}

impl SnapFile {
    /// The loaded index entries, sorted by page number.
    pub open spec fn spec_index(self) -> Seq<(u64, PageLocation)> {
        self.page_index@
    }

    /// The bytes of the identity region, when the file has one.
    pub open spec fn spec_meta_bytes(self) -> Option<Seq<u8>> {
        match self.meta_bytes {
            Some(v) => Some(v@),
            None => None,
        }
    }

    /// The bytes of the pages region, when the file has one.
    pub open spec fn spec_pages(self) -> Option<Seq<u8>> {
        match self.pages {
            Some(v) => Some(v@),
            None => None,
        }
    }

    /// A loaded snapshot is well-formed when its index is.
    pub open spec fn wf(self) -> bool {
        self.page_index.wf()
    }

    /// The index has an entry for page number `p`.
    pub open spec fn spec_contains(self, p: u64) -> bool {
        self.page_index.spec_contains(p)
    }

    /// The ordinal recorded for page number `p`.
    pub open spec fn spec_location(self, p: u64) -> u64 {
        self.page_index.spec_location(p)
    }

    /// The pages region is long enough to hold the page at `loc`.
    pub open spec fn page_in_range(self, loc: u64) -> bool {
        self.spec_pages() matches Some(pb) && 8192 * loc + 8192 <= pb.len()
    }

    /// The bytes of the page stored at ordinal `loc`.
    pub open spec fn spec_page_at(self, loc: u64) -> Seq<u8> {
        self.spec_pages()->0.subrange(8192 * loc, 8192 * loc + 8192)
    }

    /// The pages this file can serve: each indexed page number whose
    /// bytes lie within the pages region, mapped to those bytes.
    pub open spec fn snap_page_map(self) -> Map<u64, Seq<u8>> {
        match self.spec_pages() {
            Some(pb) => entries_page_map(self.spec_index(), pb),
            None => Map::empty(),
        }
    }

    /// Every indexed page lies within the pages region.
    pub open spec fn spec_readable(self) -> bool {
        forall|i: int|
            0 <= i < self.spec_index().len() ==> self.page_in_range(
                (#[trigger] self.spec_index()[i]).1.0,
            )
    }

    /// Open a snapshot from its file bytes.
    ///
    /// Validates that the bytes form a container carrying this format's
    /// magic tag and loads the page index; fails with a format error
    /// otherwise.
    pub fn new(bytes: Vec<u8>) -> (r: Result<SnapFile, SnapError>)
        ensures
            match r {
                Ok(s) => ({
                    let bm = spec_book_parse(bytes@)->0;
                    s.wf() && spec_book_parse(bytes@) is Some && bm.0 == SNAPFILE_MAGIC
                        && bm.1.contains_key(CHAPTER_PAGE_INDEX) && spec_decode_index(
                        bm.1[CHAPTER_PAGE_INDEX],
                    ) == Some(s.spec_index()) && (match s.spec_meta_bytes() {
                        Some(mb) => bm.1.contains_key(CHAPTER_SNAP_META) && mb == bm.1[
                            CHAPTER_SNAP_META],
                        None => !bm.1.contains_key(CHAPTER_SNAP_META),
                    }) && (match s.spec_pages() {
                        Some(pb) => bm.1.contains_key(CHAPTER_PAGES) && pb == bm.1[CHAPTER_PAGES],
                        None => !bm.1.contains_key(CHAPTER_PAGES),
                    })
                }),
                Err(e) => ({
                    let bm = spec_book_parse(bytes@)->0;
                    e == SnapError::Format && (!book_open_safe(bytes@) || !book_read_safe(bytes@)
                        || spec_book_parse(bytes@) is None || bm.0 != SNAPFILE_MAGIC
                        || !bm.1.contains_key(CHAPTER_PAGE_INDEX) || spec_decode_index(
                        bm.1[CHAPTER_PAGE_INDEX],
                    ) is None)
                }),
            },
    {
        // A file whose trailing length field is inconsistent with its
        // size, or whose stated table region does not walk as bounded
        // definite-length items, cannot be a finished container;
        // reject it before the parser, whose arithmetic does not
        // admit it, sees it.
        let n = bytes.len();
        if n >= 4096 {
            let toc_len = read_u64_be(bytes.as_slice(), n - 8);
            if toc_len <= 0x400_0000 {
                if toc_len > (n - 8) as u64 {
                    return Err(SnapError::Format);
                }
                let toc_lo = n - 8 - (toc_len as usize);
                let hi = n - 8;
                if hi - toc_lo >= 8 {
                    let msg_len = read_be_arg(bytes.as_slice(), toc_lo + 4, 4);
                    let body_hi: usize = if msg_len < (hi - (toc_lo + 8)) as u64 {
                        toc_lo + 8 + (msg_len as usize)
                    } else {
                        hi
                    };
                    if !cbor_region_bounded(bytes.as_slice(), toc_lo + 8, body_hi) {
                        return Err(SnapError::Format);
                    }
                }
            }
        }
        proof {
            assert(book_open_safe(bytes@));
            assert(book_read_safe(bytes@));
        }
        let mut book = match book_open(bytes) {
            Some(b) => b,
            None => {
                return Err(SnapError::Format);
            },
        };
        if book_magic(&book) != SNAPFILE_MAGIC {
            return Err(SnapError::Format);
        }
        let index_bytes = match book_read_chapter(&mut book, CHAPTER_PAGE_INDEX) {
            Some(v) => v,
            None => {
                return Err(SnapError::Format);
            },
        };
        let page_index = match decode_index(index_bytes.as_slice()) {
            Some(ix) => ix,
            None => {
                return Err(SnapError::Format);
            },
        };
        let meta_bytes = book_read_chapter(&mut book, CHAPTER_SNAP_META);
        let pages = book_read_chapter(&mut book, CHAPTER_PAGES);
        Ok(SnapFile { page_index, meta_bytes, pages })
    }

    /// Read the snapshot identity stored in the file.
    pub fn read_meta(&self) -> (r: Result<SnapFileMeta, SnapError>)
        ensures
            match r {
                Ok(m) => self.spec_meta_bytes() matches Some(mb) && spec_decode_meta(mb) == Some(
                    m.model(),
                ),
                Err(e) => e == SnapError::Format && (self.spec_meta_bytes() is None
                    || spec_decode_meta(self.spec_meta_bytes()->0) is None),
            },
    {
        match &self.meta_bytes {
            None => Err(SnapError::Format),
            Some(mb) => match decode_meta(mb.as_slice()) {
                Some(m) => Ok(m),
                None => Err(SnapError::Format),
            },
        }
    }

    /// Return the number of pages stored in this snapshot.
    pub fn page_count(&self) -> (r: usize)
        requires
            self.wf(),
        ensures
            r == self.spec_index().len(),
    {
        self.page_index.page_count()
    }

    /// Check if a page exists in this snapshot's index.
    ///
    /// Returns `true` if the given page is stored in this snapshot file,
    /// `false` if not.
    pub fn has_page(&self, page_num: u64) -> (r: bool)
        requires
            self.wf(),
        ensures
            r == self.spec_contains(page_num),
    {
        self.page_index.get_page_location(page_num).is_some()
    }

    /// Read the page stored at a given ordinal.
    ///
    /// Fails with a corruption error when the pages region ends before
    /// the page does, and with a format error when the file has no
    /// pages region at all.
    pub(crate) fn read_page_at(&self, loc: PageLocation) -> (r: Result<Page, SnapError>)
        requires
            self.wf(),
            loc.0 <= MAX_PAGE_ORDINAL,
        ensures
            match r {
                Ok(p) => p.wf() && self.page_in_range(loc.0) && p@ == self.spec_page_at(loc.0),
                Err(e) => (self.spec_pages() is None && e == SnapError::Format) || (
                self.spec_pages() is Some && !self.page_in_range(loc.0) && e
                    == SnapError::Corrupt),
            },
    {
        let offset = loc.to_offset();
        let pages = match &self.pages {
            None => {
                return Err(SnapError::Format);
            },
            Some(v) => v,
        };
        let len = pages.len();
        if len < 8192 || offset > (len - 8192) as u64 {
            return Err(SnapError::Corrupt);
        }
        let off: usize = offset as usize;
        let slice = slice_subrange(pages.as_slice(), off, off + 8192);
        let buf = slice_to_vec(slice);
        Ok(Page::new(buf))
    }

    /// Read a page.
    ///
    /// If this returns Ok(None), that means that this file does not store
    /// the requested page.
    pub fn read_page(&self, page_num: u64) -> (r: Result<Option<Page>, SnapError>)
        requires
            self.wf(),
        ensures
            !self.spec_contains(page_num) ==> r == Ok::<Option<Page>, SnapError>(None),
            self.spec_contains(page_num) ==> match r {
                Ok(opt) => opt matches Some(p) && p.wf() && self.page_in_range(
                    self.spec_location(page_num),
                ) && p@ == self.spec_page_at(self.spec_location(page_num)),
                Err(e) => (self.spec_pages() is None && e == SnapError::Format) || (
                self.spec_pages() is Some && !self.page_in_range(self.spec_location(page_num))
                    && e == SnapError::Corrupt),
            },
    {
        match self.page_index.get_page_location(page_num) {
            None => Ok(None),
            Some(loc) => match self.read_page_at(loc) {
                Ok(p) => Ok(Some(p)),
                Err(e) => Err(e),
            },
        }
    }

    /// Iterate over pages, in ascending page-number order.
    pub fn all_pages(&self) -> (r: PageIter)
        ensures
            r.pos == 0,
    {
        PageIter { pos: 0 }
    }

    /// Read every page, in ascending page-number order.
    ///
    /// On success the result holds one pair per index entry, in index
    /// order, each page byte-identical to the stored bytes. It fails
    /// exactly when some indexed page cannot be read: with a format
    /// error when the file has no pages region, and with a corruption
    /// error when the region ends before an indexed page does.
    pub fn read_all(&self) -> (r: Result<Vec<(u64, Page)>, SnapError>)
        requires
            self.wf(),
        ensures
            match r {
                Ok(v) => v@.len() == self.spec_index().len() && forall|t: int|
                    0 <= t < v@.len() ==> {
                        let entry = self.spec_index()[t];
                        &&& (#[trigger] v@[t]).0 == entry.0
                        &&& v@[t].1.wf()
                        &&& self.page_in_range(entry.1.0)
                        &&& v@[t].1@ == self.spec_page_at(entry.1.0)
                    },
                Err(e) => !self.spec_readable() && ((self.spec_pages() is None && e
                    == SnapError::Format) || (self.spec_pages() is Some && e
                    == SnapError::Corrupt)),
            },
    {
        let mut out: Vec<(u64, Page)> = Vec::new();
        let mut t: usize = 0;
        while t < self.page_index.entries.len()
            invariant
                self.wf(),
                t <= self.spec_index().len(),
                out@.len() == t,
                forall|k: int|
                    0 <= k < t ==> {
                        let entry = self.spec_index()[k];
                        &&& (#[trigger] out@[k]).0 == entry.0
                        &&& out@[k].1.wf()
                        &&& self.page_in_range(entry.1.0)
                        &&& out@[k].1@ == self.spec_page_at(entry.1.0)
                    },
            decreases self.spec_index().len() - t,
        {
            let entry = self.page_index.entries[t];
            proof {
                assert(self.spec_index()[t as int].1.0 <= MAX_PAGE_ORDINAL);
            }
            let page = match self.read_page_at(entry.1) {
                Ok(p) => p,
                Err(e) => {
                    proof {
                        assert(!self.page_in_range(self.spec_index()[t as int].1.0));
                    }
                    return Err(e);
                },
            };
            out.push((entry.0, page));
            t += 1;
        }
        Ok(out)
    }
}

/// A cursor over all pages in a snapshot file, in ascending
/// page-number order.
pub struct PageIter {
    /// Position in the snapshot's index of the next entry to yield.
    pub pos: usize,
}

impl PageIter {
    /// Yield the next page, with the same per-page outcomes as
    /// `read_page`, or `None` after the last entry.
    pub fn next(&mut self, snap: &SnapFile) -> (r: Option<Result<(u64, Page), SnapError>>)
        requires
            snap.wf(),
        ensures
            old(self).pos >= snap.spec_index().len() ==> r is None && final(self).pos == old(
                self,
            ).pos,
            old(self).pos < snap.spec_index().len() ==> final(self).pos == old(self).pos + 1 && (
            r matches Some(item) && match item {
                Ok((num, page)) => {
                    let entry = snap.spec_index()[old(self).pos as int];
                    num == entry.0 && page.wf() && snap.page_in_range(entry.1.0) && page@
                        == snap.spec_page_at(entry.1.0)
                },
                Err(e) => {
                    let entry = snap.spec_index()[old(self).pos as int];
                    (snap.spec_pages() is None && e == SnapError::Format) || (snap.spec_pages()
                        is Some && !snap.page_in_range(entry.1.0) && e == SnapError::Corrupt)
                },
            }),
    {
        if self.pos >= snap.page_index.page_count() {
            return None;
        }
        let entry = snap.page_index.entries[self.pos];
        proof {
            assert(snap.spec_index()[self.pos as int].1.0 <= MAX_PAGE_ORDINAL);
        }
        self.pos = self.pos + 1;
        match snap.read_page_at(entry.1) {
            Ok(p) => Some(Ok((entry.0, p))),
            Err(e) => Some(Err(e)),
        }
    }
}

} // verus!
