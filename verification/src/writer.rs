use vstd::prelude::*;
use crate::book::{
    book_close, book_new_chapter, book_open_safe, book_read_safe, book_writer_new, chapter_close,
    chapter_write_all, cw_model, spec_book_bytes, spec_book_parse, spec_chapter_map,
    CHAPTER_PAGES, CHAPTER_PAGE_INDEX, CHAPTER_SNAP_META, SNAPFILE_MAGIC,
};
use crate::codec::{encode_index, encode_meta, spec_encode_index, spec_encode_meta};
use crate::codec::lemma_encode_entries_len;
use crate::error::SnapError;
use crate::index::{PageIndex, PageLocation, MAX_PAGE_ORDINAL};
use crate::meta::SnapFileMeta;
use crate::page::Page;
use std::io::Cursor;

verus! {

/// The raw concatenation of the written pages, in write order.
pub open spec fn spec_concat_pages(ws: Seq<(u64, Seq<u8>)>) -> Seq<u8>
    decreases ws.len(),
{
    if ws.len() == 0 {
        Seq::<u8>::empty()
    } else {
        spec_concat_pages(ws.drop_last()) + ws.last().1
    }
}

/// Whole pages concatenate to a multiple of the page size.
pub proof fn lemma_concat_pages_len(ws: Seq<(u64, Seq<u8>)>)
    requires
        forall|i: int| 0 <= i < ws.len() ==> (#[trigger] ws[i]).1.len() == 8192,
    ensures
        spec_concat_pages(ws).len() == 8192 * ws.len(),
    decreases ws.len(),
{
    if ws.len() > 0 {
        lemma_concat_pages_len(ws.drop_last());
    }
}

/// The bytes of write `j` inside the concatenated pages.
pub proof fn lemma_concat_pages_extract(ws: Seq<(u64, Seq<u8>)>, j: int)
    requires
        forall|i: int| 0 <= i < ws.len() ==> (#[trigger] ws[i]).1.len() == 8192,
        0 <= j < ws.len(),
    ensures
        spec_concat_pages(ws).subrange(8192 * j, 8192 * j + 8192) == ws[j].1,
    decreases ws.len(),
{
    lemma_concat_pages_len(ws);
    lemma_concat_pages_len(ws.drop_last());
    let e = spec_concat_pages(ws);
    let p = spec_concat_pages(ws.drop_last());
    if j == ws.len() - 1 {
        assert(e.subrange(8192 * j, 8192 * j + 8192) =~= ws[j].1);
    } else {
        lemma_concat_pages_extract(ws.drop_last(), j);
        assert(e.subrange(8192 * j, 8192 * j + 8192) =~= p.subrange(8192 * j, 8192 * j + 8192));
        assert(ws.drop_last()[j] == ws[j]);
    }
}

/// `SnapWriter` creates a new snapshot file in memory.
///
/// A SnapWriter is created, has pages written into it, and is then
/// finished, which yields the file's bytes.
pub struct SnapWriter {
    /// The container, with the pages chapter open for appending.
    pub chapter: bookfile::ChapterWriter<Cursor<Vec<u8>>>,
    /// The index built so far: page number to ordinal.
    pub page_index: PageIndex,
    /// The identity this file was created with.
    pub meta: SnapFileMeta,
    /// The ordinal the next written page will get.
    pub current_offset: PageLocation,
    /// The pages written so far, in order: page number and bytes.
    pub writes: Ghost<Seq<(u64, Seq<u8>)>>,
}

impl SnapWriter {
    /// The pages written so far, in order.
    pub open spec fn spec_writes(self) -> Seq<(u64, Seq<u8>)> {
        self.writes@
    }

    /// The identity this writer was created with.
    pub open spec fn spec_meta(self) -> SnapFileMeta {
        self.meta
    }

    /// A page number was already written through this writer.
    pub open spec fn spec_has(self, p: u64) -> bool {
        self.page_index.spec_contains(p)
    }

    /// The writer's invariant: the container holds the identity chapter
    /// closed and the pages chapter open with exactly the written pages'
    /// bytes, and the index maps each written page number to the ordinal
    /// of its write.
    pub open spec fn wf(self) -> bool {
        let cw = cw_model(&self.chapter);
        &&& cw.magic == SNAPFILE_MAGIC
        &&& cw.closed == seq![(CHAPTER_SNAP_META, spec_encode_meta(self.meta.model()))]
        &&& cw.id == CHAPTER_PAGES
        &&& cw.bytes == spec_concat_pages(self.writes@)
        &&& cw.total == 4096 + spec_encode_meta(self.meta.model()).len() + 8192 * self.writes@.len()
        &&& self.current_offset.0 == self.writes@.len()
        &&& self.page_index.wf()
        &&& self.page_index@.len() == self.writes@.len()
        &&& self.writes@.len() <= MAX_PAGE_ORDINAL
        &&& forall|i: int|
            0 <= i < self.writes@.len() ==> (#[trigger] self.writes@[i]).1.len() == 8192
        &&& forall|i: int|
            0 <= i < self.writes@.len() ==> self.page_index.spec_contains(
                (#[trigger] self.writes@[i]).0,
            ) && self.page_index.spec_location(self.writes@[i].0) == i as u64
        &&& forall|p: u64|
            #[trigger] self.page_index.spec_contains(p) ==> exists|i: int|
                0 <= i < self.writes@.len() && (#[trigger] self.writes@[i]).0 == p
    }

    /// Create a new `SnapWriter` for a snapshot with the given identity.
    ///
    /// The identity chapter is written and closed at once, then the
    /// pages chapter is opened for appending.
    pub fn new(meta: SnapFileMeta) -> (w: SnapWriter)
        ensures
            w.wf(),
            w.spec_writes().len() == 0,
            w.spec_meta() == meta,
    {
        let bw = book_writer_new(SNAPFILE_MAGIC);
        let mut c = book_new_chapter(bw, CHAPTER_SNAP_META);
        let enc = encode_meta(&meta);
        proof {
            assert(enc@.len() <= 50);
            assert(isize::MAX >= 0x7fff_ffff) by (nonlinear_arith);
        }
        chapter_write_all(&mut c, enc.as_slice());
        let bw2 = chapter_close(c);
        let c2 = book_new_chapter(bw2, CHAPTER_PAGES);
        let w = SnapWriter {
            chapter: c2,
            page_index: PageIndex::new(),
            meta,
            current_offset: PageLocation(0),
            writes: Ghost(Seq::empty()),
        };
        proof {
            assert(cw_model(&w.chapter).closed =~= seq![
                (CHAPTER_SNAP_META, spec_encode_meta(meta.model())),
            ]);
            assert(cw_model(&w.chapter).bytes =~= spec_concat_pages(Seq::empty()));
        }
        w
    }

    /// Write a page into the snap file.
    ///
    /// The page's bytes are appended to the pages chapter and the page
    /// number is recorded at the next ordinal. Writing a page number a
    /// second time changes nothing and reports a duplicate-page error.
    pub fn write_page(&mut self, page_num: u64, page_data: Page) -> (r: Result<(), SnapError>)
        requires
            old(self).wf(),
            page_data.wf(),
            8192 * (old(self).spec_writes().len() + 2) <= isize::MAX as int,
        ensures
            final(self).wf(),
            final(self).spec_meta() == old(self).spec_meta(),
            match r {
                Ok(_) => !old(self).spec_has(page_num) && final(self).spec_writes() == old(
                    self,
                ).spec_writes().push((page_num, page_data@)),
                Err(e) => e == SnapError::DuplicatePage && old(self).spec_has(page_num)
                    && *final(self) == *old(self),
            },
    {
        let loc = self.current_offset;
        if !self.page_index.insert_new(page_num, loc) {
            return Err(SnapError::DuplicatePage);
        }
        chapter_write_all(&mut self.chapter, page_data.as_bytes());
        self.current_offset = PageLocation(loc.0 + 1);
        proof {
            self.writes@ = self.writes@.push((page_num, page_data@));
        }
        proof {
            let ws = self.writes@;
            let ows = old(self).writes@;
            assert(ws.drop_last() =~= ows);
            assert(cw_model(&self.chapter).bytes =~= spec_concat_pages(ws));
            let oix = old(self).page_index;
            let ix = self.page_index;
            assert(ix.page_map() =~= oix.page_map().insert(page_num, loc.0));
            assert forall|i: int| 0 <= i < ws.len() implies ix.spec_contains(
                (#[trigger] ws[i]).0,
            ) && ix.spec_location(ws[i].0) == i as u64 by {
                if i < ws.len() - 1 {
                    assert(ows[i].0 == ws[i].0);
                    assert(oix.spec_contains(ws[i].0));
                    assert(oix.page_map().dom().contains(ws[i].0));
                    assert(ws[i].0 != page_num);
                    assert(ix.page_map()[ws[i].0] == oix.page_map()[ws[i].0]);
                    assert(ix.page_map().dom().contains(ws[i].0));
                } else {
                    assert(ws[i].0 == page_num);
                    assert(ix.page_map().dom().contains(page_num));
                    assert(ix.page_map()[page_num] == loc.0);
                }
            }
            assert forall|p: u64| #[trigger] ix.spec_contains(p) implies exists|i: int|
                0 <= i < ws.len() && (#[trigger] ws[i]).0 == p by {
                assert(ix.page_map().dom().contains(p));
                if p == page_num {
                    assert(ws[ws.len() - 1].0 == p);
                } else {
                    assert(oix.page_map().dom().contains(p));
                    assert(oix.spec_contains(p));
                    let i = choose|i: int| 0 <= i < ows.len() && (#[trigger] ows[i]).0 == p;
                    assert(ws[i].0 == p);
                }
            }
        }
        Ok(())
    }

    /// Finish writing pages.
    ///
    /// This consumes the writer and completes the snapshot: the pages
    /// chapter is closed, the index is encoded into its own chapter,
    /// and the finished file's bytes are returned together with the
    /// identity that was supplied at creation.
    pub fn finish(self) -> (r: (SnapFileMeta, Vec<u8>))
        requires
            self.wf(),
            8300 * self.spec_writes().len() + 16384 <= isize::MAX as int,
        ensures
            r.0 == self.spec_meta(),
            book_open_safe(r.1@),
            book_read_safe(r.1@),
            r.1@ == spec_book_bytes(
                SNAPFILE_MAGIC,
                seq![
                    (CHAPTER_SNAP_META, spec_encode_meta(self.spec_meta().model())),
                    (CHAPTER_PAGES, spec_concat_pages(self.spec_writes())),
                    (CHAPTER_PAGE_INDEX, spec_encode_index(self.page_index@)),
                ],
            ),
            spec_book_parse(r.1@) == Some(
                (
                    SNAPFILE_MAGIC,
                    spec_chapter_map(
                        seq![
                            (CHAPTER_SNAP_META, spec_encode_meta(self.spec_meta().model())),
                            (CHAPTER_PAGES, spec_concat_pages(self.spec_writes())),
                            (CHAPTER_PAGE_INDEX, spec_encode_index(self.page_index@)),
                        ],
                    ),
                ),
            ),
    {
        let SnapWriter { chapter, page_index, meta, .. } = self;
        let bw = chapter_close(chapter);
        let enc = encode_index(&page_index);
        proof {
            lemma_encode_entries_len(page_index@);
            assert(enc@.len() == 9 + 16 * page_index@.len());
        }
        let mut c = book_new_chapter(bw, CHAPTER_PAGE_INDEX);
        chapter_write_all(&mut c, enc.as_slice());
        let bw2 = chapter_close(c);
        proof {
            assert(cw_model(&c).closed.push((cw_model(&c).id, cw_model(&c).bytes)) =~= seq![
                (CHAPTER_SNAP_META, spec_encode_meta(meta.model())),
                (CHAPTER_PAGES, spec_concat_pages(self.spec_writes())),
                (CHAPTER_PAGE_INDEX, spec_encode_index(page_index@)),
            ]);
        }
        let bytes = book_close(bw2);
        (meta, bytes)
    }
}

} // verus!
