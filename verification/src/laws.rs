//! The library's global laws: what holds of a snapshot file written by
//! `SnapWriter` when it is parsed and read back through `SnapFile`.

use vstd::prelude::*;
use crate::book::{
    spec_book_bytes, spec_book_parse, spec_chapter_map, CHAPTER_PAGES, CHAPTER_PAGE_INDEX,
    CHAPTER_SNAP_META, SNAPFILE_MAGIC,
};
use crate::codec::{
    lemma_index_roundtrip, lemma_meta_roundtrip, spec_decode_index, spec_decode_meta,
    spec_encode_index, spec_encode_meta,
};
use crate::index::{
    entries_bounded, entries_contain, entries_location, entries_sorted, lemma_entries_unique,
    PageLocation,
};
use crate::meta::MetaModel;
use crate::reader::entries_page_map;
use crate::writer::{lemma_concat_pages_extract, lemma_concat_pages_len, spec_concat_pages};

verus! {

/// The three chapters a finished snapshot file holds for an identity,
/// a write sequence, and the index built from it.
pub open spec fn snapshot_chapters(
    mm: MetaModel,
    ws: Seq<(u64, Seq<u8>)>,
    ix: Seq<(u64, PageLocation)>,
) -> Seq<(u64, Seq<u8>)> {
    seq![
        (CHAPTER_SNAP_META, spec_encode_meta(mm)),
        (CHAPTER_PAGES, spec_concat_pages(ws)),
        (CHAPTER_PAGE_INDEX, spec_encode_index(ix)),
    ]
}

/// The bytes of a finished snapshot file for those chapters.
pub open spec fn snapshot_bytes(
    mm: MetaModel,
    ws: Seq<(u64, Seq<u8>)>,
    ix: Seq<(u64, PageLocation)>,
) -> Seq<u8> {
    spec_book_bytes(SNAPFILE_MAGIC, snapshot_chapters(mm, ws, ix))
}

/// A well-formed identity model: both timelines hold sixteen bytes.
pub open spec fn meta_model_wf(mm: MetaModel) -> bool {
    &&& mm.timeline.len() == 16
    &&& (mm.pred matches Some(p) ==> p.0.len() == 16)
}

/// The index describes exactly the writes: one entry per written page
/// number, recording the ordinal of its write.
pub open spec fn writes_indexed(ws: Seq<(u64, Seq<u8>)>, ix: Seq<(u64, PageLocation)>) -> bool {
    &&& ix.len() == ws.len()
    &&& forall|i: int|
        0 <= i < ws.len() ==> entries_contain(ix, (#[trigger] ws[i]).0) && entries_location(
            ix,
            ws[i].0,
        ) == i as u64
    &&& forall|p: u64|
        #[trigger] entries_contain(ix, p) ==> exists|i: int|
            0 <= i < ws.len() && (#[trigger] ws[i]).0 == p
}

/// Each write is one whole page.
pub open spec fn writes_whole_pages(ws: Seq<(u64, Seq<u8>)>) -> bool {
    forall|i: int| 0 <= i < ws.len() ==> (#[trigger] ws[i]).1.len() == 8192
}

/// The chapters of a finished snapshot file, by chapter number.
pub proof fn lemma_snapshot_chapter_map(mm: MetaModel, ws: Seq<(u64, Seq<u8>)>, ix: Seq<(u64,
    PageLocation)>)
    ensures
        ({
            let m = spec_chapter_map(snapshot_chapters(mm, ws, ix));
            &&& m.contains_key(CHAPTER_SNAP_META)
            &&& m[CHAPTER_SNAP_META] == spec_encode_meta(mm)
            &&& m.contains_key(CHAPTER_PAGES)
            &&& m[CHAPTER_PAGES] == spec_concat_pages(ws)
            &&& m.contains_key(CHAPTER_PAGE_INDEX)
            &&& m[CHAPTER_PAGE_INDEX] == spec_encode_index(ix)
        }),
{
    let em = spec_encode_meta(mm);
    let cp = spec_concat_pages(ws);
    let ei = spec_encode_index(ix);
    let cs = snapshot_chapters(mm, ws, ix);
    let rest1 = seq![(CHAPTER_PAGES, cp), (CHAPTER_PAGE_INDEX, ei)];
    let rest2 = seq![(CHAPTER_PAGE_INDEX, ei)];
    let rest3 = Seq::<(u64, Seq<u8>)>::empty();
    assert(cs.drop_first() =~= rest1);
    assert(rest1.drop_first() =~= rest2);
    assert(rest2.drop_first() =~= rest3);
    assert(spec_chapter_map(rest2) =~= spec_chapter_map(rest3).insert(CHAPTER_PAGE_INDEX, ei));
    assert(spec_chapter_map(rest1) =~= spec_chapter_map(rest2).insert(CHAPTER_PAGES, cp));
    assert(spec_chapter_map(cs) =~= spec_chapter_map(rest1).insert(CHAPTER_SNAP_META, em));
}

/// A snapshot file written with some pages and then parsed serves them
/// all back:
/// its index decodes to the index that was built, so the page count is
/// the number of pages written and a page number is present exactly
/// when it was written; its identity chapter decodes to the identity
/// it was created with; and each written page number is served with
/// the very bytes written for it, whatever order the pages were
/// written in.
pub proof fn lemma_snapshot_read_back(
    mm: MetaModel,
    ws: Seq<(u64, Seq<u8>)>,
    ix: Seq<(u64, PageLocation)>,
    b: Seq<u8>,
)
    requires
        spec_book_parse(b) == Some(
            (SNAPFILE_MAGIC, spec_chapter_map(snapshot_chapters(mm, ws, ix))),
        ),
        meta_model_wf(mm),
        entries_sorted(ix),
        entries_bounded(ix),
        writes_indexed(ws, ix),
        writes_whole_pages(ws),
        ix.len() <= u64::MAX,
    ensures
        spec_book_parse(b) is Some,
        ({
            let bm = spec_book_parse(b)->0;
            &&& bm.0 == SNAPFILE_MAGIC
            &&& bm.1.contains_key(CHAPTER_SNAP_META)
            &&& spec_decode_meta(bm.1[CHAPTER_SNAP_META]) == Some(mm)
            &&& bm.1.contains_key(CHAPTER_PAGE_INDEX)
            &&& spec_decode_index(bm.1[CHAPTER_PAGE_INDEX]) == Some(ix)
            &&& bm.1.contains_key(CHAPTER_PAGES)
            &&& bm.1[CHAPTER_PAGES] == spec_concat_pages(ws)
        }),
        ix.len() == ws.len(),
        forall|p: u64|
            #[trigger] entries_contain(ix, p) <==> exists|i: int|
                0 <= i < ws.len() && (#[trigger] ws[i]).0 == p,
        forall|i: int|
            0 <= i < ws.len() ==> ({
                let pm = entries_page_map(ix, spec_concat_pages(ws));
                pm.dom().contains((#[trigger] ws[i]).0) && pm[ws[i].0] == ws[i].1
            }),
{
    lemma_snapshot_chapter_map(mm, ws, ix);
    lemma_meta_roundtrip(mm);
    lemma_index_roundtrip(ix);
    lemma_concat_pages_len(ws);
    let cp = spec_concat_pages(ws);
    assert forall|i: int| 0 <= i < ws.len() implies ({
        let pm = entries_page_map(ix, cp);
        pm.dom().contains((#[trigger] ws[i]).0) && pm[ws[i].0] == ws[i].1
    }) by {
        let pm = entries_page_map(ix, cp);
        assert(entries_contain(ix, ws[i].0));
        assert(entries_location(ix, ws[i].0) == i as u64);
        lemma_concat_pages_extract(ws, i);
        assert(cp.subrange(8192 * i, 8192 * i + 8192) == ws[i].1);
    }
}

/// Iterating a snapshot's index yields its pages in strictly ascending
/// page-number order; each yielded page number was written, with the
/// bytes that were written for it, and every written page number is
/// among the yielded ones, so a full iteration yields exactly the
/// written set.
pub proof fn lemma_iteration_ascending(ws: Seq<(u64, Seq<u8>)>, ix: Seq<(u64, PageLocation)>)
    requires
        entries_sorted(ix),
        entries_bounded(ix),
        writes_indexed(ws, ix),
        writes_whole_pages(ws),
        ix.len() <= u64::MAX,
    ensures
        forall|t: int, u: int| 0 <= t < u < ix.len() ==> (#[trigger] ix[t]).0 < (#[trigger] ix[u]).0,
        forall|t: int|
            0 <= t < ix.len() ==> exists|i: int|
                0 <= i < ws.len() && (#[trigger] ws[i]).0 == (#[trigger] ix[t]).0
                    && entries_page_map(ix, spec_concat_pages(ws))[ix[t].0] == ws[i].1,
        forall|i: int|
            0 <= i < ws.len() ==> exists|t: int|
                0 <= t < ix.len() && (#[trigger] ix[t]).0 == (#[trigger] ws[i]).0,
{
    assert forall|i: int| 0 <= i < ws.len() implies exists|t: int|
        0 <= t < ix.len() && (#[trigger] ix[t]).0 == (#[trigger] ws[i]).0 by {
        assert(entries_contain(ix, ws[i].0));
        let t = choose|t: int| 0 <= t < ix.len() && (#[trigger] ix[t]).0 == ws[i].0;
        assert(ix[t].0 == ws[i].0);
    }
    lemma_concat_pages_len(ws);
    let cp = spec_concat_pages(ws);
    assert forall|t: int| 0 <= t < ix.len() implies exists|i: int|
        0 <= i < ws.len() && (#[trigger] ws[i]).0 == (#[trigger] ix[t]).0 && entries_page_map(
            ix,
            cp,
        )[ix[t].0] == ws[i].1 by {
        assert(entries_contain(ix, ix[t].0)) by {
            assert(0 <= t < ix.len() && ix[t].0 == ix[t].0);
        }
        let i = choose|i: int| 0 <= i < ws.len() && (#[trigger] ws[i]).0 == ix[t].0;
        assert(entries_location(ix, ws[i].0) == i as u64);
        assert(entries_location(ix, ix[t].0) == i as u64);
        lemma_concat_pages_extract(ws, i);
        assert(8192 * (i as u64) + 8192 <= cp.len());
        assert(entries_page_map(ix, cp).dom().contains(ix[t].0));
        assert(entries_page_map(ix, cp)[ix[t].0] == cp.subrange(8192 * (i as int), 8192 * (
        i as int) + 8192));
        assert(entries_page_map(ix, cp)[ix[t].0] == ws[i].1);
    }
}

/// A snapshot finished with no pages written parses back as a file
/// with an empty index: its page count is zero and no page number is
/// present.
pub proof fn lemma_empty_snapshot(mm: MetaModel, b: Seq<u8>)
    requires
        spec_book_parse(b) == Some(
            (
                SNAPFILE_MAGIC,
                spec_chapter_map(
                    snapshot_chapters(
                        mm,
                        Seq::<(u64, Seq<u8>)>::empty(),
                        Seq::<(u64, PageLocation)>::empty(),
                    ),
                ),
            ),
        ),
        meta_model_wf(mm),
    ensures
        ({
            let bm = spec_book_parse(b)->0;
            &&& bm.1.contains_key(CHAPTER_PAGE_INDEX)
            &&& spec_decode_index(bm.1[CHAPTER_PAGE_INDEX]) == Some(
                Seq::<(u64, PageLocation)>::empty(),
            )
        }),
        forall|p: u64| !entries_contain(Seq::<(u64, PageLocation)>::empty(), p),
{
    let ws = Seq::<(u64, Seq<u8>)>::empty();
    let ix = Seq::<(u64, PageLocation)>::empty();
    lemma_snapshot_read_back(mm, ws, ix, b);
}

} // verus!
