//! The container layer: a snapshot file is a "book" of independently
//! readable chapters, written and read through the `bookfile` crate.
//! Everything the library assumes about that crate stands here.

use std::io::Cursor;
use std::io::Write;
use vstd::prelude::*;
use crate::codec::{be_int, cbor_walk_ok, u64_of_be};

verus! {

/// The table-of-contents region starts with an eight-byte raw message
/// header (identifier, version, and a four-byte big-endian body
/// length) followed by the encoded table itself. The walk holds when
/// the region is too short for that header (the table is then never
/// decoded), or when the stated body window walks as bounded items.
pub open spec fn toc_walk_ok(b: Seq<u8>, lo: int, hi: int) -> bool {
    if hi - lo < 8 {
        true
    } else {
        let msg_len = be_int(b, lo + 4, 4);
        let body_hi = if lo + 8 + msg_len < hi {
            lo + 8 + msg_len
        } else {
            hi
        };
        cbor_walk_ok(b, lo + 8, body_hi)
    }
}

/// The length of the table of contents as the file's last eight bytes
/// state it, big-endian.
pub open spec fn spec_toc_len(b: Seq<u8>) -> u64 {
    u64_of_be(b.subrange(b.len() - 8, b.len() as int))
}

/// The book parser reads the last eight bytes of the file as the
/// big-endian length of the table of contents and subtracts it from
/// the file's end in unchecked arithmetic. Bytes are safe to hand to
/// it when that subtraction cannot underflow: the file is shorter
/// than a header (rejected before the subtraction), or the stated
/// length exceeds the parser's size cap (rejected before the
/// subtraction), or the stated length fits within the bytes.
pub open spec fn book_open_safe(b: Seq<u8>) -> bool {
    ||| b.len() < 4096
    ||| spec_toc_len(b) > 0x400_0000
    ||| spec_toc_len(b) <= b.len() - 8
}

/// Chapters of a parsed book are safe to read when the table of
/// contents cannot state an extent whose end overflows a `u64`: the
/// bytes never reach the table decoder (too short for a file header,
/// or a table length past the parser's cap), or the stated table
/// region walks as definite-length items whose unsigned integers all
/// stay below `0x8000_0000_0000_0000`, so every decoded offset and
/// length is below that bound and no pair of them can overflow a sum.
pub open spec fn book_read_safe(b: Seq<u8>) -> bool {
    ||| b.len() < 4096
    ||| spec_toc_len(b) > 0x400_0000
    ||| (spec_toc_len(b) <= b.len() - 8 && toc_walk_ok(
        b,
        b.len() - 8 - spec_toc_len(b),
        b.len() - 8,
    ))
}

/// Every extent in the book's table of contents ends within `u64`,
/// so reading any chapter stays clear of the reader's unchecked
/// bounds arithmetic.
pub uninterp spec fn book_spans_ok(b: &bookfile::Book<Cursor<Vec<u8>>>) -> bool;

/// The magic tag that marks a container as a snapshot file.
pub const SNAPFILE_MAGIC: u32 = 0x5A44_4253;

/// Chapter holding the encoded snapshot identity.
pub const CHAPTER_SNAP_META: u64 = 1;

/// Chapter holding the raw page bytes in write order.
pub const CHAPTER_PAGES: u64 = 2;

/// Chapter holding the encoded page index.
pub const CHAPTER_PAGE_INDEX: u64 = 3;

#[verifier::external_type_specification]
#[verifier::external_body]
#[verifier::reject_recursive_types(T)]
pub struct ExCursor<T>(Cursor<T>);

#[verifier::external_type_specification]
#[verifier::external_body]
#[verifier::reject_recursive_types(R)]
pub struct ExBook<R>(bookfile::Book<R>);

#[verifier::external_type_specification]
#[verifier::external_body]
#[verifier::reject_recursive_types(W)]
pub struct ExBookWriter<W>(bookfile::BookWriter<W>);

#[verifier::external_type_specification]
#[verifier::external_body]
#[verifier::reject_recursive_types(W)]
pub struct ExChapterWriter<W>(bookfile::ChapterWriter<W>);

/// What an open book holds: the magic tag it was written with, and the
/// bytes of each chapter by chapter number, as the container reads them.
pub uninterp spec fn book_model(b: &bookfile::Book<Cursor<Vec<u8>>>) -> (u32, Map<u64, Seq<u8>>);

/// What a book under construction holds: its magic tag, the chapters
/// closed so far in order, and the bytes buffered so far.
pub ghost struct BookWriterModel {
    /// The magic tag the book was created with.
    pub magic: u32,
    /// The chapters closed so far, in order: number and content.
    pub closed: Seq<(u64, Seq<u8>)>,
    /// How many bytes the underlying buffer holds so far.
    pub total: nat,
}

/// The state of a book under construction.
pub uninterp spec fn bw_model(w: &bookfile::BookWriter<Cursor<Vec<u8>>>) -> BookWriterModel;

/// The state of a book with one chapter open for sequential writing.
pub ghost struct ChapterWriterModel {
    /// The magic tag the book was created with.
    pub magic: u32,
    /// The chapters already closed, in order: number and content.
    pub closed: Seq<(u64, Seq<u8>)>,
    /// The number of the chapter now open.
    pub id: u64,
    /// The bytes written to the open chapter so far.
    pub bytes: Seq<u8>,
    /// How many bytes the underlying buffer holds so far.
    pub total: nat,
}

/// The state of a book with one chapter open.
pub uninterp spec fn cw_model(w: &bookfile::ChapterWriter<Cursor<Vec<u8>>>) -> ChapterWriterModel;

/// The bytes a finished book takes when written with a magic tag and a
/// sequence of chapters.
pub uninterp spec fn spec_book_bytes(magic: u32, chapters: Seq<(u64, Seq<u8>)>) -> Seq<u8>;

/// What a book's bytes parse to: the magic tag and the chapter
/// contents, or nothing when the bytes are not a well-formed book.
pub uninterp spec fn spec_book_parse(bytes: Seq<u8>) -> Option<(u32, Map<u64, Seq<u8>>)>;

/// The chapters of a book as a map from chapter number to content.
/// Where a number repeats, the first chapter written is the one found.
pub open spec fn spec_chapter_map(cs: Seq<(u64, Seq<u8>)>) -> Map<u64, Seq<u8>>
    decreases cs.len(),
{
    if cs.len() == 0 {
        Map::empty()
    } else {
        spec_chapter_map(cs.drop_first()).insert(cs[0].0, cs[0].1)
    }
}

/// Relies on `bookfile::BookWriter::new`: it writes a fixed 4096-byte
/// header holding the magic tag into the fresh in-memory buffer and
/// cannot fail there, since writes to an in-memory buffer do not fail.
#[verifier::external_body]
pub(crate) fn book_writer_new(magic: u32) -> (w: bookfile::BookWriter<Cursor<Vec<u8>>>)
    ensures
        bw_model(&w) == (BookWriterModel { magic, closed: Seq::empty(), total: 4096nat }),
{
    bookfile::BookWriter::new(Cursor::new(Vec::new()), magic).unwrap()
}

/// Relies on `bookfile::BookWriter::new_chapter`: it opens a chapter
/// with the given number, buffering nothing yet; it does not fail.
#[verifier::external_body]
pub(crate) fn book_new_chapter(w: bookfile::BookWriter<Cursor<Vec<u8>>>, id: u64) -> (c:
    bookfile::ChapterWriter<Cursor<Vec<u8>>>)
    ensures
        cw_model(&c) == (ChapterWriterModel {
            magic: bw_model(&w).magic,
            closed: bw_model(&w).closed,
            id,
            bytes: Seq::empty(),
            total: bw_model(&w).total,
        }),
{
    w.new_chapter(id)
}

/// Relies on the `std::io::Write` impl of `bookfile::ChapterWriter`:
/// writing appends the bytes to the open chapter and to the underlying
/// in-memory buffer, and cannot fail there as long as the buffer can
/// grow.
#[verifier::external_body]
pub(crate) fn chapter_write_all(c: &mut bookfile::ChapterWriter<Cursor<Vec<u8>>>, data: &[u8])
    requires
        cw_model(old(c)).total + data@.len() <= isize::MAX as int,
    ensures
        cw_model(final(c)) == (ChapterWriterModel {
            bytes: cw_model(old(c)).bytes + data@,
            total: cw_model(old(c)).total + data@.len(),
            ..cw_model(old(c))
        }),
{
    c.write_all(data).unwrap();
}

/// Relies on `bookfile::ChapterWriter::close`: it records the chapter's
/// number and extent in the table of contents and hands the book back;
/// on an in-memory buffer the final flush cannot fail.
#[verifier::external_body]
pub(crate) fn chapter_close(c: bookfile::ChapterWriter<Cursor<Vec<u8>>>) -> (w:
    bookfile::BookWriter<Cursor<Vec<u8>>>)
    ensures
        bw_model(&w) == (BookWriterModel {
            magic: cw_model(&c).magic,
            closed: cw_model(&c).closed.push((cw_model(&c).id, cw_model(&c).bytes)),
            total: cw_model(&c).total,
        }),
{
    c.close().unwrap()
}

/// Relies on `bookfile::BookWriter::close`: it appends the table of
/// contents and its length and returns the finished bytes. Writing a
/// book and parsing it back gives the same magic tag and chapters;
/// the bound on the chapter count keeps the table of contents far
/// below the size cap the parser enforces. The trailing length field
/// it writes is the table's true length, which lies within the bytes,
/// so the finished bytes are safe to hand back to the parser.
#[verifier::external_body]
pub(crate) fn book_close(w: bookfile::BookWriter<Cursor<Vec<u8>>>) -> (r: Vec<u8>)
    requires
        bw_model(&w).closed.len() <= 1024,
        bw_model(&w).total + 64 * bw_model(&w).closed.len() + 256 <= isize::MAX as int,
    ensures
        r@ == spec_book_bytes(bw_model(&w).magic, bw_model(&w).closed),
        spec_book_parse(r@) == Some(
            (bw_model(&w).magic, spec_chapter_map(bw_model(&w).closed)),
        ),
        book_open_safe(r@),
        book_read_safe(r@),
{
    w.close().unwrap().into_inner()
}

/// Relies on `bookfile::Book::new`: it parses the header and the table
/// of contents; success and the result are a function of the bytes
/// alone. The parser subtracts the trailing length field from the
/// file's end in unchecked arithmetic, so the caller must first rule
/// out the bytes on which that subtraction would underflow
/// (`book_open_safe`); on all other inputs every failure is returned,
/// not raised. A book can parse only when its table of contents was
/// decoded from the stated table region, so when that region walks
/// bounded (`book_read_safe`), every decoded extent ends within
/// `u64` (`book_spans_ok`).
#[verifier::external_body]
pub(crate) fn book_open(bytes: Vec<u8>) -> (r: Option<bookfile::Book<Cursor<Vec<u8>>>>)
    requires
        book_open_safe(bytes@),
    ensures
        r is Some <==> spec_book_parse(bytes@) is Some,
        r matches Some(b) ==> spec_book_parse(bytes@) == Some(book_model(&b)),
        r matches Some(b) ==> (book_read_safe(bytes@) ==> book_spans_ok(&b)),
{
    bookfile::Book::new(Cursor::new(bytes)).ok()
}

/// Relies on `bookfile::Book::magic`: it returns the magic tag found in
/// the header.
#[verifier::external_body]
pub(crate) fn book_magic(b: &bookfile::Book<Cursor<Vec<u8>>>) -> (m: u32)
    ensures
        m == book_model(b).0,
{
    b.magic()
}

/// Relies on `bookfile::Book::exclusive_read_chapter`: it returns the
/// chapter's bytes, or a missing-chapter error when the table of
/// contents has no such chapter. The reader checks its bounds by
/// adding a table entry's offset and length in unchecked `u64`
/// arithmetic, so the book must carry only extents whose end fits
/// (`book_spans_ok`, which opening establishes for bytes that pass
/// the table walk); reads from an in-memory buffer then return every
/// failure rather than raising it. The book's content is unchanged.
#[verifier::external_body]
pub(crate) fn book_read_chapter(b: &mut bookfile::Book<Cursor<Vec<u8>>>, id: u64) -> (r: Option<
    Vec<u8>,
>)
    requires
        book_spans_ok(old(b)),
    ensures
        book_model(final(b)) == book_model(old(b)),
        book_spans_ok(final(b)) == book_spans_ok(old(b)),
        match r {
            Some(v) => book_model(old(b)).1.contains_key(id) && v@ == book_model(old(b)).1[id],
            None => !book_model(old(b)).1.contains_key(id),
        },
{
    match b.exclusive_read_chapter(id) {
        Ok(boxed) => Some(boxed.into_vec()),
        Err(_) => None,
    }
}

} // verus!
