use std::io::Cursor;
use std::io::Write;

use snapfile::decode_index;
use snapfile::decode_meta;
use snapfile::encode_index;
use snapfile::encode_meta;
use snapfile::squash;
use snapfile::Page;
use snapfile::PageIndex;
use snapfile::PageLocation;
use snapfile::Predecessor;
use snapfile::SnapError;
use snapfile::SnapFile;
use snapfile::SnapFileMeta;
use snapfile::SnapWriter;
use snapfile::CHAPTER_PAGES;
use snapfile::CHAPTER_PAGE_INDEX;
use snapfile::CHAPTER_SNAP_META;
use snapfile::SNAPFILE_MAGIC;

const TEST_TIMELINE: [u8; 16] = [99u8; 16];

#[test]
fn snap_two_pages() {
    // Write out a new snapshot file with two pages.
    let (snap_meta, bytes) = {
        let meta = SnapFileMeta::new(None, TEST_TIMELINE, 1234);
        let mut snap = SnapWriter::new(meta);
        // Write the pages out of order, because why not?
        let page99 = [99u8; 8192];
        snap.write_page(99, Page::new(page99.to_vec())).unwrap();
        let page33 = [33u8; 8192];
        snap.write_page(33, Page::new(page33.to_vec())).unwrap();
        snap.finish()
    };

    assert_eq!(snap_meta.lsn, 1234);

    {
        // Read the snapshot file and verify the contents.
        let snap = SnapFile::new(bytes).unwrap();

        assert_eq!(snap.page_count(), 2);
        assert!(!snap.has_page(0));
        assert!(snap.has_page(33));
        assert!(!snap.has_page(98));
        assert!(snap.has_page(99));
        assert!(snap.read_page(0).unwrap().is_none());
        let page = snap.read_page(33).unwrap().unwrap();
        assert_eq!(*page.0, [33u8; 8192]);
        let page = snap.read_page(99).unwrap().unwrap();
        assert_eq!(*page.0, [99u8; 8192]);

        // Make sure the deserialized metadata matches what we think we wrote.
        let meta2 = snap.read_meta().unwrap();
        assert_eq!(snap_meta, meta2);
    }
}

#[test]
fn snap_zero_pages() {
    // Write out a new snapshot file with no pages.
    let (snap_meta, bytes) = {
        let meta = SnapFileMeta::new(None, TEST_TIMELINE, 1234);
        let snap = SnapWriter::new(meta);
        snap.finish()
    };

    {
        // Read the snapshot file.
        let snap = SnapFile::new(bytes).unwrap();
        assert_eq!(snap.page_count(), 0);
        assert!(!snap.has_page(0));
        assert!(!snap.has_page(99));
        assert!(snap.read_page(0).unwrap().is_none());
        assert!(snap.read_page(99).unwrap().is_none());
        let meta2 = snap.read_meta().unwrap();
        assert_eq!(snap_meta, meta2);
    }
}

#[test]
fn filename_format() {
    let meta = SnapFileMeta::new(None, [0x12u8; 16], 0x4d2);
    assert_eq!(
        meta.to_filename(),
        "12121212121212121212121212121212_0_4d2.zdb"
    );

    let meta2 = SnapFileMeta::new(Some(meta), [0xabu8; 16], 0xff00);
    assert_eq!(
        meta2.to_filename(),
        "abababababababababababababababab_4d2_ff00.zdb"
    );

    let meta3 = SnapFileMeta::new(None, [0u8; 16], 0);
    assert_eq!(meta3.to_filename(), "00000000000000000000000000000000_0_0.zdb");
}

#[test]
fn meta_derivation() {
    let base = SnapFileMeta::new(None, TEST_TIMELINE, 10);
    assert_eq!(base.predecessor, None);
    assert_eq!(base.lsn, 10);
    assert_eq!(base.timeline, TEST_TIMELINE);

    let child = SnapFileMeta::new(Some(base), TEST_TIMELINE, 20);
    assert_eq!(
        child.predecessor,
        Some(Predecessor { timeline: TEST_TIMELINE, lsn: 10 })
    );
    assert_eq!(child.lsn, 20);
}

#[test]
fn meta_codec_roundtrip() {
    let base = SnapFileMeta::new(None, TEST_TIMELINE, 77);
    let enc = encode_meta(&base);
    // version byte, timeline, position, no-predecessor flag
    assert_eq!(enc.len(), 26);
    assert_eq!(enc[0], 1);
    assert_eq!(&enc[1..17], &TEST_TIMELINE[..]);
    assert_eq!(&enc[17..25], &[77, 0, 0, 0, 0, 0, 0, 0]);
    assert_eq!(enc[25], 0);
    assert_eq!(decode_meta(&enc), Some(base));

    let child = SnapFileMeta::new(Some(base), TEST_TIMELINE, 0x0102030405060708);
    let enc2 = encode_meta(&child);
    assert_eq!(enc2.len(), 50);
    assert_eq!(&enc2[17..25], &[8, 7, 6, 5, 4, 3, 2, 1]);
    assert_eq!(enc2[25], 1);
    assert_eq!(decode_meta(&enc2), Some(child));

    // A wrong version byte is rejected.
    let mut bad = enc.clone();
    bad[0] = 2;
    assert_eq!(decode_meta(&bad), None);
    // A truncated identity region is rejected.
    assert_eq!(decode_meta(&enc[..25]), None);
}

#[test]
fn index_codec_roundtrip() {
    let mut ix = PageIndex::new();
    assert!(ix.insert_new(5, PageLocation(0)));
    assert!(ix.insert_new(3, PageLocation(1)));
    let enc = encode_index(&ix);
    // version byte, count, then two entries sorted by page number
    let expected: Vec<u8> = vec![
        1, // version
        2, 0, 0, 0, 0, 0, 0, 0, // count
        3, 0, 0, 0, 0, 0, 0, 0, // page 3 ...
        1, 0, 0, 0, 0, 0, 0, 0, // ... at ordinal 1
        5, 0, 0, 0, 0, 0, 0, 0, // page 5 ...
        0, 0, 0, 0, 0, 0, 0, 0, // ... at ordinal 0
    ];
    assert_eq!(enc, expected);
    let dec = decode_index(&enc).unwrap();
    assert_eq!(dec.page_count(), 2);
    assert_eq!(dec.get_page_location(3), Some(PageLocation(1)));
    assert_eq!(dec.get_page_location(5), Some(PageLocation(0)));
    assert_eq!(dec.get_page_location(4), None);

    // Entries out of order are rejected.
    let mut bad = expected.clone();
    bad[9] = 9; // first key becomes 9, no longer below 5
    assert!(decode_index(&bad).is_none());
    // A wrong length is rejected.
    assert!(decode_index(&expected[..40]).is_none());
}

#[test]
fn duplicate_page_error() {
    let meta = SnapFileMeta::new(None, TEST_TIMELINE, 5);
    let mut snap = SnapWriter::new(meta);
    snap.write_page(7, Page::new(vec![1u8; 8192])).unwrap();
    let err = snap.write_page(7, Page::new(vec![2u8; 8192])).unwrap_err();
    assert_eq!(err, SnapError::DuplicatePage);
    // The writer stays usable and the first write stands.
    snap.write_page(8, Page::new(vec![3u8; 8192])).unwrap();
    let (_, bytes) = snap.finish();
    let file = SnapFile::new(bytes).unwrap();
    assert_eq!(file.page_count(), 2);
    assert_eq!(*file.read_page(7).unwrap().unwrap().0, [1u8; 8192]);
}

#[test]
fn bad_magic_rejected() {
    // A book written under a foreign magic tag is not a snapshot file.
    let bw = bookfile::BookWriter::new(Cursor::new(Vec::new()), 0xDEAD_BEEF).unwrap();
    let bytes = {
        let ch = bw.new_chapter(CHAPTER_SNAP_META);
        let bw = ch.close().unwrap();
        bw.close().unwrap().into_inner()
    };
    assert_eq!(SnapFile::new(bytes).unwrap_err(), SnapError::Format);

    // Garbage is not a snapshot file either.
    assert_eq!(SnapFile::new(vec![1, 2, 3]).unwrap_err(), SnapError::Format);
}

#[test]
fn inconsistent_length_rejected() {
    // A file whose trailing length field states more bytes than the
    // file holds is rejected as a format error, not a fault.
    let meta = SnapFileMeta::new(None, TEST_TIMELINE, 8);
    let snap = SnapWriter::new(meta);
    let (_, mut bytes) = snap.finish();
    let n = bytes.len();
    // 16 MB, far beyond this file's size but below the parser's cap.
    let bad_len: u64 = 0x0100_0000;
    bytes[n - 8..].copy_from_slice(&bad_len.to_be_bytes());
    assert_eq!(SnapFile::new(bytes).unwrap_err(), SnapError::Format);
}

#[test]
fn corrupted_table_rejected() {
    // Patch the table of contents of a finished file so that a stored
    // extent integer turns into an eight-byte form that swallows the
    // following bytes: the file is rejected as a format error rather
    // than faulting in the container's unchecked span arithmetic.
    let meta = SnapFileMeta::new(None, TEST_TIMELINE, 7);
    let mut snap = SnapWriter::new(meta);
    snap.write_page(1, Page::new(vec![1u8; 8192])).unwrap();
    let (_, mut bytes) = snap.finish();
    let n = bytes.len();
    let mut toc_be = [0u8; 8];
    toc_be.copy_from_slice(&bytes[n - 8..]);
    let toc_len = u64::from_be_bytes(toc_be) as usize;
    let lo = n - 8 - toc_len;
    // The pages chapter starts right after the 4096-byte header, so
    // its offset appears in the table as the two-byte integer 0x1000.
    let mut patched = false;
    for i in lo..n - 10 {
        if bytes[i] == 0x19 && bytes[i + 1] == 0x10 && bytes[i + 2] == 0x00 {
            bytes[i] = 0x1b;
            patched = true;
            break;
        }
    }
    assert!(patched);
    assert_eq!(SnapFile::new(bytes).unwrap_err(), SnapError::Format);
}

#[test]
fn missing_index_rejected() {
    // A book with the right magic but no index chapter is rejected.
    let bw = bookfile::BookWriter::new(Cursor::new(Vec::new()), SNAPFILE_MAGIC).unwrap();
    let bytes = {
        let mut ch = bw.new_chapter(CHAPTER_SNAP_META);
        let meta = SnapFileMeta::new(None, TEST_TIMELINE, 1);
        ch.write_all(&encode_meta(&meta)).unwrap();
        let bw = ch.close().unwrap();
        bw.close().unwrap().into_inner()
    };
    assert_eq!(SnapFile::new(bytes).unwrap_err(), SnapError::Format);
}

#[test]
fn truncated_page_corrupt() {
    // Craft a snapshot whose pages region ends in the middle of its
    // second page: the first page still reads, the second is corrupt.
    let meta = SnapFileMeta::new(None, TEST_TIMELINE, 9);
    let bw = bookfile::BookWriter::new(Cursor::new(Vec::new()), SNAPFILE_MAGIC).unwrap();
    let mut ch = bw.new_chapter(CHAPTER_SNAP_META);
    ch.write_all(&encode_meta(&meta)).unwrap();
    let bw = ch.close().unwrap();
    let mut ch = bw.new_chapter(CHAPTER_PAGES);
    ch.write_all(&[7u8; 8192]).unwrap();
    ch.write_all(&[8u8; 100]).unwrap();
    let bw = ch.close().unwrap();
    let mut ix = PageIndex::new();
    assert!(ix.insert_new(5, PageLocation(0)));
    assert!(ix.insert_new(6, PageLocation(1)));
    let mut ch = bw.new_chapter(CHAPTER_PAGE_INDEX);
    ch.write_all(&encode_index(&ix)).unwrap();
    let bw = ch.close().unwrap();
    let bytes = bw.close().unwrap().into_inner();

    let snap = SnapFile::new(bytes).unwrap();
    assert_eq!(snap.page_count(), 2);
    assert_eq!(*snap.read_page(5).unwrap().unwrap().0, [7u8; 8192]);
    assert_eq!(snap.read_page(6).unwrap_err(), SnapError::Corrupt);
    // The undamaged page still reads correctly afterwards.
    assert_eq!(*snap.read_page(5).unwrap().unwrap().0, [7u8; 8192]);
    // A full read reports the damage too.
    assert_eq!(snap.read_all().unwrap_err(), SnapError::Corrupt);
}

#[test]
fn iterate_pages_ascending() {
    let meta = SnapFileMeta::new(None, TEST_TIMELINE, 3);
    let mut snap = SnapWriter::new(meta);
    snap.write_page(99, Page::new(vec![9u8; 8192])).unwrap();
    snap.write_page(33, Page::new(vec![3u8; 8192])).unwrap();
    snap.write_page(7, Page::new(vec![7u8; 8192])).unwrap();
    let (_, bytes) = snap.finish();
    let file = SnapFile::new(bytes).unwrap();

    let mut iter = file.all_pages();
    let (num, page) = iter.next(&file).unwrap().unwrap();
    assert_eq!(num, 7);
    assert_eq!(*page.0, [7u8; 8192]);
    let (num, page) = iter.next(&file).unwrap().unwrap();
    assert_eq!(num, 33);
    assert_eq!(*page.0, [3u8; 8192]);
    let (num, page) = iter.next(&file).unwrap().unwrap();
    assert_eq!(num, 99);
    assert_eq!(*page.0, [9u8; 8192]);
    assert!(iter.next(&file).is_none());

    // A full read yields exactly the written set, ascending.
    let all = file.read_all().unwrap();
    assert_eq!(all.len(), 3);
    assert_eq!(all[0].0, 7);
    assert_eq!(*all[0].1.0, [7u8; 8192]);
    assert_eq!(all[1].0, 33);
    assert_eq!(*all[1].1.0, [3u8; 8192]);
    assert_eq!(all[2].0, 99);
    assert_eq!(*all[2].1.0, [9u8; 8192]);
}

#[test]
fn squash_chain() {
    let timeline = [7u8; 16];
    let page_a = vec![0xA1u8; 8192];
    let page_b = vec![0xB2u8; 8192];
    let page_c = vec![0xC3u8; 8192];
    let page_d = vec![0xD4u8; 8192];

    // Base snapshot with pages {1: A, 2: B}.
    let m0 = SnapFileMeta::new(None, timeline, 100);
    let mut w0 = SnapWriter::new(m0);
    w0.write_page(1, Page::new(page_a.clone())).unwrap();
    w0.write_page(2, Page::new(page_b.clone())).unwrap();
    let (m0, b0) = w0.finish();

    // Incremental snapshot with pages {2: C, 3: D}.
    let m1 = SnapFileMeta::new(Some(m0), timeline, 200);
    let mut w1 = SnapWriter::new(m1);
    w1.write_page(2, Page::new(page_c.clone())).unwrap();
    w1.write_page(3, Page::new(page_d.clone())).unwrap();
    let (_, b1) = w1.finish();

    let s0 = SnapFile::new(b0).unwrap();
    let s1 = SnapFile::new(b1).unwrap();
    let (sm, sb) = squash(&vec![s0, s1]).unwrap();

    // The merged identity slots in where the base stood, at the
    // latest position.
    assert_eq!(sm.timeline, timeline);
    assert_eq!(sm.predecessor, None);
    assert_eq!(sm.lsn, 200);

    // Later snapshots win on conflicting page numbers.
    let sq = SnapFile::new(sb).unwrap();
    assert_eq!(sq.page_count(), 3);
    assert_eq!(sq.read_page(1).unwrap().unwrap().0, page_a);
    assert_eq!(sq.read_page(2).unwrap().unwrap().0, page_c);
    assert_eq!(sq.read_page(3).unwrap().unwrap().0, page_d);
    assert_eq!(sq.read_meta().unwrap(), sm);

    // Fully iterating the merged file yields exactly the union of the
    // chain's page numbers, ascending, with the later copy of page 2.
    let all = sq.read_all().unwrap();
    assert_eq!(all.len(), 3);
    assert_eq!(all[0].0, 1);
    assert_eq!(all[0].1.0, page_a);
    assert_eq!(all[1].0, 2);
    assert_eq!(all[1].1.0, page_c);
    assert_eq!(all[2].0, 3);
    assert_eq!(all[2].1.0, page_d);
}

#[test]
fn squash_single_snapshot() {
    let meta = SnapFileMeta::new(None, TEST_TIMELINE, 42);
    let mut w = SnapWriter::new(meta);
    w.write_page(4, Page::new(vec![4u8; 8192])).unwrap();
    let (_, bytes) = w.finish();
    let s = SnapFile::new(bytes).unwrap();
    let (sm, sb) = squash(&vec![s]).unwrap();
    assert_eq!(sm.lsn, 42);
    assert_eq!(sm.predecessor, None);
    let sq = SnapFile::new(sb).unwrap();
    assert_eq!(sq.page_count(), 1);
    assert_eq!(*sq.read_page(4).unwrap().unwrap().0, [4u8; 8192]);
}
