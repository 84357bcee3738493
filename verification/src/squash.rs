use vstd::prelude::*;
use crate::book::{
    spec_book_parse, spec_chapter_map, CHAPTER_PAGES, CHAPTER_PAGE_INDEX, CHAPTER_SNAP_META,
    SNAPFILE_MAGIC,
};
use crate::codec::{lemma_meta_roundtrip, spec_decode_index, spec_decode_meta, spec_encode_meta};
use crate::error::SnapError;
use crate::index::{entries_contain, entries_location, PageLocation};
use crate::meta::SnapFileMeta;
use crate::page::Page;
use crate::reader::{entries_page_map, SnapFile};
use crate::writer::{spec_concat_pages, SnapWriter};

verus! {

/// The page maps of a chain of snapshots, oldest first.
pub open spec fn chain_maps(chain: Seq<SnapFile>) -> Seq<Map<u64, Seq<u8>>> {
    chain.map_values(|s: SnapFile| s.snap_page_map())
}

/// Apply a chain of page maps in order: a later snapshot's copy of a
/// page supersedes an earlier one's.
pub open spec fn spec_merge(maps: Seq<Map<u64, Seq<u8>>>) -> Map<u64, Seq<u8>>
    decreases maps.len(),
{
    if maps.len() == 0 {
        Map::<u64, Seq<u8>>::empty()
    } else {
        spec_merge(maps.drop_last()).union_prefer_right(maps.last())
    }
}

/// How many index entries a chain holds in all.
pub open spec fn chain_total_pages(chain: Seq<SnapFile>) -> int
    decreases chain.len(),
{
    if chain.len() == 0 {
        0
    } else {
        chain_total_pages(chain.drop_last()) + chain.last().spec_index().len()
    }
}

/// A merge buffer is strictly sorted by page number and holds whole
/// pages.
pub open spec fn merged_wf(s: Seq<(u64, Page)>) -> bool {
    &&& forall|i: int, j: int| 0 <= i < j < s.len() ==> (#[trigger] s[i]).0 < (#[trigger] s[j]).0
    &&& forall|i: int| 0 <= i < s.len() ==> (#[trigger] s[i]).1.wf()
}

/// Some merge-buffer entry carries page number `p`.
pub open spec fn merged_contains(s: Seq<(u64, Page)>, p: u64) -> bool {
    exists|i: int| 0 <= i < s.len() && (#[trigger] s[i]).0 == p
}

/// The merge buffer as a map from page number to page bytes.
pub open spec fn merged_map(s: Seq<(u64, Page)>) -> Map<u64, Seq<u8>> {
    Map::new(
        |p: u64| merged_contains(s, p),
        |p: u64| s[choose|i: int| 0 <= i < s.len() && (#[trigger] s[i]).0 == p].1@,
    )
}

/// A chain prefix never holds more index entries than a longer prefix.
proof fn lemma_chain_total_mono(chain: Seq<SnapFile>, a: int, b: int)
    requires
        0 <= a <= b <= chain.len(),
    ensures
        chain_total_pages(chain.take(a)) <= chain_total_pages(chain.take(b)),
    decreases b - a,
{
    if a < b {
        lemma_chain_total_mono(chain, a, b - 1);
        assert(chain.take(b).drop_last() =~= chain.take(b - 1));
        assert(chain_total_pages(chain.take(b)) == chain_total_pages(chain.take(b - 1))
            + chain.take(b).last().spec_index().len());
    }
}

/// In a sorted merge buffer each page number stands at one position.
proof fn lemma_merged_unique(s: Seq<(u64, Page)>, i: int, j: int)
    requires
        merged_wf(s),
        0 <= i < s.len(),
        0 <= j < s.len(),
        s[i].0 == s[j].0,
    ensures
        i == j,
{
    if i < j {
        assert(s[i].0 < s[j].0);
    } else if j < i {
        assert(s[j].0 < s[i].0);
    }
}

/// Record a page in the merge buffer, replacing any page already
/// recorded under the same number.
fn merged_insert(v: &mut Vec<(u64, Page)>, key: u64, page: Page)
    requires
        merged_wf(old(v)@),
        page.wf(),
        old(v)@.len() < usize::MAX,
    ensures
        merged_wf(final(v)@),
        merged_map(final(v)@) =~= merged_map(old(v)@).insert(key, page@),
        old(v)@.len() <= final(v)@.len() <= old(v)@.len() + 1,
{
    let mut i: usize = 0;
    while i < v.len() && v[i].0 < key
        invariant
            0 <= i <= v@.len(),
            merged_wf(v@),
            v@ == old(v)@,
            forall|t: int| 0 <= t < i ==> (#[trigger] v@[t]).0 < key,
        decreases v@.len() - i,
    {
        i += 1;
    }
    let ghost s_old = v@;
    let ghost k = i as int;
    if i < v.len() && v[i].0 == key {
        v.remove(i);
        v.insert(i, (key, page));
        proof {
            let s_new = v@;
            assert(s_new =~= s_old.update(k, (key, page)));
            assert forall|p: u64| merged_contains(s_new, p) implies merged_contains(s_old, p) by {
                let t = choose|t: int| 0 <= t < s_new.len() && (#[trigger] s_new[t]).0 == p;
                assert(s_old[t].0 == p);
            }
            assert forall|p: u64| merged_contains(s_old, p) implies merged_contains(s_new, p) by {
                let t = choose|t: int| 0 <= t < s_old.len() && (#[trigger] s_old[t]).0 == p;
                assert(s_new[t].0 == p);
            }
            assert forall|p: u64| #[trigger] merged_contains(s_new, p) implies merged_map(s_new)[p]
                == merged_map(s_old).insert(key, page@)[p] by {
                let t = choose|t: int| 0 <= t < s_new.len() && (#[trigger] s_new[t]).0 == p;
                if p == key {
                    lemma_merged_unique(s_new, t, k);
                } else {
                    lemma_merged_unique(s_new, t, choose|u: int|
                        0 <= u < s_new.len() && (#[trigger] s_new[u]).0 == p);
                    assert(t != k);
                    assert(s_old[t].0 == p);
                    lemma_merged_unique(s_old, t, choose|u: int|
                        0 <= u < s_old.len() && (#[trigger] s_old[u]).0 == p);
                }
            }
        }
    } else {
        v.insert(i, (key, page));
        proof {
            let s_new = v@;
            assert(s_new =~= s_old.insert(k, (key, page)));
            assert forall|a: int, b: int| 0 <= a < b < s_new.len() implies (#[trigger] s_new[a]).0
                < (#[trigger] s_new[b]).0 by {
                if b < k {
                    assert(s_new[a] == s_old[a]);
                    assert(s_new[b] == s_old[b]);
                } else if b == k {
                    assert(s_new[a] == s_old[a]);
                } else {
                    assert(s_new[b] == s_old[b - 1]);
                    if a < k {
                        assert(s_new[a] == s_old[a]);
                        assert(s_old[b - 1].0 >= key);
                        if b - 1 == k {
                            assert(s_old[b - 1].0 != key);
                        } else {
                            assert(s_old[k].0 < s_old[b - 1].0);
                        }
                    } else if a == k {
                        assert(s_old[b - 1].0 >= key);
                        if b - 1 == k {
                            assert(s_old[b - 1].0 != key);
                        } else {
                            assert(s_old[k].0 >= key);
                            assert(s_old[k].0 < s_old[b - 1].0);
                        }
                    } else {
                        assert(s_new[a] == s_old[a - 1]);
                    }
                }
            }
            assert forall|p: u64| merged_contains(s_new, p) implies (merged_contains(s_old, p) || p
                == key) by {
                let t = choose|t: int| 0 <= t < s_new.len() && (#[trigger] s_new[t]).0 == p;
                if t < k {
                    assert(s_old[t].0 == p);
                } else if t > k {
                    assert(s_old[t - 1].0 == p);
                }
            }
            assert forall|p: u64| merged_contains(s_old, p) implies merged_contains(s_new, p) by {
                let t = choose|t: int| 0 <= t < s_old.len() && (#[trigger] s_old[t]).0 == p;
                if t < k {
                    assert(s_new[t].0 == p);
                } else {
                    assert(s_new[t + 1].0 == p);
                }
            }
            assert(merged_contains(s_new, key)) by {
                assert(s_new[k].0 == key);
            }
            assert forall|p: u64| #[trigger] merged_contains(s_new, p) implies merged_map(s_new)[p]
                == merged_map(s_old).insert(key, page@)[p] by {
                let t = choose|t: int| 0 <= t < s_new.len() && (#[trigger] s_new[t]).0 == p;
                if p == key {
                    lemma_merged_unique(s_new, t, k);
                } else {
                    assert(t != k);
                    let tt: int = if t < k {
                        t
                    } else {
                        t - 1
                    };
                    assert(s_old[tt].0 == p);
                    assert(s_new[t] == s_old[tt]);
                    lemma_merged_unique(s_new, t, choose|u: int|
                        0 <= u < s_new.len() && (#[trigger] s_new[u]).0 == p);
                    lemma_merged_unique(s_old, tt, choose|u: int|
                        0 <= u < s_old.len() && (#[trigger] s_old[u]).0 == p);
                }
            }
        }
    }
}

/// Consolidate a chain of snapshots into one snapshot file.
///
/// The chain is given oldest first. Pages of later snapshots supersede
/// pages of earlier ones under the same page number. The result's
/// identity keeps the first snapshot's timeline and predecessor and
/// takes the last snapshot's position, so the merged file slots into
/// the chain exactly where the first one stood.
#[verifier::rlimit(100)]
pub fn squash(chain: &Vec<SnapFile>) -> (r: Result<(SnapFileMeta, Vec<u8>), SnapError>)
    requires
        chain@.len() > 0,
        forall|i: int| 0 <= i < chain@.len() ==> (#[trigger] chain@[i]).wf(),
        8300 * chain_total_pages(chain@) + 16384 <= isize::MAX as int,
    ensures
        match r {
            Ok((m, bytes)) => ({
                let bm = spec_book_parse(bytes@)->0;
                let m0 = spec_decode_meta(chain@[0].spec_meta_bytes()->0)->0;
                let mn = spec_decode_meta(
                    chain@[chain@.len() - 1].spec_meta_bytes()->0,
                )->0;
                &&& chain@[0].spec_meta_bytes() is Some
                &&& spec_decode_meta(chain@[0].spec_meta_bytes()->0) is Some
                &&& chain@[chain@.len() - 1].spec_meta_bytes() is Some
                &&& spec_decode_meta(chain@[chain@.len() - 1].spec_meta_bytes()->0) is Some
                &&& m.model().timeline == m0.timeline
                &&& m.model().pred == m0.pred
                &&& m.lsn == mn.lsn
                &&& spec_book_parse(bytes@) is Some
                &&& bm.0 == SNAPFILE_MAGIC
                &&& bm.1.contains_key(CHAPTER_SNAP_META)
                &&& spec_decode_meta(bm.1[CHAPTER_SNAP_META]) == Some(m.model())
                &&& bm.1.contains_key(CHAPTER_PAGE_INDEX)
                &&& spec_decode_index(bm.1[CHAPTER_PAGE_INDEX]) is Some
                &&& bm.1.contains_key(CHAPTER_PAGES)
                &&& entries_page_map(
                    spec_decode_index(bm.1[CHAPTER_PAGE_INDEX])->0,
                    bm.1[CHAPTER_PAGES],
                ) =~= spec_merge(chain_maps(chain@))
                &&& ({
                    let dec = spec_decode_index(bm.1[CHAPTER_PAGE_INDEX])->0;
                    &&& forall|i: int|
                        0 <= i < dec.len() ==> 8192 * (#[trigger] dec[i]).1.0 + 8192 <= bm.1[
                            CHAPTER_PAGES].len()
                    &&& forall|p: u64|
                        #![trigger entries_contain(dec, p)]
                        #![trigger spec_merge(chain_maps(chain@)).dom().contains(p)]
                        entries_contain(dec, p) <==> spec_merge(
                            chain_maps(chain@),
                        ).dom().contains(p)
                })
            }),
            Err(e) => e != SnapError::DuplicatePage && (chain@[0].spec_meta_bytes() is None
                || spec_decode_meta(chain@[0].spec_meta_bytes()->0) is None
                || chain@[chain@.len() - 1].spec_meta_bytes() is None || spec_decode_meta(
                chain@[chain@.len() - 1].spec_meta_bytes()->0,
            ) is None || exists|i: int|
                0 <= i < chain@.len() && !(#[trigger] chain@[i]).spec_readable()),
        },
{
    let m0 = match chain[0].read_meta() {
        Ok(m) => m,
        Err(e) => {
            return Err(e);
        },
    };
    let mn = match chain[chain.len() - 1].read_meta() {
        Ok(m) => m,
        Err(e) => {
            return Err(e);
        },
    };
    let out_meta = SnapFileMeta { timeline: m0.timeline, predecessor: m0.predecessor, lsn: mn.lsn };
    let mut merged: Vec<(u64, Page)> = Vec::new();
    proof {
        assert forall|a: int, b: int| 0 <= a <= b <= chain@.len() implies chain_total_pages(
            chain@.take(a),
        ) <= chain_total_pages(chain@.take(b)) by {
            lemma_chain_total_mono(chain@, a, b);
        }
        assert(chain@.take(chain@.len() as int) =~= chain@);
    }
    let mut i: usize = 0;
    while i < chain.len()
        invariant
            0 <= i <= chain@.len(),
            forall|t: int| 0 <= t < chain@.len() ==> (#[trigger] chain@[t]).wf(),
            8300 * chain_total_pages(chain@) + 16384 <= isize::MAX as int,
            merged_wf(merged@),
            merged_map(merged@) =~= spec_merge(chain_maps(chain@).take(i as int)),
            merged@.len() <= chain_total_pages(chain@.take(i as int)),
            forall|a: int, b: int|
                0 <= a <= b <= chain@.len() ==> chain_total_pages(chain@.take(a))
                    <= chain_total_pages(chain@.take(b)),
            chain_total_pages(chain@.take(chain@.len() as int)) == chain_total_pages(chain@),
        decreases chain@.len() - i,
    {
        let snap = &chain[i];
        let ghost pi = i as int;
        let mut j: usize = 0;
        proof {
            assert(chain@.take(pi + 1).drop_last() =~= chain@.take(pi));
            assert(snap.spec_index().take(0) =~= Seq::<(u64, PageLocation)>::empty());
        }
        while j < snap.page_index.entries.len()
            invariant
                0 <= j <= snap.spec_index().len(),
                snap == &chain@[pi],
                0 <= pi < chain@.len(),
                forall|t: int| 0 <= t < chain@.len() ==> (#[trigger] chain@[t]).wf(),
                8300 * chain_total_pages(chain@) + 16384 <= isize::MAX as int,
                merged_wf(merged@),
                snap.spec_pages() is Some || snap.spec_index().len() == 0 || j == 0,
                j > 0 ==> snap.spec_pages() is Some,
                merged_map(merged@) =~= spec_merge(chain_maps(chain@).take(pi)).union_prefer_right(
                    (match snap.spec_pages() {
                        Some(pb) => entries_page_map(snap.spec_index().take(j as int), pb),
                        None => Map::<u64, Seq<u8>>::empty(),
                    }),
                ),
                merged@.len() <= chain_total_pages(chain@.take(pi)) + j,
                forall|a: int, b: int|
                    0 <= a <= b <= chain@.len() ==> chain_total_pages(chain@.take(a))
                        <= chain_total_pages(chain@.take(b)),
                chain_total_pages(chain@.take(chain@.len() as int)) == chain_total_pages(chain@),
                chain_total_pages(chain@.take(pi)) + snap.spec_index().len()
                    <= chain_total_pages(chain@.take(pi + 1)),
            decreases snap.spec_index().len() - j,
        {
            let entry = snap.page_index.entries[j];
            let page = match snap.read_page_at(entry.1) {
                Ok(p) => p,
                Err(e) => {
                    proof {
                        assert(!snap.spec_readable()) by {
                            assert(!snap.page_in_range(snap.spec_index()[j as int].1.0));
                        };
                    }
                    return Err(e);
                },
            };
            proof {
                assert(merged@.len() < usize::MAX) by {
                    assert(chain_total_pages(chain@.take(pi)) + j < 8300 * chain_total_pages(
                        chain@,
                    ) + 16384);
                };
            }
            merged_insert(&mut merged, entry.0, page);
            proof {
                let pb = snap.spec_pages()->0;
                let pre = snap.spec_index().take(j as int);
                let cur = snap.spec_index().take(j as int + 1);
                let e = snap.spec_index()[j as int];
                assert(cur =~= pre.push(e));
                assert forall|p: u64| entries_contain(cur, p) implies (entries_contain(pre, p) || p
                    == e.0) by {
                    let t = choose|t: int| 0 <= t < cur.len() && (#[trigger] cur[t]).0 == p;
                    if t < j as int {
                        assert(pre[t].0 == p);
                    }
                }
                assert forall|p: u64| entries_contain(pre, p) implies entries_contain(cur, p) by {
                    let t = choose|t: int| 0 <= t < pre.len() && (#[trigger] pre[t]).0 == p;
                    assert(cur[t].0 == p);
                }
                assert(entries_contain(cur, e.0)) by {
                    assert(cur[j as int].0 == e.0);
                }
                assert(crate::index::entries_sorted(cur)) by {
                    assert forall|a: int, b: int| 0 <= a < b < cur.len() implies (
                    #[trigger] cur[a]).0 < (#[trigger] cur[b]).0 by {
                        assert(cur[a] == snap.spec_index()[a]);
                        assert(cur[b] == snap.spec_index()[b]);
                    }
                }
                assert(crate::index::entries_sorted(pre)) by {
                    assert forall|a: int, b: int| 0 <= a < b < pre.len() implies (
                    #[trigger] pre[a]).0 < (#[trigger] pre[b]).0 by {
                        assert(pre[a] == snap.spec_index()[a]);
                        assert(pre[b] == snap.spec_index()[b]);
                    }
                }
                assert forall|p: u64| #[trigger] entries_contain(cur, p) implies entries_location(
                    cur,
                    p,
                ) == (if p == e.0 {
                    e.1.0
                } else {
                    entries_location(pre, p)
                }) by {
                    let t = choose|t: int| 0 <= t < cur.len() && (#[trigger] cur[t]).0 == p;
                    if p == e.0 {
                        assert(cur[j as int].0 == e.0);
                        crate::index::lemma_entries_unique(cur, t, j as int);
                    } else {
                        assert(t != j as int);
                        assert(pre[t].0 == p);
                        let u = choose|u: int| 0 <= u < pre.len() && (#[trigger] pre[u]).0 == p;
                        crate::index::lemma_entries_unique(pre, t, u);
                        crate::index::lemma_entries_unique(cur, t, choose|t2: int|
                            0 <= t2 < cur.len() && (#[trigger] cur[t2]).0 == p);
                    }
                }
                assert(entries_page_map(cur, pb) =~= entries_page_map(pre, pb).insert(e.0, page@));
                assert(merged_map(merged@) =~= spec_merge(chain_maps(chain@).take(pi)).union_prefer_right(
                    entries_page_map(cur, pb),
                ));
            }
            j += 1;
        }
        proof {
            let maps = chain_maps(chain@);
            assert(maps.take(pi + 1).drop_last() =~= maps.take(pi));
            assert(maps.take(pi + 1).last() == chain@[pi].snap_page_map());
            match snap.spec_pages() {
                Some(pb) => {
                    assert(snap.spec_index().take(j as int) =~= snap.spec_index());
                },
                None => {
                    assert(snap.spec_index().len() == 0);
                },
            }
            assert(merged_map(merged@) =~= spec_merge(maps.take(pi + 1)));
        }
        i += 1;
    }
    proof {
        assert(chain_maps(chain@).take(chain@.len() as int) =~= chain_maps(chain@));
        assert(merged@.len() <= chain_total_pages(chain@));
    }
    let ghost orig = merged@;
    let ghost n = orig.len() as int;
    proof {
        assert(orig.take(n) =~= orig);
    }
    let mut w = SnapWriter::new(out_meta);
    while merged.len() > 0
        invariant
            w.wf(),
            w.spec_meta() == out_meta,
            merged_wf(orig),
            merged@.len() <= orig.len(),
            merged@ == orig.take(merged@.len() as int),
            n == orig.len(),
            w.spec_writes().len() == n - merged@.len(),
            forall|t: int|
                0 <= t < w.spec_writes().len() ==> #[trigger] w.spec_writes()[t] == (
                orig[n - 1 - t].0,
                orig[n - 1 - t].1@,
            ),
            8300 * n + 16384 <= isize::MAX as int,
        decreases merged@.len(),
    {
        let ghost m = merged@.len() as int;
        let e = merged.pop().unwrap();
        proof {
            assert(orig.take(m).drop_last() =~= orig.take(m - 1));
            assert(e == orig[m - 1]);
        }
        let res = w.write_page(e.0, e.1);
        match res {
            Ok(_) => {},
            Err(err) => {
                proof {
                    let ws = w.spec_writes();
                    assert(w.spec_has(e.0));
                    let t = choose|t: int| 0 <= t < ws.len() && (#[trigger] ws[t]).0 == e.0;
                    assert(orig[n - 1 - t].0 == e.0);
                    assert(m - 1 < n - 1 - t);
                    assert(orig[m - 1].0 < orig[n - 1 - t].0);
                    assert(false);
                }
                return Err(err);
            },
        }
    }
    let ghost wwrites = w.spec_writes();
    let ghost windex = w.page_index@;
    proof {
        assert(wwrites.len() == n);
        assert(windex.len() == n);
        assert(crate::index::entries_sorted(windex));
        assert(crate::index::entries_bounded(windex));
        assert forall|t: int| 0 <= t < n implies #[trigger] wwrites[t] == (
            orig[n - 1 - t].0,
            orig[n - 1 - t].1@,
        ) by {
            assert(w.spec_writes()[t] == (orig[n - 1 - t].0, orig[n - 1 - t].1@));
        }
        assert forall|t: int| 0 <= t < n implies entries_contain(
            windex,
            (#[trigger] wwrites[t]).0,
        ) && entries_location(windex, wwrites[t].0) == t as u64 by {
            assert(w.page_index.spec_contains((w.spec_writes()[t]).0));
            assert(w.page_index.spec_location(w.spec_writes()[t].0) == t as u64);
        }
        assert forall|p: u64| #[trigger] entries_contain(windex, p) implies exists|t: int|
            0 <= t < n && (#[trigger] wwrites[t]).0 == p by {
            assert(w.page_index.spec_contains(p));
            let t = choose|t: int|
                0 <= t < w.spec_writes().len() && (#[trigger] w.spec_writes()[t]).0 == p;
            assert(wwrites[t].0 == p);
        }
        assert forall|t: int| 0 <= t < n implies (#[trigger] wwrites[t]).1.len() == 8192 by {
            assert(w.spec_writes()[t].1.len() == 8192);
        }
    }
    let (rm, bytes) = w.finish();
    proof {
        let em = spec_encode_meta(out_meta.model());
        let cp = spec_concat_pages(wwrites);
        let ei = crate::codec::spec_encode_index(windex);
        let cs = seq![
            (CHAPTER_SNAP_META, em),
            (CHAPTER_PAGES, cp),
            (CHAPTER_PAGE_INDEX, ei),
        ];
        crate::laws::lemma_snapshot_chapter_map(out_meta.model(), wwrites, windex);
        assert(cs == crate::laws::snapshot_chapters(out_meta.model(), wwrites, windex));
        let bm = spec_book_parse(bytes@)->0;
        assert(bm.1 == spec_chapter_map(cs));
        assert(bm.1.contains_key(CHAPTER_SNAP_META) && bm.1[CHAPTER_SNAP_META] == em);
        assert(bm.1.contains_key(CHAPTER_PAGES) && bm.1[CHAPTER_PAGES] == cp);
        assert(bm.1.contains_key(CHAPTER_PAGE_INDEX) && bm.1[CHAPTER_PAGE_INDEX] == ei);
        lemma_meta_roundtrip(out_meta.model());
        crate::codec::lemma_index_roundtrip(windex);
        crate::writer::lemma_concat_pages_len(wwrites);
        assert forall|p: u64| #[trigger] entries_contain(windex, p) implies merged_contains(
            orig,
            p,
        ) && 8192 * entries_location(windex, p) + 8192 <= cp.len() && cp.subrange(
            8192 * entries_location(windex, p),
            8192 * entries_location(windex, p) + 8192,
        ) == merged_map(orig)[p] by {
            let t = choose|t: int| 0 <= t < wwrites.len() && (#[trigger] wwrites[t]).0 == p;
            assert(entries_location(windex, wwrites[t].0) == t as u64);
            assert(orig[n - 1 - t].0 == p);
            crate::writer::lemma_concat_pages_extract(wwrites, t);
            let u = choose|u: int| 0 <= u < orig.len() && (#[trigger] orig[u]).0 == p;
            lemma_merged_unique(orig, n - 1 - t, u);
        }
        assert forall|p: u64| #[trigger] merged_contains(orig, p) implies entries_contain(
            windex,
            p,
        ) by {
            let u = choose|u: int| 0 <= u < orig.len() && (#[trigger] orig[u]).0 == p;
            assert(wwrites[n - 1 - u].0 == p);
        }
        assert(entries_page_map(windex, cp) =~= merged_map(orig));
        assert(merged_map(orig) =~= spec_merge(chain_maps(chain@)));
        assert forall|i: int| 0 <= i < windex.len() implies 8192 * (#[trigger] windex[i]).1.0
            + 8192 <= cp.len() by {
            let p = windex[i].0;
            assert(entries_contain(windex, p)) by {
                assert(windex[i].0 == p);
            }
            let t = choose|t: int| 0 <= t < n && (#[trigger] wwrites[t]).0 == p;
            let j = choose|j: int| 0 <= j < windex.len() && (#[trigger] windex[j]).0 == p;
            crate::index::lemma_entries_unique(windex, i, j);
            assert(windex[i].1.0 == entries_location(windex, p));
            assert(entries_location(windex, wwrites[t].0) == t as u64);
            assert(windex[i].1.0 == t as u64);
        }
        assert forall|p: u64| entries_contain(windex, p) <==> spec_merge(
            chain_maps(chain@),
        ).dom().contains(p) by {
            if entries_contain(windex, p) {
                assert(merged_contains(orig, p));
                assert(merged_map(orig).dom().contains(p));
            }
            if spec_merge(chain_maps(chain@)).dom().contains(p) {
                assert(merged_map(orig).dom().contains(p));
                assert(merged_contains(orig, p));
            }
        }
    }
    Ok((rm, bytes))
}

} // verus!
