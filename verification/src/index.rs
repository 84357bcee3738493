use vstd::prelude::*;

verus! {

/// Largest ordinal whose byte offset still fits in a `u64`.
pub const MAX_PAGE_ORDINAL: u64 = u64::MAX / 8192;

/// Where a page lives inside the pages region: the zero-based ordinal
/// assigned at write time. The byte offset of the page is the ordinal
/// times the page size.
#[derive(Clone, Copy, Debug, PartialEq, Eq, Structural)]
pub struct PageLocation(pub u64);

impl PageLocation {
    /// Byte offset of this page inside the pages region.
    pub fn to_offset(&self) -> (r: u64)
        requires
            self.0 <= MAX_PAGE_ORDINAL,
        ensures
            r == self.0 * 8192,
    {
        self.0 * 8192
    }
}

/// The entries are strictly sorted by page number, so each page number
/// appears at most once.
pub open spec fn entries_sorted(s: Seq<(u64, PageLocation)>) -> bool {
    forall|i: int, j: int| 0 <= i < j < s.len() ==> (#[trigger] s[i]).0 < (#[trigger] s[j]).0
}

/// Every ordinal is small enough that its byte offset fits in a `u64`.
pub open spec fn entries_bounded(s: Seq<(u64, PageLocation)>) -> bool {
    forall|i: int| 0 <= i < s.len() ==> (#[trigger] s[i]).1.0 <= MAX_PAGE_ORDINAL
}

/// Some entry carries page number `p`.
pub open spec fn entries_contain(s: Seq<(u64, PageLocation)>, p: u64) -> bool {
    exists|i: int| 0 <= i < s.len() && (#[trigger] s[i]).0 == p
}

/// The ordinal the entries record for page number `p` (meaningful only
/// when `entries_contain(s, p)` holds).
pub open spec fn entries_location(s: Seq<(u64, PageLocation)>, p: u64) -> u64 {
    s[choose|i: int| 0 <= i < s.len() && (#[trigger] s[i]).0 == p].1.0
}

/// In strictly sorted entries each page number stands at one position.
pub proof fn lemma_entries_unique(s: Seq<(u64, PageLocation)>, i: int, j: int)
    requires
        entries_sorted(s),
        0 <= i < s.len(),
        0 <= j < s.len(),
        s[i].0 == s[j].0,
    ensures
        i == j,
{
    if i < j {
        assert(s[i].0 < s[j].0);
    } else if j < i {
        assert(s[j].0 < s[i].0);
    }
}

/// The in-memory index of one snapshot file: which pages the file
/// holds, and at which ordinal each one was written.
#[derive(Clone, Debug, PartialEq, Eq)]
pub struct PageIndex {
    /// Pairs of page number and location, strictly sorted by page number.
    pub entries: Vec<(u64, PageLocation)>,
}

impl View for PageIndex {
    type V = Seq<(u64, PageLocation)>;

    open spec fn view(&self) -> Seq<(u64, PageLocation)> {
        self.entries@
    }
}

impl PageIndex {
    /// Well-formed: sorted strictly by page number, ordinals in range.
    pub open spec fn wf(self) -> bool {
        entries_sorted(self@) && entries_bounded(self@)
    }

    /// The index has an entry for page number `p`.
    pub open spec fn spec_contains(self, p: u64) -> bool {
        entries_contain(self@, p)
    }

    /// The ordinal recorded for page number `p` (meaningful only when
    /// `spec_contains(p)` holds).
    pub open spec fn spec_location(self, p: u64) -> u64 {
        entries_location(self@, p)
    }

    /// The index as a mapping from page number to ordinal.
    pub open spec fn page_map(self) -> Map<u64, u64> {
        Map::new(|p: u64| self.spec_contains(p), |p: u64| self.spec_location(p))
    }

    /// An empty index.
    pub fn new() -> (r: PageIndex)
        ensures
            r@ =~= Seq::<(u64, PageLocation)>::empty(),
            r.wf(),
    {
        PageIndex { entries: Vec::new() }
    }

    /// In a sorted index each page number stands at one position only.
    pub proof fn lemma_position_unique(self, i: int, j: int)
        requires
            self.wf(),
            0 <= i < self@.len(),
            0 <= j < self@.len(),
            self@[i].0 == self@[j].0,
        ensures
            i == j,
    {
        if i < j {
            assert(self@[i].0 < self@[j].0);
        } else if j < i {
            assert(self@[j].0 < self@[i].0);
        }
    }

    /// Lowest position whose page number is at least `p`.
    fn lower_bound(&self, p: u64) -> (r: usize)
        requires
            self.wf(),
        ensures
            r <= self@.len(),
            forall|i: int| 0 <= i < r ==> (#[trigger] self@[i]).0 < p,
            forall|i: int| r <= i < self@.len() ==> (#[trigger] self@[i]).0 >= p,
    {
        let mut lo: usize = 0;
        let mut hi: usize = self.entries.len();
        while lo < hi
            invariant
                self.wf(),
                lo <= hi <= self@.len(),
                forall|i: int| 0 <= i < lo ==> (#[trigger] self@[i]).0 < p,
                forall|i: int| hi <= i < self@.len() ==> (#[trigger] self@[i]).0 >= p,
            decreases hi - lo,
        {
            let mid: usize = lo + (hi - lo) / 2;
            if self.entries[mid].0 < p {
                lo = mid + 1;
            } else {
                hi = mid;
            }
        }
        lo
    }

    /// Retrieve the page location from the index.
    ///
    /// If the page is not in the index, returns `None`.
    pub fn get_page_location(&self, page_num: u64) -> (r: Option<PageLocation>)
        requires
            self.wf(),
        ensures
            match r {
                Some(loc) => self.spec_contains(page_num) && loc.0 == self.spec_location(page_num)
                    && loc.0 <= MAX_PAGE_ORDINAL,
                None => !self.spec_contains(page_num),
            },
    {
        let i = self.lower_bound(page_num);
        if i < self.entries.len() && self.entries[i].0 == page_num {
            let loc = self.entries[i].1;
            proof {
                let j = choose|j: int|
                    0 <= j < self@.len() && (#[trigger] self@[j]).0 == page_num;
                self.lemma_position_unique(i as int, j);
            }
            Some(loc)
        } else {
            None
        }
    }

    /// Number of distinct pages indexed.
    pub fn page_count(&self) -> (r: usize)
        requires
            self.wf(),
        ensures
            r == self@.len(),
    {
        self.entries.len()
    }

    /// Record a page number at a location, unless the page number is
    /// already present. Returns `true` when the entry was added.
    pub fn insert_new(&mut self, page_num: u64, loc: PageLocation) -> (r: bool)
        requires
            old(self).wf(),
            loc.0 <= MAX_PAGE_ORDINAL,
            old(self)@.len() < usize::MAX,
        ensures
            final(self).wf(),
            r == !old(self).spec_contains(page_num),
            !r ==> *final(self) == *old(self),
            r ==> final(self)@.len() == old(self)@.len() + 1,
            r ==> exists|k: int|
                0 <= k <= old(self)@.len() && final(self)@ =~= #[trigger] old(self)@.insert(
                    k,
                    (page_num, loc),
                ),
            r ==> final(self).page_map() =~= old(self).page_map().insert(page_num, loc.0),
            !r ==> final(self).page_map() =~= old(self).page_map(),
    {
        let i = self.lower_bound(page_num);
        if i < self.entries.len() && self.entries[i].0 == page_num {
            return false;
        }
        self.entries.insert(i, (page_num, loc));
        proof {
            let s_old = old(self)@;
            let s_new = self@;
            let k = i as int;
            assert(s_new =~= s_old.insert(k, (page_num, loc)));
            assert forall|a: int, b: int| 0 <= a < b < s_new.len() implies (#[trigger] s_new[a]).0
                < (#[trigger] s_new[b]).0 by {
                if b < k {
                    assert(s_new[a] == s_old[a]);
                    assert(s_new[b] == s_old[b]);
                } else if b == k {
                    assert(s_new[a] == s_old[a]);
                    assert(s_old[a].0 < page_num);
                } else {
                    assert(s_new[b] == s_old[b - 1]);
                    if a < k {
                        assert(s_new[a] == s_old[a]);
                        assert(s_old[a].0 < page_num);
                        assert(s_old[b - 1].0 >= page_num);
                    } else if a == k {
                        assert(s_old[b - 1].0 >= page_num);
                        if b - 1 == k {
                            assert(s_old[b - 1].0 != page_num);
                        } else {
                            assert(s_old[k].0 >= page_num);
                            assert(s_old[k].0 < s_old[b - 1].0);
                        }
                    } else {
                        assert(s_new[a] == s_old[a - 1]);
                    }
                }
            }
            assert(self.wf());
            assert forall|p: u64| self.spec_contains(p) implies (old(self).spec_contains(p) || p
                == page_num) by {
                let ii = choose|ii: int|
                    0 <= ii < s_new.len() && (#[trigger] s_new[ii]).0 == p;
                if ii < k {
                    assert(s_old[ii].0 == p);
                } else if ii > k {
                    assert(s_old[ii - 1].0 == p);
                }
            }
            assert forall|p: u64| old(self).spec_contains(p) implies self.spec_contains(p) by {
                let ii = choose|ii: int|
                    0 <= ii < s_old.len() && (#[trigger] s_old[ii]).0 == p;
                if ii < k {
                    assert(s_new[ii].0 == p);
                } else {
                    assert(s_new[ii + 1].0 == p);
                }
            }
            assert(self.spec_contains(page_num)) by {
                assert(s_new[k].0 == page_num);
            }
            assert forall|p: u64| #[trigger] self.spec_contains(p) implies self.spec_location(p)
                == old(self).page_map().insert(page_num, loc.0)[p] by {
                let ii = choose|ii: int|
                    0 <= ii < s_new.len() && (#[trigger] s_new[ii]).0 == p;
                if p == page_num {
                    assert(s_new[k].0 == page_num);
                    self.lemma_position_unique(ii, k);
                } else {
                    if ii < k {
                        assert(s_old[ii].0 == p);
                        let jj = choose|jj: int|
                            0 <= jj < s_old.len() && (#[trigger] s_old[jj]).0 == p;
                        old(self).lemma_position_unique(ii, jj);
                    } else {
                        assert(ii != k);
                        assert(s_old[ii - 1].0 == p);
                        let jj = choose|jj: int|
                            0 <= jj < s_old.len() && (#[trigger] s_old[jj]).0 == p;
                        old(self).lemma_position_unique(ii - 1, jj);
                    }
                }
            }
        }
        true
    }
}

} // verus!
