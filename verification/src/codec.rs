use vstd::prelude::*;
use crate::index::{entries_bounded, entries_sorted, PageIndex, PageLocation, MAX_PAGE_ORDINAL};
use crate::meta::{MetaModel, Predecessor, SnapFileMeta};

verus! {

/// The eight little-endian bytes of a 64-bit value.
pub open spec fn u64_le(n: u64) -> Seq<u8> {
    seq![
        (n & 0xff) as u8,
        ((n >> 8) & 0xff) as u8,
        ((n >> 16) & 0xff) as u8,
        ((n >> 24) & 0xff) as u8,
        ((n >> 32) & 0xff) as u8,
        ((n >> 40) & 0xff) as u8,
        ((n >> 48) & 0xff) as u8,
        ((n >> 56) & 0xff) as u8,
    ]
}

/// The 64-bit value read from eight little-endian bytes.
pub open spec fn u64_of_le(s: Seq<u8>) -> u64
    recommends
        s.len() == 8,
{
    (s[0] as u64) | ((s[1] as u64) << 8) | ((s[2] as u64) << 16) | ((s[3] as u64) << 24) | ((
    s[4] as u64) << 32) | ((s[5] as u64) << 40) | ((s[6] as u64) << 48) | ((s[7] as u64) << 56)
}

/// Reading back the little-endian bytes of a value gives the value.
pub proof fn lemma_u64_le_roundtrip(n: u64)
    ensures
        u64_of_le(u64_le(n)) == n,
{
    assert((((n & 0xff) as u8) as u64) | (((((n >> 8) & 0xff) as u8) as u64) << 8) | (((((n >> 16)
        & 0xff) as u8) as u64) << 16) | (((((n >> 24) & 0xff) as u8) as u64) << 24) | (((((n >> 32)
        & 0xff) as u8) as u64) << 32) | (((((n >> 40) & 0xff) as u8) as u64) << 40) | (((((n >> 48)
        & 0xff) as u8) as u64) << 48) | (((((n >> 56) & 0xff) as u8) as u64) << 56) == n)
        by (bit_vector);
}

/// Append the eight little-endian bytes of `n`.
pub fn push_u64_le(out: &mut Vec<u8>, n: u64)
    ensures
        final(out)@ == old(out)@ + u64_le(n),
{
    proof {
        assert(n & 0xff < 256) by (bit_vector);
        assert((n >> 8) & 0xff < 256) by (bit_vector);
        assert((n >> 16) & 0xff < 256) by (bit_vector);
        assert((n >> 24) & 0xff < 256) by (bit_vector);
        assert((n >> 32) & 0xff < 256) by (bit_vector);
        assert((n >> 40) & 0xff < 256) by (bit_vector);
        assert((n >> 48) & 0xff < 256) by (bit_vector);
        assert((n >> 56) & 0xff < 256) by (bit_vector);
    }
    out.push((n & 0xff) as u8);
    out.push(((n >> 8) & 0xff) as u8);
    out.push(((n >> 16) & 0xff) as u8);
    out.push(((n >> 24) & 0xff) as u8);
    out.push(((n >> 32) & 0xff) as u8);
    out.push(((n >> 40) & 0xff) as u8);
    out.push(((n >> 48) & 0xff) as u8);
    out.push(((n >> 56) & 0xff) as u8);
    assert(out@ =~= old(out)@ + u64_le(n));
}

/// Read the 64-bit value stored little-endian at `off`.
pub fn read_u64_le(b: &[u8], off: usize) -> (r: u64)
    requires
        off + 8 <= b@.len(),
    ensures
        r == u64_of_le(b@.subrange(off as int, off as int + 8)),
{
    let r = (b[off] as u64) | ((b[off + 1] as u64) << 8) | ((b[off + 2] as u64) << 16) | ((b[off
        + 3] as u64) << 24) | ((b[off + 4] as u64) << 32) | ((b[off + 5] as u64) << 40) | ((b[off
        + 6] as u64) << 48) | ((b[off + 7] as u64) << 56);
    proof {
        let s = b@.subrange(off as int, off as int + 8);
        assert(s[0] == b@[off as int]);
        assert(s[1] == b@[off as int + 1]);
        assert(s[2] == b@[off as int + 2]);
        assert(s[3] == b@[off as int + 3]);
        assert(s[4] == b@[off as int + 4]);
        assert(s[5] == b@[off as int + 5]);
        assert(s[6] == b@[off as int + 6]);
        assert(s[7] == b@[off as int + 7]);
    }
    r
}

/// The 64-bit value read from eight big-endian bytes.
pub open spec fn u64_of_be(s: Seq<u8>) -> u64
    recommends
        s.len() == 8,
{
    ((s[0] as u64) << 56) | ((s[1] as u64) << 48) | ((s[2] as u64) << 40) | ((s[3] as u64) << 32)
        | ((s[4] as u64) << 24) | ((s[5] as u64) << 16) | ((s[6] as u64) << 8) | (s[7] as u64)
}

/// Read the 64-bit value stored big-endian at `off`.
pub fn read_u64_be(b: &[u8], off: usize) -> (r: u64)
    requires
        off + 8 <= b@.len(),
    ensures
        r == u64_of_be(b@.subrange(off as int, off as int + 8)),
{
    let r = ((b[off] as u64) << 56) | ((b[off + 1] as u64) << 48) | ((b[off + 2] as u64) << 40) | ((
    b[off + 3] as u64) << 32) | ((b[off + 4] as u64) << 24) | ((b[off + 5] as u64) << 16) | ((b[off
        + 6] as u64) << 8) | (b[off + 7] as u64);
    proof {
        let s = b@.subrange(off as int, off as int + 8);
        assert(s[0] == b@[off as int]);
        assert(s[1] == b@[off as int + 1]);
        assert(s[2] == b@[off as int + 2]);
        assert(s[3] == b@[off as int + 3]);
        assert(s[4] == b@[off as int + 4]);
        assert(s[5] == b@[off as int + 5]);
        assert(s[6] == b@[off as int + 6]);
        assert(s[7] == b@[off as int + 7]);
    }
    r
}

/// The big-endian value of `len` bytes starting at `pos`.
pub open spec fn be_int(b: Seq<u8>, pos: int, len: int) -> int
    decreases len,
{
    if len <= 0 {
        0
    } else {
        be_int(b, pos, len - 1) * 256 + b[pos + len - 1]
    }
}

/// A conservative walk over a region of definite-length binary items
/// in the container's table-of-contents encoding. Each item is an
/// initial byte whose low five bits select an argument of zero, one,
/// two, four or eight big-endian bytes; byte- and text-string items
/// are followed by as many payload bytes as their argument states.
/// The walk holds exactly when the region is a whole number of such
/// items and every unsigned-integer item stays below `0x8000_0000_0000_0000`,
/// so that no pair of them can overflow a `u64` sum. Indefinite
/// lengths and reserved argument forms are not admitted.
pub open spec fn cbor_walk_ok(b: Seq<u8>, pos: int, hi: int) -> bool
    decreases hi - pos,
{
    if pos >= hi {
        pos == hi
    } else if pos < 0 || hi > b.len() {
        false
    } else {
        let ib = b[pos];
        let major = ib / 32;
        let ai = ib % 32;
        if ai >= 28 {
            false
        } else {
            let alen: int = if ai < 24 {
                0
            } else if ai == 24 {
                1
            } else if ai == 25 {
                2
            } else if ai == 26 {
                4
            } else {
                8
            };
            if pos + 1 + alen > hi {
                false
            } else {
                let val: int = if ai < 24 {
                    ai as int
                } else {
                    be_int(b, pos + 1, alen)
                };
                let next = pos + 1 + alen;
                if major == 0 && val >= 0x8000_0000_0000_0000 {
                    false
                } else if major == 2 || major == 3 {
                    if val < 0 || val > hi - next {
                        false
                    } else {
                        cbor_walk_ok(b, next + val, hi)
                    }
                } else {
                    cbor_walk_ok(b, next, hi)
                }
            }
        }
    }
}

/// Read the big-endian argument of one to eight bytes at `pos`.
pub(crate) fn read_be_arg(b: &[u8], pos: usize, alen: usize) -> (r: u64)
    requires
        pos + alen <= b@.len(),
        alen == 1 || alen == 2 || alen == 4 || alen == 8,
    ensures
        r as int == be_int(b@, pos as int, alen as int),
{
    proof {
        assert(be_int(b@, pos as int, 0) == 0);
        assert(be_int(b@, pos as int, 1) == b@[pos as int]);
    }
    let n = b.len();
    let mut v: u64 = b[pos] as u64;
    let mut i: usize = 1;
    while i < alen
        invariant
            1 <= i <= alen,
            alen <= 8,
            pos + alen <= n,
            n == b@.len(),
            v as int == be_int(b@, pos as int, i as int),
        decreases alen - i,
    {
        proof {
            lemma_be_int_bound(b@, pos as int, i as int);
            assert(be_int(b@, pos as int, i as int + 1) == be_int(b@, pos as int, i as int) * 256
                + b@[pos as int + i]);
        }
        v = v * 256 + (b[pos + i] as u64);
        i += 1;
    }
    v
}

/// A big-endian value stays below the width of its byte count.
proof fn lemma_be_int_bound(b: Seq<u8>, pos: int, len: int)
    requires
        0 <= len <= 8,
        0 <= pos,
        pos + len <= b.len(),
    ensures
        0 <= be_int(b, pos, len),
        len == 0 ==> be_int(b, pos, len) < 1,
        len == 1 ==> be_int(b, pos, len) < 0x100,
        len == 2 ==> be_int(b, pos, len) < 0x1_0000,
        len == 3 ==> be_int(b, pos, len) < 0x100_0000,
        len == 4 ==> be_int(b, pos, len) < 0x1_0000_0000,
        len == 5 ==> be_int(b, pos, len) < 0x100_0000_0000,
        len == 6 ==> be_int(b, pos, len) < 0x1_0000_0000_0000,
        len == 7 ==> be_int(b, pos, len) < 0x100_0000_0000_0000,
        len == 8 ==> be_int(b, pos, len) < 0x1_0000_0000_0000_0000,
    decreases len,
{
    if len > 0 {
        lemma_be_int_bound(b, pos, len - 1);
    }
}

/// Check that a region holds only definite-length items whose
/// unsigned integers stay below `0x8000_0000_0000_0000`.
pub(crate) fn cbor_region_bounded(b: &[u8], lo: usize, hi: usize) -> (r: bool)
    requires
        lo <= hi <= b@.len(),
    ensures
        r == cbor_walk_ok(b@, lo as int, hi as int),
{
    let mut pos = lo;
    loop
        invariant
            lo <= pos <= hi <= b@.len(),
            cbor_walk_ok(b@, lo as int, hi as int) == cbor_walk_ok(b@, pos as int, hi as int),
        decreases hi - pos,
    {
        if pos >= hi {
            return true;
        }
        let ib = b[pos];
        let major = ib / 32;
        let ai = ib % 32;
        if ai >= 28 {
            return false;
        }
        let alen: usize = if ai < 24 {
            0
        } else if ai == 24 {
            1
        } else if ai == 25 {
            2
        } else if ai == 26 {
            4
        } else {
            8
        };
        if alen > hi - (pos + 1) {
            return false;
        }
        let val: u64 = if ai < 24 {
            ai as u64
        } else {
            read_be_arg(b, pos + 1, alen)
        };
        let next = pos + 1 + alen;
        if major == 0 && val >= 0x8000_0000_0000_0000 {
            return false;
        }
        let ghost old_pos = pos as int;
        if major == 2 || major == 3 {
            if val > (hi - next) as u64 {
                return false;
            }
            pos = next + (val as usize);
        } else {
            pos = next;
        }
        proof {
            assert(cbor_walk_ok(b@, old_pos, hi as int) == cbor_walk_ok(b@, pos as int, hi as int));
        }
    }
}

/// The encoded form of a snapshot identity: a version byte, the
/// timeline, the position, then a predecessor flag followed by the
/// predecessor's timeline and position when one is present.
pub open spec fn spec_encode_meta(mm: MetaModel) -> Seq<u8> {
    seq![1u8] + mm.timeline + u64_le(mm.lsn) + (match mm.pred {
        None => seq![0u8],
        Some(p) => seq![1u8] + p.0 + u64_le(p.1),
    })
}

/// The identity stored in an encoded identity region, if the bytes are
/// well-formed.
pub open spec fn spec_decode_meta(b: Seq<u8>) -> Option<MetaModel> {
    if b.len() < 26 {
        None
    } else if b[0] != 1u8 {
        None
    } else {
        let timeline = b.subrange(1, 17);
        let lsn = u64_of_le(b.subrange(17, 25));
        if b[25] == 0u8 {
            if b.len() == 26 {
                Some(MetaModel { timeline, lsn, pred: None })
            } else {
                None
            }
        } else if b[25] == 1u8 {
            if b.len() == 50 {
                Some(
                    MetaModel {
                        timeline,
                        lsn,
                        pred: Some((b.subrange(26, 42), u64_of_le(b.subrange(42, 50)))),
                    },
                )
            } else {
                None
            }
        } else {
            None
        }
    }
}

/// Decoding an encoded identity gives the identity back.
pub proof fn lemma_meta_roundtrip(mm: MetaModel)
    requires
        mm.timeline.len() == 16,
        mm.pred matches Some(p) ==> p.0.len() == 16,
    ensures
        spec_decode_meta(spec_encode_meta(mm)) == Some(mm),
{
    let e = spec_encode_meta(mm);
    lemma_u64_le_roundtrip(mm.lsn);
    match mm.pred {
        None => {
            assert(e.len() == 26);
            assert(e[0] == 1u8);
            assert(e[25] == 0u8);
            assert(e.subrange(1, 17) =~= mm.timeline);
            assert(e.subrange(17, 25) =~= u64_le(mm.lsn));
            assert(spec_decode_meta(e) == Some(mm));
        },
        Some(p) => {
            assert(e.len() == 50);
            assert(e[0] == 1u8);
            assert(e[25] == 1u8);
            assert(e.subrange(1, 17) =~= mm.timeline);
            assert(e.subrange(17, 25) =~= u64_le(mm.lsn));
            assert(e.subrange(26, 42) =~= p.0);
            assert(e.subrange(42, 50) =~= u64_le(p.1));
            lemma_u64_le_roundtrip(p.1);
            assert(spec_decode_meta(e) == Some(mm));
        },
    }
}

/// Encode a snapshot identity.
pub fn encode_meta(m: &SnapFileMeta) -> (r: Vec<u8>)
    ensures
        r@ == spec_encode_meta(m.model()),
{
    let mut out: Vec<u8> = Vec::new();
    out.push(1u8);
    let mut i: usize = 0;
    while i < 16
        invariant
            0 <= i <= 16,
            out@ =~= seq![1u8] + m.timeline@.subrange(0, i as int),
        decreases 16 - i,
    {
        out.push(m.timeline[i]);
        assert(out@ =~= seq![1u8] + m.timeline@.subrange(0, i as int + 1));
        i += 1;
    }
    assert(m.timeline@.subrange(0, 16) =~= m.timeline@);
    push_u64_le(&mut out, m.lsn);
    match &m.predecessor {
        None => {
            out.push(0u8);
        },
        Some(p) => {
            out.push(1u8);
            let ghost mid = out@;
            let mut i: usize = 0;
            while i < 16
                invariant
                    0 <= i <= 16,
                    out@ =~= mid + p.timeline@.subrange(0, i as int),
                decreases 16 - i,
            {
                out.push(p.timeline[i]);
                assert(out@ =~= mid + p.timeline@.subrange(0, i as int + 1));
                i += 1;
            }
            assert(p.timeline@.subrange(0, 16) =~= p.timeline@);
            push_u64_le(&mut out, p.lsn);
        },
    }
    assert(out@ =~= spec_encode_meta(m.model()));
    out
}

/// Decode a snapshot identity region.
pub fn decode_meta(bytes: &[u8]) -> (r: Option<SnapFileMeta>)
    ensures
        match r {
            Some(m) => spec_decode_meta(bytes@) == Some(m.model()),
            None => spec_decode_meta(bytes@) is None,
        },
{
    if bytes.len() < 26 {
        return None;
    }
    if bytes[0] != 1u8 {
        return None;
    }
    let mut timeline: [u8; 16] = [0u8; 16];
    let mut i: usize = 0;
    while i < 16
        invariant
            0 <= i <= 16,
            bytes@.len() >= 26,
            forall|k: int| 0 <= k < i ==> timeline@[k] == bytes@[1 + k],
        decreases 16 - i,
    {
        timeline[i] = bytes[1 + i];
        i += 1;
    }
    assert(timeline@ =~= bytes@.subrange(1, 17));
    let lsn = read_u64_le(bytes, 17);
    let flag = bytes[25];
    if flag == 0u8 {
        if bytes.len() == 26 {
            let m = SnapFileMeta { timeline, predecessor: None, lsn };
            Some(m)
        } else {
            None
        }
    } else if flag == 1u8 {
        if bytes.len() == 50 {
            let mut pred_timeline: [u8; 16] = [0u8; 16];
            let mut i: usize = 0;
            while i < 16
                invariant
                    0 <= i <= 16,
                    bytes@.len() == 50,
                    forall|k: int| 0 <= k < i ==> pred_timeline@[k] == bytes@[26 + k],
                decreases 16 - i,
            {
                pred_timeline[i] = bytes[26 + i];
                i += 1;
            }
            assert(pred_timeline@ =~= bytes@.subrange(26, 42));
            let pred_lsn = read_u64_le(bytes, 42);
            let m = SnapFileMeta {
                timeline,
                predecessor: Some(Predecessor { timeline: pred_timeline, lsn: pred_lsn }),
                lsn,
            };
            Some(m)
        } else {
            None
        }
    } else {
        None
    }
}

/// The raw encoding of the index entries: sixteen bytes per entry, the
/// page number then the ordinal, each little-endian.
pub open spec fn spec_encode_entries(s: Seq<(u64, PageLocation)>) -> Seq<u8>
    decreases s.len(),
{
    if s.len() == 0 {
        Seq::<u8>::empty()
    } else {
        spec_encode_entries(s.drop_last()) + u64_le(s.last().0) + u64_le(s.last().1.0)
    }
}

/// Each entry takes sixteen bytes.
pub proof fn lemma_encode_entries_len(s: Seq<(u64, PageLocation)>)
    ensures
        spec_encode_entries(s).len() == 16 * s.len(),
    decreases s.len(),
{
    if s.len() > 0 {
        lemma_encode_entries_len(s.drop_last());
    }
}

/// The bytes of entry `j` inside the encoded entries.
pub proof fn lemma_encode_entries_extract(s: Seq<(u64, PageLocation)>, j: int)
    requires
        0 <= j < s.len(),
    ensures
        spec_encode_entries(s).subrange(16 * j, 16 * j + 8) == u64_le(s[j].0),
        spec_encode_entries(s).subrange(16 * j + 8, 16 * j + 16) == u64_le(s[j].1.0),
    decreases s.len(),
{
    lemma_encode_entries_len(s);
    lemma_encode_entries_len(s.drop_last());
    let e = spec_encode_entries(s);
    let p = spec_encode_entries(s.drop_last());
    if j == s.len() - 1 {
        assert(e.subrange(16 * j, 16 * j + 8) =~= u64_le(s[j].0));
        assert(e.subrange(16 * j + 8, 16 * j + 16) =~= u64_le(s[j].1.0));
    } else {
        lemma_encode_entries_extract(s.drop_last(), j);
        assert(e.subrange(16 * j, 16 * j + 8) =~= p.subrange(16 * j, 16 * j + 8));
        assert(e.subrange(16 * j + 8, 16 * j + 16) =~= p.subrange(16 * j + 8, 16 * j + 16));
        assert(s.drop_last()[j] == s[j]);
    }
}

/// The encoded form of a page index: a version byte, the entry count,
/// then the entries in ascending page-number order.
pub open spec fn spec_encode_index(s: Seq<(u64, PageLocation)>) -> Seq<u8> {
    seq![1u8] + u64_le(s.len() as u64) + spec_encode_entries(s)
}

/// The entries stored in an encoded index region, if the bytes are
/// well-formed: sorted strictly by page number, ordinals in range.
pub open spec fn spec_decode_index(b: Seq<u8>) -> Option<Seq<(u64, PageLocation)>> {
    if b.len() < 9 {
        None
    } else if b[0] != 1u8 {
        None
    } else {
        let count = u64_of_le(b.subrange(1, 9));
        if b.len() != 9 + 16 * (count as int) {
            None
        } else {
            let s = Seq::new(
                count as nat,
                |j: int|
                    (
                        u64_of_le(b.subrange(9 + 16 * j, 9 + 16 * j + 8)),
                        PageLocation(u64_of_le(b.subrange(9 + 16 * j + 8, 9 + 16 * j + 16))),
                    ),
            );
            if entries_sorted(s) && entries_bounded(s) {
                Some(s)
            } else {
                None
            }
        }
    }
}

/// Decoding an encoded index gives the entries back.
pub proof fn lemma_index_roundtrip(s: Seq<(u64, PageLocation)>)
    requires
        entries_sorted(s),
        entries_bounded(s),
        s.len() <= u64::MAX,
    ensures
        spec_decode_index(spec_encode_index(s)) == Some(s),
{
    let e = spec_encode_index(s);
    lemma_encode_entries_len(s);
    assert(e.len() == 9 + 16 * s.len());
    assert(e[0] == 1u8);
    assert(e.subrange(1, 9) =~= u64_le(s.len() as u64));
    lemma_u64_le_roundtrip(s.len() as u64);
    let count = u64_of_le(e.subrange(1, 9));
    assert(count == s.len() as u64);
    assert(e.len() == 9 + 16 * (count as int));
    let dec = Seq::new(
        count as nat,
        |j: int|
            (
                u64_of_le(e.subrange(9 + 16 * j, 9 + 16 * j + 8)),
                PageLocation(u64_of_le(e.subrange(9 + 16 * j + 8, 9 + 16 * j + 16))),
            ),
    );
    assert forall|j: int| 0 <= j < s.len() implies dec[j] == s[j] by {
        lemma_encode_entries_extract(s, j);
        let ee = spec_encode_entries(s);
        assert(e.subrange(9 + 16 * j, 9 + 16 * j + 8) =~= ee.subrange(16 * j, 16 * j + 8));
        assert(e.subrange(9 + 16 * j + 8, 9 + 16 * j + 16) =~= ee.subrange(
            16 * j + 8,
            16 * j + 16,
        ));
        lemma_u64_le_roundtrip(s[j].0);
        lemma_u64_le_roundtrip(s[j].1.0);
    }
    assert(dec =~= s);
}

/// Encode a page index.
pub fn encode_index(ix: &PageIndex) -> (r: Vec<u8>)
    ensures
        r@ == spec_encode_index(ix@),
{
    let mut out: Vec<u8> = Vec::new();
    out.push(1u8);
    push_u64_le(&mut out, ix.entries.len() as u64);
    let mut j: usize = 0;
    while j < ix.entries.len()
        invariant
            0 <= j <= ix@.len(),
            out@ =~= seq![1u8] + u64_le(ix@.len() as u64) + spec_encode_entries(
                ix@.subrange(0, j as int),
            ),
        decreases ix@.len() - j,
    {
        let entry = ix.entries[j];
        push_u64_le(&mut out, entry.0);
        push_u64_le(&mut out, entry.1.0);
        proof {
            let pre = ix@.subrange(0, j as int);
            let cur = ix@.subrange(0, j as int + 1);
            assert(cur.drop_last() =~= pre);
            assert(cur.last() == ix@[j as int]);
            assert(out@ =~= seq![1u8] + u64_le(ix@.len() as u64) + spec_encode_entries(cur));
        }
        j += 1;
    }
    assert(ix@.subrange(0, ix@.len() as int) =~= ix@);
    out
}

/// Decode a page index region.
pub fn decode_index(bytes: &[u8]) -> (r: Option<PageIndex>)
    ensures
        match r {
            Some(ix) => ix.wf() && spec_decode_index(bytes@) == Some(ix@),
            None => spec_decode_index(bytes@) is None,
        },
{
    if bytes.len() < 9 {
        return None;
    }
    if bytes[0] != 1u8 {
        return None;
    }
    let count = read_u64_le(bytes, 1);
    let n = bytes.len();
    let need: u128 = 9u128 + 16u128 * (count as u128);
    if (n as u128) != need {
        return None;
    }
    let count_us = count as usize;
    let ghost s = Seq::new(
        count as nat,
        |j: int|
            (
                u64_of_le(bytes@.subrange(9 + 16 * j, 9 + 16 * j + 8)),
                PageLocation(u64_of_le(bytes@.subrange(9 + 16 * j + 8, 9 + 16 * j + 16))),
            ),
    );
    let mut entries: Vec<(u64, PageLocation)> = Vec::new();
    let mut j: usize = 0;
    while j < count_us
        invariant
            0 <= j <= count_us,
            count_us == count,
            bytes@.len() == 9 + 16 * count_us,
            bytes@.len() <= usize::MAX,
            entries@.len() == j,
            forall|t: int| 0 <= t < j ==> entries@[t] == s[t],
            entries_sorted(entries@),
            entries_bounded(entries@),
            s == Seq::new(
                count as nat,
                |j: int|
                    (
                        u64_of_le(bytes@.subrange(9 + 16 * j, 9 + 16 * j + 8)),
                        PageLocation(u64_of_le(bytes@.subrange(9 + 16 * j + 8, 9 + 16 * j + 16))),
                    ),
            ),
        decreases count_us - j,
    {
        let key = read_u64_le(bytes, 9 + 16 * j);
        let loc = read_u64_le(bytes, 9 + 16 * j + 8);
        proof {
            assert(s[j as int] == (key, PageLocation(loc)));
        }
        if loc > MAX_PAGE_ORDINAL {
            proof {
                assert(s[j as int].1.0 > MAX_PAGE_ORDINAL);
                assert(!entries_bounded(s));
            }
            return None;
        }
        if j > 0 {
            let prev = entries[j - 1].0;
            if prev >= key {
                proof {
                    assert(s[j as int - 1].0 >= s[j as int].0);
                    assert(!entries_sorted(s));
                }
                return None;
            }
        }
        let ghost old_entries = entries@;
        entries.push((key, PageLocation(loc)));
        proof {
            assert forall|a: int, b: int| 0 <= a < b < entries@.len() implies (
            #[trigger] entries@[a]).0 < (#[trigger] entries@[b]).0 by {
                if b < j {
                    assert(entries@[a] == old_entries[a]);
                    assert(entries@[b] == old_entries[b]);
                } else {
                    assert(entries@[b] == (key, PageLocation(loc)));
                    assert(entries@[a] == old_entries[a]);
                    if a == j - 1 {
                    } else {
                        assert(old_entries[a].0 < old_entries[j - 1].0);
                    }
                }
            }
        }
        j += 1;
    }
    proof {
        assert(entries@ =~= s);
    }
    let ix = PageIndex { entries };
    proof {
        assert(spec_decode_index(bytes@) == Some(s));
    }
    Some(ix)
}

} // verus!
