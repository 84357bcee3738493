use vstd::prelude::*;
use vstd::string::StringExecFns;

verus! {

/// The lowercase hexadecimal digit for a value below sixteen.
pub open spec fn hex_digit(d: int) -> char {
    if d == 0 {
        '0'
    } else if d == 1 {
        '1'
    } else if d == 2 {
        '2'
    } else if d == 3 {
        '3'
    } else if d == 4 {
        '4'
    } else if d == 5 {
        '5'
    } else if d == 6 {
        '6'
    } else if d == 7 {
        '7'
    } else if d == 8 {
        '8'
    } else if d == 9 {
        '9'
    } else if d == 10 {
        'a'
    } else if d == 11 {
        'b'
    } else if d == 12 {
        'c'
    } else if d == 13 {
        'd'
    } else if d == 14 {
        'e'
    } else {
        'f'
    }
}

/// Two lowercase hexadecimal digits for one byte.
pub open spec fn hex_byte(b: u8) -> Seq<char> {
    seq![hex_digit(b as int / 16), hex_digit(b as int % 16)]
}

/// The lowercase hexadecimal digits of a byte sequence, two per byte.
pub open spec fn hex_bytes(s: Seq<u8>) -> Seq<char>
    decreases s.len(),
{
    if s.len() == 0 {
        Seq::<char>::empty()
    } else {
        hex_byte(s[0]) + hex_bytes(s.drop_first())
    }
}

/// The lowercase hexadecimal digits of a value, without leading zeros;
/// zero is a single digit.
pub open spec fn hex_u64(n: int) -> Seq<char>
    recommends
        n >= 0,
    decreases n,
{
    if n < 16 {
        seq![hex_digit(n)]
    } else {
        hex_u64(n / 16) + seq![hex_digit(n % 16)]
    }
}

/// Relies on `hex::encode`: it yields two lowercase hexadecimal digits
/// for each byte, in order.
#[verifier::external_body]
fn hex_encode_bytes(b: &[u8]) -> (r: String)
    ensures
        r@ == hex_bytes(b@),
{
    hex::encode(b)
}

/// The single-character string for a hexadecimal digit value.
fn hex_digit_str(d: u8) -> (r: &'static str)
    requires
        d < 16,
    ensures
        r@ == seq![hex_digit(d as int)],
{
    match d {
        0 => {
            proof {
                reveal_strlit("0");
            }
            let r = "0";
            assert(r@ =~= seq![hex_digit(0)]);
            r
        },
        1 => {
            proof {
                reveal_strlit("1");
            }
            let r = "1";
            assert(r@ =~= seq![hex_digit(1)]);
            r
        },
        2 => {
            proof {
                reveal_strlit("2");
            }
            let r = "2";
            assert(r@ =~= seq![hex_digit(2)]);
            r
        },
        3 => {
            proof {
                reveal_strlit("3");
            }
            let r = "3";
            assert(r@ =~= seq![hex_digit(3)]);
            r
        },
        4 => {
            proof {
                reveal_strlit("4");
            }
            let r = "4";
            assert(r@ =~= seq![hex_digit(4)]);
            r
        },
        5 => {
            proof {
                reveal_strlit("5");
            }
            let r = "5";
            assert(r@ =~= seq![hex_digit(5)]);
            r
        },
        6 => {
            proof {
                reveal_strlit("6");
            }
            let r = "6";
            assert(r@ =~= seq![hex_digit(6)]);
            r
        },
        7 => {
            proof {
                reveal_strlit("7");
            }
            let r = "7";
            assert(r@ =~= seq![hex_digit(7)]);
            r
        },
        8 => {
            proof {
                reveal_strlit("8");
            }
            let r = "8";
            assert(r@ =~= seq![hex_digit(8)]);
            r
        },
        9 => {
            proof {
                reveal_strlit("9");
            }
            let r = "9";
            assert(r@ =~= seq![hex_digit(9)]);
            r
        },
        10 => {
            proof {
                reveal_strlit("a");
            }
            let r = "a";
            assert(r@ =~= seq![hex_digit(10)]);
            r
        },
        11 => {
            proof {
                reveal_strlit("b");
            }
            let r = "b";
            assert(r@ =~= seq![hex_digit(11)]);
            r
        },
        12 => {
            proof {
                reveal_strlit("c");
            }
            let r = "c";
            assert(r@ =~= seq![hex_digit(12)]);
            r
        },
        13 => {
            proof {
                reveal_strlit("d");
            }
            let r = "d";
            assert(r@ =~= seq![hex_digit(13)]);
            r
        },
        14 => {
            proof {
                reveal_strlit("e");
            }
            let r = "e";
            assert(r@ =~= seq![hex_digit(14)]);
            r
        },
        _ => {
            proof {
                reveal_strlit("f");
            }
            let r = "f";
            assert(r@ =~= seq![hex_digit(15)]);
            r
        },
    }
}

/// The digit characters of `ds` read back to front.
pub open spec fn rev_digit_chars(ds: Seq<u8>) -> Seq<char> {
    Seq::new(ds.len(), |i: int| hex_digit(ds[ds.len() - 1 - i] as int))
}

/// The lowercase hexadecimal form of a value, without leading zeros.
fn u64_hex_string(n: u64) -> (r: String)
    ensures
        r@ == hex_u64(n as int),
{
    let mut digits: Vec<u8> = Vec::new();
    if n == 0 {
        digits.push(0);
        assert(rev_digit_chars(digits@) =~= hex_u64(0));
    } else {
        let mut m = n;
        while m > 0
            invariant
                0 <= m <= n,
                n > 0,
                forall|t: int| 0 <= t < digits@.len() ==> (#[trigger] digits@[t]) < 16,
                hex_u64(n as int) == (if m == 0 {
                    Seq::<char>::empty()
                } else {
                    hex_u64(m as int)
                }) + rev_digit_chars(digits@),
            decreases m,
        {
            let d = (m % 16) as u8;
            let ghost old_digits = digits@;
            digits.push(d);
            let m2 = m / 16;
            proof {
                assert(rev_digit_chars(digits@) =~= seq![hex_digit(d as int)] + rev_digit_chars(
                    old_digits,
                ));
                if m < 16 {
                    assert(hex_u64(m as int) == seq![hex_digit(m as int)]);
                    assert(m as int % 16 == m as int);
                    assert(hex_u64(n as int) =~= (if m2 == 0 {
                        Seq::<char>::empty()
                    } else {
                        hex_u64(m2 as int)
                    }) + rev_digit_chars(digits@));
                } else {
                    assert(hex_u64(m as int) == hex_u64(m as int / 16) + seq![
                        hex_digit(m as int % 16),
                    ]);
                    assert(hex_u64(n as int) =~= (if m2 == 0 {
                        Seq::<char>::empty()
                    } else {
                        hex_u64(m2 as int)
                    }) + rev_digit_chars(digits@));
                }
            }
            m = m2;
        }
        assert(hex_u64(n as int) =~= rev_digit_chars(digits@));
    }
    let mut s = String::new();
    let mut i: usize = digits.len();
    while i > 0
        invariant
            0 <= i <= digits@.len(),
            forall|t: int| 0 <= t < digits@.len() ==> (#[trigger] digits@[t]) < 16,
            s@ =~= rev_digit_chars(digits@).take(digits@.len() - i),
        decreases i,
    {
        i = i - 1;
        let d = digits[i];
        s.append(hex_digit_str(d));
        proof {
            let rc = rev_digit_chars(digits@);
            assert(rc[digits@.len() - 1 - i as int] == hex_digit(d as int));
            assert(s@ =~= rc.take(digits@.len() - i as int));
        }
    }
    proof {
        assert(rev_digit_chars(digits@).take(digits@.len() as int) =~= rev_digit_chars(digits@));
        assert(s@ =~= hex_u64(n as int));
    }
    s
}

/// The identity of the snapshot a given snapshot incrementally extends.
#[derive(Clone, Copy, Debug, PartialEq, Eq)]
pub struct Predecessor {
    /// Timeline of the ancestor snapshot.
    pub timeline: [u8; 16],
    /// Position at which the ancestor snapshot was captured.
    pub lsn: u64,
}

/// The identity of one snapshot: the timeline it belongs to, the
/// position at which it was captured, and an optional link to the
/// snapshot it incrementally extends.
#[derive(Clone, Copy, Debug, PartialEq, Eq)]
pub struct SnapFileMeta {
    /// Opaque identifier of the logical stream this snapshot belongs to.
    pub timeline: [u8; 16],
    /// Identity of the predecessor snapshot, or `None` for a base snapshot.
    pub predecessor: Option<Predecessor>,
    /// Position at which the snapshot was captured.
    pub lsn: u64,
}

/// The mathematical shape of a snapshot identity: the timeline as a
/// byte sequence, the position, and the predecessor's pair if present.
pub ghost struct MetaModel {
    /// Timeline bytes.
    pub timeline: Seq<u8>,
    /// Capture position.
    pub lsn: u64,
    /// Predecessor timeline bytes and position, if any.
    pub pred: Option<(Seq<u8>, u64)>,
}

impl SnapFileMeta {
    /// This identity as its mathematical model.
    pub open spec fn model(self) -> MetaModel {
        MetaModel {
            timeline: self.timeline@,
            lsn: self.lsn,
            pred: match self.predecessor {
                None => None,
                Some(p) => Some((p.timeline@, p.lsn)),
            },
        }
    }

    /// Derive the identity of a new snapshot. If `previous` is given,
    /// its timeline and position become the new snapshot's predecessor;
    /// otherwise the new snapshot is a base snapshot.
    pub fn new(previous: Option<SnapFileMeta>, timeline: [u8; 16], lsn: u64) -> (r: Self)
        ensures
            r.timeline == timeline,
            r.lsn == lsn,
            previous is None ==> r.predecessor is None,
            previous matches Some(prev) ==> r.predecessor == Some(
                Predecessor { timeline: prev.timeline, lsn: prev.lsn },
            ),
    {
        let predecessor = match previous {
            None => None,
            Some(prev) => Some(Predecessor { timeline: prev.timeline, lsn: prev.lsn }),
        };
        SnapFileMeta { timeline, predecessor, lsn }
    }

    /// The position of the predecessor, or zero for a base snapshot.
    pub open spec fn spec_pred_lsn(self) -> u64 {
        match self.predecessor {
            None => 0,
            Some(p) => p.lsn,
        }
    }

    /// The file name this identity gives: the timeline in lowercase
    /// hexadecimal, the predecessor's position, and the snapshot's own
    /// position, separated by underscores, with the snapshot suffix.
    pub open spec fn spec_filename(self) -> Seq<char> {
        hex_bytes(self.timeline@) + seq!['_'] + hex_u64(self.spec_pred_lsn() as int) + seq!['_']
            + hex_u64(self.lsn as int) + seq!['.', 'z', 'd', 'b']
    }

    /// Derive this snapshot's file name from its identity.
    pub fn to_filename(&self) -> (r: String)
        ensures
            r@ == self.spec_filename(),
    {
        let mut s = hex_encode_bytes(self.timeline.as_slice());
        proof {
            reveal_strlit("_");
            reveal_strlit(".zdb");
        }
        s.append("_");
        let pred_lsn = match &self.predecessor {
            None => 0u64,
            Some(p) => p.lsn,
        };
        let h1 = u64_hex_string(pred_lsn);
        s.append(h1.as_str());
        s.append("_");
        let h2 = u64_hex_string(self.lsn);
        s.append(h2.as_str());
        s.append(".zdb");
        proof {
            assert("_"@ =~= seq!['_']);
            assert(".zdb"@ =~= seq!['.', 'z', 'd', 'b']);
            assert(s@ =~= self.spec_filename());
        }
        s
    }
}

} // verus!
