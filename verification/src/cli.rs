//! The command-line surface's verified piece: region file names carry
//! their grid coordinates as `r.<x>.<z>.mca`, and mounting needs them
//! parsed out. The name is accepted when it ends with that form; the
//! coordinates may be negative and must fit the machine's signed word.

use vstd::prelude::*;

use crate::codec::{digits_val, is_digit, lemma_digits_val_prefix};

verus! {

/// The byte position where the digit run ending at `e` begins.
pub open spec fn digit_run_start(t: Seq<u8>, e: int) -> int
    decreases e when 0 <= e <= t.len()
{
    if e > 0 && is_digit(t[e - 1]) {
        digit_run_start(t, e - 1)
    } else {
        e
    }
}

/// One signed coordinate read backwards from `e`: its value and where it
/// begins, sign included; nothing when the digit run is empty.
pub open spec fn coord_back(t: Seq<u8>, e: int) -> Option<(int, int)> {
    let ds = digit_run_start(t, e);
    if ds == e {
        None
    } else {
        let neg = ds > 0 && t[ds - 1] == 45;
        let v = if neg {
            -digits_val(t.subrange(ds, e))
        } else {
            digits_val(t.subrange(ds, e))
        };
        Some((v, if neg {
            ds - 1
        } else {
            ds
        }))
    }
}

/// The coordinates in a name ending with `r.<x>.<z>.mca`, when it does.
pub open spec fn spec_parse_region_name(s: Seq<u8>) -> Option<(int, int)> {
    if s.len() >= 4 && s.subrange(s.len() - 4, s.len() as int) == seq![46u8, 109u8, 99u8, 97u8] {
        let t = s.subrange(0, s.len() - 4);
        match coord_back(t, t.len() as int) {
            Some((z, zs)) => if zs > 0 && t[zs - 1] == 46 {
                match coord_back(t, zs - 1) {
                    Some((x, xs)) => if xs >= 2 && t[xs - 1] == 46 && t[xs - 2] == 114 {
                        Some((x, z))
                    } else {
                        None
                    },
                    None => None,
                }
            } else {
                None
            },
            None => None,
        }
    } else {
        None
    }
}

/// Why a region file name was refused.
#[derive(Clone, Copy, Debug, PartialEq, Eq, Structural)]
pub enum RegionNameError {
    /// The name does not end with the `r.<x>.<z>.mca` form.
    NoMatch,
    /// The x coordinate does not fit the machine's signed word.
    XRange,
    /// The z coordinate does not fit the machine's signed word.
    ZRange,
}

/// A region file named by its grid coordinates.
#[derive(Debug)]
pub struct ExtendedFilename {
    pub fname: Vec<u8>,
    pub x: isize,
    pub z: isize,
}

/// What scanning one coordinate found: nothing, or its start and its
/// value when the machine's signed word holds it.
enum CoordScan {
    Missing,
    Scanned(Option<isize>, usize),
}

/// Scans the signed coordinate whose digit run ends at `e`.
fn coord_back_exec(t: &[u8], e: usize) -> (r: CoordScan)
    requires
        e <= t@.len(),
    ensures
        match r {
            CoordScan::Missing => coord_back(t@, e as int) is None,
            CoordScan::Scanned(ov, st) => coord_back(t@, e as int) is Some && ({
                let p = coord_back(t@, e as int)->0;
                &&& p.1 == st
                &&& st <= e
                &&& match ov {
                    Some(vv) => vv == p.0,
                    None => !(isize::MIN <= p.0 <= isize::MAX),
                }
            }),
        },
{
    let mut ds: usize = e;
    while ds > 0 && 48 <= t[ds - 1] && t[ds - 1] <= 57
        invariant
            ds <= e <= t@.len(),
            digit_run_start(t@, e as int) == digit_run_start(t@, ds as int),
            forall|k: int| ds <= k < e ==> is_digit(#[trigger] t@[k]),
        decreases ds,
    {
        ds = ds - 1;
    }
    proof {
        assert(digit_run_start(t@, ds as int) == ds);
    }
    if ds == e {
        return CoordScan::Missing;
    }
    let neg = ds > 0 && t[ds - 1] == 45;
    let st = if neg {
        ds - 1
    } else {
        ds
    };
    let ghost d = t@.subrange(ds as int, e as int);
    let bound: u128 = (isize::MAX as u128) + 1;
    let mut acc: u128 = 0;
    let mut i: usize = ds;
    while i < e
        invariant
            ds <= i <= e <= t@.len(),
            d == t@.subrange(ds as int, e as int),
            d.len() > 0,
            digit_run_start(t@, e as int) == ds,
            neg == (ds > 0 && t@[ds as int - 1] == 45),
            st == if neg {
                ds - 1
            } else {
                ds as int
            },
            forall|k: int| ds <= k < e ==> is_digit(#[trigger] t@[k]),
            acc == digits_val(d.subrange(0, i - ds)),
            acc <= bound,
            bound == (isize::MAX as u128) + 1,
        decreases e - i,
    {
        proof {
            let p = d.subrange(0, i + 1 - ds);
            assert(p.drop_last() =~= d.subrange(0, i - ds));
            assert(p.last() == t@[i as int]);
            assert(digits_val(p) == digits_val(d.subrange(0, i - ds)) * 10 + (t@[i as int] - 48));
        }
        acc = acc * 10 + ((t[i] - 48) as u128);
        i = i + 1;
        if acc > bound {
            proof {
                assert(d.subrange(0, d.len() as int) =~= d);
                lemma_digits_val_prefix(d, i - ds);
            }
            return CoordScan::Scanned(None, st);
        }
    }
    proof {
        assert(d.subrange(0, d.len() as int) =~= d);
    }
    if neg {
        if acc == bound {
            return CoordScan::Scanned(Some(isize::MIN), st);
        }
        CoordScan::Scanned(Some(-((acc as i128) as isize)), st)
    } else {
        if acc >= bound {
            return CoordScan::Scanned(None, st);
        }
        CoordScan::Scanned(Some(acc as isize), st)
    }
}

impl ExtendedFilename {
    /// Parses a region file name: it must end with `r.<x>.<z>.mca` and
    /// both coordinates must fit the machine's signed word.
    pub fn parse(s: &[u8]) -> (r: Result<ExtendedFilename, RegionNameError>)
        ensures
            match spec_parse_region_name(s@) {
                None => r == Err::<ExtendedFilename, RegionNameError>(RegionNameError::NoMatch),
                Some((x, z)) => {
                    if !(isize::MIN <= x <= isize::MAX) {
                        r == Err::<ExtendedFilename, RegionNameError>(RegionNameError::XRange)
                    } else if !(isize::MIN <= z <= isize::MAX) {
                        r == Err::<ExtendedFilename, RegionNameError>(RegionNameError::ZRange)
                    } else {
                        r is Ok && r->Ok_0.fname@ == s@ && r->Ok_0.x == x && r->Ok_0.z == z
                    }
                },
            },
    {
        let n = s.len();
        if n < 4 || !(s[n - 4] == 46 && s[n - 3] == 109 && s[n - 2] == 99 && s[n - 1] == 97) {
            proof {
                if s@.len() >= 4 {
                    let suf = s@.subrange(s@.len() - 4, s@.len() as int);
                    assert(suf[0] == s@[s@.len() - 4] && suf[1] == s@[s@.len() - 3] && suf[2]
                        == s@[s@.len() - 2] && suf[3] == s@[s@.len() - 1]);
                    if suf == seq![46u8, 109u8, 99u8, 97u8] {
                        assert(suf[0] == 46 && suf[1] == 109 && suf[2] == 99 && suf[3] == 97);
                    }
                }
            }
            return Err(RegionNameError::NoMatch);
        }
        proof {
            assert(s@.subrange(s@.len() - 4, s@.len() as int) =~= seq![46u8, 109u8, 99u8, 97u8]);
        }
        let t = &s[0..n - 4];
        let (zv, zs) = match coord_back_exec(t, n - 4) {
            CoordScan::Scanned(zv, zs) => (zv, zs),
            CoordScan::Missing => {
                return Err(RegionNameError::NoMatch);
            },
        };
        if !(zs > 0 && t[zs - 1] == 46) {
            return Err(RegionNameError::NoMatch);
        }
        let (xv, xs) = match coord_back_exec(t, zs - 1) {
            CoordScan::Scanned(xv, xs) => (xv, xs),
            CoordScan::Missing => {
                return Err(RegionNameError::NoMatch);
            },
        };
        if !(xs >= 2 && t[xs - 1] == 46 && t[xs - 2] == 114) {
            return Err(RegionNameError::NoMatch);
        }
        let x = match xv {
            Some(x) => x,
            None => {
                return Err(RegionNameError::XRange);
            },
        };
        let z = match zv {
            Some(z) => z,
            None => {
                return Err(RegionNameError::ZRange);
            },
        };
        let mut fname: Vec<u8> = Vec::new();
        let mut i: usize = 0;
        while i < n
            invariant
                i <= s@.len(),
                n == s@.len(),
                fname@ == s@.subrange(0, i as int),
            decreases n - i,
        {
            fname.push(s[i]);
            proof {
                assert(fname@ =~= s@.subrange(0, i + 1));
            }
            i = i + 1;
        }
        proof {
            assert(fname@ =~= s@);
        }
        Ok(ExtendedFilename { fname, x, z })
    }
}

/// The options a mount runs with: the region file, where to mount it,
/// and whether writing and automatic unmounting are wanted.
pub struct MountCmd {
    pub region_file: ExtendedFilename,
    pub mount_point: Vec<u8>,
    pub writable: bool,
    pub auto_unmount: bool,
}

} // verus!
