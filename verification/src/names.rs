//! The file-name codec: each chunk slot (x, z) is visible under the two
//! names `x<X>z<Z>.nbt` (payload) and `x<X>z<Z>.cmp` (selector text), with
//! the coordinates in decimal, one or two digits, no leading zero, and
//! both below 32.

use vstd::prelude::*;

use crate::codec::{
    all_digits, dec_u8, digits_val, find_byte, find_from, is_digit, lemma_dec_u8_props,
    lemma_find_from_props,
};

verus! {

/// Which of a slot's two files a name denotes.
#[derive(Clone, Copy, Debug, PartialEq, Eq, Structural)]
pub enum FileKind {
    Chunk,
    CompressionInfo,
}

/// The extension bytes of a kind: `.nbt` or `.cmp`.
pub open spec fn ext_bytes(k: FileKind) -> Seq<u8> {
    match k {
        FileKind::Chunk => seq![46u8, 110u8, 98u8, 116u8],
        FileKind::CompressionInfo => seq![46u8, 99u8, 109u8, 112u8],
    }
}

/// The name of slot (x, z)'s file of kind `k`.
pub open spec fn fname_bytes(x: u8, z: u8, k: FileKind) -> Seq<u8> {
    seq![120u8] + dec_u8(x) + seq![122u8] + dec_u8(z) + ext_bytes(k)
}

/// Splitting a name on its extension.
pub open spec fn spec_parse_extension(s: Seq<u8>) -> Option<(FileKind, Seq<u8>)> {
    if s.len() >= 4 && s.subrange(s.len() - 4, s.len() as int) == ext_bytes(FileKind::Chunk) {
        Some((FileKind::Chunk, s.subrange(0, s.len() - 4)))
    } else if s.len() >= 4 && s.subrange(s.len() - 4, s.len() as int) == ext_bytes(
        FileKind::CompressionInfo,
    ) {
        Some((FileKind::CompressionInfo, s.subrange(0, s.len() - 4)))
    } else {
        None
    }
}

/// A coordinate: one or two decimal digits, no leading zero on two.
pub open spec fn digits_ok(d: Seq<u8>) -> bool {
    1 <= d.len() <= 2 && all_digits(d) && (d.len() == 2 ==> d[0] != 48)
}

/// The coordinates in a name body `x<X>z<Z>`, split at the first `z`.
pub open spec fn spec_parse_coords(body: Seq<u8>) -> Option<(u8, u8)> {
    if body.len() > 0 && body[0] == 120 {
        match find_from(body, 122, 1) {
            Some(j) => {
                let dx = body.subrange(1, j);
                let dz = body.subrange(j + 1, body.len() as int);
                if digits_ok(dx) && digits_ok(dz) {
                    Some((digits_val(dx) as u8, digits_val(dz) as u8))
                } else {
                    None
                }
            },
            None => None,
        }
    } else {
        None
    }
}

/// What a directory name denotes, when it is well-formed throughout.
pub open spec fn spec_parse_name(s: Seq<u8>) -> Option<(u8, u8, FileKind)> {
    match spec_parse_extension(s) {
        Some((k, body)) => match spec_parse_coords(body) {
            Some((x, z)) => if x < 32 && z < 32 {
                Some((x, z, k))
            } else {
                None
            },
            None => None,
        },
        None => None,
    }
}

impl FileKind {
    /// Renders the name of slot (x, z)'s file of this kind.
    pub fn make_fname(self, x: u8, z: u8) -> (r: Vec<u8>)
        requires
            x < 32,
            z < 32,
        ensures
            r@ == fname_bytes(x, z, self),
    {
        let mut v: Vec<u8> = Vec::new();
        v.push(120);
        push_coord(&mut v, x);
        v.push(122);
        push_coord(&mut v, z);
        match self {
            FileKind::Chunk => {
                v.push(46);
                v.push(110);
                v.push(98);
                v.push(116);
            },
            FileKind::CompressionInfo => {
                v.push(46);
                v.push(99);
                v.push(109);
                v.push(112);
            },
        }
        proof {
            assert(v@ =~= fname_bytes(x, z, self));
        }
        v
    }

    /// Splits a name into its kind and the text before the extension.
    pub fn parse_extension(fname: &[u8]) -> (r: Option<(FileKind, &[u8])>)
        ensures
            match r {
                Some((k, body)) => spec_parse_extension(fname@) == Some((k, body@)),
                None => spec_parse_extension(fname@) is None,
            },
    {
        if fname.len() < 4 {
            return None;
        }
        let n = fname.len();
        let e0 = fname[n - 4];
        let e1 = fname[n - 3];
        let e2 = fname[n - 2];
        let e3 = fname[n - 1];
        if e0 == 46 && e1 == 110 && e2 == 98 && e3 == 116 {
            proof {
                assert(fname@.subrange(n - 4, n as int) =~= ext_bytes(FileKind::Chunk));
            }
            Some((FileKind::Chunk, &fname[0..n - 4]))
        } else if e0 == 46 && e1 == 99 && e2 == 109 && e3 == 112 {
            proof {
                let suf = fname@.subrange(n - 4, n as int);
                assert(suf =~= ext_bytes(FileKind::CompressionInfo));
                assert(suf[1] == 99 && ext_bytes(FileKind::Chunk)[1] == 110);
            }
            Some((FileKind::CompressionInfo, &fname[0..n - 4]))
        } else {
            proof {
                let suf = fname@.subrange(n - 4, n as int);
                assert(suf[0] == e0 && suf[1] == e1 && suf[2] == e2 && suf[3] == e3);
                if suf == ext_bytes(FileKind::Chunk) {
                    assert(e0 == 46 && e1 == 110 && e2 == 98 && e3 == 116);
                }
                if suf == ext_bytes(FileKind::CompressionInfo) {
                    assert(e0 == 46 && e1 == 99 && e2 == 109 && e3 == 112);
                }
            }
            None
        }
    }

    /// Whether this kind is the payload file, the one a slot is unlinked
    /// through.
    pub fn is_chunk(self) -> (r: bool)
        ensures
            r == (self is Chunk),
    {
        match self {
            FileKind::Chunk => true,
            _ => false,
        }
    }
}

/// Appends the decimal digits of a coordinate below 32.
fn push_coord(v: &mut Vec<u8>, n: u8)
    requires
        n < 32,
    ensures
        final(v)@ == old(v)@ + dec_u8(n),
{
    if n >= 10 {
        v.push(48 + n / 10);
        v.push(48 + n % 10);
        proof {
            assert(n / 10 < 10);
            assert(dec_u8(n) == dec_u8((n / 10) as u8).push((48 + n % 10) as u8));
            assert(dec_u8((n / 10) as u8) == seq![(48 + n / 10) as u8]);
            assert(v@ =~= old(v)@ + dec_u8(n));
        }
    } else {
        v.push(48 + n);
        proof {
            assert(v@ =~= old(v)@ + dec_u8(n));
        }
    }
}

/// A parsed directory name: a slot coordinate pair and which of its two
/// files is meant.
#[derive(Clone, Copy, Debug, PartialEq, Eq, Structural)]
pub struct FileKey {
    pub x: u8,
    pub z: u8,
    pub kind: FileKind,
}

impl FileKey {
    /// Parses a directory name, enforcing the strict digit rules.
    pub fn parse(name: &[u8]) -> (r: Option<FileKey>)
        ensures
            match r {
                Some(key) => spec_parse_name(name@) == Some((key.x, key.z, key.kind)) && key.x < 32
                    && key.z < 32,
                None => spec_parse_name(name@) is None,
            },
    {
        let (kind, body) = match FileKind::parse_extension(name) {
            Some(p) => p,
            None => {
                return None;
            },
        };
        if body.len() == 0 || body[0] != 120 {
            return None;
        }
        let j = match find_byte(body, 122, 1) {
            Some(j) => j,
            None => {
                return None;
            },
        };
        let x = match parse_coord(body, 1, j) {
            Some(x) => x,
            None => {
                return None;
            },
        };
        let z = match parse_coord(body, j + 1, body.len()) {
            Some(z) => z,
            None => {
                return None;
            },
        };
        if x < 32 && z < 32 {
            Some(FileKey { x, z, kind })
        } else {
            None
        }
    }
}

/// Reads the coordinate digits in `body[from..to)`, rejecting anything
/// but one or two digits without a leading zero.
fn parse_coord(body: &[u8], from: usize, to: usize) -> (r: Option<u8>)
    requires
        from <= to <= body@.len(),
    ensures
        match r {
            Some(n) => digits_ok(body@.subrange(from as int, to as int)) && n == digits_val(
                body@.subrange(from as int, to as int),
            ),
            None => !digits_ok(body@.subrange(from as int, to as int)),
        },
{
    let ghost d = body@.subrange(from as int, to as int);
    if to - from < 1 || to - from > 2 {
        return None;
    }
    let d0 = body[from];
    if !(48 <= d0 && d0 <= 57) {
        proof {
            assert(d[0] == d0);
            assert(!all_digits(d));
        }
        return None;
    }
    if to - from == 1 {
        proof {
            assert(d =~= seq![d0]);
            assert(d.drop_last() =~= Seq::<u8>::empty());
            assert(digits_val(Seq::<u8>::empty()) == 0);
            assert(d.last() == d0);
            assert(digits_val(d) == digits_val(d.drop_last()) * 10 + (d.last() - 48));
            assert(all_digits(d));
        }
        return Some(d0 - 48);
    }
    if d0 == 48 {
        proof {
            assert(d[0] == 48);
        }
        return None;
    }
    let d1 = body[from + 1];
    if !(48 <= d1 && d1 <= 57) {
        proof {
            assert(d[1] == d1);
            assert(!all_digits(d));
        }
        return None;
    }
    proof {
        assert(d.len() == 2 && d[0] == d0 && d[1] == d1);
        assert(d.drop_last() =~= seq![d0]);
        assert(seq![d0].drop_last() =~= Seq::<u8>::empty());
        assert(digits_val(Seq::<u8>::empty()) == 0);
        assert(digits_val(seq![d0]) == digits_val(seq![d0].drop_last()) * 10 + (seq![d0].last()
            - 48));
        assert(digits_val(d) == digits_val(d.drop_last()) * 10 + (d.last() - 48));
        assert(all_digits(d)) by {
            assert(forall|i: int| 0 <= i < 2 ==> #[trigger] d[i] == if i == 0 {
                d0
            } else {
                d1
            });
        }
    }
    Some((d0 - 48) * 10 + (d1 - 48))
}

/// The name codec round-trips: for coordinates below 32 and either kind,
/// parsing the rendered name yields the same slot and kind.
pub proof fn lemma_name_round_trip(x: u8, z: u8, k: FileKind)
    requires
        x < 32,
        z < 32,
    ensures
        spec_parse_name(fname_bytes(x, z, k)) == Some((x, z, k)),
{
    lemma_dec_u8_props(x);
    lemma_dec_u8_props(z);
    let s = fname_bytes(x, z, k);
    let body = seq![120u8] + dec_u8(x) + seq![122u8] + dec_u8(z);
    assert(s =~= body + ext_bytes(k));
    // the extension splits off
    assert(s.subrange(s.len() - 4, s.len() as int) =~= ext_bytes(k));
    assert(s.subrange(0, s.len() - 4) =~= body);
    match k {
        FileKind::Chunk => {},
        FileKind::CompressionInfo => {
            assert(ext_bytes(FileKind::CompressionInfo)[1] != ext_bytes(FileKind::Chunk)[1]);
        },
    }
    assert(spec_parse_extension(s) == Some((k, body)));
    // the first `z` after the head is the separator
    let j = 1 + dec_u8(x).len() as int;
    assert(body[j] == 122);
    assert(forall|i: int|
        1 <= i < j ==> #[trigger] body[i] == dec_u8(x)[i - 1] && is_digit(dec_u8(x)[i - 1]));
    lemma_find_from_props(body, 122, 1);
    assert(find_from(body, 122, 1) == Some(j)) by {
        match find_from(body, 122, 1) {
            Some(jj) => {
                if jj < j {
                    assert(body[jj] != 122);
                    assert(is_digit(body[jj]));
                }
                if jj > j {
                    assert(body[j] != 122);
                }
            },
            None => {
                assert(body[j] != 122);
            },
        }
    }
    // both digit groups obey the rules and carry their values
    let dx = body.subrange(1, j);
    let dz = body.subrange(j + 1, body.len() as int);
    assert(dx =~= dec_u8(x));
    assert(dz =~= dec_u8(z));
    lemma_two_digit_head(x);
    lemma_two_digit_head(z);
    assert(digits_ok(dx) && digits_ok(dz));
}

/// A two-digit coordinate never starts with a zero digit.
proof fn lemma_two_digit_head(n: u8)
    requires
        n < 100,
    ensures
        dec_u8(n).len() == 2 ==> dec_u8(n)[0] != 48,
{
    lemma_dec_u8_props(n);
    if n >= 10 {
        assert(dec_u8(n) == dec_u8((n / 10) as u8).push((48 + n % 10) as u8));
        assert(n / 10 < 10);
        assert(dec_u8((n / 10) as u8) == seq![(48 + n / 10) as u8]);
        assert(dec_u8(n)[0] == 48 + n / 10);
        assert(n / 10 >= 1);
    }
}

} // verus!
