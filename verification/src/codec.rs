//! The compression-type codec: the numeric ids stored in a chunk's payload
//! and the one-line textual selector that presents them.
//!
//! The selector line has the form `gzip zlib none [lz4] zstd unknown(#)\n`,
//! with square brackets marking the active codec; an active unknown codec
//! shows its id in place of `#`. The parser accepts, after ASCII
//! case-folding and trimming: a bare codec name, `unknown(<u8>)`, a bare
//! integer that fits in a `u8`, or, failing those, the text between the
//! first `[` and the next `]`, once more through the same grammar.

use vstd::prelude::*;

verus! {

/// A chunk's compression codec. Ids 1 to 4 and 53 are known; any other id
/// is carried as `Unknown`.
#[derive(Clone, Copy, Debug, PartialEq, Eq, Structural)]
pub enum CompressionType {
    GZip,
    Zlib,
    NoCompression,
    LZ4,
    Zstd,
    Unknown(u8),
}

impl CompressionType {
    /// The codec a stored id byte denotes.
    pub open spec fn decode_spec(id: u8) -> CompressionType {
        if id == 1 {
            CompressionType::GZip
        } else if id == 2 {
            CompressionType::Zlib
        } else if id == 3 {
            CompressionType::NoCompression
        } else if id == 4 {
            CompressionType::LZ4
        } else if id == 53 {
            CompressionType::Zstd
        } else {
            CompressionType::Unknown(id)
        }
    }

    /// The id byte a codec is stored as.
    pub open spec fn encode_spec(self) -> u8 {
        match self {
            CompressionType::GZip => 1,
            CompressionType::Zlib => 2,
            CompressionType::NoCompression => 3,
            CompressionType::LZ4 => 4,
            CompressionType::Zstd => 53,
            CompressionType::Unknown(id) => id,
        }
    }

    /// A codec read back from a stored id is in this form: `Unknown` never
    /// hides a known id.
    pub open spec fn canonical(self) -> bool {
        match self {
            CompressionType::Unknown(id) => Self::decode_spec(id) == CompressionType::Unknown(id),
            _ => true,
        }
    }

    pub fn decode(id: u8) -> (r: Self)
        ensures
            r == Self::decode_spec(id),
            r.canonical(),
    {
        match id {
            1 => Self::GZip,
            2 => Self::Zlib,
            3 => Self::NoCompression,
            4 => Self::LZ4,
            53 => Self::Zstd,
            _ => Self::Unknown(id),
        }
    }

    pub fn encode(&self) -> (r: u8)
        ensures
            r == self.encode_spec(),
    {
        match self {
            Self::GZip => 1,
            Self::Zlib => 2,
            Self::NoCompression => 3,
            Self::LZ4 => 4,
            Self::Zstd => 53,
            Self::Unknown(id) => *id,
        }
    }
}

/// The decimal digits of `n`, most significant first.
pub open spec fn dec_u8(n: u8) -> Seq<u8>
    decreases n,
{
    if n < 10 {
        seq![(48 + n) as u8]
    } else {
        dec_u8((n / 10) as u8).push((48 + n % 10) as u8)
    }
}

pub open spec fn b_gzip() -> Seq<u8> {
    seq![103u8, 122u8, 105u8, 112u8]
}

pub open spec fn b_zlib() -> Seq<u8> {
    seq![122u8, 108u8, 105u8, 98u8]
}

pub open spec fn b_none() -> Seq<u8> {
    seq![110u8, 111u8, 110u8, 101u8]
}

pub open spec fn b_lz4() -> Seq<u8> {
    seq![108u8, 122u8, 52u8]
}

pub open spec fn b_zstd() -> Seq<u8> {
    seq![122u8, 115u8, 116u8, 100u8]
}

/// The bytes of `unknown(`.
pub open spec fn b_unknown_open() -> Seq<u8> {
    seq![117u8, 110u8, 107u8, 110u8, 111u8, 119u8, 110u8, 40u8]
}

/// The bytes of `unknown(#)`.
pub open spec fn b_unknown_hash() -> Seq<u8> {
    b_unknown_open() + seq![35u8, 41u8]
}

/// The bytes of `unknown(<id>)`.
pub open spec fn b_unknown_of(id: u8) -> Seq<u8> {
    b_unknown_open() + dec_u8(id) + seq![41u8]
}

/// `s` wrapped in square brackets when it is the active entry.
pub open spec fn bracketed(s: Seq<u8>, active: bool) -> Seq<u8> {
    if active {
        seq![91u8] + s + seq![93u8]
    } else {
        s
    }
}

/// The selector line for `ct`, newline included.
pub open spec fn selector_line(ct: CompressionType) -> Seq<u8> {
    bracketed(b_gzip(), ct is GZip) + seq![32u8] + bracketed(b_zlib(), ct is Zlib) + seq![32u8]
        + bracketed(b_none(), ct is NoCompression) + seq![32u8] + bracketed(b_lz4(), ct is LZ4)
        + seq![32u8] + bracketed(b_zstd(), ct is Zstd) + seq![32u8] + (match ct {
        CompressionType::Unknown(id) => bracketed(b_unknown_of(id), true),
        _ => b_unknown_hash(),
    }) + seq![10u8]
}

/// Appends the decimal digits of `n`.
fn push_dec_u8(v: &mut Vec<u8>, n: u8)
    ensures
        final(v)@ == old(v)@ + dec_u8(n),
{
    if n >= 100 {
        v.push(48 + n / 100);
        v.push(48 + (n / 10) % 10);
        v.push(48 + n % 10);
        proof {
            assert((n / 10) / 10 == n / 100) by (nonlinear_arith);
            assert(n / 10 >= 10);
            assert(dec_u8(n) == dec_u8((n / 10) as u8).push((48 + n % 10) as u8));
            assert(dec_u8((n / 10) as u8) == dec_u8((n / 100) as u8).push(
                (48 + (n / 10) % 10) as u8,
            ));
            assert(n / 100 < 10);
            assert(v@ =~= old(v)@ + dec_u8(n));
        }
    } else if n >= 10 {
        v.push(48 + n / 10);
        v.push(48 + n % 10);
        proof {
            assert(n / 10 < 10);
            assert(dec_u8(n) == dec_u8((n / 10) as u8).push((48 + n % 10) as u8));
            assert(dec_u8((n / 10) as u8) == seq![(48 + n / 10) as u8]);
            assert(v@ =~= old(v)@ + dec_u8(n));
        }
    } else {
        v.push(48 + n);
        proof {
            assert(v@ =~= old(v)@ + dec_u8(n));
        }
    }
}

/// Appends one entry of the selector line, bracketed when active:
/// `which` picks gzip, zlib, none, lz4 or zstd in that order.
fn push_label(v: &mut Vec<u8>, which: u8, active: bool)
    requires
        which < 5,
    ensures
        final(v)@ == old(v)@ + bracketed(
            if which == 0 {
                b_gzip()
            } else if which == 1 {
                b_zlib()
            } else if which == 2 {
                b_none()
            } else if which == 3 {
                b_lz4()
            } else {
                b_zstd()
            },
            active,
        ),
{
    if active {
        v.push(91);
    }
    if which == 0 {
        v.push(103);
        v.push(122);
        v.push(105);
        v.push(112);
    } else if which == 1 {
        v.push(122);
        v.push(108);
        v.push(105);
        v.push(98);
    } else if which == 2 {
        v.push(110);
        v.push(111);
        v.push(110);
        v.push(101);
    } else if which == 3 {
        v.push(108);
        v.push(122);
        v.push(52);
    } else {
        v.push(122);
        v.push(115);
        v.push(116);
        v.push(100);
    }
    if active {
        v.push(93);
    }
    proof {
        let lbl = if which == 0 {
            b_gzip()
        } else if which == 1 {
            b_zlib()
        } else if which == 2 {
            b_none()
        } else if which == 3 {
            b_lz4()
        } else {
            b_zstd()
        };
        assert(v@ =~= old(v)@ + bracketed(lbl, active));
    }
}

/// Appends `unknown(`.
fn push_unknown_open(v: &mut Vec<u8>)
    ensures
        final(v)@ == old(v)@ + b_unknown_open(),
{
    v.push(117);
    v.push(110);
    v.push(107);
    v.push(110);
    v.push(111);
    v.push(119);
    v.push(110);
    v.push(40);
    proof {
        assert(v@ =~= old(v)@ + b_unknown_open());
    }
}

impl CompressionType {
    /// Renders the selector line for this codec, newline included.
    pub fn make_selector_string(&self) -> (r: Vec<u8>)
        ensures
            r@ == selector_line(*self),
    {
        let mut v: Vec<u8> = Vec::new();
        push_label(&mut v, 0, matches!(self, Self::GZip));
        v.push(32);
        push_label(&mut v, 1, matches!(self, Self::Zlib));
        v.push(32);
        push_label(&mut v, 2, matches!(self, Self::NoCompression));
        v.push(32);
        push_label(&mut v, 3, matches!(self, Self::LZ4));
        v.push(32);
        push_label(&mut v, 4, matches!(self, Self::Zstd));
        v.push(32);
        match self {
            Self::Unknown(id) => {
                v.push(91);
                push_unknown_open(&mut v);
                push_dec_u8(&mut v, *id);
                v.push(41);
                v.push(93);
            },
            _ => {
                push_unknown_open(&mut v);
                v.push(35);
                v.push(41);
            },
        }
        v.push(10);
        proof {
            assert(v@ =~= selector_line(*self));
        }
        v
    }
}

/// ASCII case-folding of one byte.
pub open spec fn lower_byte(b: u8) -> u8 {
    if 65 <= b <= 90 {
        (b + 32) as u8
    } else {
        b
    }
}

/// ASCII case-folding of a byte sequence.
pub open spec fn spec_lower(s: Seq<u8>) -> Seq<u8> {
    s.map_values(|b: u8| lower_byte(b))
}

/// ASCII whitespace: space, tab, and the control bytes 10 to 13.
pub open spec fn is_ws(b: u8) -> bool {
    b == 32 || (9 <= b <= 13)
}

/// `s` with leading and trailing whitespace removed.
pub open spec fn trim_spec(s: Seq<u8>) -> Seq<u8>
    decreases s.len(),
{
    if s.len() > 0 && is_ws(s[0]) {
        trim_spec(s.drop_first())
    } else if s.len() > 0 && is_ws(s.last()) {
        trim_spec(s.drop_last())
    } else {
        s
    }
}

pub open spec fn is_digit(b: u8) -> bool {
    48 <= b <= 57
}

pub open spec fn all_digits(s: Seq<u8>) -> bool {
    forall|i: int| 0 <= i < s.len() ==> is_digit(#[trigger] s[i])
}

/// The number a sequence of decimal digits denotes.
pub open spec fn digits_val(s: Seq<u8>) -> int
    decreases s.len(),
{
    if s.len() == 0 {
        0
    } else {
        digits_val(s.drop_last()) * 10 + (s.last() - 48)
    }
}

/// What `str::parse::<u8>` accepts: an optional `+`, then one or more
/// decimal digits whose value fits in a `u8`.
pub open spec fn spec_parse_u8(s: Seq<u8>) -> Option<u8> {
    let body = if s.len() > 0 && s[0] == 43 {
        s.drop_first()
    } else {
        s
    };
    if body.len() > 0 && all_digits(body) && digits_val(body) <= 255 {
        Some(digits_val(body) as u8)
    } else {
        None
    }
}

/// The first index at or after `i` holding `b`, if any.
pub open spec fn find_from(s: Seq<u8>, b: u8, i: int) -> Option<int>
    decreases s.len() - i when 0 <= i <= s.len()
{
    if i >= s.len() {
        None
    } else if s[i] == b {
        Some(i)
    } else {
        find_from(s, b, i + 1)
    }
}

proof fn lemma_trim_len(s: Seq<u8>)
    ensures
        trim_spec(s).len() <= s.len(),
    decreases s.len(),
{
    if s.len() > 0 && is_ws(s[0]) {
        lemma_trim_len(s.drop_first());
    } else if s.len() > 0 && is_ws(s.last()) {
        lemma_trim_len(s.drop_last());
    }
}

proof fn lemma_trim_all_ws(s: Seq<u8>)
    requires
        forall|i: int| 0 <= i < s.len() ==> is_ws(#[trigger] s[i]),
    ensures
        trim_spec(s) == Seq::<u8>::empty(),
    decreases s.len(),
{
    if s.len() > 0 {
        lemma_trim_all_ws(s.drop_first());
    } else {
        assert(s =~= Seq::<u8>::empty());
    }
}

/// Trimming removes exactly the whitespace outside `[a, b)` when that
/// range is flanked by whitespace and itself starts and ends with none.
proof fn lemma_trim_between(s: Seq<u8>, a: int, b: int)
    requires
        0 <= a <= b <= s.len(),
        forall|i: int| 0 <= i < a ==> is_ws(#[trigger] s[i]),
        forall|i: int| b <= i < s.len() ==> is_ws(#[trigger] s[i]),
        a < b ==> !is_ws(s[a]) && !is_ws(s[b - 1]),
    ensures
        trim_spec(s) == s.subrange(a, b),
    decreases s.len(),
{
    if a == b {
        lemma_trim_all_ws(s);
        assert(s.subrange(a, b) =~= Seq::<u8>::empty());
    } else if is_ws(s[0]) {
        assert(a > 0);
        lemma_trim_between(s.drop_first(), a - 1, b - 1);
        assert(s.drop_first().subrange(a - 1, b - 1) =~= s.subrange(a, b));
    } else if is_ws(s.last()) {
        assert(b < s.len());
        lemma_trim_between(s.drop_last(), a, b);
        assert(s.drop_last().subrange(a, b) =~= s.subrange(a, b));
    } else {
        assert(a == 0);
        assert(b == s.len());
        assert(s.subrange(a, b) =~= s);
    }
}

proof fn lemma_digits_val_nonneg(s: Seq<u8>)
    requires
        all_digits(s),
    ensures
        digits_val(s) >= 0,
    decreases s.len(),
{
    if s.len() > 0 {
        assert(all_digits(s.drop_last())) by {
            assert(forall|i: int|
                0 <= i < s.len() - 1 ==> #[trigger] s.drop_last()[i] == s[i]);
        }
        lemma_digits_val_nonneg(s.drop_last());
    }
}

/// The value of a digit string grows, or stays, as digits are appended.
pub(crate) proof fn lemma_digits_val_prefix(s: Seq<u8>, k: int)
    requires
        all_digits(s),
        0 <= k <= s.len(),
    ensures
        digits_val(s) >= digits_val(s.subrange(0, k)),
    decreases s.len() - k,
{
    if k == s.len() {
        assert(s.subrange(0, k) =~= s);
    } else {
        lemma_digits_val_prefix(s, k + 1);
        let p = s.subrange(0, k + 1);
        assert(all_digits(p)) by {
            assert(forall|i: int| 0 <= i < p.len() ==> #[trigger] p[i] == s[i]);
        }
        assert(p.drop_last() =~= s.subrange(0, k));
        lemma_digits_val_nonneg(p.drop_last());
        assert(digits_val(p) == digits_val(p.drop_last()) * 10 + (p.last() - 48));
        assert(digits_val(p.drop_last()) * 10 >= digits_val(p.drop_last())) by (nonlinear_arith)
            requires digits_val(p.drop_last()) >= 0;
    }
}

pub(crate) proof fn lemma_find_from_props(s: Seq<u8>, b: u8, i: int)
    requires
        0 <= i <= s.len(),
    ensures
        match find_from(s, b, i) {
            Some(j) => i <= j < s.len() && s[j] == b && forall|k: int| i <= k < j ==> s[k] != b,
            None => forall|k: int| i <= k < s.len() ==> s[k] != b,
        },
    decreases s.len() - i,
{
    if i < s.len() && s[i] != b {
        lemma_find_from_props(s, b, i + 1);
    }
}

/// What the selector parser accepts, over the bytes it is given.
pub open spec fn spec_parse_selector(s: Seq<u8>) -> Option<CompressionType>
    decreases s.len(),
    via spec_parse_selector_decreases
{
    let t = trim_spec(spec_lower(s));
    if t == b_gzip() {
        Some(CompressionType::GZip)
    } else if t == b_zlib() {
        Some(CompressionType::Zlib)
    } else if t == b_none() {
        Some(CompressionType::NoCompression)
    } else if t == b_lz4() {
        Some(CompressionType::LZ4)
    } else if t == b_zstd() {
        Some(CompressionType::Zstd)
    } else {
        let u = if t.len() >= 9 && t.subrange(0, 8) == b_unknown_open() && t.last() == 41 {
            t.subrange(8, t.len() - 1)
        } else {
            t
        };
        match spec_parse_u8(u) {
            Some(n) => Some(CompressionType::decode_spec(n)),
            None => match find_from(t, 91, 0) {
                Some(lb) => match find_from(t, 93, lb + 1) {
                    Some(rb) => if rb > lb + 1 {
                        spec_parse_selector(t.subrange(lb + 1, rb))
                    } else {
                        None
                    },
                    None => None,
                },
                None => None,
            },

        }
    }
}

#[via_fn]
proof fn spec_parse_selector_decreases(s: Seq<u8>) {
    let t = trim_spec(spec_lower(s));
    lemma_trim_len(spec_lower(s));
    lemma_find_from_props(t, 91, 0);
    if let Some(lb) = find_from(t, 91, 0) {
        lemma_find_from_props(t, 93, lb + 1);
    }
}

/// The bytes that appear inside a selector entry: lowercase letters,
/// digits, and the punctuation of `unknown(#)`.
pub open spec fn sel_byte(b: u8) -> bool {
    (97 <= b <= 122) || (48 <= b <= 57) || b == 40 || b == 41 || b == 35
}

pub open spec fn all_sel(s: Seq<u8>) -> bool {
    forall|i: int| 0 <= i < s.len() ==> sel_byte(#[trigger] s[i])
}

/// A byte of the selector line before its newline: an entry byte, a
/// space, or a bracket.
pub open spec fn line_byte(b: u8) -> bool {
    sel_byte(b) || b == 32 || b == 91 || b == 93
}

pub open spec fn all_line(s: Seq<u8>) -> bool {
    forall|i: int| 0 <= i < s.len() ==> line_byte(#[trigger] s[i])
}

proof fn lemma_label_bytes()
    ensures
        all_sel(b_gzip()),
        all_sel(b_zlib()),
        all_sel(b_none()),
        all_sel(b_lz4()),
        all_sel(b_zstd()),
        all_sel(b_unknown_open()),
        all_sel(b_unknown_hash()),
{
    assert forall|i: int| 0 <= i < b_gzip().len() implies sel_byte(#[trigger] b_gzip()[i]) by {}
    assert forall|i: int| 0 <= i < b_zlib().len() implies sel_byte(#[trigger] b_zlib()[i]) by {}
    assert forall|i: int| 0 <= i < b_none().len() implies sel_byte(#[trigger] b_none()[i]) by {}
    assert forall|i: int| 0 <= i < b_lz4().len() implies sel_byte(#[trigger] b_lz4()[i]) by {}
    assert forall|i: int| 0 <= i < b_zstd().len() implies sel_byte(#[trigger] b_zstd()[i]) by {}
    assert forall|i: int|
        0 <= i < b_unknown_open().len() implies sel_byte(#[trigger] b_unknown_open()[i]) by {}
    assert forall|i: int|
        0 <= i < b_unknown_hash().len() implies sel_byte(#[trigger] b_unknown_hash()[i]) by {}
}

pub(crate) proof fn lemma_dec_u8_props(n: u8)
    ensures
        all_digits(dec_u8(n)),
        digits_val(dec_u8(n)) == n,
        dec_u8(n).len() == if n < 10 {
            1int
        } else if n < 100 {
            2int
        } else {
            3int
        },
    decreases n,
{
    if n < 10 {
        assert(digits_val(dec_u8(n)) == digits_val(dec_u8(n).drop_last()) * 10 + (dec_u8(n).last()
            - 48));
        assert(dec_u8(n).drop_last() =~= Seq::<u8>::empty());
    } else {
        lemma_dec_u8_props((n / 10) as u8);
        let d = dec_u8(n);
        assert(d == dec_u8((n / 10) as u8).push((48 + n % 10) as u8));
        assert(d.drop_last() =~= dec_u8((n / 10) as u8));
        assert(digits_val(d) == digits_val(d.drop_last()) * 10 + (d.last() - 48));
        assert((n / 10) * 10 + n % 10 == n);
        assert forall|i: int| 0 <= i < d.len() implies is_digit(#[trigger] d[i]) by {
            if i < d.len() - 1 {
                assert(d[i] == dec_u8((n / 10) as u8)[i]);
            }
        }
    }
}

/// Trimming and case-folding leave a bracket-free, space-free selector
/// entry as it stands.
proof fn lemma_sel_id(mid: Seq<u8>)
    requires
        all_sel(mid),
    ensures
        trim_spec(spec_lower(mid)) == mid,
{
    assert(spec_lower(mid) =~= mid);
    lemma_trim_between(mid, 0, mid.len() as int);
    assert(mid.subrange(0, mid.len() as int) =~= mid);
}

/// A selector line body flanked by its newline trims back to the body.
proof fn lemma_line_trim(t: Seq<u8>)
    requires
        all_line(t),
        t.len() > 0,
        !is_ws(t[0]),
        !is_ws(t.last()),
    ensures
        trim_spec(spec_lower(t + seq![10u8])) == t,
{
    let s = t + seq![10u8];
    assert(spec_lower(s) =~= s);
    lemma_trim_between(s, 0, t.len() as int);
    assert(s.subrange(0, t.len() as int) =~= t);
}

/// A byte of the text before the opening bracket: an entry byte or a
/// space.
pub open spec fn all_selsp(s: Seq<u8>) -> bool {
    forall|i: int| 0 <= i < s.len() ==> sel_byte(#[trigger] s[i]) || s[i] == 32
}

broadcast proof fn lemma_all_line_concat(a: Seq<u8>, b: Seq<u8>)
    ensures
        all_line(a) && all_line(b) ==> #[trigger] all_line(a + b),
{
    if all_line(a) && all_line(b) {
        assert forall|i: int| 0 <= i < (a + b).len() implies line_byte(#[trigger] (a + b)[i]) by {
            if i < a.len() {
                assert((a + b)[i] == a[i]);
            } else {
                assert((a + b)[i] == b[i - a.len()]);
            }
        }
    }
}

broadcast proof fn lemma_all_selsp_concat(a: Seq<u8>, b: Seq<u8>)
    ensures
        all_selsp(a) && all_selsp(b) ==> #[trigger] all_selsp(a + b),
{
    if all_selsp(a) && all_selsp(b) {
        assert forall|i: int|
            0 <= i < (a + b).len() implies sel_byte(#[trigger] (a + b)[i]) || (a + b)[i] == 32 by {
            if i < a.len() {
                assert((a + b)[i] == a[i]);
            } else {
                assert((a + b)[i] == b[i - a.len()]);
            }
        }
    }
}

broadcast proof fn lemma_all_sel_concat(a: Seq<u8>, b: Seq<u8>)
    ensures
        all_sel(a) && all_sel(b) ==> #[trigger] all_sel(a + b),
{
    if all_sel(a) && all_sel(b) {
        assert forall|i: int| 0 <= i < (a + b).len() implies sel_byte(#[trigger] (a + b)[i]) by {
            if i < a.len() {
                assert((a + b)[i] == a[i]);
            } else {
                assert((a + b)[i] == b[i - a.len()]);
            }
        }
    }
}

broadcast proof fn lemma_all_selsp_line(s: Seq<u8>)
    ensures
        all_selsp(s) ==> #[trigger] all_line(s),
{
}

broadcast proof fn lemma_all_sel_line(s: Seq<u8>)
    ensures
        all_sel(s) ==> #[trigger] all_line(s),
{
}

broadcast proof fn lemma_all_sel_selsp(s: Seq<u8>)
    ensures
        all_sel(s) ==> #[trigger] all_selsp(s),
{
}

/// Parsing a line `pre [mid] post` falls through to the bracketed entry:
/// the direct branches all fail and the parser recurses into `mid`.
proof fn lemma_parse_framed(s: Seq<u8>, pre: Seq<u8>, mid: Seq<u8>, post: Seq<u8>)
    requires
        trim_spec(spec_lower(s)) == pre + seq![91u8] + mid + seq![93u8] + post,
        all_sel(mid),
        all_selsp(pre),
        all_line(post),
        mid.len() > 0,
        pre.len() > 0 ==> pre[0] == 103,
        (pre + seq![91u8] + mid + seq![93u8] + post).len() > 4,
    ensures
        spec_parse_selector(s) == spec_parse_selector(mid),
{
    let t = pre + seq![91u8] + mid + seq![93u8] + post;
    let lb = pre.len() as int;
    let rb = pre.len() + 1 + mid.len();
    assert(t[lb] == 91);
    assert(t[rb as int] == 93);
    assert(t[0] == if pre.len() > 0 {
        pre[0]
    } else {
        91u8
    });
    // the five name branches fail on length
    assert(t.len() != 4 && t.len() != 3);
    // the unknown(...) strip does not apply: the first byte is `g` or `[`
    if t.len() >= 9 && t.subrange(0, 8) == b_unknown_open() && t.last() == 41 {
        assert(t[0] == t.subrange(0, 8)[0]);
        assert(b_unknown_open()[0] == 117);
        assert(false);
    }
    // a bare number fails: the first byte is neither `+` nor a digit
    assert(t[0] != 43 && !is_digit(t[0]));
    assert(spec_parse_u8(t) is None);
    // the first `[` is at the end of `pre`
    lemma_find_from_props(t, 91, 0);
    assert(forall|k: int| 0 <= k < lb ==> #[trigger] t[k] != 91);
    let flb = find_from(t, 91, 0);
    assert(flb is Some) by {
        if flb is None {
            assert(t[lb] != 91);
        }
    }
    assert(flb == Some(lb)) by {
        let j = flb->0;
        if j < lb {
            assert(t[j] != 91);
        }
        if j > lb {
            assert(t[lb] != 91);
        }
    }
    // the next `]` closes the entry
    lemma_find_from_props(t, 93, lb + 1);
    assert(forall|k: int| lb + 1 <= k < rb ==> #[trigger] t[k] != 93) by {
        assert(forall|k: int| 0 <= k < mid.len() ==> #[trigger] mid[k] != 93);
        assert(forall|k: int| lb + 1 <= k < rb ==> t[k] == mid[k - lb - 1]);
    }
    let frb = find_from(t, 93, lb + 1);
    assert(frb is Some) by {
        if frb is None {
            assert(t[rb as int] != 93);
        }
    }
    assert(frb == Some(rb as int)) by {
        let j = frb->0;
        if j < rb {
            assert(t[j] != 93);
        }
        if j > rb {
            assert(t[rb as int] != 93);
        }
    }
    assert(t.subrange(lb + 1, rb as int) =~= mid);
}

fn ws(b: u8) -> (r: bool)
    ensures
        r == is_ws(b),
{
    b == 32 || (9 <= b && b <= 13)
}

fn lower_vec(s: &[u8]) -> (r: Vec<u8>)
    ensures
        r@ == spec_lower(s@),
{
    let mut r: Vec<u8> = Vec::new();
    let mut i: usize = 0;
    while i < s.len()
        invariant
            i <= s@.len(),
            r@.len() == i,
            forall|k: int| 0 <= k < i ==> r@[k] == lower_byte(s@[k]),
        decreases s@.len() - i,
    {
        let b = s[i];
        if 65 <= b && b <= 90 {
            r.push(b + 32);
        } else {
            r.push(b);
        }
        i = i + 1;
    }
    proof {
        assert(r@ =~= spec_lower(s@));
    }
    r
}

fn parse_u8_bytes(t: &[u8]) -> (r: Option<u8>)
    ensures
        r == spec_parse_u8(t@),
{
    let start: usize = if t.len() > 0 && t[0] == 43 {
        1
    } else {
        0
    };
    let ghost body = if start == 1 {
        t@.drop_first()
    } else {
        t@
    };
    proof {
        assert(forall|k: int| 0 <= k < body.len() ==> body[k] == t@[k + start]);
    }
    if t.len() == start {
        return None;
    }
    let mut acc: u32 = 0;
    let mut i: usize = start;
    while i < t.len()
        invariant
            start <= i <= t@.len(),
            start <= 1,
            body == (if t@.len() > 0 && t@[0] == 43 {
                t@.drop_first()
            } else {
                t@
            }),
            (start == 1) == (t@.len() > 0 && t@[0] == 43),
            body.len() == t@.len() - start,
            forall|k: int| 0 <= k < body.len() ==> body[k] == t@[k + start],
            forall|k: int| start <= k < i ==> is_digit(t@[k]),
            acc == digits_val(body.subrange(0, i - start)),
            acc <= 255,
        decreases t@.len() - i,
    {
        let c = t[i];
        if !(48 <= c && c <= 57) {
            proof {
                assert(body[i - start] == t@[i as int]);
                assert(!is_digit(body[i - start]));
                assert(!all_digits(body));
            }
            return None;
        }
        proof {
            let p = body.subrange(0, i + 1 - start);
            assert(p.drop_last() =~= body.subrange(0, i - start));
            assert(p.last() == body[i - start]);
            assert(body[i - start] == t@[i as int]);
            assert(digits_val(p) == digits_val(body.subrange(0, i - start)) * 10 + (t@[i as int]
                - 48));
        }
        acc = acc * 10 + ((c - 48) as u32);
        i = i + 1;
        if acc > 255 {
            proof {
                assert(acc == digits_val(body.subrange(0, i - start)));
                if all_digits(body) {
                    lemma_digits_val_prefix(body, i - start);
                    assert(digits_val(body) > 255);
                }
                assert(spec_parse_u8(t@) is None);
            }
            return None;
        }
    }
    proof {
        assert(body.subrange(0, body.len() as int) =~= body);
        assert(all_digits(body));
    }
    Some(acc as u8)
}

pub(crate) fn find_byte(t: &[u8], b: u8, from: usize) -> (r: Option<usize>)
    requires
        from <= t@.len(),
    ensures
        match r {
            Some(j) => find_from(t@, b, from as int) == Some(j as int) && from <= j < t@.len(),
            None => find_from(t@, b, from as int) is None,
        },
{
    let mut i: usize = from;
    while i < t.len()
        invariant
            from <= i <= t@.len(),
            find_from(t@, b, from as int) == find_from(t@, b, i as int),
        decreases t@.len() - i,
    {
        if t[i] == b {
            return Some(i);
        }
        i = i + 1;
    }
    None
}

impl CompressionType {
    /// Parses a selector: after ASCII case-folding and trimming, a bare
    /// codec name, `unknown(<u8>)`, a bare integer that fits in a `u8`, or
    /// the text between the first `[` and the next `]`, tried once more.
    pub fn parse_selector_string(selector: &[u8]) -> (r: Option<CompressionType>)
        ensures
            r == spec_parse_selector(selector@),
        decreases selector@.len(),
    {
        let low = lower_vec(selector);
        let mut a: usize = 0;
        while a < low.len() && ws(low[a])
            invariant
                a <= low@.len(),
                forall|k: int| 0 <= k < a ==> is_ws(#[trigger] low@[k]),
            decreases low@.len() - a,
        {
            a = a + 1;
        }
        let mut b: usize = low.len();
        while b > a && ws(low[b - 1])
            invariant
                a <= b <= low@.len(),
                forall|k: int| b <= k < low@.len() ==> is_ws(#[trigger] low@[k]),
            decreases b,
        {
            b = b - 1;
        }
        proof {
            lemma_trim_between(low@, a as int, b as int);
        }
        let t = &low[a..b];
        let ghost ts = trim_spec(spec_lower(selector@));
        proof {
            assert(t@ == ts);
        }
        if t.len() == 4 && t[0] == 103 && t[1] == 122 && t[2] == 105 && t[3] == 112 {
            proof {
                assert(ts =~= b_gzip());
            }
            return Some(CompressionType::GZip);
        }
        if t.len() == 4 && t[0] == 122 && t[1] == 108 && t[2] == 105 && t[3] == 98 {
            proof {
                assert(ts =~= b_zlib());
            }
            return Some(CompressionType::Zlib);
        }
        if t.len() == 4 && t[0] == 110 && t[1] == 111 && t[2] == 110 && t[3] == 101 {
            proof {
                assert(ts =~= b_none());
            }
            return Some(CompressionType::NoCompression);
        }
        if t.len() == 3 && t[0] == 108 && t[1] == 122 && t[2] == 52 {
            proof {
                assert(ts =~= b_lz4());
            }
            return Some(CompressionType::LZ4);
        }
        if t.len() == 4 && t[0] == 122 && t[1] == 115 && t[2] == 116 && t[3] == 100 {
            proof {
                assert(ts =~= b_zstd());
            }
            return Some(CompressionType::Zstd);
        }
        proof {
            assert(ts != b_gzip() && ts != b_zlib() && ts != b_none() && ts != b_lz4() && ts
                != b_zstd()) by {
                if ts == b_gzip() {
                    assert(ts.len() == 4 && ts[0] == 103 && ts[1] == 122 && ts[2] == 105 && ts[3]
                        == 112);
                }
                if ts == b_zlib() {
                    assert(ts.len() == 4 && ts[0] == 122 && ts[1] == 108 && ts[2] == 105 && ts[3]
                        == 98);
                }
                if ts == b_none() {
                    assert(ts.len() == 4 && ts[0] == 110 && ts[1] == 111 && ts[2] == 110 && ts[3]
                        == 101);
                }
                if ts == b_lz4() {
                    assert(ts.len() == 3 && ts[0] == 108 && ts[1] == 122 && ts[2] == 52);
                }
                if ts == b_zstd() {
                    assert(ts.len() == 4 && ts[0] == 122 && ts[1] == 115 && ts[2] == 116 && ts[3]
                        == 100);
                }
            }
        }
        let stripped: bool = t.len() >= 9 && t[0] == 117 && t[1] == 110 && t[2] == 107 && t[3]
            == 110 && t[4] == 111 && t[5] == 119 && t[6] == 110 && t[7] == 40 && t[t.len() - 1]
            == 41;
        proof {
            if stripped {
                assert(ts.subrange(0, 8) =~= b_unknown_open());
            } else if ts.len() >= 9 && ts.last() == 41 {
                if ts.subrange(0, 8) == b_unknown_open() {
                    assert(ts[0] == 117 && ts[1] == 110 && ts[2] == 107 && ts[3] == 110 && ts[4]
                        == 111 && ts[5] == 119 && ts[6] == 110 && ts[7] == 40) by {
                        assert(forall|k: int|
                            0 <= k < 8 ==> ts.subrange(0, 8)[k] == #[trigger] ts[k]);
                    }
                }
            }
        }
        let parsed: Option<u8> = if stripped {
            let u = &t[8..t.len() - 1];
            proof {
                assert(u@ == ts.subrange(8, ts.len() - 1));
            }
            parse_u8_bytes(u)
        } else {
            parse_u8_bytes(t)
        };
        if let Some(n) = parsed {
            return Some(CompressionType::decode(n));
        }
        let lb = match find_byte(t, 91, 0) {
            Some(lb) => lb,
            None => {
                return None;
            },
        };
        let rb = match find_byte(t, 93, lb + 1) {
            Some(rb) => rb,
            None => {
                return None;
            },
        };
        if rb > lb + 1 {
            let inner = &t[lb + 1..rb];
            proof {
                assert(inner@ == ts.subrange(lb + 1, rb as int));
                lemma_trim_len(spec_lower(selector@));
            }
            Self::parse_selector_string(inner)
        } else {
            None
        }
    }
}

/// One selector line whose active entry is `mid` parses as `mid` alone
/// does: the rest of the line is scaffolding around the brackets.
proof fn lemma_parse_line_case(ct: CompressionType, pre: Seq<u8>, mid: Seq<u8>, post: Seq<u8>)
    requires
        selector_line(ct) == pre + seq![91u8] + mid + seq![93u8] + post + seq![10u8],
        all_sel(mid),
        all_selsp(pre),
        all_line(post),
        mid.len() >= 3,
        pre.len() > 0 ==> pre[0] == 103,
        post.len() > 0 ==> !is_ws(post.last()),
    ensures
        spec_parse_selector(selector_line(ct)) == spec_parse_selector(mid),
{
    broadcast use
        lemma_all_line_concat,
        lemma_all_sel_line,
        lemma_all_selsp_line,
    ;

    let t = pre + seq![91u8] + mid + seq![93u8] + post;
    assert(all_line(seq![91u8])) by {
        assert forall|i: int| 0 <= i < seq![91u8].len() implies line_byte(#[trigger] seq![91u8][i])
        by {
            assert(seq![91u8][0] == 91);
        }
    }
    assert(all_line(seq![93u8])) by {
        assert forall|i: int| 0 <= i < seq![93u8].len() implies line_byte(#[trigger] seq![93u8][i])
        by {
            assert(seq![93u8][0] == 93);
        }
    }
    assert(all_line(t));
    assert(t[0] == if pre.len() > 0 {
        pre[0]
    } else {
        91u8
    });
    assert(!is_ws(t[0]));
    assert(t.len() == pre.len() + 1 + mid.len() + 1 + post.len());
    if post.len() > 0 {
        assert(t.last() == post.last());
    } else {
        assert(t.last() == 93);
    }
    assert(!is_ws(t.last()));
    lemma_line_trim(t);
    assert(selector_line(ct) =~= t + seq![10u8]);
    lemma_parse_framed(selector_line(ct), pre, mid, post);
}

/// A bare `unknown(<id>)` entry parses through the numeric branch.
proof fn lemma_parse_unknown_mid(id: u8)
    ensures
        spec_parse_selector(b_unknown_of(id)) == Some(CompressionType::decode_spec(id)),
{
    broadcast use lemma_all_sel_concat;

    lemma_label_bytes();
    lemma_dec_u8_props(id);
    let d = dec_u8(id);
    assert(all_sel(d)) by {
        assert forall|i: int| 0 <= i < d.len() implies sel_byte(#[trigger] d[i]) by {
            assert(is_digit(d[i]));
        }
    }
    assert(all_sel(seq![41u8])) by {
        assert forall|i: int| 0 <= i < seq![41u8].len() implies sel_byte(#[trigger] seq![41u8][i])
        by {
            assert(seq![41u8][0] == 41);
        }
    }
    let mid = b_unknown_of(id);
    assert(all_sel(mid));
    lemma_sel_id(mid);
    assert(mid.len() == 9 + d.len());
    assert(mid.subrange(0, 8) =~= b_unknown_open());
    assert(mid.last() == 41);
    let u = mid.subrange(8, mid.len() - 1);
    assert(u =~= d);
    assert(is_digit(d[0]));
    assert(u[0] != 43);
    assert(spec_parse_u8(u) == Some(id));
}

/// The selector codec round-trips: the rendered line of any canonical
/// codec parses back to that codec. (A non-canonical `Unknown` hiding a
/// known id renders the same digits and parses back to the known codec.)
#[verifier::rlimit(100)]
#[verifier::spinoff_prover]
pub proof fn lemma_selector_round_trip(ct: CompressionType)
    requires
        ct.canonical(),
    ensures
        spec_parse_selector(selector_line(ct)) == Some(ct),
{
    broadcast use
        lemma_all_line_concat,
        lemma_all_sel_concat,
        lemma_all_selsp_concat,
        lemma_all_sel_line,
        lemma_all_sel_selsp,
        lemma_all_selsp_line,
    ;

    lemma_label_bytes();
    let sp = seq![32u8];
    assert(all_selsp(sp)) by {
        assert forall|i: int| 0 <= i < sp.len() implies sel_byte(#[trigger] sp[i]) || sp[i] == 32
        by {
            assert(sp[0] == 32);
        }
    }
    match ct {
        CompressionType::GZip => {
            let pre = Seq::<u8>::empty();
            let mid = b_gzip();
            let post = sp + b_zlib() + sp + b_none() + sp + b_lz4() + sp + b_zstd() + sp
                + b_unknown_hash();
            assert(post.last() == 41);
            assert(selector_line(ct) =~= pre + seq![91u8] + mid + seq![93u8] + post + seq![10u8]);
            lemma_parse_line_case(ct, pre, mid, post);
            lemma_sel_id(mid);
        },
        CompressionType::Zlib => {
            let pre = b_gzip() + sp;
            let mid = b_zlib();
            let post = sp + b_none() + sp + b_lz4() + sp + b_zstd() + sp + b_unknown_hash();
            assert(post.last() == 41);
            assert(pre[0] == 103);
            assert(selector_line(ct) =~= pre + seq![91u8] + mid + seq![93u8] + post + seq![10u8]);
            lemma_parse_line_case(ct, pre, mid, post);
            lemma_sel_id(mid);
        },
        CompressionType::NoCompression => {
            let pre = b_gzip() + sp + b_zlib() + sp;
            let mid = b_none();
            let post = sp + b_lz4() + sp + b_zstd() + sp + b_unknown_hash();
            assert(post.last() == 41);
            assert(pre[0] == 103);
            assert(selector_line(ct) =~= pre + seq![91u8] + mid + seq![93u8] + post + seq![10u8]);
            lemma_parse_line_case(ct, pre, mid, post);
            lemma_sel_id(mid);
        },
        CompressionType::LZ4 => {
            let pre = b_gzip() + sp + b_zlib() + sp + b_none() + sp;
            let mid = b_lz4();
            let post = sp + b_zstd() + sp + b_unknown_hash();
            assert(post.last() == 41);
            assert(pre[0] == 103);
            assert(selector_line(ct) =~= pre + seq![91u8] + mid + seq![93u8] + post + seq![10u8]);
            lemma_parse_line_case(ct, pre, mid, post);
            lemma_sel_id(mid);
        },
        CompressionType::Zstd => {
            let pre = b_gzip() + sp + b_zlib() + sp + b_none() + sp + b_lz4() + sp;
            let mid = b_zstd();
            let post = sp + b_unknown_hash();
            assert(post.last() == 41);
            assert(pre[0] == 103);
            assert(selector_line(ct) =~= pre + seq![91u8] + mid + seq![93u8] + post + seq![10u8]);
            lemma_parse_line_case(ct, pre, mid, post);
            lemma_sel_id(mid);
        },
        CompressionType::Unknown(id) => {
            let pre = b_gzip() + sp + b_zlib() + sp + b_none() + sp + b_lz4() + sp + b_zstd() + sp;
            let mid = b_unknown_of(id);
            let post = Seq::<u8>::empty();
            lemma_dec_u8_props(id);
            assert(all_sel(dec_u8(id))) by {
                assert forall|i: int|
                    0 <= i < dec_u8(id).len() implies sel_byte(#[trigger] dec_u8(id)[i]) by {
                    assert(is_digit(dec_u8(id)[i]));
                }
            }
            assert(all_sel(seq![41u8])) by {
                assert forall|i: int|
                    0 <= i < seq![41u8].len() implies sel_byte(#[trigger] seq![41u8][i]) by {
                    assert(seq![41u8][0] == 41);
                }
            }
            assert(pre[0] == 103);
            assert(selector_line(ct) =~= pre + seq![91u8] + mid + seq![93u8] + post + seq![10u8]);
            lemma_parse_line_case(ct, pre, mid, post);
            lemma_parse_unknown_mid(id);
        },
    }
}

} // verus!
