//! Vendor attribute descriptors and the preset expression parser.
//!
//! One preset expression has the shape `id,format[,name[,drivetype]]`:
//! a decimal attribute id between 1 and 255, a render format telling how the
//! six raw bytes of the attribute row are reinterpreted, an optional display
//! name, and an optional `HDD`/`SSD` tag restricting the descriptor to one
//! kind of medium. The format is one or more codes joined by `+`, each code
//! consuming part of the raw payload in order, optionally followed by
//! `:` and byte-order tags (`v`, `w`) naming which of the normalized value
//! and worst bytes are folded into the raw payload rather than standing
//! alone.
//!
//! As in the database parser, the grammar is stated once as spec functions
//! and the executable parser is proved to agree with them.

use vstd::prelude::*;
use crate::Error;

verus! {

pub const COMMA: u8 = 44;
pub const COLON: u8 = 58;
pub const PLUS: u8 = 43;
pub const TAG_V: u8 = 118;
pub const TAG_W: u8 = 119;

/// Kind of medium a descriptor is restricted to.
#[derive(Debug, Clone, Copy, PartialEq, Eq, Structural)]
pub enum Type {
    HDD,
    SSD,
}

/// One render format code; a render spec is an ordered sequence of these.
#[derive(Debug, Clone, Copy, PartialEq, Eq, Structural)]
pub enum FormatCode {
    /// One byte, kept as is.
    Raw8,
    /// Two bytes as a little-endian 16-bit counter.
    Raw16,
    /// Three bytes as a little-endian 24-bit counter.
    Raw24,
    /// Four bytes as a little-endian 32-bit counter.
    Raw32,
    /// The whole six-byte payload as a little-endian 48-bit counter.
    Raw48,
    /// Eight bytes (six raw plus the folded worst and value bytes) as a
    /// little-endian 64-bit counter.
    Raw64,
    /// Like `Raw48`, displayed in hexadecimal.
    Hex48,
    /// 48-bit counter of seconds.
    Sec2Hour,
    /// 48-bit counter of minutes.
    Min2Hour,
    /// Current, minimum and maximum temperature bytes.
    TempMinMax,
    /// 16-bit temperature in tenths of a degree.
    Temp10x,
}

/// How many payload bytes a format code consumes.
pub open spec fn width(c: FormatCode) -> int {
    match c {
        FormatCode::Raw8 => 1,
        FormatCode::Raw16 => 2,
        FormatCode::Raw24 => 3,
        FormatCode::Raw32 => 4,
        FormatCode::Raw48 => 6,
        FormatCode::Raw64 => 8,
        FormatCode::Hex48 => 6,
        FormatCode::Sec2Hour => 6,
        FormatCode::Min2Hour => 6,
        FormatCode::TempMinMax => 6,
        FormatCode::Temp10x => 2,
    }
}

/// Codes that may be combined into a multi-part render spec.
pub open spec fn is_plain(c: FormatCode) -> bool {
    c is Raw8 || c is Raw16 || c is Raw24 || c is Raw32
}

pub open spec fn widths_sum(s: Seq<FormatCode>) -> int
    decreases s.len(),
{
    if s.len() == 0 {
        0
    } else {
        widths_sum(s.drop_last()) + width(s.last())
    }
}

pub proof fn lemma_widths_sum_bounds(s: Seq<FormatCode>)
    ensures
        s.len() <= widths_sum(s) <= 8 * s.len(),
    decreases s.len(),
{
    if s.len() > 0 {
        lemma_widths_sum_bounds(s.drop_last());
    }
}

/// One vendor attribute rendering rule.
#[derive(Debug)]
pub struct Attribute {
    /// Attribute id, 1 to 255; 0 never names a valid descriptor.
    pub id: u8,
    /// Display name overriding the generic one, if given.
    pub name: Option<Vec<u8>>,
    /// Ordered render spec for the raw payload.
    pub format: Vec<FormatCode>,
    /// Byte-order tags: which of the value (`v`) and worst (`w`) bytes are
    /// folded into the raw payload.
    pub byte_order: Vec<u8>,
    /// Restriction to rotating or non-rotating media, if any.
    pub drivetype: Option<Type>,
}

/// Mathematical value of an [`Attribute`].
pub struct AttributeView {
    pub id: u8,
    pub name: Option<Seq<u8>>,
    pub format: Seq<FormatCode>,
    pub byte_order: Seq<u8>,
    pub drivetype: Option<Type>,
}

impl View for Attribute {
    type V = AttributeView;

    open spec fn view(&self) -> AttributeView {
        AttributeView {
            id: self.id,
            name: match self.name {
                Some(n) => Some(n@),
                None => None,
            },
            format: self.format@,
            byte_order: self.byte_order@,
            drivetype: self.drivetype,
        }
    }
}

pub open spec fn attrs_view(s: Seq<Attribute>) -> Seq<AttributeView> {
    s.map_values(|a: Attribute| a@)
}

pub open spec fn is_blank(b: u8) -> bool {
    b == 32 || b == 9
}

/// First index in `[i, hi)` holding `d`, or `hi`.
pub open spec fn find_in(s: Seq<u8>, i: int, hi: int, d: u8) -> int
    decreases hi - i,
{
    if i < 0 || i >= hi || i >= s.len() {
        hi
    } else if s[i] == d {
        i
    } else {
        find_in(s, i + 1, hi, d)
    }
}

pub proof fn lemma_find_in_bounds(s: Seq<u8>, i: int, hi: int, d: u8)
    requires
        0 <= i <= hi,
    ensures
        i <= find_in(s, i, hi, d) <= hi,
    decreases hi - i,
{
    if i < hi && i < s.len() && s[i] != d {
        lemma_find_in_bounds(s, i + 1, hi, d);
    }
}

/// First non-blank index in the window `[lo, hi)`, or `hi`.
pub open spec fn trim_lo(s: Seq<u8>, lo: int, hi: int) -> int
    decreases hi - lo,
{
    if lo < 0 || lo >= hi || lo >= s.len() {
        hi
    } else if is_blank(s[lo]) {
        trim_lo(s, lo + 1, hi)
    } else {
        lo
    }
}

/// End of the window `[lo, hi)` with trailing blanks removed.
pub open spec fn trim_hi(s: Seq<u8>, lo: int, hi: int) -> int
    decreases hi - lo,
{
    if hi <= lo || hi < 1 || hi > s.len() {
        lo
    } else if is_blank(s[hi - 1]) {
        trim_hi(s, lo, hi - 1)
    } else {
        hi
    }
}

pub open spec fn all_digits(s: Seq<u8>, lo: int, hi: int) -> bool {
    forall|k: int| lo <= k < hi ==> 48 <= #[trigger] s[k] <= 57
}

/// Decimal value of the digit window `[lo, hi)`.
pub open spec fn digits_val(s: Seq<u8>, lo: int, hi: int) -> int
    decreases hi - lo,
{
    if hi <= lo {
        0
    } else {
        digits_val(s, lo, hi - 1) * 10 + (s[hi - 1] - 48)
    }
}

/// Format code named by the token in the window `[lo, hi)`.
pub open spec fn code_of(s: Seq<u8>, lo: int, hi: int) -> Option<FormatCode> {
    let n = hi - lo;
    if n == 4 && s[lo] == 114 && s[lo + 1] == 97 && s[lo + 2] == 119 && s[lo + 3] == 56 {
        // "raw8"
        Some(FormatCode::Raw8)
    } else if n == 5 && s[lo] == 114 && s[lo + 1] == 97 && s[lo + 2] == 119 {
        // "raw16" | "raw24" | "raw32" | "raw48" | "raw64"
        if s[lo + 3] == 49 && s[lo + 4] == 54 {
            Some(FormatCode::Raw16)
        } else if s[lo + 3] == 50 && s[lo + 4] == 52 {
            Some(FormatCode::Raw24)
        } else if s[lo + 3] == 51 && s[lo + 4] == 50 {
            Some(FormatCode::Raw32)
        } else if s[lo + 3] == 52 && s[lo + 4] == 56 {
            Some(FormatCode::Raw48)
        } else if s[lo + 3] == 54 && s[lo + 4] == 52 {
            Some(FormatCode::Raw64)
        } else {
            None
        }
    } else if n == 5 && s[lo] == 104 && s[lo + 1] == 101 && s[lo + 2] == 120 && s[lo + 3] == 52
        && s[lo + 4] == 56 {
        // "hex48"
        Some(FormatCode::Hex48)
    } else if n == 8 && s[lo] == 115 && s[lo + 1] == 101 && s[lo + 2] == 99 && s[lo + 3] == 50
        && s[lo + 4] == 104 && s[lo + 5] == 111 && s[lo + 6] == 117 && s[lo + 7] == 114 {
        // "sec2hour"
        Some(FormatCode::Sec2Hour)
    } else if n == 8 && s[lo] == 109 && s[lo + 1] == 105 && s[lo + 2] == 110 && s[lo + 3] == 50
        && s[lo + 4] == 104 && s[lo + 5] == 111 && s[lo + 6] == 117 && s[lo + 7] == 114 {
        // "min2hour"
        Some(FormatCode::Min2Hour)
    } else if n == 10 && s[lo] == 116 && s[lo + 1] == 101 && s[lo + 2] == 109 && s[lo + 3] == 112
        && s[lo + 4] == 109 && s[lo + 5] == 105 && s[lo + 6] == 110 && s[lo + 7] == 109 && s[lo
        + 8] == 97 && s[lo + 9] == 120 {
        // "tempminmax"
        Some(FormatCode::TempMinMax)
    } else if n == 7 && s[lo] == 116 && s[lo + 1] == 101 && s[lo + 2] == 109 && s[lo + 3] == 112
        && s[lo + 4] == 49 && s[lo + 5] == 48 && s[lo + 6] == 120 {
        // "temp10x"
        Some(FormatCode::Temp10x)
    } else {
        None
    }
}

/// The `+`-joined code list in the window `[lo, hi)`.
pub open spec fn parse_codes(s: Seq<u8>, lo: int, hi: int) -> Option<Seq<FormatCode>>
    decreases hi - lo,
        via parse_codes_dec
{
    if lo < 0 || lo > hi {
        None
    } else {
        let p = find_in(s, lo, hi, PLUS);
        let c = code_of(s, trim_lo(s, lo, p), trim_hi(s, trim_lo(s, lo, p), p));
        match c {
            None => None,
            Some(c) => if p >= hi {
                Some(seq![c])
            } else {
                match parse_codes(s, p + 1, hi) {
                    Some(r) => Some(seq![c] + r),
                    None => None,
                }
            },
        }
    }
}

#[via_fn]
proof fn parse_codes_dec(s: Seq<u8>, lo: int, hi: int) {
    if 0 <= lo <= hi {
        lemma_find_in_bounds(s, lo, hi, PLUS);
    }
}

/// Byte-order tags must name each of the value and worst bytes at most
/// once.
pub open spec fn tags_ok(s: Seq<u8>, lo: int, hi: int) -> bool {
    let n = hi - lo;
    0 <= n <= 2 && (forall|k: int| lo <= k < hi ==> #[trigger] s[k] == TAG_V || s[k] == TAG_W)
        && (n == 2 ==> s[lo] != s[lo + 1])
}

/// A render spec is valid when it is a single code, or several plain
/// numeric codes, fitting into the payload that the byte-order tags allow.
pub open spec fn codes_ok(codes: Seq<FormatCode>, tags_len: int) -> bool {
    codes.len() >= 1 && (codes.len() == 1 || (forall|k: int|
        0 <= k < codes.len() ==> is_plain(#[trigger] codes[k]))) && widths_sum(codes) <= 6
        + tags_len
}

/// Default byte-order tags of a render spec given without explicit tags:
/// the 64-bit formats fold both the value and worst bytes, everything else
/// folds none.
pub open spec fn default_tags(codes: Seq<FormatCode>) -> Seq<u8> {
    if codes == seq![FormatCode::Raw64] {
        seq![TAG_V, TAG_W]
    } else {
        Seq::empty()
    }
}

/// The format field in the window `[lo, hi)`: codes, then optional `:` and
/// byte-order tags.
pub open spec fn parse_format(s: Seq<u8>, lo: int, hi: int) -> Option<(Seq<FormatCode>, Seq<u8>)> {
    let colon = find_in(s, lo, hi, COLON);
    match parse_codes(s, lo, colon) {
        None => None,
        Some(codes) => {
            let tags = if colon >= hi {
                Some(default_tags(codes))
            } else {
                let tl = trim_lo(s, colon + 1, hi);
                let th = trim_hi(s, tl, hi);
                if tags_ok(s, tl, th) {
                    Some(s.subrange(tl, th))
                } else {
                    None
                }
            };
            match tags {
                None => None,
                Some(tags) => if codes_ok(codes, tags.len() as int) {
                    Some((codes, tags))
                } else {
                    None
                },
            }
        },
    }
}

/// Whole preset expression: `id,format[,name[,drivetype]]`.
pub open spec fn spec_parse_descriptor(s: Seq<u8>) -> Option<AttributeView> {
    let n = s.len() as int;
    let c1 = find_in(s, 0, n, COMMA);
    if c1 >= n {
        None
    } else {
        let il = trim_lo(s, 0, c1);
        let ih = trim_hi(s, il, c1);
        if !(1 <= ih - il <= 3 && all_digits(s, il, ih) && 1 <= digits_val(s, il, ih) <= 255) {
            None
        } else {
            let c2 = find_in(s, c1 + 1, n, COMMA);
            let fl = trim_lo(s, c1 + 1, c2);
            let fh = trim_hi(s, fl, c2);
            match parse_format(s, fl, fh) {
                None => None,
                Some((codes, tags)) => {
                    if c2 >= n {
                        Some(
                            AttributeView {
                                id: digits_val(s, il, ih) as u8,
                                name: None,
                                format: codes,
                                byte_order: tags,
                                drivetype: None,
                            },
                        )
                    } else {
                        let c3 = find_in(s, c2 + 1, n, COMMA);
                        let nl = trim_lo(s, c2 + 1, c3);
                        let nh = trim_hi(s, nl, c3);
                        let name = if nl < nh {
                            Some(s.subrange(nl, nh))
                        } else {
                            None
                        };
                        if c3 >= n {
                            Some(
                                AttributeView {
                                    id: digits_val(s, il, ih) as u8,
                                    name,
                                    format: codes,
                                    byte_order: tags,
                                    drivetype: None,
                                },
                            )
                        } else if find_in(s, c3 + 1, n, COMMA) < n {
                            None
                        } else {
                            let dl = trim_lo(s, c3 + 1, n);
                            let dh = trim_hi(s, dl, n);
                            let dt = if dh - dl == 3 && s[dl] == 72 && s[dl + 1] == 68 && s[dl + 2]
                                == 68 {
                                // "HDD"
                                Some(Type::HDD)
                            } else if dh - dl == 3 && s[dl] == 83 && s[dl + 1] == 83 && s[dl + 2]
                                == 68 {
                                // "SSD"
                                Some(Type::SSD)
                            } else {
                                None
                            };
                            match dt {
                                None => None,
                                Some(dt) => Some(
                                    AttributeView {
                                        id: digits_val(s, il, ih) as u8,
                                        name,
                                        format: codes,
                                        byte_order: tags,
                                        drivetype: Some(dt),
                                    },
                                ),
                            }
                        }
                    }
                },
            }
        }
    }
}

pub(crate) fn lex_find(s: &[u8], i: usize, hi: usize, d: u8) -> (r: usize)
    requires
        i <= hi <= s@.len(),
    ensures
        r == find_in(s@, i as int, hi as int, d),
        i <= r <= hi,
    decreases hi - i,
{
    if i >= hi {
        hi
    } else if s[i] == d {
        i
    } else {
        lex_find(s, i + 1, hi, d)
    }
}

fn lex_trim_lo(s: &[u8], lo: usize, hi: usize) -> (r: usize)
    requires
        lo <= hi <= s@.len(),
    ensures
        r == trim_lo(s@, lo as int, hi as int),
        lo <= r <= hi,
    decreases hi - lo,
{
    if lo >= hi {
        hi
    } else if s[lo] == 32 || s[lo] == 9 {
        lex_trim_lo(s, lo + 1, hi)
    } else {
        lo
    }
}

fn lex_trim_hi(s: &[u8], lo: usize, hi: usize) -> (r: usize)
    requires
        lo <= hi <= s@.len(),
    ensures
        r == trim_hi(s@, lo as int, hi as int),
        lo <= r <= hi,
    decreases hi - lo,
{
    if hi <= lo {
        lo
    } else if s[hi - 1] == 32 || s[hi - 1] == 9 {
        lex_trim_hi(s, lo, hi - 1)
    } else {
        hi
    }
}

pub(crate) fn subvec(s: &[u8], lo: usize, hi: usize) -> (r: Vec<u8>)
    requires
        lo <= hi <= s@.len(),
    ensures
        r@ == s@.subrange(lo as int, hi as int),
{
    let mut out: Vec<u8> = Vec::new();
    let mut k = lo;
    while k < hi
        invariant
            lo <= k <= hi <= s@.len(),
            out@ == s@.subrange(lo as int, k as int),
        decreases hi - k,
    {
        out.push(s[k]);
        proof {
            assert(s@.subrange(lo as int, k + 1 as int) =~= s@.subrange(lo as int, k as int).push(
                s@[k as int],
            ));
        }
        k = k + 1;
    }
    out
}

proof fn lemma_digits_val_bound(s: Seq<u8>, lo: int, hi: int)
    requires
        lo <= hi,
        all_digits(s, lo, hi),
    ensures
        0 <= digits_val(s, lo, hi),
        hi - lo <= 1 ==> digits_val(s, lo, hi) < 10,
        hi - lo <= 2 ==> digits_val(s, lo, hi) < 100,
        hi - lo <= 3 ==> digits_val(s, lo, hi) < 1000,
    decreases hi - lo,
{
    if hi > lo {
        lemma_digits_val_bound(s, lo, hi - 1);
    }
}

fn lex_id(s: &[u8], lo: usize, hi: usize) -> (r: Option<u8>)
    requires
        lo <= hi <= s@.len(),
    ensures
        r matches Some(v) ==> 1 <= hi - lo <= 3 && all_digits(s@, lo as int, hi as int) && 1
            <= digits_val(s@, lo as int, hi as int) <= 255 && v == digits_val(
            s@,
            lo as int,
            hi as int,
        ),
        r is None ==> !(1 <= hi - lo <= 3 && all_digits(s@, lo as int, hi as int) && 1
            <= digits_val(s@, lo as int, hi as int) <= 255),
{
    let n = hi - lo;
    if n < 1 || n > 3 {
        return None;
    }
    let mut val: u32 = 0;
    let mut k = lo;
    while k < hi
        invariant
            lo <= k <= hi <= s@.len(),
            hi - lo <= 3,
            all_digits(s@, lo as int, k as int),
            val == digits_val(s@, lo as int, k as int),
            val <= 999,
        decreases hi - k,
    {
        let b = s[k];
        if b < 48 || b > 57 {
            return None;
        }
        proof {
            lemma_digits_val_bound(s@, lo as int, k as int);
        }
        val = val * 10 + (b - 48) as u32;
        k = k + 1;
    }
    if val < 1 || val > 255 {
        return None;
    }
    Some(val as u8)
}

fn lex_code(s: &[u8], lo: usize, hi: usize) -> (r: Option<FormatCode>)
    requires
        lo <= hi <= s@.len(),
    ensures
        r == code_of(s@, lo as int, hi as int),
{
    let n = hi - lo;
    if n == 4 && s[lo] == 114 && s[lo + 1] == 97 && s[lo + 2] == 119 && s[lo + 3] == 56 {
        Some(FormatCode::Raw8)
    } else if n == 5 && s[lo] == 114 && s[lo + 1] == 97 && s[lo + 2] == 119 {
        if s[lo + 3] == 49 && s[lo + 4] == 54 {
            Some(FormatCode::Raw16)
        } else if s[lo + 3] == 50 && s[lo + 4] == 52 {
            Some(FormatCode::Raw24)
        } else if s[lo + 3] == 51 && s[lo + 4] == 50 {
            Some(FormatCode::Raw32)
        } else if s[lo + 3] == 52 && s[lo + 4] == 56 {
            Some(FormatCode::Raw48)
        } else if s[lo + 3] == 54 && s[lo + 4] == 52 {
            Some(FormatCode::Raw64)
        } else {
            None
        }
    } else if n == 5 && s[lo] == 104 && s[lo + 1] == 101 && s[lo + 2] == 120 && s[lo + 3] == 52
        && s[lo + 4] == 56 {
        Some(FormatCode::Hex48)
    } else if n == 8 && s[lo] == 115 && s[lo + 1] == 101 && s[lo + 2] == 99 && s[lo + 3] == 50 && s[
        lo + 4] == 104 && s[lo + 5] == 111 && s[lo + 6] == 117 && s[lo + 7] == 114 {
        Some(FormatCode::Sec2Hour)
    } else if n == 8 && s[lo] == 109 && s[lo + 1] == 105 && s[lo + 2] == 110 && s[lo + 3] == 50
        && s[lo + 4] == 104 && s[lo + 5] == 111 && s[lo + 6] == 117 && s[lo + 7] == 114 {
        Some(FormatCode::Min2Hour)
    } else if n == 10 && s[lo] == 116 && s[lo + 1] == 101 && s[lo + 2] == 109 && s[lo + 3] == 112
        && s[lo + 4] == 109 && s[lo + 5] == 105 && s[lo + 6] == 110 && s[lo + 7] == 109 && s[lo + 8]
        == 97 && s[lo + 9] == 120 {
        Some(FormatCode::TempMinMax)
    } else if n == 7 && s[lo] == 116 && s[lo + 1] == 101 && s[lo + 2] == 109 && s[lo + 3] == 112
        && s[lo + 4] == 49 && s[lo + 5] == 48 && s[lo + 6] == 120 {
        Some(FormatCode::Temp10x)
    } else {
        None
    }
}

fn lex_codes(s: &[u8], lo: usize, hi: usize) -> (r: Option<Vec<FormatCode>>)
    requires
        lo <= hi <= s@.len(),
    ensures
        r matches Some(v) ==> parse_codes(s@, lo as int, hi as int) == Some(v@),
        r is None ==> parse_codes(s@, lo as int, hi as int) is None,
    decreases hi - lo,
{
    let p = lex_find(s, lo, hi, PLUS);
    let tl = lex_trim_lo(s, lo, p);
    let th = lex_trim_hi(s, tl, p);
    match lex_code(s, tl, th) {
        None => None,
        Some(c) => {
            if p >= hi {
                let mut v: Vec<FormatCode> = Vec::new();
                v.push(c);
                proof {
                    assert(v@ =~= seq![c]);
                }
                Some(v)
            } else {
                match lex_codes(s, p + 1, hi) {
                    None => None,
                    Some(mut rest) => {
                        let ghost r0 = rest@;
                        rest.insert(0, c);
                        proof {
                            assert(rest@ =~= seq![c] + r0);
                        }
                        Some(rest)
                    },
                }
            }
        },
    }
}

pub(crate) fn code_width(c: FormatCode) -> (r: u8)
    ensures
        r == width(c),
{
    match c {
        FormatCode::Raw8 => 1,
        FormatCode::Raw16 => 2,
        FormatCode::Raw24 => 3,
        FormatCode::Raw32 => 4,
        FormatCode::Raw48 => 6,
        FormatCode::Raw64 => 8,
        FormatCode::Hex48 => 6,
        FormatCode::Sec2Hour => 6,
        FormatCode::Min2Hour => 6,
        FormatCode::TempMinMax => 6,
        FormatCode::Temp10x => 2,
    }
}

pub proof fn lemma_widths_sum_take_le(s: Seq<FormatCode>, j: int)
    requires
        0 <= j <= s.len(),
    ensures
        widths_sum(s.take(j)) <= widths_sum(s),
    decreases s.len(),
{
    if j < s.len() {
        lemma_widths_sum_take_le(s.drop_last(), j);
        assert(s.drop_last().take(j) =~= s.take(j));
        lemma_widths_sum_bounds(s.drop_last());
    } else {
        assert(s.take(j) =~= s);
    }
}

fn check_codes(codes: &Vec<FormatCode>, tags_len: usize) -> (r: bool)
    requires
        tags_len <= 2,
    ensures
        r == codes_ok(codes@, tags_len as int),
{
    if codes.len() == 0 {
        return false;
    }
    let mut sum: u32 = 0;
    let mut all_plain = true;
    let mut i: usize = 0;
    while i < codes.len()
        invariant
            tags_len <= 2,
            0 <= i <= codes@.len(),
            sum == widths_sum(codes@.take(i as int)),
            sum <= 8,
            all_plain == (forall|k: int| 0 <= k < i ==> is_plain(#[trigger] codes@[k])),
        decreases codes@.len() - i,
    {
        let w = code_width(codes[i]);
        proof {
            assert(codes@.take(i + 1 as int).drop_last() =~= codes@.take(i as int));
        }
        if sum + (w as u32) > 8 {
            proof {
                assert(codes@.take(i + 1 as int).last() == codes@[i as int]);
                assert(widths_sum(codes@.take(i + 1 as int)) == sum + w);
                lemma_widths_sum_take_le(codes@, i + 1 as int);
                assert(widths_sum(codes@) > 8);
                assert(6 + (tags_len as int) <= 8);
                assert(!codes_ok(codes@, tags_len as int));
            }
            return false;
        }
        sum = sum + (w as u32);
        let plain = match codes[i] {
            FormatCode::Raw8 => true,
            FormatCode::Raw16 => true,
            FormatCode::Raw24 => true,
            FormatCode::Raw32 => true,
            _ => false,
        };
        all_plain = all_plain && plain;
        i = i + 1;
    }
    proof {
        assert(codes@.take(i as int) =~= codes@);
    }
    (codes.len() == 1 || all_plain) && sum <= 6 + (tags_len as u32)
}

fn lex_format(s: &[u8], lo: usize, hi: usize) -> (r: Option<(Vec<FormatCode>, Vec<u8>)>)
    requires
        lo <= hi <= s@.len(),
    ensures
        r matches Some((c, t)) ==> parse_format(s@, lo as int, hi as int) == Some((c@, t@)),
        r is None ==> parse_format(s@, lo as int, hi as int) is None,
{
    let colon = lex_find(s, lo, hi, COLON);
    let codes = match lex_codes(s, lo, colon) {
        None => {
            return None;
        },
        Some(c) => c,
    };
    let tags: Vec<u8>;
    if colon >= hi {
        let mut t: Vec<u8> = Vec::new();
        let one_raw64 = codes.len() == 1 && match codes[0] {
            FormatCode::Raw64 => true,
            _ => false,
        };
        if one_raw64 {
            t.push(TAG_V);
            t.push(TAG_W);
            proof {
                assert(codes@ =~= seq![FormatCode::Raw64]);
                assert(t@ =~= seq![TAG_V, TAG_W]);
            }
        } else {
            proof {
                assert(codes@ != seq![FormatCode::Raw64]) by {
                    if codes@ == seq![FormatCode::Raw64] {
                        assert(codes@[0] == FormatCode::Raw64);
                    }
                }
                assert(t@ =~= Seq::<u8>::empty());
            }
        }
        tags = t;
    } else {
        let tl = lex_trim_lo(s, colon + 1, hi);
        let th = lex_trim_hi(s, tl, hi);
        let n = th - tl;
        if n > 2 {
            return None;
        }
        let mut k = tl;
        while k < th
            invariant
                lo <= hi <= s@.len(),
                colon == find_in(s@, lo as int, hi as int, COLON),
                colon < hi,
                parse_codes(s@, lo as int, colon as int) == Some(codes@),
                tl == trim_lo(s@, colon + 1, hi as int),
                th == trim_hi(s@, tl as int, hi as int),
                tl <= k <= th <= s@.len(),
                forall|m: int| tl <= m < k ==> #[trigger] s@[m] == TAG_V || s@[m] == TAG_W,
            decreases th - k,
        {
            if s[k] != TAG_V && s[k] != TAG_W {
                proof {
                    assert(!(s@[k as int] == TAG_V || s@[k as int] == TAG_W));
                    assert(!tags_ok(s@, tl as int, th as int));
                    assert(parse_format(s@, lo as int, hi as int) is None);
                }
                return None;
            }
            k = k + 1;
        }
        if n == 2 && s[tl] == s[tl + 1] {
            return None;
        }
        tags = subvec(s, tl, th);
    }
    if check_codes(&codes, tags.len()) {
        Some((codes, tags))
    } else {
        None
    }
}

/// Parse one preset expression into a descriptor. This is the eager entry
/// point used for caller-supplied overrides: a malformed expression is
/// reported to the caller rather than skipped.
pub fn parse(expr: &[u8]) -> (r: Result<Attribute, Error>)
    ensures
        r matches Ok(a) ==> spec_parse_descriptor(expr@) == Some(a@),
        r matches Err(e) ==> e is Descriptor && spec_parse_descriptor(expr@) is None,
{
    let n = expr.len();
    let c1 = lex_find(expr, 0, n, COMMA);
    if c1 >= n {
        return Err(Error::Descriptor);
    }
    let il = lex_trim_lo(expr, 0, c1);
    let ih = lex_trim_hi(expr, il, c1);
    let id = match lex_id(expr, il, ih) {
        None => {
            return Err(Error::Descriptor);
        },
        Some(v) => v,
    };
    let c2 = lex_find(expr, c1 + 1, n, COMMA);
    let fl = lex_trim_lo(expr, c1 + 1, c2);
    let fh = lex_trim_hi(expr, fl, c2);
    let (codes, tags) = match lex_format(expr, fl, fh) {
        None => {
            return Err(Error::Descriptor);
        },
        Some(x) => x,
    };
    if c2 >= n {
        return Ok(
            Attribute { id, name: None, format: codes, byte_order: tags, drivetype: None },
        );
    }
    let c3 = lex_find(expr, c2 + 1, n, COMMA);
    let nl = lex_trim_lo(expr, c2 + 1, c3);
    let nh = lex_trim_hi(expr, nl, c3);
    let name = if nl < nh {
        Some(subvec(expr, nl, nh))
    } else {
        None
    };
    if c3 >= n {
        return Ok(Attribute { id, name, format: codes, byte_order: tags, drivetype: None });
    }
    if lex_find(expr, c3 + 1, n, COMMA) < n {
        return Err(Error::Descriptor);
    }
    let dl = lex_trim_lo(expr, c3 + 1, n);
    let dh = lex_trim_hi(expr, dl, n);
    let dt = if dh - dl == 3 && expr[dl] == 72 && expr[dl + 1] == 68 && expr[dl + 2] == 68 {
        Type::HDD
    } else if dh - dl == 3 && expr[dl] == 83 && expr[dl + 1] == 83 && expr[dl + 2] == 68 {
        Type::SSD
    } else {
        return Err(Error::Descriptor);
    };
    Ok(Attribute { id, name, format: codes, byte_order: tags, drivetype: Some(dt) })
}

/// Mapping from attribute id to descriptor denoted by a descriptor list;
/// on an id collision the later descriptor wins.
pub open spec fn attrs_map(s: Seq<AttributeView>) -> Map<u8, AttributeView>
    decreases s.len(),
{
    if s.len() == 0 {
        Map::empty()
    } else {
        attrs_map(s.drop_last()).insert(s.last().id, s.last())
    }
}

pub open spec fn unique_ids(s: Seq<AttributeView>) -> bool {
    forall|i: int, j: int| 0 <= i < j < s.len() ==> (#[trigger] s[i]).id != (#[trigger] s[j]).id
}

/// Index of the first descriptor with the given id, or the length.
pub open spec fn find_id(s: Seq<AttributeView>, id: u8) -> int
    decreases s.len(),
{
    if s.len() == 0 {
        0
    } else if s[0].id == id {
        0
    } else {
        1 + find_id(s.drop_first(), id)
    }
}

pub proof fn lemma_find_id_props(s: Seq<AttributeView>, id: u8)
    ensures
        0 <= find_id(s, id) <= s.len(),
        find_id(s, id) < s.len() ==> s[find_id(s, id)].id == id,
        forall|k: int| 0 <= k < find_id(s, id) ==> (#[trigger] s[k]).id != id,
    decreases s.len(),
{
    if s.len() > 0 && s[0].id != id {
        lemma_find_id_props(s.drop_first(), id);
        let f = find_id(s, id);
        assert forall|k: int| 0 <= k < f implies (#[trigger] s[k]).id != id by {
            if k > 0 {
                assert(s.drop_first()[k - 1] == s[k]);
            }
        }
        if f < s.len() {
            assert(s.drop_first()[f - 1] == s[f]);
        }
    }
}

/// Replace the descriptor sharing `a`'s id, or append `a` when none does.
pub open spec fn upsert1(s: Seq<AttributeView>, a: AttributeView) -> Seq<AttributeView> {
    let i = find_id(s, a.id);
    if i < s.len() {
        s.update(i, a)
    } else {
        s.push(a)
    }
}

pub proof fn lemma_attrs_map_update(s: Seq<AttributeView>, i: int, a: AttributeView)
    requires
        unique_ids(s),
        0 <= i < s.len(),
        s[i].id == a.id,
    ensures
        attrs_map(s.update(i, a)) == attrs_map(s).insert(a.id, a),
    decreases s.len(),
{
    if i == s.len() - 1 {
        assert(s.update(i, a).drop_last() =~= s.drop_last());
        assert(attrs_map(s.update(i, a)) =~= attrs_map(s).insert(a.id, a));
    } else {
        assert(s.update(i, a).drop_last() =~= s.drop_last().update(i, a));
        lemma_attrs_map_update(s.drop_last(), i, a);
        let last = s.last();
        assert(last.id != a.id);
        assert(attrs_map(s.drop_last()).insert(a.id, a).insert(last.id, last) =~= attrs_map(
            s.drop_last(),
        ).insert(last.id, last).insert(a.id, a));
    }
}

pub proof fn lemma_upsert1_map(s: Seq<AttributeView>, a: AttributeView)
    requires
        unique_ids(s),
    ensures
        unique_ids(upsert1(s, a)),
        attrs_map(upsert1(s, a)) == attrs_map(s).insert(a.id, a),
    decreases s.len(),
{
    lemma_find_id_props(s, a.id);
    let i = find_id(s, a.id);
    if i < s.len() {
        lemma_attrs_map_update(s, i, a);
    } else {
        assert(s.push(a).drop_last() =~= s);
    }
}

pub open spec fn lists_views(ls: Seq<Vec<Attribute>>) -> Seq<Seq<AttributeView>> {
    ls.map_values(|v: Vec<Attribute>| attrs_view(v@))
}

/// Fold the first `n` descriptors of `xs` into `acc` by id.
pub open spec fn merge_upto(acc: Seq<AttributeView>, xs: Seq<AttributeView>, n: int) -> Seq<
    AttributeView,
>
    decreases n,
{
    if n <= 0 {
        acc
    } else {
        upsert1(merge_upto(acc, xs, n - 1), xs[n - 1])
    }
}

/// Fold the first `n` descriptor lists into one set, later lists winning
/// on id collisions.
pub open spec fn merge_lists_upto(ls: Seq<Seq<AttributeView>>, n: int) -> Seq<AttributeView>
    decreases n,
{
    if n <= 0 {
        Seq::empty()
    } else {
        merge_upto(merge_lists_upto(ls, n - 1), ls[n - 1], ls[n - 1].len() as int)
    }
}

pub open spec fn spec_merge(ls: Seq<Seq<AttributeView>>) -> Seq<AttributeView> {
    merge_lists_upto(ls, ls.len() as int)
}

/// Mapping denoted by the first `n` lists: union of the per-list mappings,
/// later lists preferred.
pub open spec fn maps_union(ls: Seq<Seq<AttributeView>>, n: int) -> Map<u8, AttributeView>
    decreases n,
{
    if n <= 0 {
        Map::empty()
    } else {
        maps_union(ls, n - 1).union_prefer_right(attrs_map(ls[n - 1]))
    }
}

pub proof fn lemma_merge_upto_props(acc: Seq<AttributeView>, xs: Seq<AttributeView>, n: int)
    requires
        unique_ids(acc),
        0 <= n <= xs.len(),
    ensures
        unique_ids(merge_upto(acc, xs, n)),
        attrs_map(merge_upto(acc, xs, n)) == attrs_map(acc).union_prefer_right(
            attrs_map(xs.take(n)),
        ),
    decreases n,
{
    if n == 0 {
        assert(xs.take(0) =~= Seq::<AttributeView>::empty());
        assert(attrs_map(acc).union_prefer_right(Map::empty()) =~= attrs_map(acc));
    } else {
        lemma_merge_upto_props(acc, xs, n - 1);
        let prev = merge_upto(acc, xs, n - 1);
        let x = xs[n - 1];
        lemma_upsert1_map(prev, x);
        assert(xs.take(n).drop_last() =~= xs.take(n - 1));
        assert(attrs_map(xs.take(n)) == attrs_map(xs.take(n - 1)).insert(x.id, x));
        assert(attrs_map(acc).union_prefer_right(attrs_map(xs.take(n - 1))).insert(x.id, x)
            =~= attrs_map(acc).union_prefer_right(attrs_map(xs.take(n - 1)).insert(x.id, x)));
    }
}

pub proof fn lemma_merge_lists_props(ls: Seq<Seq<AttributeView>>, n: int)
    requires
        0 <= n <= ls.len(),
    ensures
        unique_ids(merge_lists_upto(ls, n)),
        attrs_map(merge_lists_upto(ls, n)) == maps_union(ls, n),
    decreases n,
{
    if n > 0 {
        lemma_merge_lists_props(ls, n - 1);
        lemma_merge_upto_props(merge_lists_upto(ls, n - 1), ls[n - 1], ls[n - 1].len() as int);
        assert(ls[n - 1].take(ls[n - 1].len() as int) =~= ls[n - 1]);
    }
}

pub proof fn lemma_attrs_map_absent(s: Seq<AttributeView>, id: u8)
    requires
        forall|k: int| 0 <= k < s.len() ==> (#[trigger] s[k]).id != id,
    ensures
        !attrs_map(s).contains_key(id),
    decreases s.len(),
{
    if s.len() > 0 {
        lemma_attrs_map_absent(s.drop_last(), id);
    }
}

pub proof fn lemma_attrs_map_last(s: Seq<AttributeView>, i: int, id: u8)
    requires
        0 <= i < s.len(),
        s[i].id == id,
        forall|k: int| i < k < s.len() ==> (#[trigger] s[k]).id != id,
    ensures
        attrs_map(s).contains_key(id),
        attrs_map(s)[id] == s[i],
    decreases s.len(),
{
    if i < s.len() - 1 {
        lemma_attrs_map_last(s.drop_last(), i, id);
    }
}

pub(crate) fn clone_bytes(v: &Vec<u8>) -> (r: Vec<u8>)
    ensures
        r@ == v@,
{
    let mut out: Vec<u8> = Vec::new();
    let mut k: usize = 0;
    while k < v.len()
        invariant
            0 <= k <= v@.len(),
            out@ == v@.take(k as int),
        decreases v@.len() - k,
    {
        out.push(v[k]);
        proof {
            assert(v@.take(k + 1 as int) =~= v@.take(k as int).push(v@[k as int]));
        }
        k = k + 1;
    }
    proof {
        assert(v@.take(v@.len() as int) =~= v@);
    }
    out
}

fn clone_format(v: &Vec<FormatCode>) -> (r: Vec<FormatCode>)
    ensures
        r@ == v@,
{
    let mut out: Vec<FormatCode> = Vec::new();
    let mut k: usize = 0;
    while k < v.len()
        invariant
            0 <= k <= v@.len(),
            out@ == v@.take(k as int),
        decreases v@.len() - k,
    {
        out.push(v[k]);
        proof {
            assert(v@.take(k + 1 as int) =~= v@.take(k as int).push(v@[k as int]));
        }
        k = k + 1;
    }
    proof {
        assert(v@.take(v@.len() as int) =~= v@);
    }
    out
}

/// Copy of a descriptor with an equal mathematical value.
pub fn clone_attribute(a: &Attribute) -> (r: Attribute)
    ensures
        r@ == a@,
{
    Attribute {
        id: a.id,
        name: match &a.name {
            Some(n) => Some(clone_bytes(n)),
            None => None,
        },
        format: clone_format(&a.format),
        byte_order: clone_bytes(&a.byte_order),
        drivetype: a.drivetype,
    }
}

/// Replace the descriptor sharing `a`'s id, or append `a` when none does.
pub(crate) fn upsert(v: &mut Vec<Attribute>, a: Attribute)
    ensures
        attrs_view(final(v)@) == upsert1(attrs_view(old(v)@), a@),
{
    let ghost s = attrs_view(v@);
    let ghost id = a@.id;
    proof {
        lemma_find_id_props(s, id);
    }
    let mut i: usize = 0;
    while i < v.len()
        invariant
            0 <= i <= v@.len(),
            v@ == old(v)@,
            s == attrs_view(v@),
            id == a@.id,
            forall|k: int| 0 <= k < i ==> (#[trigger] s[k]).id != id,
            find_id(s, id) >= i || (find_id(s, id) < s.len() && s[find_id(s, id)].id == id),
            0 <= find_id(s, id) <= s.len(),
            find_id(s, id) < s.len() ==> s[find_id(s, id)].id == id,
            forall|k: int| 0 <= k < find_id(s, id) ==> (#[trigger] s[k]).id != id,
        decreases v@.len() - i,
    {
        if v[i].id == a.id {
            proof {
                assert(s[i as int].id == id);
                assert(find_id(s, id) == i);
            }
            let ghost v0 = v@;
            v[i] = a;
            proof {
                assert(attrs_view(v@) =~= upsert1(attrs_view(v0), a@));
            }
            return ;
        }
        i = i + 1;
    }
    proof {
        assert(find_id(s, id) >= s.len());
    }
    let ghost v0 = v@;
    v.push(a);
    proof {
        assert(attrs_view(v@) =~= upsert1(attrs_view(v0), a@));
    }
}

/// Merge descriptor lists into one set keyed by attribute id; a later list
/// always wins on an id collision.
pub fn merge(lists: Vec<Vec<Attribute>>) -> (r: Vec<Attribute>)
    ensures
        attrs_view(r@) == spec_merge(lists_views(lists@)),
        unique_ids(attrs_view(r@)),
        attrs_map(attrs_view(r@)) == maps_union(lists_views(lists@), lists@.len() as int),
{
    let ghost lv = lists_views(lists@);
    let mut acc: Vec<Attribute> = Vec::new();
    proof {
        assert(attrs_view(acc@) =~= merge_lists_upto(lv, 0));
    }
    let mut i: usize = 0;
    while i < lists.len()
        invariant
            0 <= i <= lists@.len(),
            lv == lists_views(lists@),
            attrs_view(acc@) == merge_lists_upto(lv, i as int),
        decreases lists@.len() - i,
    {
        let n = lists[i].len();
        let mut j: usize = 0;
        proof {
            assert(lv[i as int] == attrs_view(lists@[i as int]@));
        }
        while j < n
            invariant
                0 <= i < lists@.len(),
                lv == lists_views(lists@),
                0 <= j <= n,
                n == lists@[i as int]@.len(),
                attrs_view(acc@) == merge_upto(merge_lists_upto(lv, i as int), lv[i as int], j as int),
            decreases n - j,
        {
            let a = clone_attribute(&lists[i][j]);
            proof {
                assert(lv[i as int][j as int] == lists@[i as int]@[j as int]@);
            }
            upsert(&mut acc, a);
            j = j + 1;
        }
        i = i + 1;
    }
    proof {
        lemma_merge_lists_props(lv, lv.len() as int);
    }
    acc
}

/// Descriptor to render an attribute with: the one the merged set maps the
/// id to, or nothing when the id is not described.
pub fn render(presets: &Vec<Attribute>, id: u8) -> (r: Option<Attribute>)
    ensures
        match r {
            Some(a) => attrs_map(attrs_view(presets@)).contains_key(id) && a@ == attrs_map(
                attrs_view(presets@),
            )[id],
            None => !attrs_map(attrs_view(presets@)).contains_key(id),
        },
{
    let ghost s = attrs_view(presets@);
    let mut i: usize = presets.len();
    while i > 0
        invariant
            s == attrs_view(presets@),
            0 <= i <= presets@.len(),
            forall|k: int| i <= k < s.len() ==> (#[trigger] s[k]).id != id,
        decreases i,
    {
        i = i - 1;
        if presets[i].id == id {
            proof {
                lemma_attrs_map_last(s, i as int, id);
            }
            return Some(clone_attribute(&presets[i]));
        }
    }
    proof {
        lemma_attrs_map_absent(s, id);
    }
    None
}

} // verus!
