//! Decoding the binary SMART attribute and threshold tables.
//!
//! Both tables are fixed 512-byte blocks: a two-byte structure revision
//! header followed by thirty 12-byte rows. A row of the attribute table
//! holds the attribute id, a 16-bit little-endian flag word, the
//! normalized and worst bytes, and the six-byte vendor raw payload; a row
//! of the threshold table holds the attribute id and the threshold byte.
//! Rows with id 0 are invalid placeholders and are skipped in both tables.
//!
//! Decoding never fails on malformed telemetry: a missing or inapplicable
//! descriptor degrades to the generic counter rendering.

use vstd::prelude::*;
use crate::drivedb::Match;
use crate::drivedb::MatchView;
use crate::vendor_attribute::{
    Attribute,
    AttributeView,
    FormatCode,
    TAG_V,
    TAG_W,
    attrs_map,
    width,
    widths_sum,
    code_width,
    clone_bytes,
    subvec,
    lemma_widths_sum_take_le,
    lemma_widths_sum_bounds,
};

verus! {

/// Rendered raw value of one attribute row.
#[derive(Debug, PartialEq)]
pub enum Raw {
    /// One counter per format code of the descriptor, in order.
    Values(Vec<u64>),
    /// 48-bit counter displayed in hexadecimal.
    Hex(u64),
    /// Counter of seconds.
    Seconds(u64),
    /// Counter of minutes.
    Minutes(u64),
    /// Current, minimum and maximum temperature bytes.
    TempMinMax { cur: u8, min: u8, max: u8 },
    /// Temperature in tenths of a degree.
    TempDeci(u16),
    /// Generic fallback: the 48-bit little-endian counter split into its
    /// 32-bit primary value and 16-bit spillover.
    Counter { value: u32, spill: u16 },
}

/// Mathematical value of a [`Raw`].
pub enum RawView {
    Values(Seq<u64>),
    Hex(u64),
    Seconds(u64),
    Minutes(u64),
    TempMinMax { cur: u8, min: u8, max: u8 },
    TempDeci(u16),
    Counter { value: u32, spill: u16 },
}

impl View for Raw {
    type V = RawView;

    open spec fn view(&self) -> RawView {
        match self {
            Raw::Values(v) => RawView::Values(v@),
            Raw::Hex(x) => RawView::Hex(*x),
            Raw::Seconds(x) => RawView::Seconds(*x),
            Raw::Minutes(x) => RawView::Minutes(*x),
            Raw::TempMinMax { cur, min, max } => RawView::TempMinMax {
                cur: *cur,
                min: *min,
                max: *max,
            },
            Raw::TempDeci(x) => RawView::TempDeci(*x),
            Raw::Counter { value, spill } => RawView::Counter { value: *value, spill: *spill },
        }
    }
}

/// One decoded SMART attribute table row.
#[derive(Debug)]
pub struct SmartAttribute {
    pub id: u8,
    /// Display name from the matched descriptor, if any.
    pub name: Option<Vec<u8>>,
    /// When set, failure is predicted within 24 hours; otherwise the
    /// attribute marks exceeded design life.
    pub pre_fail: bool,
    pub online: bool,
    pub performance: bool,
    pub error_rate: bool,
    pub event_count: bool,
    pub self_preserving: bool,
    /// The flag word with the six named bits masked out.
    pub flags: u16,
    /// Normalized value byte; absent when the descriptor folds that byte
    /// into the raw payload.
    pub value: Option<u8>,
    /// Worst-seen byte; absent under the same rule as `value`.
    pub worst: Option<u8>,
    /// Raw payload rendered per the descriptor, or generically.
    pub raw: Raw,
    /// Threshold byte for this id from the threshold table, if present.
    pub thresh: Option<u8>,
}

/// Mathematical value of a [`SmartAttribute`].
pub struct SmartAttributeView {
    pub id: u8,
    pub name: Option<Seq<u8>>,
    pub pre_fail: bool,
    pub online: bool,
    pub performance: bool,
    pub error_rate: bool,
    pub event_count: bool,
    pub self_preserving: bool,
    pub flags: u16,
    pub value: Option<u8>,
    pub worst: Option<u8>,
    pub raw: RawView,
    pub thresh: Option<u8>,
}

impl View for SmartAttribute {
    type V = SmartAttributeView;

    open spec fn view(&self) -> SmartAttributeView {
        SmartAttributeView {
            id: self.id,
            name: match self.name {
                Some(n) => Some(n@),
                None => None,
            },
            pre_fail: self.pre_fail,
            online: self.online,
            performance: self.performance,
            error_rate: self.error_rate,
            event_count: self.event_count,
            self_preserving: self.self_preserving,
            flags: self.flags,
            value: self.value,
            worst: self.worst,
            raw: self.raw@,
            thresh: self.thresh,
        }
    }
}

pub open spec fn smart_views(s: Seq<SmartAttribute>) -> Seq<SmartAttributeView> {
    s.map_values(|a: SmartAttribute| a@)
}

pub open spec fn opt_match_view(m: &Option<Match>) -> Option<MatchView> {
    match m {
        Some(x) => Some(x@),
        None => None,
    }
}

/// Little-endian value of the `n` bytes starting at `p`.
pub open spec fn le_val(s: Seq<u8>, p: int, n: int) -> int
    decreases n,
{
    if n <= 0 {
        0
    } else {
        s[p] + 256 * le_val(s, p + 1, n - 1)
    }
}

pub open spec fn pow256(n: int) -> int
    decreases n,
{
    if n <= 0 {
        1
    } else {
        256 * pow256(n - 1)
    }
}

pub proof fn lemma_pow256_values(n: int)
    requires
        0 <= n <= 8,
    ensures
        n == 0 ==> pow256(n) == 1,
        n == 1 ==> pow256(n) == 0x100,
        n == 2 ==> pow256(n) == 0x10000,
        n == 3 ==> pow256(n) == 0x1000000,
        n == 4 ==> pow256(n) == 0x100000000,
        n == 5 ==> pow256(n) == 0x10000000000,
        n == 6 ==> pow256(n) == 0x1000000000000,
        n == 7 ==> pow256(n) == 0x100000000000000,
        n == 8 ==> pow256(n) == 0x10000000000000000,
        1 <= pow256(n) <= 0x10000000000000000,
    decreases n,
{
    if n > 0 {
        lemma_pow256_values(n - 1);
    }
}

pub proof fn lemma_le_val_bound(s: Seq<u8>, p: int, n: int)
    requires
        0 <= p,
        0 <= n,
        p + n <= s.len(),
    ensures
        0 <= le_val(s, p, n) < pow256(n),
    decreases n,
{
    if n > 0 {
        lemma_le_val_bound(s, p + 1, n - 1);
    }
}

fn le_read(pay: &Vec<u8>, p: usize, n: usize) -> (r: u64)
    requires
        p + n <= pay@.len(),
        n <= 8,
    ensures
        r == le_val(pay@, p as int, n as int),
    decreases n,
{
    if n == 0 {
        0
    } else {
        let pay_len = pay.len();
        proof {
            assert(pay@.len() == pay_len);
        }
        let rest = le_read(pay, p + 1, n - 1);
        proof {
            lemma_le_val_bound(pay@, p + 1 as int, n - 1 as int);
            lemma_pow256_values(n - 1 as int);
        }
        (pay[p] as u64) + 256 * rest
    }
}

/// The counters a multi-part render spec denotes: each code consumes its
/// width of the payload, in order, little-endian within a group.
pub open spec fn values_of(codes: Seq<FormatCode>, pay: Seq<u8>, p: int) -> Seq<u64>
    decreases codes.len(),
{
    if codes.len() == 0 {
        Seq::empty()
    } else {
        seq![le_val(pay, p, width(codes[0])) as u64] + values_of(
            codes.drop_first(),
            pay,
            p + width(codes[0]),
        )
    }
}

pub proof fn lemma_widths_sum_head(s: Seq<FormatCode>)
    requires
        s.len() >= 1,
    ensures
        widths_sum(s) == width(s[0]) + widths_sum(s.drop_first()),
    decreases s.len(),
{
    if s.len() == 1 {
        assert(s.drop_first() =~= Seq::<FormatCode>::empty());
        assert(s.drop_last() =~= Seq::<FormatCode>::empty());
        assert(s.last() == s[0]);
    } else {
        let s1 = s.drop_last();
        lemma_widths_sum_head(s1);
        assert(s1.drop_first() =~= s.drop_first().drop_last());
        assert(s.drop_first().last() == s.last());
        assert(s1[0] == s[0]);
        assert(widths_sum(s.drop_first()) == widths_sum(s.drop_first().drop_last()) + width(
            s.drop_first().last(),
        ));
        assert(widths_sum(s) == widths_sum(s1) + width(s.last()));
    }
}

fn values_from(codes: &Vec<FormatCode>, ci: usize, pay: &Vec<u8>, p: usize) -> (r: Vec<u64>)
    requires
        ci <= codes@.len(),
        p + widths_sum(codes@.skip(ci as int)) <= pay@.len(),
    ensures
        r@ == values_of(codes@.skip(ci as int), pay@, p as int),
    decreases codes@.len() - ci,
{
    if ci >= codes.len() {
        let v: Vec<u64> = Vec::new();
        proof {
            assert(codes@.skip(ci as int) =~= Seq::<FormatCode>::empty());
            assert(v@ =~= values_of(codes@.skip(ci as int), pay@, p as int));
        }
        v
    } else {
        let pay_len = pay.len();
        let w = code_width(codes[ci]);
        proof {
            assert(pay@.len() == pay_len);
            lemma_widths_sum_head(codes@.skip(ci as int));
            assert(codes@.skip(ci as int)[0] == codes@[ci as int]);
            assert(codes@.skip(ci as int).drop_first() =~= codes@.skip(ci + 1 as int));
            lemma_widths_sum_bounds(codes@.skip(ci + 1 as int));
        }
        let v = le_read(pay, p, w as usize);
        let mut rest = values_from(codes, ci + 1, pay, p + w as usize);
        let ghost r0 = rest@;
        rest.insert(0, v);
        proof {
            assert(rest@ =~= seq![v] + r0);
        }
        rest
    }
}

/// Raw payload of a row: the six raw bytes, extended by the worst byte
/// and then the value byte when the descriptor's byte-order tags fold
/// them in as the most significant bytes.
pub open spec fn payload(raw6: Seq<u8>, value: u8, worst: u8, byte_order: Seq<u8>) -> Seq<u8> {
    let p1 = if byte_order.contains(TAG_W) {
        raw6.push(worst)
    } else {
        raw6
    };
    if byte_order.contains(TAG_V) {
        p1.push(value)
    } else {
        p1
    }
}

/// Generic fallback rendering of the six raw bytes.
pub open spec fn generic_raw(raw6: Seq<u8>) -> RawView {
    RawView::Counter { value: le_val(raw6, 0, 4) as u32, spill: le_val(raw6, 4, 2) as u16 }
}

/// Rendering denoted by a render spec over the payload.
pub open spec fn render_codes(codes: Seq<FormatCode>, pay: Seq<u8>) -> RawView {
    if codes.len() == 1 {
        match codes[0] {
            FormatCode::Hex48 => RawView::Hex(le_val(pay, 0, 6) as u64),
            FormatCode::Sec2Hour => RawView::Seconds(le_val(pay, 0, 6) as u64),
            FormatCode::Min2Hour => RawView::Minutes(le_val(pay, 0, 6) as u64),
            FormatCode::TempMinMax => RawView::TempMinMax { cur: pay[0], min: pay[2], max: pay[4] },
            FormatCode::Temp10x => RawView::TempDeci(le_val(pay, 0, 2) as u16),
            _ => RawView::Values(values_of(codes, pay, 0)),
        }
    } else {
        RawView::Values(values_of(codes, pay, 0))
    }
}

/// Rendering of one row's raw bytes under an optional descriptor: per the
/// descriptor when its render spec fits the payload, generically
/// otherwise.
pub open spec fn spec_render_raw(attr: Option<AttributeView>, d: Seq<u8>, off: int) -> RawView {
    let raw6 = d.subrange(off + 5, off + 11);
    match attr {
        None => generic_raw(raw6),
        Some(a) => {
            let pay = payload(raw6, d[off + 3], d[off + 4], a.byte_order);
            if a.format.len() >= 1 && widths_sum(a.format) <= pay.len() {
                render_codes(a.format, pay)
            } else {
                generic_raw(raw6)
            }
        },
    }
}

fn contains_byte(v: &Vec<u8>, b: u8) -> (r: bool)
    ensures
        r == v@.contains(b),
{
    let mut i: usize = 0;
    while i < v.len()
        invariant
            0 <= i <= v@.len(),
            forall|k: int| 0 <= k < i ==> v@[k] != b,
        decreases v@.len() - i,
    {
        if v[i] == b {
            return true;
        }
        i = i + 1;
    }
    proof {
        assert(!v@.contains(b));
    }
    false
}

fn counter_of(raw6: &Vec<u8>) -> (r: Raw)
    requires
        raw6@.len() == 6,
    ensures
        r@ == generic_raw(raw6@),
{
    let v = le_read(raw6, 0, 4);
    let sp = le_read(raw6, 4, 2);
    proof {
        lemma_le_val_bound(raw6@, 0, 4);
        lemma_le_val_bound(raw6@, 4, 2);
        lemma_pow256_values(4);
        lemma_pow256_values(2);
    }
    Raw::Counter { value: v as u32, spill: sp as u16 }
}

fn render_codes_exec(codes: &Vec<FormatCode>, pay: &Vec<u8>) -> (r: Raw)
    requires
        codes@.len() >= 1,
        widths_sum(codes@) <= pay@.len(),
    ensures
        r@ == render_codes(codes@, pay@),
{
    proof {
        lemma_widths_sum_bounds(codes@);
        assert(codes@.skip(0) =~= codes@);
    }
    if codes.len() == 1 {
        proof {
            lemma_widths_sum_head(codes@);
            assert(codes@.drop_first() =~= Seq::<FormatCode>::empty());
        }
        match codes[0] {
            FormatCode::Hex48 => {
                proof {
                    lemma_le_val_bound(pay@, 0, 6);
                    lemma_pow256_values(6);
                }
                Raw::Hex(le_read(pay, 0, 6))
            },
            FormatCode::Sec2Hour => Raw::Seconds(le_read(pay, 0, 6)),
            FormatCode::Min2Hour => Raw::Minutes(le_read(pay, 0, 6)),
            FormatCode::TempMinMax => Raw::TempMinMax { cur: pay[0], min: pay[2], max: pay[4] },
            FormatCode::Temp10x => {
                let x = le_read(pay, 0, 2);
                proof {
                    lemma_le_val_bound(pay@, 0, 2);
                    lemma_pow256_values(2);
                }
                Raw::TempDeci(x as u16)
            },
            _ => Raw::Values(values_from(codes, 0, pay, 0)),
        }
    } else {
        Raw::Values(values_from(codes, 0, pay, 0))
    }
}

fn render_raw(attr: &Option<Attribute>, d: &Vec<u8>, off: usize) -> (r: Raw)
    requires
        d@.len() == 512,
        off + 12 <= 512,
    ensures
        r@ == spec_render_raw(
            match attr {
                Some(a) => Some(a@),
                None => None,
            },
            d@,
            off as int,
        ),
{
    let raw6 = subvec(d.as_slice(), off + 5, off + 11);
    match attr {
        None => counter_of(&raw6),
        Some(a) => {
            let mut pay = clone_bytes(&raw6);
            if contains_byte(&a.byte_order, TAG_W) {
                pay.push(d[off + 4]);
            }
            if contains_byte(&a.byte_order, TAG_V) {
                pay.push(d[off + 3]);
            }
            proof {
                assert(pay@ == payload(raw6@, d@[off + 3 as int], d@[off + 4 as int], a@.byte_order));
            }
            let total = match widths_total(&a.format) {
                Some(t) => t,
                None => {
                    proof {
                        assert(pay@.len() <= 8);
                    }
                    return counter_of(&raw6);
                },
            };
            if a.format.len() >= 1 && (total as usize) <= pay.len() {
                render_codes_exec(&a.format, &pay)
            } else {
                counter_of(&raw6)
            }
        },
    }
}

/// Sum of the widths of a render spec, when it does not exceed the
/// largest possible payload.
fn widths_total(codes: &Vec<FormatCode>) -> (r: Option<u32>)
    ensures
        r matches Some(t) ==> t == widths_sum(codes@) && t <= 8,
        r is None ==> widths_sum(codes@) > 8,
{
    let mut sum: u32 = 0;
    let mut i: usize = 0;
    while i < codes.len()
        invariant
            0 <= i <= codes@.len(),
            sum == widths_sum(codes@.take(i as int)),
            sum <= 8,
        decreases codes@.len() - i,
    {
        let w = code_width(codes[i]);
        proof {
            assert(codes@.take(i + 1 as int).drop_last() =~= codes@.take(i as int));
            assert(codes@.take(i + 1 as int).last() == codes@[i as int]);
        }
        if sum + (w as u32) > 8 {
            proof {
                lemma_widths_sum_take_le(codes@, i + 1 as int);
            }
            return None;
        }
        sum = sum + (w as u32);
        i = i + 1;
    }
    proof {
        assert(codes@.take(i as int) =~= codes@);
    }
    Some(sum)
}

/// Threshold lookup built from the first `n` rows of the threshold
/// block: rows with id 0 skipped, a later duplicate row winning.
pub open spec fn thresh_map_upto(t: Seq<u8>, n: int) -> Map<u8, u8>
    decreases n,
{
    if n <= 0 {
        Map::empty()
    } else {
        let m = thresh_map_upto(t, n - 1);
        let off = 2 + (n - 1) * 12;
        if t[off] == 0 {
            m
        } else {
            m.insert(t[off], t[off + 1])
        }
    }
}

/// Threshold lookup denoted by a threshold block.
pub open spec fn spec_thresh_map(t: Seq<u8>) -> Map<u8, u8> {
    thresh_map_upto(t, 30)
}

proof fn lemma_thresh_absent(t: Seq<u8>, n: int, id: u8)
    requires
        0 <= n <= 30,
        forall|k: int| 0 <= k < n ==> #[trigger] t[2 + k * 12] != id,
    ensures
        !thresh_map_upto(t, n).contains_key(id),
    decreases n,
{
    if n > 0 {
        assert(t[2 + (n - 1) * 12] != id);
        lemma_thresh_absent(t, n - 1, id);
    }
}

proof fn lemma_thresh_last(t: Seq<u8>, n: int, i: int, id: u8)
    requires
        0 <= i < n <= 30,
        t[2 + i * 12] == id,
        id != 0,
        forall|k: int| i < k < n ==> #[trigger] t[2 + k * 12] != id,
    ensures
        thresh_map_upto(t, n).contains_key(id),
        thresh_map_upto(t, n)[id] == t[2 + i * 12 + 1],
    decreases n,
{
    if i < n - 1 {
        assert(t[2 + (n - 1) * 12] != id);
        lemma_thresh_last(t, n - 1, i, id);
    }
}

fn lookup_thresh(t: &Vec<u8>, id: u8) -> (r: Option<u8>)
    requires
        t@.len() == 512,
        id != 0,
    ensures
        r matches Some(x) ==> spec_thresh_map(t@).contains_key(id) && x == spec_thresh_map(t@)[id],
        r is None ==> !spec_thresh_map(t@).contains_key(id),
{
    let mut i: usize = 30;
    while i > 0
        invariant
            t@.len() == 512,
            id != 0,
            0 <= i <= 30,
            forall|k: int| i <= k < 30 ==> #[trigger] t@[2 + k * 12] != id,
        decreases i,
    {
        i = i - 1;
        let off = 2 + i * 12;
        if t[off] == id {
            proof {
                lemma_thresh_last(t@, 30, i as int, id);
            }
            return Some(t[off + 1]);
        }
    }
    proof {
        lemma_thresh_absent(t@, 30, id);
    }
    None
}

/// Descriptor the match outcome holds for an id, if any.
pub open spec fn row_attr(m: Option<MatchView>, id: u8) -> Option<AttributeView> {
    match m {
        Some(mv) => if attrs_map(mv.presets).contains_key(id) {
            Some(attrs_map(mv.presets)[id])
        } else {
            None
        },
        None => None,
    }
}

/// Decoded record of the attribute-table row at `off`.
pub open spec fn spec_decode_row(
    d: Seq<u8>,
    off: int,
    m: Option<MatchView>,
    th: Map<u8, u8>,
) -> SmartAttributeView {
    let id = d[off];
    let flags = d[off + 1] + 256 * d[off + 2];
    let attr = row_attr(m, id);
    let in_v = attr matches Some(a) && a.byte_order.contains(TAG_V);
    let in_w = attr matches Some(a) && a.byte_order.contains(TAG_W);
    SmartAttributeView {
        id,
        name: match attr {
            Some(a) => a.name,
            None => None,
        },
        pre_fail: flags % 2 == 1,
        online: (flags / 2) % 2 == 1,
        performance: (flags / 4) % 2 == 1,
        error_rate: (flags / 8) % 2 == 1,
        event_count: (flags / 16) % 2 == 1,
        self_preserving: (flags / 32) % 2 == 1,
        flags: ((flags / 64) * 64) as u16,
        value: if !in_v {
            Some(d[off + 3])
        } else {
            None
        },
        worst: if !in_w {
            Some(d[off + 4])
        } else {
            None
        },
        raw: spec_render_raw(attr, d, off),
        thresh: if th.contains_key(id) {
            Some(th[id])
        } else {
            None
        },
    }
}

/// Decoded records of the first `n` attribute-table rows, rows with id 0
/// skipped.
pub open spec fn spec_decode_rows(
    d: Seq<u8>,
    n: int,
    m: Option<MatchView>,
    th: Map<u8, u8>,
) -> Seq<SmartAttributeView>
    decreases n,
{
    if n <= 0 {
        Seq::empty()
    } else {
        let prev = spec_decode_rows(d, n - 1, m, th);
        let off = 2 + (n - 1) * 12;
        if d[off] == 0 {
            prev
        } else {
            prev.push(spec_decode_row(d, off, m, th))
        }
    }
}

/// Records denoted by an attribute block, a threshold block and a match
/// outcome.
pub open spec fn spec_parse_smart(d: Seq<u8>, t: Seq<u8>, m: Option<MatchView>) -> Seq<
    SmartAttributeView,
> {
    spec_decode_rows(d, 30, m, spec_thresh_map(t))
}

/// Decode the 512-byte SMART attribute block against the 512-byte
/// threshold block, consulting the matched descriptor set for names,
/// byte folding and raw rendering. One record per non-zero-id row, in
/// table order; no telemetry content ever makes decoding fail.
pub fn parse_smart_values(data: &Vec<u8>, raw_thresh: &Vec<u8>, dbentry: &Option<Match>) -> (r: Vec<
    SmartAttribute,
>)
    requires
        data@.len() == 512,
        raw_thresh@.len() == 512,
    ensures
        smart_views(r@) == spec_parse_smart(data@, raw_thresh@, opt_match_view(dbentry)),
{
    let ghost mv = opt_match_view(dbentry);
    let ghost th = spec_thresh_map(raw_thresh@);
    let mut attrs: Vec<SmartAttribute> = Vec::new();
    proof {
        assert(smart_views(attrs@) =~= spec_decode_rows(data@, 0, mv, th));
    }
    let mut i: usize = 0;
    while i < 30
        invariant
            data@.len() == 512,
            raw_thresh@.len() == 512,
            mv == opt_match_view(dbentry),
            th == spec_thresh_map(raw_thresh@),
            0 <= i <= 30,
            smart_views(attrs@) == spec_decode_rows(data@, i as int, mv, th),
        decreases 30 - i,
    {
        let off = 2 + i * 12;
        let id = data[off];
        if id != 0 {
            let flags: u16 = data[off + 1] as u16 + 256 * (data[off + 2] as u16);
            let attr: Option<Attribute> = match dbentry {
                Some(m) => m.render_attribute(id),
                None => None,
            };
            let in_v = match &attr {
                Some(a) => contains_byte(&a.byte_order, TAG_V),
                None => false,
            };
            let in_w = match &attr {
                Some(a) => contains_byte(&a.byte_order, TAG_W),
                None => false,
            };
            let raw = render_raw(&attr, data, off);
            let name = match &attr {
                Some(a) => match &a.name {
                    Some(nm) => Some(clone_bytes(nm)),
                    None => None,
                },
                None => None,
            };
            let rec = SmartAttribute {
                id,
                name,
                pre_fail: flags % 2 == 1,
                online: (flags / 2) % 2 == 1,
                performance: (flags / 4) % 2 == 1,
                error_rate: (flags / 8) % 2 == 1,
                event_count: (flags / 16) % 2 == 1,
                self_preserving: (flags / 32) % 2 == 1,
                flags: (flags / 64) * 64,
                value: if !in_v {
                    Some(data[off + 3])
                } else {
                    None
                },
                worst: if !in_w {
                    Some(data[off + 4])
                } else {
                    None
                },
                raw,
                thresh: lookup_thresh(raw_thresh, id),
            };
            let ghost a0 = attrs@;
            proof {
                assert(rec@ == spec_decode_row(data@, off as int, mv, th));
            }
            attrs.push(rec);
            proof {
                assert(smart_views(attrs@) =~= smart_views(a0).push(rec@));
            }
        }
        i = i + 1;
    }
    attrs
}

proof fn lemma_decode_rows_ids(d: Seq<u8>, n: int, m: Option<MatchView>, th: Map<u8, u8>)
    requires
        0 <= n,
    ensures
        forall|j: int|
            0 <= j < spec_decode_rows(d, n, m, th).len() ==> (#[trigger] spec_decode_rows(
                d,
                n,
                m,
                th,
            )[j]).id != 0,
    decreases n,
{
    if n > 0 {
        lemma_decode_rows_ids(d, n - 1, m, th);
    }
}

proof fn lemma_thresh_map_no_zero(t: Seq<u8>, n: int)
    requires
        0 <= n,
    ensures
        !thresh_map_upto(t, n).contains_key(0),
    decreases n,
{
    if n > 0 {
        lemma_thresh_map_no_zero(t, n - 1);
    }
}

/// Rows with id 0 are invalid placeholders and are excluded
/// independently in both tables: no decoded record carries id 0, and the
/// threshold lookup never binds id 0.
pub proof fn lemma_id_zero_excluded(d: Seq<u8>, t: Seq<u8>, m: Option<MatchView>)
    ensures
        forall|j: int|
            0 <= j < spec_parse_smart(d, t, m).len() ==> (#[trigger] spec_parse_smart(
                d,
                t,
                m,
            )[j]).id != 0,
        !spec_thresh_map(t).contains_key(0),
{
    lemma_decode_rows_ids(d, 30, m, spec_thresh_map(t));
    lemma_thresh_map_no_zero(t, 30);
}

} // verus!
