//! Matching a device against the parsed database, and preset merging.
//!
//! The first entry of a parsed database is the default entry: it supplies
//! baseline descriptors for every device and is never matched itself. The
//! remaining entries are walked in file order; the first whose model
//! pattern (and firmware pattern, when non-empty) matches the device is
//! the result. Entries whose model pattern carries the USB marker belong
//! to a different transport and are skipped, as are entries whose pattern
//! the regex engine rejects.
//!
//! Patterns are matched byte-for-byte, anchored over the whole field. The
//! regex engine is trusted only through the contract of
//! [`regex_full_match`]; everything layered on it is verified.

use vstd::prelude::*;
use crate::parser::{Entry, EntryView, entries_view};
use crate::presets::{parse_blob, spec_parse_blob};
use crate::vendor_attribute::{
    Attribute,
    AttributeView,
    Type,
    attrs_view,
    attrs_map,
    unique_ids,
    lists_views,
    maps_union,
    spec_merge,
    merge,
    render,
    clone_bytes,
    lemma_attrs_map_absent,
};

verus! {

/// Rotation rate of the medium, as the device reports it.
#[derive(Debug, Clone, Copy, PartialEq, Eq, Structural)]
pub enum Rpm {
    /// Rotating media, with the rate in revolutions per minute.
    Rotating(u16),
    /// Solid-state or other non-rotating media.
    NonRotating,
    /// The device did not report a rotation rate.
    Unknown,
}

/// Identification fields of one device, trimmed and unpadded by the
/// transport layer before they reach this boundary.
#[derive(Debug)]
pub struct DeviceId {
    pub model: Vec<u8>,
    pub firmware: Vec<u8>,
    pub rpm: Rpm,
}

/// Whether the anchored, byte-oriented form of a pattern is one the regex
/// engine accepts.
pub uninterp spec fn pattern_valid(pattern: Seq<u8>) -> bool;

/// Whether the anchored, byte-oriented pattern matches the whole text.
pub uninterp spec fn pattern_matches(pattern: Seq<u8>, text: Seq<u8>) -> bool;

/// Relies on regex::bytes::Regex::new and Regex::is_match: the pattern is
/// compiled with Unicode disabled and anchored over the whole text, `new`
/// fails exactly on patterns it rejects, and whether `is_match` accepts a
/// haystack depends on the pattern and the haystack alone.
#[verifier::external_body]
fn regex_full_match(pattern: &[u8], text: &[u8]) -> (r: Option<bool>)
    ensures
        r is Some <==> pattern_valid(pattern@),
        r matches Some(b) ==> b == pattern_matches(pattern@, text@),
{
    let pattern = match core::str::from_utf8(pattern) {
        Ok(p) => p,
        Err(_) => return None,
    };
    let re = match regex::bytes::Regex::new(&format!("(?-u)^{}$", pattern)) {
        Ok(re) => re,
        Err(_) => return None,
    };
    Some(re.is_match(text))
}

/// USB-marked model pattern: the entry describes a USB bridge, keyed by
/// the `USB:` prefix, and never matches direct-attached identification.
pub open spec fn is_usb(model: Seq<u8>) -> bool {
    model.len() >= 4 && model[0] == 85 && model[1] == 83 && model[2] == 66 && model[3] == 58
}

fn starts_usb(model: &Vec<u8>) -> (r: bool)
    ensures
        r == is_usb(model@),
{
    model.len() >= 4 && model[0] == 85 && model[1] == 83 && model[2] == 66 && model[3] == 58
}

/// Whether one non-default entry matches the device's model and firmware.
pub open spec fn entry_matches(e: EntryView, model: Seq<u8>, firmware: Seq<u8>) -> bool {
    &&& !is_usb(e.model)
    &&& pattern_valid(e.model)
    &&& pattern_matches(e.model, model)
    &&& (e.firmware.len() == 0 || (pattern_valid(e.firmware) && pattern_matches(
        e.firmware,
        firmware,
    )))
}

fn matches_device(e: &Entry, id: &DeviceId) -> (r: bool)
    ensures
        r == entry_matches(e@, id.model@, id.firmware@),
{
    if starts_usb(&e.model) {
        return false;
    }
    match regex_full_match(e.model.as_slice(), id.model.as_slice()) {
        None => false,
        Some(false) => false,
        Some(true) => {
            if e.firmware.len() == 0 {
                true
            } else {
                match regex_full_match(e.firmware.as_slice(), id.firmware.as_slice()) {
                    None => false,
                    Some(b) => b,
                }
            }
        },
    }
}

/// First matching index at or after `i` among the non-default entries.
pub open spec fn match_from(db: Seq<EntryView>, i: int, model: Seq<u8>, firmware: Seq<u8>) -> Option<
    int,
>
    decreases db.len() - i,
{
    if i < 0 || i >= db.len() {
        None
    } else if entry_matches(db[i], model, firmware) {
        Some(i)
    } else {
        match_from(db, i + 1, model, firmware)
    }
}

/// Index of the first non-default entry matching the device, if any.
pub open spec fn match_index(db: Seq<EntryView>, model: Seq<u8>, firmware: Seq<u8>) -> Option<int> {
    match_from(db, 1, model, firmware)
}

/// Does a descriptor apply to a device with the given rotation type?
/// A type-specific descriptor applies only when the type agrees; no
/// type-specific descriptor applies to a device of unknown type.
pub open spec fn keep_for(a: AttributeView, rpm: Rpm) -> bool {
    match a.drivetype {
        None => true,
        Some(t) => match rpm {
            Rpm::Rotating(_) => t is HDD,
            Rpm::NonRotating => t is SSD,
            Rpm::Unknown => false,
        },
    }
}

/// The merged mapping restricted to descriptors that apply to the device.
pub open spec fn filter_map_for(m: Map<u8, AttributeView>, rpm: Rpm) -> Map<u8, AttributeView> {
    Map::new(|id: u8| m.contains_key(id) && keep_for(m[id], rpm), |id: u8| m[id])
}

/// Descriptors of `s` that apply, in order.
pub open spec fn filter_keep(s: Seq<AttributeView>, rpm: Rpm) -> Seq<AttributeView>
    decreases s.len(),
{
    if s.len() == 0 {
        Seq::empty()
    } else {
        let r = filter_keep(s.drop_last(), rpm);
        if keep_for(s.last(), rpm) {
            r.push(s.last())
        } else {
            r
        }
    }
}

pub proof fn lemma_filter_keep_map(s: Seq<AttributeView>, rpm: Rpm)
    requires
        unique_ids(s),
    ensures
        unique_ids(filter_keep(s, rpm)),
        attrs_map(filter_keep(s, rpm)) == filter_map_for(attrs_map(s), rpm),
        forall|j: int|
            0 <= j < filter_keep(s, rpm).len() ==> exists|i: int|
                0 <= i < s.len() && (#[trigger] filter_keep(s, rpm)[j]).id == s[i].id,
    decreases s.len(),
{
    if s.len() == 0 {
        assert(attrs_map(filter_keep(s, rpm)) =~= filter_map_for(attrs_map(s), rpm));
    } else {
        let s1 = s.drop_last();
        let x = s.last();
        lemma_filter_keep_map(s1, rpm);
        lemma_attrs_map_absent(s1, x.id);
        let f1 = filter_keep(s1, rpm);
        if keep_for(x, rpm) {
            assert(filter_keep(s, rpm) == f1.push(x));
            assert(f1.push(x).drop_last() =~= f1);
            assert(attrs_map(filter_keep(s, rpm)) =~= filter_map_for(attrs_map(s), rpm));
            assert forall|j: int| 0 <= j < filter_keep(s, rpm).len() implies exists|i: int|
                0 <= i < s.len() && (#[trigger] filter_keep(s, rpm)[j]).id == s[i].id by {
                if j < f1.len() {
                    let i0 = choose|i: int| 0 <= i < s1.len() && (#[trigger] f1[j]).id == s1[i].id;
                    assert(0 <= i0 < s.len() && filter_keep(s, rpm)[j].id == s[i0].id);
                } else {
                    assert(filter_keep(s, rpm)[j] == x);
                    assert(0 <= s.len() - 1 < s.len() && filter_keep(s, rpm)[j].id == s[s.len()
                        - 1].id);
                }
            }
            assert forall|i: int, j: int|
                0 <= i < j < filter_keep(s, rpm).len() implies (#[trigger] filter_keep(
                s,
                rpm,
            )[i]).id != (#[trigger] filter_keep(s, rpm)[j]).id by {
                if j == filter_keep(s, rpm).len() - 1 {
                    let i0 = choose|k: int| 0 <= k < s1.len() && (#[trigger] f1[i]).id == s1[k].id;
                    assert(s1[i0].id != x.id);
                }
            }
        } else {
            assert(filter_keep(s, rpm) == f1);
            assert(attrs_map(filter_keep(s, rpm)) =~= filter_map_for(attrs_map(s), rpm));
            assert forall|j: int| 0 <= j < filter_keep(s, rpm).len() implies exists|i: int|
                0 <= i < s.len() && (#[trigger] filter_keep(s, rpm)[j]).id == s[i].id by {
                let i0 = choose|i: int| 0 <= i < s1.len() && (#[trigger] f1[j]).id == s1[i].id;
                assert(0 <= i0 < s.len() && filter_keep(s, rpm)[j].id == s[i0].id);
            }
        }
    }
}

/// Keep the descriptors that apply to the device's rotation type.
fn filter_presets(id: &DeviceId, preset: Vec<Attribute>) -> (r: Vec<Attribute>)
    ensures
        attrs_view(r@) == filter_keep(attrs_view(preset@), id.rpm),
{
    let ghost s = attrs_view(preset@);
    let rpm = id.rpm;
    let mut out: Vec<Attribute> = Vec::new();
    let mut i: usize = 0;
    proof {
        assert(attrs_view(out@) =~= filter_keep(s.take(0), rpm));
        assert(s.take(0) =~= Seq::<AttributeView>::empty());
    }
    while i < preset.len()
        invariant
            0 <= i <= preset@.len(),
            s == attrs_view(preset@),
            rpm == id.rpm,
            attrs_view(out@) == filter_keep(s.take(i as int), rpm),
        decreases preset@.len() - i,
    {
        let a = &preset[i];
        let keep = match (&a.drivetype, rpm) {
            (None, _) => true,
            (Some(Type::HDD), Rpm::Rotating(_)) => true,
            (Some(Type::SSD), Rpm::NonRotating) => true,
            _ => false,
        };
        proof {
            assert(keep == keep_for(s[i as int], rpm));
            assert(s.take(i + 1 as int).drop_last() =~= s.take(i as int));
            assert(s.take(i + 1 as int).last() == s[i as int]);
        }
        if keep {
            let ghost o0 = out@;
            let c = crate::vendor_attribute::clone_attribute(a);
            out.push(c);
            proof {
                assert(attrs_view(out@) =~= attrs_view(o0).push(s[i as int]));
            }
        }
        i = i + 1;
    }
    proof {
        assert(s.take(s.len() as int) =~= s);
    }
    out
}

/// Matching database entry with merged presets.
#[derive(Debug)]
pub struct Match {
    /// Informal model family of the matched entry, absent without a match.
    pub family: Option<Vec<u8>>,
    /// Known-issue warning of the matched entry; absent without a match or
    /// when the matched entry carries an empty warning.
    pub warning: Option<Vec<u8>>,
    /// Merged descriptor set: default entry presets, overridden by the
    /// matched entry's presets, overridden by caller-supplied extras, then
    /// filtered by the device's rotation type.
    pub presets: Vec<Attribute>,
}

/// Mathematical value of a [`Match`].
pub struct MatchView {
    pub family: Option<Seq<u8>>,
    pub warning: Option<Seq<u8>>,
    pub presets: Seq<AttributeView>,
}

impl View for Match {
    type V = MatchView;

    open spec fn view(&self) -> MatchView {
        MatchView {
            family: match self.family {
                Some(f) => Some(f@),
                None => None,
            },
            warning: match self.warning {
                Some(w) => Some(w@),
                None => None,
            },
            presets: attrs_view(self.presets@),
        }
    }
}

impl Match {
    /// Descriptor the merged set holds for the id, if any.
    pub fn render_attribute(&self, id: u8) -> (r: Option<Attribute>)
        ensures
            match r {
                Some(a) => attrs_map(self@.presets).contains_key(id) && a@ == attrs_map(
                    self@.presets,
                )[id],
                None => !attrs_map(self@.presets).contains_key(id),
            },
    {
        render(&self.presets, id)
    }
}

/// The descriptor mapping a match outcome denotes, before rotation-type
/// filtering: default presets, then the matched entry's presets when an
/// entry matched, then caller-supplied extras, later sources winning.
pub open spec fn merged_map(
    db: Seq<EntryView>,
    mi: Option<int>,
    extra: Seq<AttributeView>,
) -> Map<u8, AttributeView> {
    let base = attrs_map(spec_parse_blob(db[0].presets));
    let with_entry = match mi {
        Some(i) => base.union_prefer_right(attrs_map(spec_parse_blob(db[i].presets))),
        None => base,
    };
    with_entry.union_prefer_right(attrs_map(extra))
}

/// Match a device against the database.
///
/// The first entry is the default entry and must exist; entries are tried
/// in file order and the first one matching wins; USB-marked entries and
/// entries with patterns the engine rejects are skipped. The result
/// carries the matched entry's family and warning (absent without a
/// match, and an empty warning is normalized to absent) and the merged,
/// rotation-filtered descriptor set.
pub fn match_entry(id: &DeviceId, db: &Vec<Entry>, extra_attributes: Vec<Attribute>) -> (r: Match)
    requires
        db@.len() >= 1,
    ensures
        ({
            let dv = entries_view(db@);
            let mi = match_index(dv, id.model@, id.firmware@);
            &&& unique_ids(r@.presets)
            &&& attrs_map(r@.presets) == filter_map_for(
                merged_map(dv, mi, attrs_view(extra_attributes@)),
                id.rpm,
            )
            &&& match mi {
                Some(i) => r@.presets == filter_keep(
                    spec_merge(
                        seq![
                            spec_parse_blob(dv[0].presets),
                            spec_parse_blob(dv[i].presets),
                            attrs_view(extra_attributes@),
                        ],
                    ),
                    id.rpm,
                ),
                None => r@.presets == filter_keep(
                    spec_merge(
                        seq![spec_parse_blob(dv[0].presets), attrs_view(extra_attributes@)],
                    ),
                    id.rpm,
                ),
            }
            &&& match mi {
                Some(i) => r@.family == Some(dv[i].family) && (if dv[i].warning.len() > 0 {
                    r@.warning == Some(dv[i].warning)
                } else {
                    r@.warning is None
                }),
                None => r@.family is None && r@.warning is None,
            }
        }),
{
    let ghost dv = entries_view(db@);
    let ghost m = id.model@;
    let ghost f = id.firmware@;
    let ghost exv = attrs_view(extra_attributes@);
    let mut found: Option<usize> = None;
    let mut i: usize = 1;
    while i < db.len() && found.is_none()
        invariant
            1 <= i <= db@.len(),
            dv == entries_view(db@),
            m == id.model@,
            f == id.firmware@,
            found is None ==> i <= db@.len() && match_from(dv, 1, m, f) == match_from(
                dv,
                i as int,
                m,
                f,
            ),
            found matches Some(j) ==> j == i && 1 <= i < db@.len() && match_index(dv, m, f)
                == Some(i as int),
        decreases db@.len() - i + (if found is None { 1int } else { 0int }),
    {
        if matches_device(&db[i], id) {
            proof {
                assert(dv[i as int] == db@[i as int]@);
                assert(match_from(dv, i as int, m, f) == Some(i as int));
            }
            found = Some(i);
        } else {
            proof {
                assert(dv[i as int] == db@[i as int]@);
            }
            i = i + 1;
        }
    }
    let ghost mi = match_index(dv, m, f);
    proof {
        if found is None {
            assert(match_from(dv, i as int, m, f) is None);
        }
    }
    match found {
        Some(idx) => {
            let dp = parse_blob(db[0].presets.as_slice());
            let ep = parse_blob(db[idx].presets.as_slice());
            let mut lists: Vec<Vec<Attribute>> = Vec::new();
            lists.push(dp);
            lists.push(ep);
            lists.push(extra_attributes);
            let ghost lv = lists_views(lists@);
            let merged = merge(lists);
            proof {
                assert(lv.len() == 3);
                assert(lv[0] == spec_parse_blob(dv[0].presets));
                assert(lv[1] == spec_parse_blob(dv[idx as int].presets));
                assert(lv[2] == exv);
                assert(lv =~= seq![
                    spec_parse_blob(dv[0].presets),
                    spec_parse_blob(dv[idx as int].presets),
                    exv,
                ]);
                assert(maps_union(lv, 3) == maps_union(lv, 2).union_prefer_right(attrs_map(lv[2])));
                assert(maps_union(lv, 2) == maps_union(lv, 1).union_prefer_right(attrs_map(lv[1])));
                assert(maps_union(lv, 1) == maps_union(lv, 0).union_prefer_right(attrs_map(lv[0])));
                assert(Map::<u8, AttributeView>::empty().union_prefer_right(attrs_map(lv[0]))
                    =~= attrs_map(lv[0]));
                assert(maps_union(lv, 3) == merged_map(dv, mi, lv[2]));
                lemma_filter_keep_map(attrs_view(merged@), id.rpm);
            }
            let presets = filter_presets(id, merged);
            let family = Some(clone_bytes(&db[idx].family));
            let warning = if db[idx].warning.len() > 0 {
                Some(clone_bytes(&db[idx].warning))
            } else {
                None
            };
            Match { family, warning, presets }
        },
        None => {
            let dp = parse_blob(db[0].presets.as_slice());
            let mut lists: Vec<Vec<Attribute>> = Vec::new();
            lists.push(dp);
            lists.push(extra_attributes);
            let ghost lv = lists_views(lists@);
            let merged = merge(lists);
            proof {
                assert(lv.len() == 2);
                assert(lv[0] == spec_parse_blob(dv[0].presets));
                assert(lv[1] == exv);
                assert(lv =~= seq![spec_parse_blob(dv[0].presets), exv]);
                assert(maps_union(lv, 2) == maps_union(lv, 1).union_prefer_right(attrs_map(lv[1])));
                assert(maps_union(lv, 1) == maps_union(lv, 0).union_prefer_right(attrs_map(lv[0])));
                assert(Map::<u8, AttributeView>::empty().union_prefer_right(attrs_map(lv[0]))
                    =~= attrs_map(lv[0]));
                assert(maps_union(lv, 2) == merged_map(dv, mi, lv[1]));
                lemma_filter_keep_map(attrs_view(merged@), id.rpm);
            }
            let presets = filter_presets(id, merged);
            Match { family: None, warning: None, presets }
        },
    }
}

/// With a single-entry database there is nothing to match: every lookup
/// falls back to the default entry's descriptors alone.
pub proof fn lemma_default_always_available(db: Seq<EntryView>, model: Seq<u8>, firmware: Seq<u8>)
    requires
        db.len() == 1,
    ensures
        match_index(db, model, firmware) is None,
{
}

proof fn lemma_match_from_found(db: Seq<EntryView>, j: int, model: Seq<u8>, firmware: Seq<u8>)
    ensures
        match_from(db, j, model, firmware) matches Some(k) ==> j <= k < db.len() && entry_matches(
            db[k],
            model,
            firmware,
        ),
    decreases db.len() - j,
{
    if 0 <= j && j < db.len() && !entry_matches(db[j], model, firmware) {
        lemma_match_from_found(db, j + 1, model, firmware);
    }
}

proof fn lemma_match_from_le(db: Seq<EntryView>, j: int, i: int, model: Seq<u8>, firmware: Seq<u8>)
    requires
        0 <= j <= i < db.len(),
        entry_matches(db[i], model, firmware),
    ensures
        match_from(db, j, model, firmware) matches Some(k) && j <= k <= i,
    decreases db.len() - j,
{
    if j < i && !entry_matches(db[j], model, firmware) {
        lemma_match_from_le(db, j + 1, i, model, firmware);
    }
}

/// First match wins: when an entry at index `i` matches, the selected
/// index exists and is never later than `i`; in particular, of two
/// matching entries the earlier one in file order is selected.
pub proof fn lemma_first_match_wins(
    db: Seq<EntryView>,
    model: Seq<u8>,
    firmware: Seq<u8>,
    i: int,
)
    requires
        1 <= i < db.len(),
        entry_matches(db[i], model, firmware),
    ensures
        match_index(db, model, firmware) matches Some(k) && 1 <= k <= i,
{
    lemma_match_from_le(db, 1, i, model, firmware);
}

/// A USB-marked entry is never the selected match, whatever its pattern
/// would otherwise match.
pub proof fn lemma_usb_never_matches(
    db: Seq<EntryView>,
    model: Seq<u8>,
    firmware: Seq<u8>,
    i: int,
)
    requires
        0 <= i < db.len(),
        is_usb(db[i].model),
    ensures
        match_index(db, model, firmware) != Some(i),
{
    lemma_match_from_found(db, 1, model, firmware);
}

/// Merge override order, later source wins: an id present in the later
/// source is taken from it.
pub proof fn lemma_later_source_wins(
    m1: Map<u8, AttributeView>,
    m2: Map<u8, AttributeView>,
    id: u8,
)
    requires
        m2.contains_key(id),
    ensures
        m1.union_prefer_right(m2).contains_key(id),
        m1.union_prefer_right(m2)[id] == m2[id],
{
}

/// Merge override order, absent keys survive: an id present only in the
/// earlier source keeps the earlier source's descriptor.
pub proof fn lemma_earlier_source_survives(
    m1: Map<u8, AttributeView>,
    m2: Map<u8, AttributeView>,
    id: u8,
)
    requires
        m1.contains_key(id),
        !m2.contains_key(id),
    ensures
        m1.union_prefer_right(m2).contains_key(id),
        m1.union_prefer_right(m2)[id] == m1[id],
{
}

/// Merge override order at the match outcome: the caller's overrides win
/// over both entries; the matched entry's descriptors win over the
/// default entry's; the default entry's survive where nothing overrides
/// them.
pub proof fn lemma_match_presets_override(
    db: Seq<EntryView>,
    i: int,
    extra: Seq<AttributeView>,
    id: u8,
)
    ensures
        attrs_map(extra).contains_key(id) ==> merged_map(db, Some(i), extra)[id] == attrs_map(
            extra,
        )[id],
        attrs_map(spec_parse_blob(db[i].presets)).contains_key(id) && !attrs_map(
            extra,
        ).contains_key(id) ==> merged_map(db, Some(i), extra)[id] == attrs_map(
            spec_parse_blob(db[i].presets),
        )[id],
        attrs_map(spec_parse_blob(db[0].presets)).contains_key(id) && !attrs_map(
            spec_parse_blob(db[i].presets),
        ).contains_key(id) && !attrs_map(extra).contains_key(id) ==> merged_map(
            db,
            Some(i),
            extra,
        )[id] == attrs_map(spec_parse_blob(db[0].presets))[id],
{
}

/// Drive-type filtering: a type-agnostic descriptor always survives the
/// rotation filter unchanged; a type-specific descriptor survives exactly
/// when the device's rotation type agrees, and never when the rotation
/// type is unknown.
pub proof fn lemma_drive_type_filter(m: Map<u8, AttributeView>, rpm: Rpm, id: u8)
    requires
        m.contains_key(id),
    ensures
        filter_map_for(m, rpm).contains_key(id) <==> keep_for(m[id], rpm),
        filter_map_for(m, rpm).contains_key(id) ==> filter_map_for(m, rpm)[id] == m[id],
        m[id].drivetype is None ==> filter_map_for(m, rpm).contains_key(id) && filter_map_for(
            m,
            rpm,
        )[id] == m[id],
        m[id].drivetype is Some && rpm is Unknown ==> !filter_map_for(m, rpm).contains_key(id),
        m[id].drivetype == Some(Type::SSD) && rpm is Rotating ==> !filter_map_for(
            m,
            rpm,
        ).contains_key(id),
        m[id].drivetype == Some(Type::HDD) && rpm is NonRotating ==> !filter_map_for(
            m,
            rpm,
        ).contains_key(id),
{
}

} // verus!
