//! Lazy, tolerant parsing of an entry's preset blob, and preset merging.
//!
//! A preset blob is free text maintained inside the database: expressions
//! separated by `;`, each one a descriptor expression as understood by
//! [`crate::vendor_attribute::parse`]. The blob is parsed only when an
//! entry actually takes part in a merge, and a malformed expression inside
//! it is skipped rather than failing the merge — unlike a caller-supplied
//! override, which is parsed eagerly and reports its failure.

use vstd::prelude::*;
use crate::vendor_attribute::{
    Attribute,
    AttributeView,
    attrs_view,
    attrs_map,
    unique_ids,
    merge_upto,
    spec_parse_descriptor,
    find_in,
    lemma_find_in_bounds,
    lemma_merge_upto_props,
    parse,
    clone_attribute,
    lex_find,
    subvec,
};

verus! {

pub const SEMI: u8 = 59;

/// Descriptors denoted by the blob from `lo` on: `;`-separated
/// expressions, the malformed ones skipped.
pub open spec fn blob_from(s: Seq<u8>, lo: int) -> Seq<AttributeView>
    decreases s.len() - lo,
        via blob_from_dec
{
    if lo < 0 || lo > s.len() {
        Seq::empty()
    } else {
        let p = find_in(s, lo, s.len() as int, SEMI);
        let head = match spec_parse_descriptor(s.subrange(lo, p)) {
            Some(a) => seq![a],
            None => Seq::empty(),
        };
        if p >= s.len() {
            head
        } else {
            head + blob_from(s, p + 1)
        }
    }
}

#[via_fn]
proof fn blob_from_dec(s: Seq<u8>, lo: int) {
    if 0 <= lo <= s.len() {
        lemma_find_in_bounds(s, lo, s.len() as int, SEMI);
    }
}

/// Descriptors denoted by a whole preset blob.
pub open spec fn spec_parse_blob(s: Seq<u8>) -> Seq<AttributeView> {
    blob_from(s, 0)
}


fn parse_blob_from(s: &[u8], lo: usize) -> (r: Vec<Attribute>)
    requires
        lo <= s@.len(),
    ensures
        attrs_view(r@) == blob_from(s@, lo as int),
    decreases s@.len() - lo,
{
    let p = lex_find(s, lo, s.len(), SEMI);
    let piece = subvec(s, lo, p);
    let head = match parse(piece.as_slice()) {
        Ok(a) => Some(a),
        Err(_) => None,
    };
    if p >= s.len() {
        match head {
            Some(a) => {
                let mut v: Vec<Attribute> = Vec::new();
                v.push(a);
                proof {
                    assert(attrs_view(v@) =~= blob_from(s@, lo as int));
                }
                v
            },
            None => {
                let v: Vec<Attribute> = Vec::new();
                proof {
                    assert(attrs_view(v@) =~= blob_from(s@, lo as int));
                }
                v
            },
        }
    } else {
        let mut rest = parse_blob_from(s, p + 1);
        match head {
            Some(a) => {
                let ghost r0 = rest@;
                rest.insert(0, a);
                proof {
                    assert(attrs_view(rest@) =~= seq![a@] + attrs_view(r0));
                }
                rest
            },
            None => {
                proof {
                    assert(Seq::<AttributeView>::empty() + attrs_view(rest@) =~= attrs_view(
                        rest@,
                    ));
                }
                rest
            },
        }
    }
}

/// Parse a preset blob tolerantly: each well-formed expression yields a
/// descriptor, malformed ones are skipped, and nothing fails.
pub fn parse_blob(blob: &[u8]) -> (r: Vec<Attribute>)
    ensures
        attrs_view(r@) == spec_parse_blob(blob@),
{
    parse_blob_from(blob, 0)
}

/// Optional descriptor list as the descriptor sequence it denotes.
pub open spec fn opt_attrs_view(v: Option<Seq<Attribute>>) -> Seq<AttributeView> {
    match v {
        Some(s) => attrs_view(s),
        None => Seq::empty(),
    }
}

/// Merge an optional default descriptor list with an optional
/// drive-specific one; on an id collision the drive-specific descriptor
/// wins.
pub fn merge_presets(default: &Option<Vec<Attribute>>, drive: &Option<Vec<Attribute>>) -> (r: Vec<
    Attribute,
>)
    ensures
        unique_ids(attrs_view(r@)),
        attrs_map(attrs_view(r@)) == attrs_map(
            opt_attrs_view(
                match default {
                    Some(d) => Some(d@),
                    None => None,
                },
            ),
        ).union_prefer_right(
            attrs_map(
                opt_attrs_view(
                    match drive {
                        Some(d) => Some(d@),
                        None => None,
                    },
                ),
            ),
        ),
{
    let mut acc: Vec<Attribute> = Vec::new();
    let ghost dv = opt_attrs_view(
        match default {
            Some(d) => Some(d@),
            None => None,
        },
    );
    let ghost ev = opt_attrs_view(
        match drive {
            Some(d) => Some(d@),
            None => None,
        },
    );
    merge_into(&mut acc, default);
    proof {
        assert(attrs_view(Seq::<Attribute>::empty()) =~= Seq::<AttributeView>::empty());
        lemma_merge_upto_props(Seq::empty(), dv, dv.len() as int);
        assert(dv.take(dv.len() as int) =~= dv);
        assert(Map::<u8, AttributeView>::empty().union_prefer_right(attrs_map(dv)) =~= attrs_map(
            dv,
        ));
    }
    merge_into(&mut acc, drive);
    proof {
        lemma_merge_upto_props(merge_upto(Seq::empty(), dv, dv.len() as int), ev, ev.len() as int);
        assert(ev.take(ev.len() as int) =~= ev);
    }
    acc
}

/// Fold every descriptor of the optional list into the accumulator by id.
fn merge_into(acc: &mut Vec<Attribute>, src: &Option<Vec<Attribute>>)
    ensures
        attrs_view(final(acc)@) == merge_upto(
            attrs_view(old(acc)@),
            opt_attrs_view(
                match src {
                    Some(s) => Some(s@),
                    None => None,
                },
            ),
            opt_attrs_view(
                match src {
                    Some(s) => Some(s@),
                    None => None,
                },
            ).len() as int,
        ),
{
    let ghost a0 = attrs_view(acc@);
    match src {
        None => (),
        Some(list) => {
            let mut j: usize = 0;
            while j < list.len()
                invariant
                    0 <= j <= list@.len(),
                    attrs_view(acc@) == merge_upto(a0, attrs_view(list@), j as int),
                decreases list@.len() - j,
            {
                let a = clone_attribute(&list[j]);
                crate::vendor_attribute::upsert(acc, a);
                j = j + 1;
            }
        },
    }
}

} // verus!
