//! Drive-database matching and SMART attribute decoding.
//!
//! The library parses the semi-structured text database of drive entries,
//! matches a device's reported model/firmware against those entries,
//! merges per-entry attribute presets into one descriptor set, and decodes
//! the raw binary SMART attribute and threshold tables into typed records.
//!
//! File and device I/O stay with the caller: every function here is a pure
//! transformation from plain values to plain values.

use vstd::prelude::*;

pub mod ata;
pub mod attr;
pub mod drivedb;
pub mod parser;
pub mod presets;
pub mod vendor_attribute;

verus! {

/// Errors surfaced by the database loading and descriptor parsing entry
/// points. `Io` is never produced by this crate's own functions; it is the
/// variant a caller maps its file-read failures onto, so that one error type
/// covers a whole load attempt.
#[derive(Debug, Clone, Copy, PartialEq, Eq, Structural)]
pub enum Error {
    /// The caller could not read the database file.
    Io,
    /// The database text is malformed; no partial result is returned.
    Parse,
    /// The database parsed but holds no entries, so the mandatory default
    /// entry is missing.
    NoEntries,
    /// A single attribute preset expression is malformed.
    Descriptor,
}

/// Render a support flag the way reports print it.
pub fn bool_to_sup(b: bool) -> (r: &'static str)
    ensures
        b ==> r@ == "supported"@,
        !b ==> r@ == "not supported"@,
{
    if b {
        "supported"
    } else {
        "not supported"
    }
}

} // verus!
