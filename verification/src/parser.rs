//! Text parser for the drive database.
//!
//! The database is a sequence of bracketed records. A record holds six
//! positional string-literal fields: model pattern, alternate model pattern
//! (accepted for compatibility with other consumers of the format, not
//! retained), firmware pattern, family display name, warning text, and the
//! free-text preset blob. Records are separated by commas and newlines;
//! line comments and blank lines are ignored; adjacent string literals
//! concatenate; a trailing comma before the closing bracket is tolerated.
//!
//! The grammar is written once as spec functions over the raw bytes; the
//! executable parser is proved to return exactly what the spec functions
//! denote, so parsing is a pure function of the input bytes.

use vstd::prelude::*;
use crate::Error;

verus! {

pub const QUOTE: u8 = 34;
pub const BACKSLASH: u8 = 92;
pub const LBRACE: u8 = 123;
pub const RBRACE: u8 = 125;
pub const COMMA: u8 = 44;
pub const SLASH: u8 = 47;
pub const LF: u8 = 10;

/// One database record, patterns and display strings as ASCII bytes.
#[derive(Debug)]
pub struct Entry {
    /// Anchored pattern the device model is matched against.
    pub model: Vec<u8>,
    /// Anchored pattern for the firmware revision; empty means match-any.
    pub firmware: Vec<u8>,
    /// Informal model family display string.
    pub family: Vec<u8>,
    /// Known-issue warning to show for matching drives; empty means none.
    pub warning: Vec<u8>,
    /// Unparsed preset blob; split and parsed lazily during merging.
    pub presets: Vec<u8>,
}

/// Mathematical value of an [`Entry`].
pub struct EntryView {
    pub model: Seq<u8>,
    pub firmware: Seq<u8>,
    pub family: Seq<u8>,
    pub warning: Seq<u8>,
    pub presets: Seq<u8>,
}

impl View for Entry {
    type V = EntryView;

    open spec fn view(&self) -> EntryView {
        EntryView {
            model: self.model@,
            firmware: self.firmware@,
            family: self.family@,
            warning: self.warning@,
            presets: self.presets@,
        }
    }
}

pub open spec fn entries_view(s: Seq<Entry>) -> Seq<EntryView> {
    s.map_values(|e: Entry| e@)
}

pub open spec fn is_space(b: u8) -> bool {
    b == 32 || b == 9 || b == 13 || b == LF
}

/// Index just past the next line feed at or after `i`, or the end of input.
pub open spec fn line_end(s: Seq<u8>, i: int) -> int
    decreases s.len() - i,
{
    if i < 0 || i >= s.len() {
        s.len() as int
    } else if s[i] == LF {
        i + 1
    } else {
        line_end(s, i + 1)
    }
}

pub proof fn lemma_line_end_bounds(s: Seq<u8>, i: int)
    requires
        0 <= i <= s.len(),
    ensures
        i <= line_end(s, i) <= s.len(),
    decreases s.len() - i,
{
    if i < s.len() && s[i] != LF {
        lemma_line_end_bounds(s, i + 1);
    }
}

/// Skip whitespace and line comments.
pub open spec fn skip_trivia(s: Seq<u8>, i: int) -> int
    decreases s.len() - i,
        via skip_trivia_dec
{
    if i < 0 || i >= s.len() {
        s.len() as int
    } else if is_space(s[i]) {
        skip_trivia(s, i + 1)
    } else if s[i] == SLASH && i + 1 < s.len() && s[i + 1] == SLASH {
        skip_trivia(s, line_end(s, i + 2))
    } else {
        i
    }
}

#[via_fn]
proof fn skip_trivia_dec(s: Seq<u8>, i: int) {
    if 0 <= i && i < s.len() && !is_space(s[i]) && s[i] == SLASH && i + 1 < s.len() && s[i + 1]
        == SLASH {
        lemma_line_end_bounds(s, i + 2);
    }
}

pub proof fn lemma_skip_trivia_bounds(s: Seq<u8>, i: int)
    requires
        0 <= i <= s.len(),
    ensures
        i <= skip_trivia(s, i) <= s.len(),
    decreases s.len() - i,
{
    if i < s.len() {
        if is_space(s[i]) {
            lemma_skip_trivia_bounds(s, i + 1);
        } else if s[i] == SLASH && i + 1 < s.len() && s[i + 1] == SLASH {
            lemma_line_end_bounds(s, i + 2);
            lemma_skip_trivia_bounds(s, line_end(s, i + 2));
        }
    }
}

/// Skip whitespace, line comments and the commas that separate records.
pub open spec fn skip_sep(s: Seq<u8>, i: int) -> int
    decreases s.len() - i,
        via skip_sep_dec
{
    if i < 0 || i >= s.len() {
        s.len() as int
    } else if is_space(s[i]) || s[i] == COMMA {
        skip_sep(s, i + 1)
    } else if s[i] == SLASH && i + 1 < s.len() && s[i + 1] == SLASH {
        skip_sep(s, line_end(s, i + 2))
    } else {
        i
    }
}

#[via_fn]
proof fn skip_sep_dec(s: Seq<u8>, i: int) {
    if 0 <= i && i < s.len() && !(is_space(s[i]) || s[i] == COMMA) && s[i] == SLASH && i + 1
        < s.len() && s[i + 1] == SLASH {
        lemma_line_end_bounds(s, i + 2);
    }
}

pub proof fn lemma_skip_sep_bounds(s: Seq<u8>, i: int)
    requires
        0 <= i <= s.len(),
    ensures
        i <= skip_sep(s, i) <= s.len(),
    decreases s.len() - i,
{
    if i < s.len() {
        if is_space(s[i]) || s[i] == COMMA {
            lemma_skip_sep_bounds(s, i + 1);
        } else if s[i] == SLASH && i + 1 < s.len() && s[i + 1] == SLASH {
            lemma_line_end_bounds(s, i + 2);
            lemma_skip_sep_bounds(s, line_end(s, i + 2));
        }
    }
}

/// Replacement for a backslash-escaped character inside a string literal.
pub open spec fn unescape(b: u8) -> u8 {
    if b == 110 {  // 'n'
        LF
    } else if b == 116 {  // 't'
        9
    } else if b == 114 {  // 'r'
        13
    } else if b == 48 {  // '0'
        0
    } else {
        b
    }
}

/// Body of a string literal, entered just after the opening quote; yields
/// the unescaped content and the index just past the closing quote.
pub open spec fn lit_body(s: Seq<u8>, i: int) -> Option<(Seq<u8>, int)>
    decreases s.len() - i,
{
    if i < 0 || i >= s.len() {
        None
    } else if s[i] == QUOTE {
        Some((Seq::empty(), i + 1))
    } else if s[i] == BACKSLASH {
        if i + 1 < s.len() {
            match lit_body(s, i + 2) {
                Some((t, j)) => Some((seq![unescape(s[i + 1])] + t, j)),
                None => None,
            }
        } else {
            None
        }
    } else {
        match lit_body(s, i + 1) {
            Some((t, j)) => Some((seq![s[i]] + t, j)),
            None => None,
        }
    }
}

pub proof fn lemma_lit_body_progress(s: Seq<u8>, i: int)
    ensures
        lit_body(s, i) matches Some((t, j)) ==> i + 1 <= j <= s.len(),
    decreases s.len() - i,
{
    if 0 <= i && i < s.len() {
        if s[i] == QUOTE {
        } else if s[i] == BACKSLASH {
            if i + 1 < s.len() {
                lemma_lit_body_progress(s, i + 2);
            }
        } else {
            lemma_lit_body_progress(s, i + 1);
        }
    }
}

/// One field: one or more string literals separated by trivia, concatenated.
pub open spec fn parse_field(s: Seq<u8>, i: int) -> Option<(Seq<u8>, int)>
    decreases s.len() - i,
        via parse_field_dec
{
    if i < 0 || i >= s.len() || s[i] != QUOTE {
        None
    } else {
        match lit_body(s, i + 1) {
            None => None,
            Some((t, j)) => {
                let k = skip_trivia(s, j);
                if k < s.len() && s[k] == QUOTE {
                    match parse_field(s, k) {
                        Some((t2, m)) => Some((t + t2, m)),
                        None => None,
                    }
                } else {
                    Some((t, j))
                }
            },
        }
    }
}

#[via_fn]
proof fn parse_field_dec(s: Seq<u8>, i: int) {
    if 0 <= i && i < s.len() && s[i] == QUOTE {
        lemma_lit_body_progress(s, i + 1);
        match lit_body(s, i + 1) {
            Some((t, j)) => lemma_skip_trivia_bounds(s, j),
            None => (),
        }
    }
}

pub proof fn lemma_parse_field_progress(s: Seq<u8>, i: int)
    ensures
        parse_field(s, i) matches Some((t, j)) ==> i + 1 <= j <= s.len(),
    decreases s.len() - i,
{
    if 0 <= i && i < s.len() && s[i] == QUOTE {
        lemma_lit_body_progress(s, i + 1);
        match lit_body(s, i + 1) {
            Some((t, j)) => {
                lemma_skip_trivia_bounds(s, j);
                let k = skip_trivia(s, j);
                if k < s.len() && s[k] == QUOTE {
                    lemma_parse_field_progress(s, k);
                }
            },
            None => (),
        }
    }
}

/// A comma and then a field, both sides of the comma surrounded by trivia.
pub open spec fn parse_sep_field(s: Seq<u8>, i: int) -> Option<(Seq<u8>, int)> {
    let j = skip_trivia(s, i);
    if j < s.len() && s[j] == COMMA {
        parse_field(s, skip_trivia(s, j + 1))
    } else {
        None
    }
}

pub proof fn lemma_parse_sep_field_progress(s: Seq<u8>, i: int)
    requires
        0 <= i <= s.len(),
    ensures
        parse_sep_field(s, i) matches Some((t, j)) ==> i < j <= s.len(),
{
    lemma_skip_trivia_bounds(s, i);
    let j = skip_trivia(s, i);
    if j < s.len() && s[j] == COMMA {
        lemma_skip_trivia_bounds(s, j + 1);
        lemma_parse_field_progress(s, skip_trivia(s, j + 1));
    }
}

/// One bracketed record of six fields; `i` points at the opening bracket.
pub open spec fn parse_record(s: Seq<u8>, i: int) -> Option<(EntryView, int)> {
    if i < 0 || i >= s.len() || s[i] != LBRACE {
        None
    } else {
        match parse_field(s, skip_trivia(s, i + 1)) {
            None => None,
            Some((model, i1)) => match parse_sep_field(s, i1) {
                None => None,
                Some((_alt_model, i2)) => match parse_sep_field(s, i2) {
                    None => None,
                    Some((firmware, i3)) => match parse_sep_field(s, i3) {
                        None => None,
                        Some((family, i4)) => match parse_sep_field(s, i4) {
                            None => None,
                            Some((warning, i5)) => match parse_sep_field(s, i5) {
                                None => None,
                                Some((presets, i6)) => {
                                    let j = skip_trivia(s, i6);
                                    let k = if j < s.len() && s[j] == COMMA {
                                        skip_trivia(s, j + 1)
                                    } else {
                                        j
                                    };
                                    if k < s.len() && s[k] == RBRACE {
                                        Some(
                                            (
                                                EntryView { model, firmware, family, warning, presets },
                                                k + 1,
                                            ),
                                        )
                                    } else {
                                        None
                                    }
                                },
                            },
                        },
                    },
                },
            },
        }
    }
}

pub proof fn lemma_parse_record_progress(s: Seq<u8>, i: int)
    ensures
        parse_record(s, i) matches Some((e, j)) ==> i < j <= s.len(),
{
    if 0 <= i && i < s.len() && s[i] == LBRACE {
        lemma_skip_trivia_bounds(s, i + 1);
        lemma_parse_field_progress(s, skip_trivia(s, i + 1));
        match parse_field(s, skip_trivia(s, i + 1)) {
            None => (),
            Some((model, i1)) => {
                lemma_parse_sep_field_progress(s, i1);
                match parse_sep_field(s, i1) {
                    None => (),
                    Some((a, i2)) => {
                        lemma_parse_sep_field_progress(s, i2);
                        match parse_sep_field(s, i2) {
                            None => (),
                            Some((b, i3)) => {
                                lemma_parse_sep_field_progress(s, i3);
                                match parse_sep_field(s, i3) {
                                    None => (),
                                    Some((c, i4)) => {
                                        lemma_parse_sep_field_progress(s, i4);
                                        match parse_sep_field(s, i4) {
                                            None => (),
                                            Some((d, i5)) => {
                                                lemma_parse_sep_field_progress(s, i5);
                                                match parse_sep_field(s, i5) {
                                                    None => (),
                                                    Some((e, i6)) => {
                                                        lemma_skip_trivia_bounds(s, i6);
                                                        let j = skip_trivia(s, i6);
                                                        if j < s.len() && s[j] == COMMA {
                                                            lemma_skip_trivia_bounds(s, j + 1);
                                                        }
                                                    },
                                                }
                                            },
                                        }
                                    },
                                }
                            },
                        }
                    },
                }
            },
        }
    }
}

/// The whole database from `i` on: records until the input is exhausted.
pub open spec fn parse_entries(s: Seq<u8>, i: int) -> Option<Seq<EntryView>>
    decreases s.len() - i,
        via parse_entries_dec
{
    if i < 0 || i > s.len() {
        None
    } else {
        let j = skip_sep(s, i);
        if j >= s.len() {
            Some(Seq::empty())
        } else {
            match parse_record(s, j) {
                None => None,
                Some((e, k)) => match parse_entries(s, k) {
                    Some(rest) => Some(seq![e] + rest),
                    None => None,
                },
            }
        }
    }
}

#[via_fn]
proof fn parse_entries_dec(s: Seq<u8>, i: int) {
    if 0 <= i && i <= s.len() {
        lemma_skip_sep_bounds(s, i);
        let j = skip_sep(s, i);
        if j < s.len() {
            lemma_parse_record_progress(s, j);
        }
    }
}

/// What a database text denotes: its entry sequence, or nothing when the
/// text is malformed at any point.
pub open spec fn spec_parse_database(s: Seq<u8>) -> Option<Seq<EntryView>> {
    parse_entries(s, 0)
}

/// Parsing is a pure function of the database bytes: two parses of equal
/// inputs denote equal entry sequences.
pub proof fn lemma_parse_deterministic(s1: Seq<u8>, s2: Seq<u8>)
    requires
        s1 == s2,
    ensures
        spec_parse_database(s1) == spec_parse_database(s2),
{
}

fn lex_line_end(s: &[u8], i: usize) -> (r: usize)
    requires
        i <= s@.len(),
    ensures
        r == line_end(s@, i as int),
        i <= r <= s@.len(),
    decreases s@.len() - i,
{
    if i >= s.len() {
        s.len()
    } else if s[i] == LF {
        i + 1
    } else {
        lex_line_end(s, i + 1)
    }
}

fn lex_skip_trivia(s: &[u8], i: usize) -> (r: usize)
    requires
        i <= s@.len(),
    ensures
        r == skip_trivia(s@, i as int),
        i <= r <= s@.len(),
    decreases s@.len() - i,
{
    if i >= s.len() {
        s.len()
    } else {
        let b = s[i];
        if b == 32 || b == 9 || b == 13 || b == LF {
            lex_skip_trivia(s, i + 1)
        } else if b == SLASH && i + 1 < s.len() && s[i + 1] == SLASH {
            let j = lex_line_end(s, i + 2);
            lex_skip_trivia(s, j)
        } else {
            i
        }
    }
}

fn lex_skip_sep(s: &[u8], i: usize) -> (r: usize)
    requires
        i <= s@.len(),
    ensures
        r == skip_sep(s@, i as int),
        i <= r <= s@.len(),
    decreases s@.len() - i,
{
    if i >= s.len() {
        s.len()
    } else {
        let b = s[i];
        if b == 32 || b == 9 || b == 13 || b == LF || b == COMMA {
            lex_skip_sep(s, i + 1)
        } else if b == SLASH && i + 1 < s.len() && s[i + 1] == SLASH {
            let j = lex_line_end(s, i + 2);
            lex_skip_sep(s, j)
        } else {
            i
        }
    }
}

fn unescape_byte(b: u8) -> (r: u8)
    ensures
        r == unescape(b),
{
    if b == 110 {
        LF
    } else if b == 116 {
        9
    } else if b == 114 {
        13
    } else if b == 48 {
        0
    } else {
        b
    }
}

fn lex_lit_body(s: &[u8], i: usize) -> (r: Option<(Vec<u8>, usize)>)
    requires
        i <= s@.len(),
    ensures
        r matches Some((t, j)) ==> lit_body(s@, i as int) == Some((t@, j as int)) && i < j
            <= s@.len(),
        r is None ==> lit_body(s@, i as int) is None,
    decreases s@.len() - i,
{
    if i >= s.len() {
        return None;
    }
    let b = s[i];
    if b == QUOTE {
        Some((Vec::new(), i + 1))
    } else if b == BACKSLASH {
        if i + 1 < s.len() {
            match lex_lit_body(s, i + 2) {
                Some((mut t, j)) => {
                    let ghost t0 = t@;
                    t.insert(0, unescape_byte(s[i + 1]));
                    proof {
                        assert(t@ =~= seq![unescape(s@[i as int + 1])] + t0);
                    }
                    Some((t, j))
                },
                None => None,
            }
        } else {
            None
        }
    } else {
        match lex_lit_body(s, i + 1) {
            Some((mut t, j)) => {
                let ghost t0 = t@;
                t.insert(0, b);
                proof {
                    assert(t@ =~= seq![s@[i as int]] + t0);
                }
                Some((t, j))
            },
            None => None,
        }
    }
}

fn lex_field(s: &[u8], i: usize) -> (r: Option<(Vec<u8>, usize)>)
    requires
        i <= s@.len(),
    ensures
        r matches Some((t, j)) ==> parse_field(s@, i as int) == Some((t@, j as int)) && i < j
            <= s@.len(),
        r is None ==> parse_field(s@, i as int) is None,
    decreases s@.len() - i,
{
    if i >= s.len() || s[i] != QUOTE {
        return None;
    }
    match lex_lit_body(s, i + 1) {
        None => None,
        Some((mut t, j)) => {
            let k = lex_skip_trivia(s, j);
            if k < s.len() && s[k] == QUOTE {
                match lex_field(s, k) {
                    Some((mut t2, m)) => {
                        let ghost t0 = t@;
                        t.append(&mut t2);
                        Some((t, m))
                    },
                    None => None,
                }
            } else {
                Some((t, j))
            }
        },
    }
}

fn lex_sep_field(s: &[u8], i: usize) -> (r: Option<(Vec<u8>, usize)>)
    requires
        i <= s@.len(),
    ensures
        r matches Some((t, j)) ==> parse_sep_field(s@, i as int) == Some((t@, j as int)) && i < j
            <= s@.len(),
        r is None ==> parse_sep_field(s@, i as int) is None,
{
    let j = lex_skip_trivia(s, i);
    if j < s.len() && s[j] == COMMA {
        let k = lex_skip_trivia(s, j + 1);
        lex_field(s, k)
    } else {
        None
    }
}

fn lex_record(s: &[u8], i: usize) -> (r: Option<(Entry, usize)>)
    requires
        i <= s@.len(),
    ensures
        r matches Some((e, j)) ==> parse_record(s@, i as int) == Some((e@, j as int)) && i < j
            <= s@.len(),
        r is None ==> parse_record(s@, i as int) is None,
{
    if i >= s.len() || s[i] != LBRACE {
        return None;
    }
    let p0 = lex_skip_trivia(s, i + 1);
    let model = match lex_field(s, p0) {
        None => return None,
        Some(x) => x,
    };
    let alt = match lex_sep_field(s, model.1) {
        None => return None,
        Some(x) => x,
    };
    let firmware = match lex_sep_field(s, alt.1) {
        None => return None,
        Some(x) => x,
    };
    let family = match lex_sep_field(s, firmware.1) {
        None => return None,
        Some(x) => x,
    };
    let warning = match lex_sep_field(s, family.1) {
        None => return None,
        Some(x) => x,
    };
    let presets = match lex_sep_field(s, warning.1) {
        None => return None,
        Some(x) => x,
    };
    let j = lex_skip_trivia(s, presets.1);
    let k = if j < s.len() && s[j] == COMMA {
        lex_skip_trivia(s, j + 1)
    } else {
        j
    };
    if k < s.len() && s[k] == RBRACE {
        let e = Entry {
            model: model.0,
            firmware: firmware.0,
            family: family.0,
            warning: warning.0,
            presets: presets.0,
        };
        Some((e, k + 1))
    } else {
        None
    }
}

fn lex_entries(s: &[u8], i: usize) -> (r: Option<Vec<Entry>>)
    requires
        i <= s@.len(),
    ensures
        r matches Some(v) ==> parse_entries(s@, i as int) == Some(entries_view(v@)),
        r is None ==> parse_entries(s@, i as int) is None,
    decreases s@.len() - i,
{
    let j = lex_skip_sep(s, i);
    if j >= s.len() {
        let v: Vec<Entry> = Vec::new();
        proof {
            assert(entries_view(v@) =~= Seq::<EntryView>::empty());
        }
        Some(v)
    } else {
        match lex_record(s, j) {
            None => None,
            Some((e, k)) => match lex_entries(s, k) {
                None => None,
                Some(mut rest) => {
                    let ghost r0 = rest@;
                    let ghost ev = e@;
                    rest.insert(0, e);
                    proof {
                        assert(entries_view(rest@) =~= seq![ev] + entries_view(r0));
                    }
                    Some(rest)
                },
            },
        }
    }
}

/// Parse the full database text. The whole text must be well formed: any
/// lexical fault fails the parse with no partial result, and a database
/// without entries is rejected because the matching algorithm requires the
/// default entry to exist.
pub fn parse_database(db: &[u8]) -> (r: Result<Vec<Entry>, Error>)
    ensures
        match r {
            Ok(v) => spec_parse_database(db@) == Some(entries_view(v@)) && v@.len() >= 1,
            Err(e) => match spec_parse_database(db@) {
                None => e is Parse,
                Some(es) => es.len() == 0 && e is NoEntries,
            },
        },
{
    match lex_entries(db, 0) {
        None => Err(Error::Parse),
        Some(v) => {
            if v.len() == 0 {
                proof {
                    assert(entries_view(v@) =~= Seq::<EntryView>::empty());
                }
                Err(Error::NoEntries)
            } else {
                Ok(v)
            }
        },
    }
}

} // verus!
