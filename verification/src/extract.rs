//! Locating compiler warnings in raw log text.
//!
//! A warning occurrence is a `file:line:col:` header followed — possibly
//! after a quoted source excerpt — by a `warning:` marker (capitalised or
//! not) whose line ends in a bracketed flag `[-Wname]`.  Two excerpt
//! shapes are recognised: the GCC/Clang shape, where a numbered source
//! line follows the marker line, and the Fortran shape, where a blank
//! line, a numbered source line and a pointer line stand between the
//! header and the marker.  A trailing excerpt wins over a leading one as
//! the keyword source.  The scan is greedy: the file part of a header is
//! the longest prefix of its line that lets the rest of the occurrence
//! match, and scanning resumes after each match, so repeated diagnostics
//! yield repeated records.

use crate::keywords::{excerpt_keywords, make_keywords};
use crate::paths::{relativize, strip_prefix_spec};
use crate::{Warning, WarningModel};
use vstd::prelude::*;

verus! {

/// A whitespace character, as the excerpt patterns understand it.
pub open spec fn is_space(c: char) -> bool {
    c == ' ' || c == '\t' || c == '\n' || c == '\r' || c == '\x0b' || c == '\x0c'
}

/// An ASCII decimal digit.
pub open spec fn is_digit(c: char) -> bool {
    '0' as u32 <= c as u32 && c as u32 <= '9' as u32
}

/// The position of the next newline at or after `i`, or the text length.
pub open spec fn line_end(t: Seq<char>, i: int) -> int
    decreases t.len() - i,
{
    if i < 0 || i >= t.len() {
        t.len() as int
    } else if t[i] == '\n' {
        i
    } else {
        line_end(t, i + 1)
    }
}

/// The end of the whitespace run beginning at `i`.
pub open spec fn ws_end(t: Seq<char>, i: int) -> int
    decreases t.len() - i,
{
    if i < 0 || i >= t.len() {
        i
    } else if is_space(t[i]) {
        ws_end(t, i + 1)
    } else {
        i
    }
}

/// The end of the digit run beginning at `i`.
pub open spec fn digits_end(t: Seq<char>, i: int) -> int
    decreases t.len() - i,
{
    if i < 0 || i >= t.len() {
        i
    } else if is_digit(t[i]) {
        digits_end(t, i + 1)
    } else {
        i
    }
}

/// A case-tolerant `warning:` marker begins at `p`.
pub open spec fn marker_at(t: Seq<char>, p: int) -> bool {
    &&& 0 <= p
    &&& p + 8 <= t.len()
    &&& (t[p] == 'w' || t[p] == 'W')
    &&& t[p + 1] == 'a'
    &&& t[p + 2] == 'r'
    &&& t[p + 3] == 'n'
    &&& t[p + 4] == 'i'
    &&& t[p + 5] == 'n'
    &&& t[p + 6] == 'g'
    &&& t[p + 7] == ':'
}

/// The last position `j` in `[lo, hi]` where a blank line starts: two
/// newlines in a row.
pub open spec fn last_double_newline(t: Seq<char>, lo: int, hi: int) -> Option<int>
    decreases hi - lo + 1,
{
    if hi < lo {
        Option::None
    } else if 0 <= hi && hi + 1 < t.len() && t[hi] == '\n' && t[hi + 1] == '\n' {
        Option::Some(hi)
    } else {
        last_double_newline(t, lo, hi - 1)
    }
}

/// A `[-W` flag opener begins at `p`.
pub open spec fn flag_open_at(t: Seq<char>, p: int) -> bool {
    &&& 0 <= p
    &&& p + 3 <= t.len()
    &&& t[p] == '['
    &&& t[p + 1] == '-'
    &&& t[p + 2] == 'W'
}

/// The last position `q` in `[lo, hi]` holding `]`.
pub open spec fn last_rbracket(t: Seq<char>, lo: int, hi: int) -> Option<int>
    decreases hi - lo + 1,
{
    if hi < lo {
        Option::None
    } else if 0 <= hi && hi < t.len() && t[hi] == ']' {
        Option::Some(hi)
    } else {
        last_rbracket(t, lo, hi - 1)
    }
}

/// The last `[-W` in `[lo, hi]` that still has a `]` after it before
/// `le`: the greedy reading of the flag on the marker line.
pub open spec fn last_flag_open(t: Seq<char>, lo: int, hi: int, le: int) -> Option<int>
    decreases hi - lo + 1,
{
    if hi < lo {
        Option::None
    } else if flag_open_at(t, hi) && last_rbracket(t, hi + 3, le - 1) is Some {
        Option::Some(hi)
    } else {
        last_flag_open(t, lo, hi - 1, le)
    }
}

/// One recognised warning occurrence, as positions into the text.
pub struct MatchSpec {
    /// Start of the file path.
    pub file_start: int,
    /// End of the file path: the colon after it.
    pub file_end: int,
    /// Start of the flag name, after `[-W`.
    pub name_start: int,
    /// End of the flag name: the closing bracket.
    pub name_end: int,
    /// Whether an excerpt was captured for this match.
    pub has_excerpt: bool,
    /// Start of the captured excerpt; 0 when there is none.
    pub excerpt_start: int,
    /// End of the captured excerpt; 0 when there is none.
    pub excerpt_end: int,
    /// First position after the match; scanning resumes here.
    pub end: int,
}

/// Completes a match whose marker body ends at `m`: reads the bracketed
/// flag name off the marker line (the last `[-W` with a `]` after it, the
/// name running to the last `]`), then looks for a trailing excerpt — a
/// newline, whitespace, a numbered `… |` source line — which, when
/// present, both extends the match and replaces `before` as the keyword
/// source.
pub open spec fn finish_match(
    t: Seq<char>,
    i: int,
    f: int,
    m: int,
    before: Option<(int, int)>,
) -> Option<MatchSpec> {
    let le = line_end(t, m);
    match last_flag_open(t, m, le - 3, le) {
        Option::None => Option::None,
        Option::Some(p) => match last_rbracket(t, p + 3, le - 1) {
            Option::None => Option::None,
            Option::Some(q) => {
                let after_ok = q + 1 == le && le < t.len() && {
                    let w2 = ws_end(t, le + 1);
                    let ad = digits_end(t, w2);
                    w2 > le + 1 && ad > w2 && ad + 1 < t.len() && t[ad] == ' ' && t[ad + 1] == '|'
                };
                if after_ok {
                    let w2 = ws_end(t, le + 1);
                    let ad = digits_end(t, w2);
                    let ta_end = line_end(t, ad + 2);
                    Option::Some(
                        MatchSpec {
                            file_start: i,
                            file_end: f,
                            name_start: p + 3,
                            name_end: q,
                            has_excerpt: true,
                            excerpt_start: le,
                            excerpt_end: ta_end,
                            end: ta_end,
                        },
                    )
                } else {
                    match before {
                        Option::Some((bs, be)) => Option::Some(
                            MatchSpec {
                                file_start: i,
                                file_end: f,
                                name_start: p + 3,
                                name_end: q,
                                has_excerpt: true,
                                excerpt_start: bs,
                                excerpt_end: be,
                                end: q + 1,
                            },
                        ),
                        Option::None => Option::Some(
                            MatchSpec {
                                file_start: i,
                                file_end: f,
                                name_start: p + 3,
                                name_end: q,
                                has_excerpt: false,
                                excerpt_start: 0,
                                excerpt_end: 0,
                                end: q + 1,
                            },
                        ),
                    }
                }
            },
        },
    }
}

/// Tries to read a warning occurrence starting at `i` whose file part
/// ends exactly at `f`: the `file:line:col:` header, then either the
/// marker right after the whitespace, or — the Fortran shape — a blank
/// line, a numbered `… |` source line and one more line between header
/// and marker.
pub open spec fn match_with_file(t: Seq<char>, i: int, f: int) -> Option<MatchSpec> {
    if !(0 <= i <= f && f < t.len() && t[f] == ':') {
        Option::None
    } else {
        let d1e = digits_end(t, f + 1);
        if d1e == f + 1 || d1e >= t.len() || t[d1e] != ':' {
            Option::None
        } else {
            let d2e = digits_end(t, d1e + 1);
            if d2e == d1e + 1 || d2e >= t.len() || t[d2e] != ':' {
                Option::None
            } else {
                let h = d2e + 1;
                let w = ws_end(t, h);
                if marker_at(t, w) {
                    finish_match(t, i, f, w + 8, Option::None)
                } else {
                    match last_double_newline(t, h, w - 3) {
                        Option::None => Option::None,
                        Option::Some(bj) => {
                            let de = digits_end(t, w);
                            if de == w || de + 1 >= t.len() || t[de] != ' ' || t[de + 1] != '|' {
                                Option::None
                            } else {
                                let e1 = line_end(t, de + 2);
                                if e1 >= t.len() {
                                    Option::None
                                } else {
                                    let e2 = line_end(t, e1 + 1);
                                    if e2 >= t.len() || !marker_at(t, e2 + 1) {
                                        Option::None
                                    } else {
                                        finish_match(
                                            t,
                                            i,
                                            f,
                                            e2 + 1 + 8,
                                            Option::Some((bj, e2 + 1)),
                                        )
                                    }
                                }
                            }
                        },
                    }
                }
            }
        }
    }
}

/// The greedy choice of the file part: the largest end position `f` at or
/// below `hi` for which the whole occurrence matches.
pub open spec fn try_file_ends(t: Seq<char>, i: int, hi: int) -> Option<MatchSpec>
    decreases hi - i + 1,
{
    if hi < i {
        Option::None
    } else {
        match match_with_file(t, i, hi) {
            Option::Some(m) => Option::Some(m),
            Option::None => try_file_ends(t, i, hi - 1),
        }
    }
}

/// The warning occurrence starting at `i`, if any.  The file part cannot
/// cross a newline, so candidates end at the current line at the latest.
pub open spec fn match_at(t: Seq<char>, i: int) -> Option<MatchSpec> {
    try_file_ends(t, i, line_end(t, i))
}

/// All warning occurrences of `t`, scanning left to right and resuming
/// after each match.
pub open spec fn scan_from(t: Seq<char>, i: int) -> Seq<MatchSpec>
    decreases t.len() - i,
    via scan_from_decreases
{
    if !(0 <= i && i < t.len()) {
        Seq::empty()
    } else {
        match match_at(t, i) {
            Option::Some(m) => seq![m] + scan_from(t, m.end),
            Option::None => scan_from(t, i + 1),
        }
    }
}

#[via_fn]
proof fn scan_from_decreases(t: Seq<char>, i: int) {
    if 0 <= i && i < t.len() {
        if match_at(t, i) is Some {
            lemma_match_at_bounds(t, i);
        }
    }
}

/// The line end stays within the text and never moves backwards.
pub proof fn lemma_line_end_bounds(t: Seq<char>, i: int)
    requires
        0 <= i <= t.len(),
    ensures
        i <= line_end(t, i) <= t.len(),
        forall|j: int| i <= j < line_end(t, i) ==> #[trigger] t[j] != '\n',
        line_end(t, i) < t.len() ==> t[line_end(t, i)] == '\n',
    decreases t.len() - i,
{
    if i < t.len() && t[i] != '\n' {
        lemma_line_end_bounds(t, i + 1);
    }
}

/// The whitespace run stays within the text.
pub proof fn lemma_ws_end_bounds(t: Seq<char>, i: int)
    requires
        0 <= i <= t.len(),
    ensures
        i <= ws_end(t, i) <= t.len(),
        forall|j: int| i <= j < ws_end(t, i) ==> is_space(#[trigger] t[j]),
        ws_end(t, i) < t.len() ==> !is_space(t[ws_end(t, i)]),
    decreases t.len() - i,
{
    if i < t.len() && is_space(t[i]) {
        lemma_ws_end_bounds(t, i + 1);
    }
}

/// The digit run stays within the text.
pub proof fn lemma_digits_end_bounds(t: Seq<char>, i: int)
    requires
        0 <= i <= t.len(),
    ensures
        i <= digits_end(t, i) <= t.len(),
    decreases t.len() - i,
{
    if i < t.len() && is_digit(t[i]) {
        lemma_digits_end_bounds(t, i + 1);
    }
}

/// A found closing bracket lies in the searched range.
proof fn lemma_last_rbracket_bounds(t: Seq<char>, lo: int, hi: int)
    ensures
        match last_rbracket(t, lo, hi) {
            Option::None => true,
            Option::Some(q) => lo <= q && q <= hi && 0 <= q && q < t.len() && t[q] == ']',
        },
    decreases hi - lo + 1,
{
    if hi >= lo && !(0 <= hi && hi < t.len() && t[hi] == ']') {
        lemma_last_rbracket_bounds(t, lo, hi - 1);
    }
}

/// A found flag opener lies in the searched range and has its bracket.
proof fn lemma_last_flag_open_bounds(t: Seq<char>, lo: int, hi: int, le: int)
    ensures
        match last_flag_open(t, lo, hi, le) {
            Option::None => true,
            Option::Some(p) => lo <= p && p <= hi && flag_open_at(t, p) && last_rbracket(
                t,
                p + 3,
                le - 1,
            ) is Some,
        },
    decreases hi - lo + 1,
{
    if hi >= lo && !(flag_open_at(t, hi) && last_rbracket(t, hi + 3, le - 1) is Some) {
        lemma_last_flag_open_bounds(t, lo, hi - 1, le);
    }
}

/// A completed match has its positions in order and inside the text, and
/// ends after `i`.
proof fn lemma_finish_match_bounds(t: Seq<char>, i: int, f: int, m: int, before: Option<(int, int)>)
    requires
        0 <= i <= f,
        f + 1 < m <= t.len(),
        match before {
            Option::Some((bs, be)) => 0 <= bs <= be <= t.len(),
            Option::None => true,
        },
    ensures
        match finish_match(t, i, f, m, before) {
            Option::None => true,
            Option::Some(r) => {
                &&& r.file_start == i
                &&& r.file_end == f
                &&& i <= f < r.name_start <= r.name_end < t.len()
                &&& 0 <= r.excerpt_start <= r.excerpt_end <= t.len()
                &&& i < r.end <= t.len()
            },
        },
{
    let le = line_end(t, m);
    lemma_line_end_bounds(t, m);
    lemma_last_flag_open_bounds(t, m, le - 3, le);
    match last_flag_open(t, m, le - 3, le) {
        Option::None => {}
        Option::Some(p) => {
            lemma_last_rbracket_bounds(t, p + 3, le - 1);
            match last_rbracket(t, p + 3, le - 1) {
                Option::None => {}
                Option::Some(q) => {
                    let after_ok = q + 1 == le && le < t.len() && {
                        let w2 = ws_end(t, le + 1);
                        let ad = digits_end(t, w2);
                        w2 > le + 1 && ad > w2 && ad + 1 < t.len() && t[ad] == ' ' && t[ad + 1]
                            == '|'
                    };
                    if after_ok {
                        let w2 = ws_end(t, le + 1);
                        let ad = digits_end(t, w2);
                        lemma_ws_end_bounds(t, le + 1);
                        lemma_digits_end_bounds(t, w2);
                        lemma_line_end_bounds(t, ad + 2);
                    }
                },
            }
        },
    }
}

/// A match found with a given file end keeps that file end and stays
/// within the text.
proof fn lemma_match_with_file_bounds(t: Seq<char>, i: int, f: int)
    ensures
        match match_with_file(t, i, f) {
            Option::None => true,
            Option::Some(r) => {
                &&& r.file_start == i
                &&& r.file_end == f
                &&& 0 <= i <= f < r.name_start <= r.name_end < t.len()
                &&& 0 <= r.excerpt_start <= r.excerpt_end <= t.len()
                &&& i < r.end <= t.len()
            },
        },
{
    if 0 <= i <= f && f < t.len() && t[f] == ':' {
        let d1e = digits_end(t, f + 1);
        lemma_digits_end_bounds(t, f + 1);
        if d1e != f + 1 && d1e < t.len() && t[d1e] == ':' {
            let d2e = digits_end(t, d1e + 1);
            lemma_digits_end_bounds(t, d1e + 1);
            if d2e != d1e + 1 && d2e < t.len() && t[d2e] == ':' {
                let h = d2e + 1;
                let w = ws_end(t, h);
                lemma_ws_end_bounds(t, h);
                if marker_at(t, w) {
                    lemma_finish_match_bounds(t, i, f, w + 8, Option::None);
                } else {
                    match last_double_newline(t, h, w - 3) {
                        Option::None => {}
                        Option::Some(bj) => {
                            lemma_last_double_newline_bounds(t, h, w - 3);
                            let de = digits_end(t, w);
                            lemma_digits_end_bounds(t, w);
                            if de != w && de + 1 < t.len() && t[de] == ' ' && t[de + 1] == '|' {
                                let e1 = line_end(t, de + 2);
                                lemma_line_end_bounds(t, de + 2);
                                if e1 < t.len() {
                                    let e2 = line_end(t, e1 + 1);
                                    lemma_line_end_bounds(t, e1 + 1);
                                    if e2 < t.len() && marker_at(t, e2 + 1) {
                                        lemma_finish_match_bounds(
                                            t,
                                            i,
                                            f,
                                            e2 + 1 + 8,
                                            Option::Some((bj, e2 + 1)),
                                        );
                                    }
                                }
                            }
                        },
                    }
                }
            }
        }
    }
}

/// A found blank-line start lies in the searched range.
proof fn lemma_last_double_newline_bounds(t: Seq<char>, lo: int, hi: int)
    ensures
        match last_double_newline(t, lo, hi) {
            Option::None => true,
            Option::Some(j) => lo <= j && j <= hi && 0 <= j && j + 1 < t.len(),
        },
    decreases hi - lo + 1,
{
    if hi >= lo && !(0 <= hi && hi + 1 < t.len() && t[hi] == '\n' && t[hi + 1] == '\n') {
        lemma_last_double_newline_bounds(t, lo, hi - 1);
    }
}

/// The greedy file choice keeps the match bounds.
proof fn lemma_try_file_ends_bounds(t: Seq<char>, i: int, hi: int)
    requires
        0 <= i,
    ensures
        match try_file_ends(t, i, hi) {
            Option::None => true,
            Option::Some(r) => {
                &&& r.file_start == i
                &&& i <= r.file_end <= hi
                &&& r.file_end < r.name_start <= r.name_end < t.len()
                &&& 0 <= r.excerpt_start <= r.excerpt_end <= t.len()
                &&& i < r.end <= t.len()
            },
        },
    decreases hi - i + 1,
{
    if hi >= i {
        lemma_match_with_file_bounds(t, i, hi);
        if match_with_file(t, i, hi) is None {
            lemma_try_file_ends_bounds(t, i, hi - 1);
        }
    }
}

/// A match found at `i` lies within the text and ends after `i`.
pub proof fn lemma_match_at_bounds(t: Seq<char>, i: int)
    requires
        0 <= i,
    ensures
        match match_at(t, i) {
            Option::None => true,
            Option::Some(r) => {
                &&& r.file_start == i
                &&& i <= r.file_end < r.name_start <= r.name_end < t.len()
                &&& 0 <= r.excerpt_start <= r.excerpt_end <= t.len()
                &&& i < r.end <= t.len()
            },
        },
{
    lemma_try_file_ends_bounds(t, i, line_end(t, i));
}

/// The warning record a match denotes: the flag name, the relativized
/// file path, and the filtered keywords of the captured excerpt.
pub open spec fn warning_of_match(
    t: Seq<char>,
    m: MatchSpec,
    min_len: int,
    ignored: Seq<Seq<char>>,
    cwd: Seq<char>,
) -> WarningModel {
    WarningModel {
        name: t.subrange(m.name_start, m.name_end),
        file: strip_prefix_spec(t.subrange(m.file_start, m.file_end), cwd),
        keywords: if m.has_excerpt {
            excerpt_keywords(t.subrange(m.excerpt_start, m.excerpt_end), min_len, ignored)
        } else {
            Seq::empty()
        },
    }
}

/// The warning records of a match sequence, in order.
pub open spec fn warnings_of_matches(
    t: Seq<char>,
    ms: Seq<MatchSpec>,
    min_len: int,
    ignored: Seq<Seq<char>>,
    cwd: Seq<char>,
) -> Seq<WarningModel> {
    ms.map(|_i: int, m: MatchSpec| warning_of_match(t, m, min_len, ignored, cwd))
}

/// Every warning record of `t`, in order of appearance.
pub open spec fn extracted_warnings(
    t: Seq<char>,
    min_len: int,
    ignored: Seq<Seq<char>>,
    cwd: Seq<char>,
) -> Seq<WarningModel> {
    warnings_of_matches(t, scan_from(t, 0), min_len, ignored, cwd)
}

/// One recognised warning occurrence, as positions for executable code.
#[derive(Clone, Copy)]
struct MatchParts {
    file_start: usize,
    file_end: usize,
    name_start: usize,
    name_end: usize,
    has_excerpt: bool,
    excerpt_start: usize,
    excerpt_end: usize,
    end: usize,
}

impl MatchParts {
    /// The specification image of these positions.
    spec fn as_spec(&self) -> MatchSpec {
        MatchSpec {
            file_start: self.file_start as int,
            file_end: self.file_end as int,
            name_start: self.name_start as int,
            name_end: self.name_end as int,
            has_excerpt: self.has_excerpt,
            excerpt_start: self.excerpt_start as int,
            excerpt_end: self.excerpt_end as int,
            end: self.end as int,
        }
    }
}

/// The executable result agrees with the specification result.
spec fn parts_correspond(r: Option<MatchParts>, m: Option<MatchSpec>) -> bool {
    match (r, m) {
        (Option::Some(p), Option::Some(sm)) => p.as_spec() == sm,
        (Option::None, Option::None) => true,
        _ => false,
    }
}

/// The position of the next newline at or after `i`.
fn line_end_at(s: &str, n: usize, i: usize) -> (r: usize)
    requires
        n == s@.len(),
        i <= n,
    ensures
        r == line_end(s@, i as int),
{
    let mut j = i;
    while j < n
        invariant
            i <= j <= n,
            n == s@.len(),
            line_end(s@, i as int) == line_end(s@, j as int),
        decreases n - j,
    {
        if s.get_char(j) == '\n' {
            return j;
        }
        j = j + 1;
    }
    j
}

/// The end of the whitespace run beginning at `i`.
fn ws_end_at(s: &str, n: usize, i: usize) -> (r: usize)
    requires
        n == s@.len(),
        i <= n,
    ensures
        r == ws_end(s@, i as int),
{
    let mut j = i;
    while j < n
        invariant
            i <= j <= n,
            n == s@.len(),
            ws_end(s@, i as int) == ws_end(s@, j as int),
        decreases n - j,
    {
        let c = s.get_char(j);
        if !(c == ' ' || c == '\t' || c == '\n' || c == '\r' || c == '\x0b' || c == '\x0c') {
            return j;
        }
        j = j + 1;
    }
    j
}

/// The end of the digit run beginning at `i`.
fn digits_end_at(s: &str, n: usize, i: usize) -> (r: usize)
    requires
        n == s@.len(),
        i <= n,
    ensures
        r == digits_end(s@, i as int),
{
    let mut j = i;
    while j < n
        invariant
            i <= j <= n,
            n == s@.len(),
            digits_end(s@, i as int) == digits_end(s@, j as int),
        decreases n - j,
    {
        let u = s.get_char(j) as u32;
        if !(48 <= u && u <= 57) {
            return j;
        }
        j = j + 1;
    }
    j
}

/// Whether a `warning:` marker begins at `p`.
fn marker_at_exec(s: &str, n: usize, p: usize) -> (r: bool)
    requires
        n == s@.len(),
        p <= n,
    ensures
        r == marker_at(s@, p as int),
{
    if n - p < 8 {
        return false;
    }
    let c0 = s.get_char(p);
    (c0 == 'w' || c0 == 'W') && s.get_char(p + 1) == 'a' && s.get_char(p + 2) == 'r' && s.get_char(
        p + 3,
    ) == 'n' && s.get_char(p + 4) == 'i' && s.get_char(p + 5) == 'n' && s.get_char(p + 6) == 'g'
        && s.get_char(p + 7) == ':'
}

/// The last `]` in `[lo, hi]`.
fn last_rbracket_exec(s: &str, n: usize, lo: usize, hi: usize) -> (r: Option<usize>)
    requires
        n == s@.len(),
        hi < n,
    ensures
        match r {
            Option::Some(q) => last_rbracket(s@, lo as int, hi as int) == Option::Some(q as int),
            Option::None => last_rbracket(s@, lo as int, hi as int) is None,
        },
    decreases hi - lo + 1,
{
    if hi < lo {
        return Option::None;
    }
    if s.get_char(hi) == ']' {
        return Option::Some(hi);
    }
    if hi == lo {
        proof {
            assert(last_rbracket(s@, lo as int, lo as int - 1) is None);
        }
        return Option::None;
    }
    last_rbracket_exec(s, n, lo, hi - 1)
}

/// The last `[-W` in `[lo, hi]` with a `]` after it before `le`.
fn last_flag_open_exec(s: &str, n: usize, lo: usize, hi: usize, le: usize) -> (r: Option<usize>)
    requires
        n == s@.len(),
        hi < n,
        1 <= le <= n,
    ensures
        match r {
            Option::Some(p) => last_flag_open(s@, lo as int, hi as int, le as int) == Option::Some(
                p as int,
            ),
            Option::None => last_flag_open(s@, lo as int, hi as int, le as int) is None,
        },
    decreases hi - lo + 1,
{
    if hi < lo {
        return Option::None;
    }
    let open_here = n - hi >= 3 && s.get_char(hi) == '[' && s.get_char(hi + 1) == '-' && s.get_char(
        hi + 2,
    ) == 'W';
    if open_here {
        let has_close = match last_rbracket_exec(s, n, hi + 3, le - 1) {
            Option::Some(_q) => true,
            Option::None => false,
        };
        if has_close {
            return Option::Some(hi);
        }
    }
    if hi == lo {
        proof {
            assert(last_flag_open(s@, lo as int, lo as int - 1, le as int) is None);
        }
        return Option::None;
    }
    last_flag_open_exec(s, n, lo, hi - 1, le)
}

/// The last blank-line start in `[lo, hi]`.
fn last_double_newline_exec(s: &str, n: usize, lo: usize, hi: usize) -> (r: Option<usize>)
    requires
        n == s@.len(),
        hi < n,
    ensures
        match r {
            Option::Some(j) => last_double_newline(s@, lo as int, hi as int) == Option::Some(
                j as int,
            ),
            Option::None => last_double_newline(s@, lo as int, hi as int) is None,
        },
    decreases hi - lo + 1,
{
    if hi < lo {
        return Option::None;
    }
    if hi + 1 < n && s.get_char(hi) == '\n' && s.get_char(hi + 1) == '\n' {
        return Option::Some(hi);
    }
    if hi == lo {
        proof {
            assert(last_double_newline(s@, lo as int, lo as int - 1) is None);
        }
        return Option::None;
    }
    last_double_newline_exec(s, n, lo, hi - 1)
}

/// Completes a match whose marker body ends at `m`.
fn finish_match_exec(
    s: &str,
    n: usize,
    i: usize,
    f: usize,
    m: usize,
    before: Option<(usize, usize)>,
) -> (r: Option<MatchParts>)
    requires
        n == s@.len(),
        i <= f,
        f < n,
        8 <= m <= n,
    ensures
        parts_correspond(
            r,
            finish_match(
                s@,
                i as int,
                f as int,
                m as int,
                match before {
                    Option::Some((bs, be)) => Option::Some((bs as int, be as int)),
                    Option::None => Option::None,
                },
            ),
        ),
{
    let ghost t = s@;
    let le = line_end_at(s, n, m);
    proof {
        lemma_line_end_bounds(t, m as int);
    }
    let p = match last_flag_open_exec(s, n, m, le - 3, le) {
        Option::Some(p) => p,
        Option::None => {
            return Option::None;
        },
    };
    proof {
        lemma_last_flag_open_bounds(t, m as int, le as int - 3, le as int);
    }
    let q = match last_rbracket_exec(s, n, p + 3, le - 1) {
        Option::Some(q) => q,
        Option::None => {
            return Option::None;
        },
    };
    proof {
        lemma_last_rbracket_bounds(t, p as int + 3, le as int - 1);
    }
    // Trailing excerpt?
    if q + 1 == le && le < n {
        let w2 = ws_end_at(s, n, le + 1);
        proof {
            lemma_ws_end_bounds(t, le as int + 1);
        }
        let ad = digits_end_at(s, n, w2);
        proof {
            lemma_digits_end_bounds(t, w2 as int);
        }
        if w2 > le + 1 && ad > w2 && ad < n && ad + 1 < n && s.get_char(ad) == ' ' && s.get_char(
            ad + 1,
        ) == '|' {
            let ta_end = line_end_at(s, n, ad + 2);
            return Option::Some(
                MatchParts {
                    file_start: i,
                    file_end: f,
                    name_start: p + 3,
                    name_end: q,
                    has_excerpt: true,
                    excerpt_start: le,
                    excerpt_end: ta_end,
                    end: ta_end,
                },
            );
        }
    }
    match before {
        Option::Some((bs, be)) => Option::Some(
            MatchParts {
                file_start: i,
                file_end: f,
                name_start: p + 3,
                name_end: q,
                has_excerpt: true,
                excerpt_start: bs,
                excerpt_end: be,
                end: q + 1,
            },
        ),
        Option::None => Option::Some(
            MatchParts {
                file_start: i,
                file_end: f,
                name_start: p + 3,
                name_end: q,
                has_excerpt: false,
                excerpt_start: 0,
                excerpt_end: 0,
                end: q + 1,
            },
        ),
    }
}

/// Tries to read a warning occurrence at `i` with the file part ending
/// at `f`.
fn match_with_file_exec(s: &str, n: usize, i: usize, f: usize) -> (r: Option<MatchParts>)
    requires
        n == s@.len(),
        i <= f,
        f < n,
    ensures
        parts_correspond(r, match_with_file(s@, i as int, f as int)),
{
    let ghost t = s@;
    if s.get_char(f) != ':' {
        return Option::None;
    }
    let d1e = digits_end_at(s, n, f + 1);
    proof {
        lemma_digits_end_bounds(t, f as int + 1);
    }
    if d1e == f + 1 || d1e >= n {
        return Option::None;
    }
    if s.get_char(d1e) != ':' {
        return Option::None;
    }
    let d2e = digits_end_at(s, n, d1e + 1);
    proof {
        lemma_digits_end_bounds(t, d1e as int + 1);
    }
    if d2e == d1e + 1 || d2e >= n {
        return Option::None;
    }
    if s.get_char(d2e) != ':' {
        return Option::None;
    }
    let h = d2e + 1;
    let w = ws_end_at(s, n, h);
    proof {
        lemma_ws_end_bounds(t, h as int);
    }
    if marker_at_exec(s, n, w) {
        return finish_match_exec(s, n, i, f, w + 8, Option::None);
    }
    // Leading excerpt: the blank line must leave room for the run of
    // whitespace before the numbered line.
    if w - h < 3 {
        proof {
            assert(last_double_newline(t, h as int, w as int - 3) is None);
        }
        return Option::None;
    }
    let bj = match last_double_newline_exec(s, n, h, w - 3) {
        Option::Some(j) => j,
        Option::None => {
            return Option::None;
        },
    };
    proof {
        lemma_last_double_newline_bounds(t, h as int, w as int - 3);
    }
    let de = digits_end_at(s, n, w);
    proof {
        lemma_digits_end_bounds(t, w as int);
    }
    if de == w || n - de <= 1 {
        return Option::None;
    }
    if s.get_char(de) != ' ' || s.get_char(de + 1) != '|' {
        return Option::None;
    }
    let e1 = line_end_at(s, n, de + 2);
    proof {
        lemma_line_end_bounds(t, de as int + 2);
    }
    if e1 >= n {
        return Option::None;
    }
    let e2 = line_end_at(s, n, e1 + 1);
    proof {
        lemma_line_end_bounds(t, e1 as int + 1);
    }
    if e2 >= n {
        return Option::None;
    }
    if !marker_at_exec(s, n, e2 + 1) {
        return Option::None;
    }
    finish_match_exec(s, n, i, f, e2 + 1 + 8, Option::Some((bj, e2 + 1)))
}

/// The greedy choice of the file part, trying `hi` downwards.
fn try_file_ends_exec(s: &str, n: usize, i: usize, hi: usize) -> (r: Option<MatchParts>)
    requires
        n == s@.len(),
        i <= hi,
        hi <= n,
    ensures
        parts_correspond(r, try_file_ends(s@, i as int, hi as int)),
    decreases hi - i + 1,
{
    let attempt = if hi < n {
        match_with_file_exec(s, n, i, hi)
    } else {
        proof {
            assert(match_with_file(s@, i as int, hi as int) is None);
        }
        Option::None
    };
    match attempt {
        Option::Some(p) => Option::Some(p),
        Option::None => {
            if hi == i {
                proof {
                    assert(try_file_ends(s@, i as int, i as int - 1) is None);
                }
                Option::None
            } else {
                try_file_ends_exec(s, n, i, hi - 1)
            }
        },
    }
}

/// The warning occurrence starting at `i`, if any.
fn match_at_exec(s: &str, n: usize, i: usize) -> (r: Option<MatchParts>)
    requires
        n == s@.len(),
        i < n,
    ensures
        parts_correspond(r, match_at(s@, i as int)),
{
    let le = line_end_at(s, n, i);
    proof {
        lemma_line_end_bounds(s@, i as int);
    }
    try_file_ends_exec(s, n, i, le)
}

/// Scans `content` for warnings and yields one record per occurrence, in
/// order of appearance, duplicates kept.  Each record carries the flag
/// name, the file path relativized against `cwd`, and the filtered
/// keywords of the adjacent excerpt, the trailing excerpt taking
/// precedence over a leading one.
pub fn extract_warnings(
    content: &str,
    keyword_len: usize,
    ignored_keywords: &Vec<String>,
    cwd: &str,
) -> (r: Vec<Warning>)
    ensures
        r.deep_view() == extracted_warnings(
            content@,
            keyword_len as int,
            ignored_keywords.deep_view(),
            cwd@,
        ),
{
    let ghost t = content@;
    let ghost ignored = ignored_keywords.deep_view();
    let n = content.unicode_len();
    let mut r: Vec<Warning> = Vec::new();
    let ghost mut ms: Seq<MatchSpec> = Seq::empty();
    let mut i: usize = 0;
    proof {
        assert(r.deep_view() =~= warnings_of_matches(t, ms, keyword_len as int, ignored, cwd@));
    }
    while i < n
        invariant
            i <= n,
            n == t.len(),
            t == content@,
            ignored == ignored_keywords.deep_view(),
            scan_from(t, 0) == ms + scan_from(t, i as int),
            r.deep_view() == warnings_of_matches(t, ms, keyword_len as int, ignored, cwd@),
        decreases n - i,
    {
        match match_at_exec(content, n, i) {
            Option::None => {
                proof {
                    assert(scan_from(t, i as int) == scan_from(t, i as int + 1));
                }
                i = i + 1;
            },
            Option::Some(p) => {
                proof {
                    lemma_match_at_bounds(t, i as int);
                }
                let ghost m = p.as_spec();
                let name = String::from_str(content.substring_char(p.name_start, p.name_end));
                let file_raw = content.substring_char(p.file_start, p.file_end);
                let file = relativize(file_raw, cwd);
                let keywords: Vec<String> = if p.has_excerpt {
                    make_keywords(
                        content.substring_char(p.excerpt_start, p.excerpt_end),
                        keyword_len,
                        ignored_keywords,
                    )
                } else {
                    Vec::new()
                };
                let w = Warning { name, file, keywords };
                proof {
                    assert(w@.name == t.subrange(m.name_start, m.name_end));
                    assert(w@.file == strip_prefix_spec(
                        t.subrange(m.file_start, m.file_end),
                        cwd@,
                    ));
                    if !p.has_excerpt {
                        assert(w@.keywords =~= Seq::<Seq<char>>::empty());
                    }
                    assert(w@ == warning_of_match(t, m, keyword_len as int, ignored, cwd@));
                }
                let ghost pre = r.deep_view();
                r.push(w);
                proof {
                    assert(scan_from(t, i as int) == seq![m] + scan_from(t, m.end));
                    assert(ms + scan_from(t, i as int) =~= ms.push(m) + scan_from(t, m.end));
                    assert(r.deep_view() =~= pre.push(w.deep_view()));
                    assert(warnings_of_matches(t, ms.push(m), keyword_len as int, ignored, cwd@)
                        =~= warnings_of_matches(t, ms, keyword_len as int, ignored, cwd@).push(
                        warning_of_match(t, m, keyword_len as int, ignored, cwd@),
                    ));
                    assert(r.deep_view() == warnings_of_matches(
                        t,
                        ms.push(m),
                        keyword_len as int,
                        ignored,
                        cwd@,
                    ));
                    ms = ms.push(m);
                }
                i = p.end;
            },
        }
    }
    proof {
        assert(scan_from(t, n as int) =~= Seq::<MatchSpec>::empty());
        assert(ms + scan_from(t, n as int) =~= ms);
        assert(ms == scan_from(t, 0));
    }
    r
}

} // verus!
