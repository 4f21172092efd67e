//! The line grammars the sorter reacts to: single-line comments, blank
//! lines, the "keep sorted" trigger comment, the "ignore file" / "ignore
//! block" directives, dependency-table headers, and the bounds of a derive
//! attribute.  Every matcher is verified against a spec-level grammar.

use vstd::prelude::*;

use crate::text::{
    chars_of, contains_char_in, find_from, find_pat_from, first_non_ws, has_at, has_at_ci,
    has_char_in, is_ws, is_ws_char, last_non_ws, lemma_ws_back_bounds, lemma_ws_from_bounds,
    match_at, match_at_ci, spec_trim, sub_vec, ws_back, ws_from,
};

verus! {

broadcast use vstd::seq::group_seq_axioms;

/// A line whose first non-whitespace character is `#`.
pub open spec fn is_hash_comment(s: Seq<char>) -> bool {
    let a = ws_from(s, 0);
    a < s.len() && s[a] == '#'
}

/// A line whose trimmed text starts with `//`.
pub open spec fn is_slash_comment(s: Seq<char>) -> bool {
    let a = ws_from(s, 0);
    a + 2 <= s.len() && s[a] == '/' && s[a + 1] == '/'
}

/// A single-line comment: `#`-prefixed, or (where the dialect reads `//`
/// comments too) `//`-prefixed.
pub open spec fn is_comment_line(slash: bool, s: Seq<char>) -> bool {
    is_hash_comment(s) || (slash && is_slash_comment(s))
}

pub fn line_is_comment(slash: bool, line: &str) -> (r: bool)
    ensures
        r == is_comment_line(slash, line@),
{
    let v = chars_of(line);
    comment_chars(slash, &v)
}

pub fn comment_chars(slash: bool, v: &Vec<char>) -> (r: bool)
    ensures
        r == is_comment_line(slash, v@),
{
    let n = v.len();
    let a = first_non_ws(v, 0);
    if a < n && v[a] == '#' {
        return true;
    }
    if slash && n - a >= 2 && v[a] == '/' && v[a + 1] == '/' {
        return true;
    }
    false
}

pub fn line_is_blank(line: &str) -> (r: bool)
    ensures
        r == crate::text::is_blank_line(line@),
{
    let v = chars_of(line);
    let a = first_non_ws(&v, 0);
    a == v.len()
}

/// End of a `#` or `//` comment marker starting at `a`, or `-1` when neither
/// stands there.
pub open spec fn marker_end(s: Seq<char>, a: int) -> int {
    if 0 <= a && a < s.len() && s[a] == '#' {
        a + 1
    } else if 0 <= a && a + 2 <= s.len() && s[a] == '/' && s[a + 1] == '/' {
        a + 2
    } else {
        -1
    }
}

fn marker_end_chars(v: &Vec<char>, a: usize) -> (r: (bool, usize))
    requires
        a <= v@.len(),
    ensures
        r.0 == (marker_end(v@, a as int) >= 0),
        r.0 ==> r.1 as int == marker_end(v@, a as int) && r.1 <= v@.len(),
{
    let n = v.len();
    if a < n && v[a] == '#' {
        (true, a + 1)
    } else if n - a >= 2 && v[a] == '/' && v[a + 1] == '/' {
        (true, a + 2)
    } else {
        (false, 0)
    }
}

/// The tail of the tolerant trigger grammar: `keep`, whitespace, `sorted`,
/// an optional period, then the end of the line; letters are matched
/// case-blind.
pub open spec fn keep_sorted_tail(s: Seq<char>, i: int) -> bool {
    let j = ws_from(s, i);
    if has_at_ci(s, j, "keep"@) {
        let k = j + "keep"@.len() as int;
        if k < s.len() && is_ws_char(s[k]) {
            let m = ws_from(s, k);
            if has_at_ci(s, m, "sorted"@) {
                let e = ws_from(s, m + "sorted"@.len() as int);
                let e2 = if e < s.len() && s[e] == '.' {
                    ws_from(s, e + 1)
                } else {
                    e
                };
                e2 == s.len()
            } else {
                false
            }
        } else {
            false
        }
    } else {
        false
    }
}

/// The tolerant "keep sorted" trigger: after a `#` or `//` marker, either
/// directly `keep sorted`, or a `keepsorted:` tag followed by it; trailing
/// period optional, whitespace free throughout, case-blind.
pub open spec fn trigger_comment(s: Seq<char>) -> bool {
    let a = ws_from(s, 0);
    let p = marker_end(s, a);
    p >= 0 && {
        let j = ws_from(s, p);
        if has_at_ci(s, j, "keepsorted"@) {
            let k = ws_from(s, j + "keepsorted"@.len() as int);
            if k < s.len() && s[k] == ':' {
                keep_sorted_tail(s, k + 1)
            } else {
                keep_sorted_tail(s, p)
            }
        } else {
            keep_sorted_tail(s, p)
        }
    }
}

fn keep_sorted_tail_chars(v: &Vec<char>, i: usize) -> (r: bool)
    requires
        i <= v@.len(),
    ensures
        r == keep_sorted_tail(v@, i as int),
{
    let n = v.len();
    let kw_keep = chars_of("keep");
    let kw_sorted = chars_of("sorted");
    let j = first_non_ws(v, i);
    if !match_at_ci(v, j, &kw_keep) {
        return false;
    }
    let k = j + kw_keep.len();
    if !(k < n && is_ws(v[k])) {
        return false;
    }
    let m = first_non_ws(v, k);
    if !match_at_ci(v, m, &kw_sorted) {
        return false;
    }
    let e = first_non_ws(v, m + kw_sorted.len());
    let e2 = if e < n && v[e] == '.' {
        first_non_ws(v, e + 1)
    } else {
        e
    };
    e2 == n
}

/// Whether this line is a trigger comment that opens a sortable region.
pub fn is_keep_sorted_line(line: &str) -> (r: bool)
    ensures
        r == trigger_comment(line@),
{
    let v = chars_of(line);
    trigger_chars(&v)
}

pub fn trigger_chars(v: &Vec<char>) -> (r: bool)
    ensures
        r == trigger_comment(v@),
{
    let n = v.len();
    let kw_tag = chars_of("keepsorted");
    let a = first_non_ws(v, 0);
    let (has_marker, p) = marker_end_chars(v, a);
    if !has_marker {
        return false;
    }
    let j = first_non_ws(v, p);
    if match_at_ci(v, j, &kw_tag) {
        let k = first_non_ws(v, j + kw_tag.len());
        if k < n && v[k] == ':' {
            return keep_sorted_tail_chars(v, k + 1);
        }
    }
    keep_sorted_tail_chars(v, p)
}

/// The strict trigger of the plainest scanners: `#`, `Keep`, `sorted.`,
/// case-sensitive, with a required period.
pub open spec fn simple_trigger_comment(s: Seq<char>) -> bool {
    let a = ws_from(s, 0);
    if a < s.len() && s[a] == '#' {
        let j = ws_from(s, a + 1);
        if has_at(s, j, "Keep"@) {
            let m = ws_from(s, j + "Keep"@.len() as int);
            if has_at(s, m, "sorted."@) {
                ws_from(s, m + "sorted."@.len() as int) == s.len()
            } else {
                false
            }
        } else {
            false
        }
    } else {
        false
    }
}

pub fn is_simple_keep_sorted_line(line: &str) -> (r: bool)
    ensures
        r == simple_trigger_comment(line@),
{
    let v = chars_of(line);
    simple_trigger_chars(&v)
}

pub fn simple_trigger_chars(v: &Vec<char>) -> (r: bool)
    ensures
        r == simple_trigger_comment(v@),
{
    let n = v.len();
    let kw_keep = chars_of("Keep");
    let kw_sorted = chars_of("sorted.");
    let a = first_non_ws(v, 0);
    if !(a < n && v[a] == '#') {
        return false;
    }
    let j = first_non_ws(v, a + 1);
    if !match_at(v, j, &kw_keep) {
        return false;
    }
    let m = first_non_ws(v, j + kw_keep.len());
    if !match_at(v, m, &kw_sorted) {
        return false;
    }
    first_non_ws(v, m + kw_sorted.len()) == n
}

/// End of a run of separators (whitespace or `-`) starting at `i`.
pub open spec fn sep_from(s: Seq<char>, i: int) -> int
    decreases s.len() - i,
{
    if i < 0 || i >= s.len() {
        s.len() as int
    } else if is_ws_char(s[i]) || s[i] == '-' {
        sep_from(s, i + 1)
    } else {
        i
    }
}

proof fn lemma_sep_from_bounds(s: Seq<char>, i: int)
    requires
        0 <= i <= s.len(),
    ensures
        i <= sep_from(s, i) <= s.len(),
    decreases s.len() - i,
{
    if i < s.len() && (is_ws_char(s[i]) || s[i] == '-') {
        lemma_sep_from_bounds(s, i + 1);
    }
}

fn first_non_sep(v: &Vec<char>, from: usize) -> (r: usize)
    requires
        from <= v@.len(),
    ensures
        r as int == sep_from(v@, from as int),
        from <= r <= v@.len(),
{
    let n = v.len();
    let mut i = from;
    while i < n && (is_ws(v[i]) || v[i] == '-')
        invariant
            from <= i <= n,
            n == v@.len(),
            sep_from(v@, from as int) == sep_from(v@, i as int),
        decreases n - i,
    {
        i = i + 1;
    }
    proof {
        lemma_sep_from_bounds(v@, i as int);
    }
    i
}

/// An ignore directive: an optional `#` or `//` marker, the `keepsorted:`
/// tag, `ignore`, a separator run (whitespace or hyphens), then `word`
/// (`file` or `block`), an optional period, and the end of the line;
/// case-blind throughout.
pub open spec fn ignore_directive(s: Seq<char>, word: Seq<char>) -> bool {
    let a = ws_from(s, 0);
    let p0 = marker_end(s, a);
    let i = if p0 >= 0 {
        p0
    } else {
        a
    };
    let j = ws_from(s, i);
    if has_at_ci(s, j, "keepsorted"@) {
        let k = ws_from(s, j + "keepsorted"@.len() as int);
        if k < s.len() && s[k] == ':' {
            let m = ws_from(s, k + 1);
            if has_at_ci(s, m, "ignore"@) {
                let q = m + "ignore"@.len() as int;
                let p = sep_from(s, q);
                if p > q && has_at_ci(s, p, word) {
                    let e = ws_from(s, p + word.len() as int);
                    let e2 = if e < s.len() && s[e] == '.' {
                        ws_from(s, e + 1)
                    } else {
                        e
                    };
                    e2 == s.len()
                } else {
                    false
                }
            } else {
                false
            }
        } else {
            false
        }
    } else {
        false
    }
}

pub open spec fn ignore_file_comment(s: Seq<char>) -> bool {
    ignore_directive(s, "file"@)
}

pub open spec fn ignore_block_comment(s: Seq<char>) -> bool {
    ignore_directive(s, "block"@)
}

fn ignore_directive_chars(v: &Vec<char>, word: &Vec<char>) -> (r: bool)
    ensures
        r == ignore_directive(v@, word@),
{
    let n = v.len();
    let kw_tag = chars_of("keepsorted");
    let kw_ignore = chars_of("ignore");
    let a = first_non_ws(v, 0);
    let (has_marker, p0) = marker_end_chars(v, a);
    let i = if has_marker {
        p0
    } else {
        a
    };
    let j = first_non_ws(v, i);
    if !match_at_ci(v, j, &kw_tag) {
        return false;
    }
    let k = first_non_ws(v, j + kw_tag.len());
    if !(k < n && v[k] == ':') {
        return false;
    }
    let m = first_non_ws(v, k + 1);
    if !match_at_ci(v, m, &kw_ignore) {
        return false;
    }
    let q = m + kw_ignore.len();
    let p = first_non_sep(v, q);
    if !(p > q && match_at_ci(v, p, word)) {
        return false;
    }
    let e = first_non_ws(v, p + word.len());
    let e2 = if e < n && v[e] == '.' {
        first_non_ws(v, e + 1)
    } else {
        e
    };
    e2 == n
}

/// Whether this line tells the tool to leave the whole file untouched.
pub fn is_ignore_file_line(line: &str) -> (r: bool)
    ensures
        r == ignore_file_comment(line@),
{
    let v = chars_of(line);
    ignore_directive_chars(&v, &chars_of("file"))
}

/// Whether this line tells the tool to leave the next region untouched.
pub fn is_ignore_block_line(line: &str) -> (r: bool)
    ensures
        r == ignore_block_comment(line@),
{
    let v = chars_of(line);
    ignore_block_chars(&v)
}

pub fn ignore_block_chars(v: &Vec<char>) -> (r: bool)
    ensures
        r == ignore_block_comment(v@),
{
    ignore_directive_chars(v, &chars_of("block"))
}

/// End of the content that remains when the line is trimmed, cut at the
/// first occurrence of the comment marker `pat`, and trimmed again.
pub open spec fn lwc_hi(s: Seq<char>, pat: Seq<char>) -> int {
    let a = ws_from(s, 0);
    let b = ws_back(s, s.len() as int);
    let h = find_from(s, a, pat);
    let h2 = if h < b {
        h
    } else {
        b
    };
    ws_back(s, h2)
}

/// The line with any trailing `pat`-marked comment stripped, trimmed on both
/// sides: what the scanners compare structure against.
pub open spec fn line_wo_comment(s: Seq<char>, pat: Seq<char>) -> Seq<char> {
    let a = ws_from(s, 0);
    let e = lwc_hi(s, pat);
    if a <= e {
        s.subrange(a, e)
    } else {
        Seq::empty()
    }
}

/// The bounds of `line_wo_comment` within `v` (an empty range at the content
/// start when the stripped line is empty).
pub fn lwc_range(v: &Vec<char>, pat: &Vec<char>) -> (r: (usize, usize))
    ensures
        r.0 <= r.1 <= v@.len(),
        r.0 as int == ws_from(v@, 0),
        v@.subrange(r.0 as int, r.1 as int) == line_wo_comment(v@, pat@),
{
    let n = v.len();
    let a = first_non_ws(v, 0);
    let b = last_non_ws(v, n);
    let h = find_pat_from(v, a, pat);
    let h2 = if h < b {
        h
    } else {
        b
    };
    let e = last_non_ws(v, h2);
    if a <= e {
        (a, e)
    } else {
        proof {
            assert(v@.subrange(a as int, a as int) =~= Seq::<char>::empty());
        }
        (a, a)
    }
}

/// Whether the comment-stripped trimmed line (comments open with `#`) holds
/// the character `c` anywhere.
pub open spec fn lwc_hash_has(s: Seq<char>, c: char) -> bool {
    let t = line_wo_comment(s, "#"@);
    has_char_in(t, 0, t.len() as int, c)
}

pub fn lwc_hash_contains(v: &Vec<char>, c: char) -> (r: bool)
    ensures
        r == lwc_hash_has(v@, c),
{
    let pat = chars_of("#");
    let (a, e) = lwc_range(v, &pat);
    let r = contains_char_in(v, a, e, c);
    proof {
        let t = line_wo_comment(v@, "#"@);
        assert(t == v@.subrange(a as int, e as int));
        if has_char_in(v@, a as int, e as int, c) {
            let k = choose|k: int| a <= k < e && k < v@.len() && v@[k] == c;
            assert(t[k - a] == c);
            assert(has_char_in(t, 0, t.len() as int, c));
        }
        if has_char_in(t, 0, t.len() as int, c) {
            let k = choose|k: int| 0 <= k < t.len() && k < t.len() && t[k] == c;
            assert(v@[a + k] == c);
            assert(has_char_in(v@, a as int, e as int, c));
        }
    }
    r
}

/// Whether the comment-stripped trimmed line starts with the character `c`.
pub open spec fn lwc_hash_starts(s: Seq<char>, c: char) -> bool {
    let t = line_wo_comment(s, "#"@);
    t.len() > 0 && t[0] == c
}

pub fn lwc_hash_starts_with(v: &Vec<char>, c: char) -> (r: bool)
    ensures
        r == lwc_hash_starts(v@, c),
{
    let pat = chars_of("#");
    let (a, e) = lwc_range(v, &pat);
    proof {
        let t = line_wo_comment(v@, "#"@);
        if a < e {
            assert(t[0] == v@[a as int]);
        }
    }
    a < e && v[a] == c
}

/// Whether a dependency-table entry's code span is complete: its
/// comment-stripped trimmed text ends with `}`.
pub open spec fn code_span_complete(s: Seq<char>) -> bool {
    let t = line_wo_comment(s, "#"@);
    t.len() > 0 && t[t.len() - 1] == '}'
}

pub fn line_code_span_complete(line: &str) -> (r: bool)
    ensures
        r == code_span_complete(line@),
{
    let v = chars_of(line);
    let pat = chars_of("#");
    let (a, e) = lwc_range(&v, &pat);
    proof {
        let t = line_wo_comment(v@, "#"@);
        if a < e {
            assert(t[t.len() - 1] == v@[e - 1]);
        }
    }
    a < e && v[e - 1] == '}'
}

/// Whether `pat` occurs anywhere in `s`.
pub open spec fn seq_contains(s: Seq<char>, pat: Seq<char>) -> bool {
    find_from(s, 0, pat) < s.len()
}

fn contains_pat(v: &Vec<char>, lit: &str) -> (r: bool)
    ensures
        r == seq_contains(v@, lit@),
{
    let pat = chars_of(lit);
    let i = find_pat_from(v, 0, &pat);
    i < v.len()
}

/// A dependency-table header: trimmed, the line is bracketed and names one
/// of the `dependencies`, `dev-dependencies` or `build-dependencies`
/// tables, plain, dotted, qualified, or under `workspace`.
pub open spec fn dep_table_header(s: Seq<char>) -> bool {
    let t = spec_trim(s);
    t.len() > 0 && t[0] == '[' && t[t.len() - 1] == ']' && (seq_contains(t, "[dependencies]"@)
        || seq_contains(t, ".dependencies]"@) || seq_contains(t, "[dependencies."@)
        || seq_contains(t, "[workspace.dependencies."@) || seq_contains(t, "[dev-dependencies]"@)
        || seq_contains(t, ".dev-dependencies]"@) || seq_contains(t, "[dev-dependencies."@)
        || seq_contains(t, "[workspace.dev-dependencies."@) || seq_contains(
        t,
        "[build-dependencies]"@,
    ) || seq_contains(t, ".build-dependencies]"@) || seq_contains(t, "[build-dependencies."@)
        || seq_contains(t, "[workspace.build-dependencies."@))
}

pub fn is_dep_table_header_line(line: &str) -> (r: bool)
    ensures
        r == dep_table_header(line@),
{
    let v = chars_of(line);
    let n = v.len();
    let a = first_non_ws(&v, 0);
    let b = last_non_ws(&v, n);
    if a >= b {
        proof {
            lemma_ws_from_bounds(v@, 0);
            lemma_ws_back_bounds(v@, v@.len() as int);
            assert(spec_trim(v@).len() == 0);
        }
        return false;
    }
    let t = sub_vec(&v, a, b);
    proof {
        assert(t@ == spec_trim(v@));
    }
    if !(t[0] == '[' && t[t.len() - 1] == ']') {
        return false;
    }
    contains_pat(&t, "[dependencies]") || contains_pat(&t, ".dependencies]") || contains_pat(
        &t,
        "[dependencies.",
    ) || contains_pat(&t, "[workspace.dependencies.") || contains_pat(&t, "[dev-dependencies]")
        || contains_pat(&t, ".dev-dependencies]") || contains_pat(&t, "[dev-dependencies.")
        || contains_pat(&t, "[workspace.dev-dependencies.") || contains_pat(
        &t,
        "[build-dependencies]",
    ) || contains_pat(&t, ".build-dependencies]") || contains_pat(&t, "[build-dependencies.")
        || contains_pat(&t, "[workspace.build-dependencies.")
}

/// The plain dependency-table header of the earliest scanner: the raw line
/// starts with `[dependencies]` or `[dev-dependencies]`.
pub open spec fn simple_dep_header(s: Seq<char>) -> bool {
    has_at(s, 0, "[dependencies]"@) || has_at(s, 0, "[dev-dependencies]"@)
}

pub fn is_simple_dep_header_line(line: &str) -> (r: bool)
    ensures
        r == simple_dep_header(line@),
{
    let v = chars_of(line);
    match_at(&v, 0, &chars_of("[dependencies]")) || match_at(&v, 0, &chars_of("[dev-dependencies]"))
}

/// The opening of a derive attribute: `#[derive(` after leading whitespace.
pub open spec fn derive_begin(s: Seq<char>) -> bool {
    has_at(s, ws_from(s, 0), "#[derive("@)
}

pub fn is_derive_begin_line(line: &str) -> (r: bool)
    ensures
        r == derive_begin(line@),
{
    let v = chars_of(line);
    let a = first_non_ws(&v, 0);
    match_at(&v, a, &chars_of("#[derive("))
}

/// The close of a derive attribute: the line, stripped of a trailing `//`
/// comment and trimmed, ends with `)]`.
pub open spec fn derive_end(s: Seq<char>) -> bool {
    let t = line_wo_comment(s, "//"@);
    t.len() >= 2 && t[t.len() - 2] == ')' && t[t.len() - 1] == ']'
}

pub fn is_derive_end_line(line: &str) -> (r: bool)
    ensures
        r == derive_end(line@),
{
    let v = chars_of(line);
    let pat = chars_of("//");
    let (a, e) = lwc_range(&v, &pat);
    proof {
        let t = line_wo_comment(v@, "//"@);
        if e - a >= 2 {
            assert(t[t.len() - 2] == v@[e - 2]);
            assert(t[t.len() - 1] == v@[e - 1]);
        }
    }
    e - a >= 2 && v[e - 2] == ')' && v[e - 1] == ']'
}

/// Whether some line of `lines` is an ignore-block directive.
pub open spec fn has_ignore_block(lines: Seq<Seq<char>>) -> bool {
    exists|i: int| 0 <= i < lines.len() && ignore_block_comment(lines[i])
}

/// Whether some line of `lines` is an ignore-file directive.
pub open spec fn has_ignore_file(lines: Seq<Seq<char>>) -> bool {
    exists|i: int| 0 <= i < lines.len() && ignore_file_comment(lines[i])
}

} // verus!
