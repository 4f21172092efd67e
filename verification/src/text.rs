//! Character-level helpers: whitespace, trimming, lexicographic order,
//! substring search.  All executable functions carry exact contracts over
//! `Seq<char>` views.

use vstd::prelude::*;

verus! {

broadcast use vstd::seq::group_seq_axioms;

/// The Unicode `White_Space` set, as `str::trim` uses it.
pub open spec fn is_ws_char(c: char) -> bool {
    let u = c as u32;
    u == 0x20 || (0x09 <= u && u <= 0x0D) || u == 0x85 || u == 0xA0 || u == 0x1680 || (0x2000
        <= u && u <= 0x200A) || u == 0x2028 || u == 0x2029 || u == 0x202F || u == 0x205F || u
        == 0x3000
}

pub fn is_ws(c: char) -> (r: bool)
    ensures
        r == is_ws_char(c),
{
    let u = c as u32;
    u == 0x20 || (0x09 <= u && u <= 0x0D) || u == 0x85 || u == 0xA0 || u == 0x1680 || (0x2000
        <= u && u <= 0x200A) || u == 0x2028 || u == 0x2029 || u == 0x202F || u == 0x205F || u
        == 0x3000
}

/// Index of the first character at or after `i` that is not whitespace
/// (`s.len()` when none is).
pub open spec fn ws_from(s: Seq<char>, i: int) -> int
    decreases s.len() - i,
{
    if i < 0 || i >= s.len() {
        s.len() as int
    } else if is_ws_char(s[i]) {
        ws_from(s, i + 1)
    } else {
        i
    }
}

pub proof fn lemma_ws_from_bounds(s: Seq<char>, i: int)
    requires
        0 <= i <= s.len(),
    ensures
        i <= ws_from(s, i) <= s.len(),
    decreases s.len() - i,
{
    if i < s.len() && is_ws_char(s[i]) {
        lemma_ws_from_bounds(s, i + 1);
    }
}

/// End (exclusive) of the content once trailing whitespace before `j` is
/// dropped: the least `e <= j` such that `s[e - 1]` is not whitespace.
pub open spec fn ws_back(s: Seq<char>, j: int) -> int
    decreases j,
{
    if 0 < j <= s.len() && is_ws_char(s[j - 1]) {
        ws_back(s, j - 1)
    } else {
        j
    }
}

pub proof fn lemma_ws_back_bounds(s: Seq<char>, j: int)
    requires
        0 <= j <= s.len(),
    ensures
        0 <= ws_back(s, j) <= j,
    decreases j,
{
    if 0 < j <= s.len() && is_ws_char(s[j - 1]) {
        lemma_ws_back_bounds(s, j - 1);
    }
}

/// What `str::trim` returns, as a sequence.
pub open spec fn spec_trim(s: Seq<char>) -> Seq<char> {
    let a = ws_from(s, 0);
    let b = ws_back(s, s.len() as int);
    if a <= b {
        s.subrange(a, b)
    } else {
        Seq::empty()
    }
}

/// A line is blank when it holds only whitespace.
pub open spec fn is_blank_line(s: Seq<char>) -> bool {
    ws_from(s, 0) == s.len()
}

/// The characters of `s`, one by one.
pub fn chars_of(s: &str) -> (v: Vec<char>)
    ensures
        v@ == s@,
{
    let n = s.unicode_len();
    let mut v: Vec<char> = Vec::new();
    let mut i: usize = 0;
    while i < n
        invariant
            i <= n,
            n == s@.len(),
            v@ == s@.take(i as int),
        decreases n - i,
    {
        let c = s.get_char(i);
        v.push(c);
        proof {
            assert(s@.take(i as int).push(s@[i as int]) =~= s@.take(i + 1));
        }
        i = i + 1;
    }
    proof {
        assert(s@.take(n as int) =~= s@);
    }
    v
}

/// Index of the first non-whitespace character at or after `from`.
pub fn first_non_ws(v: &Vec<char>, from: usize) -> (r: usize)
    requires
        from <= v@.len(),
    ensures
        r as int == ws_from(v@, from as int),
        from <= r <= v@.len(),
{
    let n = v.len();
    let mut i = from;
    while i < n && is_ws(v[i])
        invariant
            from <= i <= n,
            n == v@.len(),
            ws_from(v@, from as int) == ws_from(v@, i as int),
        decreases n - i,
    {
        i = i + 1;
    }
    proof {
        lemma_ws_from_bounds(v@, i as int);
    }
    i
}

/// Exclusive end of the content before `upto` once trailing whitespace is
/// dropped.
pub fn last_non_ws(v: &Vec<char>, upto: usize) -> (r: usize)
    requires
        upto <= v@.len(),
    ensures
        r as int == ws_back(v@, upto as int),
        r <= upto,
{
    let mut j = upto;
    while j > 0 && is_ws(v[j - 1])
        invariant
            j <= upto <= v@.len(),
            ws_back(v@, upto as int) == ws_back(v@, j as int),
        decreases j,
    {
        j = j - 1;
    }
    j
}

/// Whether the character `c` occurs in `s` at an index in `[from, to)`.
pub open spec fn has_char_in(s: Seq<char>, from: int, to: int, c: char) -> bool {
    exists|k: int| from <= k < to && k < s.len() && s[k] == c
}

pub fn contains_char_in(v: &Vec<char>, from: usize, to: usize, c: char) -> (r: bool)
    requires
        from <= to <= v@.len(),
    ensures
        r == has_char_in(v@, from as int, to as int, c),
{
    let mut i = from;
    while i < to
        invariant
            from <= i <= to <= v@.len(),
            forall|k: int| from <= k < i ==> v@[k] != c,
        decreases to - i,
    {
        if v[i] == c {
            return true;
        }
        i = i + 1;
    }
    false
}

/// Index of the first occurrence of `c` at or after `from` (`s.len()` when
/// there is none).
pub open spec fn char_from(s: Seq<char>, from: int, c: char) -> int
    decreases s.len() - from,
{
    if from < 0 || from >= s.len() {
        s.len() as int
    } else if s[from] == c {
        from
    } else {
        char_from(s, from + 1, c)
    }
}

pub proof fn lemma_char_from_bounds(s: Seq<char>, from: int, c: char)
    requires
        0 <= from <= s.len(),
    ensures
        from <= char_from(s, from, c) <= s.len(),
    decreases s.len() - from,
{
    if from < s.len() && s[from] != c {
        lemma_char_from_bounds(s, from + 1, c);
    }
}

pub fn find_char_from(v: &Vec<char>, from: usize, c: char) -> (r: usize)
    requires
        from <= v@.len(),
    ensures
        r as int == char_from(v@, from as int, c),
        from <= r <= v@.len(),
{
    let n = v.len();
    let mut i = from;
    while i < n && v[i] != c
        invariant
            from <= i <= n,
            n == v@.len(),
            char_from(v@, from as int, c) == char_from(v@, i as int, c),
        decreases n - i,
    {
        i = i + 1;
    }
    proof {
        lemma_char_from_bounds(v@, i as int, c);
    }
    i
}

/// Whether `pat` occurs in `s` starting exactly at `i`.
pub open spec fn has_at(s: Seq<char>, i: int, pat: Seq<char>) -> bool {
    0 <= i && i + pat.len() <= s.len() && s.subrange(i, i + pat.len() as int) == pat
}

pub fn match_at(v: &Vec<char>, i: usize, pat: &Vec<char>) -> (r: bool)
    requires
        i <= v@.len(),
    ensures
        r == has_at(v@, i as int, pat@),
{
    let n = v.len();
    let m = pat.len();
    if n - i < m {
        proof {
            assert(!has_at(v@, i as int, pat@));
        }
        return false;
    }
    let mut j: usize = 0;
    while j < m
        invariant
            j <= m,
            i + m <= n,
            n == v@.len(),
            m == pat@.len(),
            forall|k: int| 0 <= k < j ==> v@[i + k] == pat@[k],
        decreases m - j,
    {
        if v[i + j] != pat[j] {
            proof {
                assert(v@.subrange(i as int, i + m) != pat@) by {
                    assert(v@.subrange(i as int, i + m)[j as int] != pat@[j as int]);
                }
            }
            return false;
        }
        j = j + 1;
    }
    proof {
        assert(v@.subrange(i as int, i + m) =~= pat@);
    }
    true
}

/// Case-blind equality against a lower-case letter `k`: equal outright, or
/// `c` is the upper-case form of `k`.
pub open spec fn char_eq_ci(c: char, k: char) -> bool {
    c == k || (97 <= (k as u32) <= 122 && (c as u32) + 32 == (k as u32))
}

pub fn chars_eq_ci(c: char, k: char) -> (r: bool)
    ensures
        r == char_eq_ci(c, k),
{
    c == k || (97 <= (k as u32) && (k as u32) <= 122 && (c as u32) + 32 == (k as u32))
}

/// Whether `pat` (given in lower case) occurs at `i`, letters matched
/// case-blind.
pub open spec fn has_at_ci(s: Seq<char>, i: int, pat: Seq<char>) -> bool {
    0 <= i && i + pat.len() <= s.len() && (forall|k: int|
        0 <= k < pat.len() ==> char_eq_ci(s[i + k], pat[k]))
}

pub fn match_at_ci(v: &Vec<char>, i: usize, pat: &Vec<char>) -> (r: bool)
    requires
        i <= v@.len(),
    ensures
        r == has_at_ci(v@, i as int, pat@),
{
    let n = v.len();
    let m = pat.len();
    if n - i < m {
        return false;
    }
    let mut j: usize = 0;
    while j < m
        invariant
            j <= m,
            i + m <= n,
            n == v@.len(),
            m == pat@.len(),
            forall|k: int| 0 <= k < j ==> char_eq_ci(v@[i + k], pat@[k]),
        decreases m - j,
    {
        if !chars_eq_ci(v[i + j], pat[j]) {
            return false;
        }
        j = j + 1;
    }
    true
}

/// Index of the first occurrence of `pat` at or after `from` (`s.len()` when
/// there is none; `pat` is assumed non-empty wherever that distinction
/// matters).
pub open spec fn find_from(s: Seq<char>, from: int, pat: Seq<char>) -> int
    decreases s.len() - from,
{
    if from < 0 || from + pat.len() > s.len() {
        s.len() as int
    } else if has_at(s, from, pat) {
        from
    } else if from >= s.len() {
        s.len() as int
    } else {
        find_from(s, from + 1, pat)
    }
}

pub proof fn lemma_find_from_bounds(s: Seq<char>, from: int, pat: Seq<char>)
    requires
        0 <= from <= s.len(),
    ensures
        from <= find_from(s, from, pat) <= s.len(),
    decreases s.len() - from,
{
    if from + pat.len() <= s.len() && !has_at(s, from, pat) && from < s.len() {
        lemma_find_from_bounds(s, from + 1, pat);
    }
}

pub fn find_pat_from(v: &Vec<char>, from: usize, pat: &Vec<char>) -> (r: usize)
    requires
        from <= v@.len(),
    ensures
        r as int == find_from(v@, from as int, pat@),
        from <= r <= v@.len(),
{
    let n = v.len();
    let mut i = from;
    loop
        invariant
            from <= i <= n,
            n == v@.len(),
            find_from(v@, from as int, pat@) == find_from(v@, i as int, pat@),
        decreases n - i,
    {
        if pat.len() > n - i {
            proof {
                lemma_find_from_bounds(v@, i as int, pat@);
            }
            return n;
        }
        if match_at(v, i, pat) {
            return i;
        }
        proof {
            lemma_find_from_bounds(v@, i as int, pat@);
        }
        if i == n {
            return n;
        }
        i = i + 1;
    }
}

/// A copy of the characters of `v` in `[a, b)`.
pub fn sub_vec(v: &Vec<char>, a: usize, b: usize) -> (r: Vec<char>)
    requires
        a <= b <= v@.len(),
    ensures
        r@ == v@.subrange(a as int, b as int),
{
    let mut r: Vec<char> = Vec::new();
    let mut i = a;
    while i < b
        invariant
            a <= i <= b <= v@.len(),
            r@ == v@.subrange(a as int, i as int),
        decreases b - i,
    {
        r.push(v[i]);
        proof {
            assert(v@.subrange(a as int, i as int).push(v@[i as int]) =~= v@.subrange(
                a as int,
                i + 1,
            ));
        }
        i = i + 1;
    }
    r
}

pub proof fn lemma_has_at_skip(s: Seq<char>, off: int, j: int, pat: Seq<char>)
    requires
        0 <= off <= j,
        off <= s.len(),
    ensures
        has_at(s.skip(off), j - off, pat) == has_at(s, j, pat),
{
    if j + pat.len() <= s.len() {
        if has_at(s, j, pat) {
            assert(s.skip(off).subrange(j - off, j - off + pat.len() as int) =~= s.subrange(
                j,
                j + pat.len() as int,
            ));
        }
        if has_at(s.skip(off), j - off, pat) {
            assert(s.subrange(j, j + pat.len() as int) =~= s.skip(off).subrange(
                j - off,
                j - off + pat.len() as int,
            ));
        }
    }
}

pub proof fn lemma_find_from_skip(s: Seq<char>, off: int, i: int, pat: Seq<char>)
    requires
        0 <= off <= i <= s.len(),
    ensures
        find_from(s.skip(off), i - off, pat) == find_from(s, i, pat) - off,
    decreases s.len() - i,
{
    lemma_has_at_skip(s, off, i, pat);
    if i + pat.len() > s.len() {
    } else if has_at(s, i, pat) {
    } else if i >= s.len() {
    } else {
        lemma_find_from_skip(s, off, i + 1, pat);
    }
}

/// Lexicographic order on character sequences, by code point; this agrees
/// with how `str` compares, since UTF-8 byte order follows code-point order.
pub open spec fn lex_le(a: Seq<char>, b: Seq<char>) -> bool
    decreases a.len(),
{
    if a.len() == 0 {
        true
    } else if b.len() == 0 {
        false
    } else if a[0] == b[0] {
        lex_le(a.drop_first(), b.drop_first())
    } else {
        (a[0] as u32) < (b[0] as u32)
    }
}

pub fn chars_le(x: &Vec<char>, y: &Vec<char>) -> (r: bool)
    ensures
        r == lex_le(x@, y@),
{
    let mut i: usize = 0;
    proof {
        assert(x@.skip(0) =~= x@);
        assert(y@.skip(0) =~= y@);
    }
    loop
        invariant
            i <= x@.len(),
            i <= y@.len(),
            lex_le(x@, y@) == lex_le(x@.skip(i as int), y@.skip(i as int)),
        decreases x@.len() - i,
    {
        if i == x.len() {
            return true;
        }
        if i == y.len() {
            return false;
        }
        let cx = x[i];
        let cy = y[i];
        if cx != cy {
            return (cx as u32) < (cy as u32);
        }
        proof {
            assert(x@.skip(i as int).drop_first() =~= x@.skip(i + 1));
            assert(y@.skip(i as int).drop_first() =~= y@.skip(i + 1));
        }
        i = i + 1;
    }
}

pub fn chars_eq(x: &Vec<char>, y: &Vec<char>) -> (r: bool)
    ensures
        r == (x@ == y@),
{
    if x.len() != y.len() {
        return false;
    }
    let mut i: usize = 0;
    while i < x.len()
        invariant
            i <= x@.len(),
            x@.len() == y@.len(),
            forall|k: int| 0 <= k < i ==> x@[k] == y@[k],
        decreases x@.len() - i,
    {
        if x[i] != y[i] {
            proof {
                assert(x@ != y@) by {
                    assert(x@[i as int] != y@[i as int]);
                }
            }
            return false;
        }
        i = i + 1;
    }
    proof {
        assert(x@ =~= y@);
    }
    true
}

/// Two distinct characters differ as code points.
pub proof fn lemma_char_neq_u32(a: char, b: char)
    requires
        a != b,
    ensures
        (a as u32) != (b as u32),
{
    if (a as u32) == (b as u32) {
        vstd::utf8::char_u32_cast(a, a as u32);
        vstd::utf8::char_u32_cast(b, a as u32);
    }
}

pub proof fn lemma_lex_le_total(a: Seq<char>, b: Seq<char>)
    ensures
        lex_le(a, b) || lex_le(b, a),
    decreases a.len(),
{
    if a.len() > 0 && b.len() > 0 {
        if a[0] == b[0] {
            lemma_lex_le_total(a.drop_first(), b.drop_first());
        } else {
            lemma_char_neq_u32(a[0], b[0]);
        }
    }
}

pub proof fn lemma_lex_le_antisym(a: Seq<char>, b: Seq<char>)
    requires
        lex_le(a, b),
        lex_le(b, a),
    ensures
        a == b,
    decreases a.len(),
{
    if a.len() > 0 && b.len() > 0 && a[0] == b[0] {
        lemma_lex_le_antisym(a.drop_first(), b.drop_first());
        assert(a =~= seq![a[0]] + a.drop_first());
        assert(b =~= seq![b[0]] + b.drop_first());
    } else if a.len() == 0 && b.len() == 0 {
        assert(a =~= b);
    }
}

pub proof fn lemma_lex_le_trans(a: Seq<char>, b: Seq<char>, c: Seq<char>)
    requires
        lex_le(a, b),
        lex_le(b, c),
    ensures
        lex_le(a, c),
    decreases a.len(),
{
    if a.len() == 0 || b.len() == 0 || c.len() == 0 {
    } else if a[0] == b[0] && b[0] == c[0] {
        lemma_lex_le_trans(a.drop_first(), b.drop_first(), c.drop_first());
    }
}

/// Lexicographic order on sequences of lines, line by line; this is how
/// `Vec<String>` compares.
pub open spec fn lines_le(a: Seq<Seq<char>>, b: Seq<Seq<char>>) -> bool
    decreases a.len(),
{
    if a.len() == 0 {
        true
    } else if b.len() == 0 {
        false
    } else if a[0] == b[0] {
        lines_le(a.drop_first(), b.drop_first())
    } else {
        lex_le(a[0], b[0])
    }
}

pub proof fn lemma_lines_le_total(a: Seq<Seq<char>>, b: Seq<Seq<char>>)
    ensures
        lines_le(a, b) || lines_le(b, a),
    decreases a.len(),
{
    if a.len() > 0 && b.len() > 0 {
        if a[0] == b[0] {
            lemma_lines_le_total(a.drop_first(), b.drop_first());
        } else {
            lemma_lex_le_total(a[0], b[0]);
            if lex_le(a[0], b[0]) && lex_le(b[0], a[0]) {
                lemma_lex_le_antisym(a[0], b[0]);
            }
        }
    }
}

pub proof fn lemma_lines_le_trans(a: Seq<Seq<char>>, b: Seq<Seq<char>>, c: Seq<Seq<char>>)
    requires
        lines_le(a, b),
        lines_le(b, c),
    ensures
        lines_le(a, c),
    decreases a.len(),
{
    if a.len() == 0 || b.len() == 0 || c.len() == 0 {
    } else if a[0] == b[0] {
        if b[0] == c[0] {
            lemma_lines_le_trans(a.drop_first(), b.drop_first(), c.drop_first());
        }
    } else if b[0] == c[0] {
    } else if a[0] == c[0] {
        // lex_le(a0, b0), lex_le(b0, c0) with a0 == c0 forces a0 == b0
        lemma_lex_le_trans(a[0], b[0], c[0]);
        lemma_lex_le_trans(b[0], c[0], a[0]);
        lemma_lex_le_antisym(a[0], b[0]);
    } else {
        lemma_lex_le_trans(a[0], b[0], c[0]);
    }
}

} // verus!
