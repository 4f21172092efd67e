//! The Bazel string-literal sort key.  A list entry is first classed into a
//! phase by its leading characters — plain quoted strings, then `":`, then
//! `"//`, then `"@`, and lastly anything unquoted — and within one phase
//! entries compare by the token sequence obtained by splitting the
//! comment-stripped text at `.`, `:` and `"`.

use vstd::prelude::*;
use vstd::string::*;

use crate::directives::{line_wo_comment, lwc_range};
use crate::text::{chars_of, lines_le, sub_vec};

verus! {

broadcast use vstd::seq::group_seq_axioms;

/// The mathematical value of a Bazel sort key.
pub struct BazelKeyModel {
    pub phase: int,
    pub split: Seq<Seq<char>>,
}

/// The phase of a comment-stripped, trimmed list entry.
pub open spec fn bazel_phase(t: Seq<char>) -> int {
    if t.len() >= 2 && t[0] == '"' && t[1] == ':' {
        1
    } else if t.len() >= 3 && t[0] == '"' && t[1] == '/' && t[2] == '/' {
        2
    } else if t.len() >= 2 && t[0] == '"' && t[1] == '@' {
        3
    } else if t.len() >= 1 && t[0] == '"' {
        0
    } else {
        4
    }
}

pub open spec fn is_bazel_sep(c: char) -> bool {
    c == '.' || c == ':' || c == '"'
}

/// Index of the first separator at or after `from` (`s.len()` when none is).
pub open spec fn sep_pos(s: Seq<char>, from: int) -> int
    decreases s.len() - from,
{
    if from < 0 || from >= s.len() {
        s.len() as int
    } else if is_bazel_sep(s[from]) {
        from
    } else {
        sep_pos(s, from + 1)
    }
}

pub proof fn lemma_sep_pos_bounds(s: Seq<char>, from: int)
    requires
        0 <= from <= s.len(),
    ensures
        from <= sep_pos(s, from) <= s.len(),
    decreases s.len() - from,
{
    if from < s.len() && !is_bazel_sep(s[from]) {
        lemma_sep_pos_bounds(s, from + 1);
    }
}

proof fn lemma_sep_pos_skip(s: Seq<char>, off: int, i: int)
    requires
        0 <= off <= i <= s.len(),
    ensures
        sep_pos(s.skip(off), i - off) == sep_pos(s, i) - off,
    decreases s.len() - i,
{
    if i < s.len() {
        assert(s.skip(off)[i - off] == s[i]);
        if !is_bazel_sep(s[i]) {
            lemma_sep_pos_skip(s, off, i + 1);
        }
    }
}

/// The token sequence: `s` split at every separator (an entry with no
/// separator is the one token; empty tokens are kept).
pub open spec fn split_seps(s: Seq<char>) -> Seq<Seq<char>>
    decreases s.len(),
{
    let k = sep_pos(s, 0);
    if 0 <= k < s.len() {
        seq![s.take(k)] + split_seps(s.skip(k + 1))
    } else {
        seq![s]
    }
}

/// The key of one raw list line: phase and token split of its
/// comment-stripped trimmed text.
pub open spec fn bazel_key(line: Seq<char>) -> BazelKeyModel {
    let t = line_wo_comment(line, "#"@);
    BazelKeyModel { phase: bazel_phase(t), split: split_seps(t) }
}

/// Key order: phase first, then the token sequences lexicographically.
pub open spec fn bazel_key_le(a: BazelKeyModel, b: BazelKeyModel) -> bool {
    a.phase < b.phase || (a.phase == b.phase && lines_le(a.split, b.split))
}

/// A sort key for one line of a Bazel list.  Keys order first by phase,
/// then by the token split of the comment-stripped text.
#[derive(Debug, PartialEq, Eq, PartialOrd, Ord)]
pub struct BazelSortKey {
    phase: i16,
    split: Vec<String>,
}

impl View for BazelSortKey {
    type V = BazelKeyModel;

    closed spec fn view(&self) -> BazelKeyModel {
        BazelKeyModel { phase: self.phase as int, split: self.split.deep_view() }
    }
}

fn first_sep_in(t: &Vec<char>, from: usize) -> (r: usize)
    requires
        from <= t@.len(),
    ensures
        r as int == sep_pos(t@, from as int),
        from <= r <= t@.len(),
{
    let n = t.len();
    let mut i = from;
    while i < n && !(t[i] == '.' || t[i] == ':' || t[i] == '"')
        invariant
            from <= i <= n,
            n == t@.len(),
            sep_pos(t@, from as int) == sep_pos(t@, i as int),
        decreases n - i,
    {
        i = i + 1;
    }
    proof {
        lemma_sep_pos_bounds(t@, i as int);
    }
    i
}

impl BazelSortKey {
    /// The key of `line`.
    pub fn new(line: &str) -> (k: BazelSortKey)
        ensures
            k@ == bazel_key(line@),
    {
        let v = chars_of(line);
        let hash = chars_of("#");
        let (a, e) = lwc_range(&v, &hash);
        let t = sub_vec(&v, a, e);
        proof {
            assert(t@ == line_wo_comment(line@, "#"@));
        }
        let n = t.len();

        let phase: i16 = if n >= 2 && t[0] == '"' && t[1] == ':' {
            1
        } else if n >= 3 && t[0] == '"' && t[1] == '/' && t[2] == '/' {
            2
        } else if n >= 2 && t[0] == '"' && t[1] == '@' {
            3
        } else if n >= 1 && t[0] == '"' {
            0
        } else {
            4
        };

        let mut split: Vec<String> = Vec::new();
        let mut p: usize = 0;
        proof {
            assert(t@.skip(0) =~= t@);
            assert(split.deep_view() + split_seps(t@) =~= split_seps(t@));
        }
        loop
            invariant_except_break
                split_seps(t@) == split.deep_view() + split_seps(t@.skip(p as int)),
            invariant
                p <= n,
                n == t@.len(),
                e <= v@.len(),
                a + n == e,
                v@ == line@,
                t@ == v@.subrange(a as int, e as int),
            ensures
                split.deep_view() == split_seps(t@),
            decreases n - p,
        {
            let k = first_sep_in(&t, p);
            let piece = line.substring_char(a + p, a + k);
            let tok = String::from_str(piece);
            proof {
                assert(tok@ =~= t@.subrange(p as int, k as int)) by {
                    assert(tok@ == line@.subrange(a + p, a + k));
                    assert forall|j: int| 0 <= j < k - p implies line@.subrange(a + p, a + k)[j]
                        == t@.subrange(p as int, k as int)[j] by {
                        assert(line@.subrange(a + p, a + k)[j] == line@[a + p + j]);
                        assert(t@.subrange(p as int, k as int)[j] == t@[p + j]);
                        assert(t@[p + j] == v@[a + p + j]);
                    }
                }
                lemma_sep_pos_skip(t@, p as int, p as int);
                let s_p = t@.skip(p as int);
                assert(sep_pos(s_p, 0) == k - p);
                if k < n {
                    assert(s_p.take(k - p) =~= t@.subrange(p as int, k as int));
                    assert(s_p.skip(k - p + 1) =~= t@.skip(k + 1));
                    assert(split_seps(s_p) == seq![tok@] + split_seps(t@.skip(k + 1)));
                } else {
                    assert(s_p =~= t@.subrange(p as int, n as int));
                    assert(split_seps(s_p) == seq![s_p]);
                    assert(tok@ =~= s_p);
                }
            }
            let ghost old_split = split.deep_view();
            split.push(tok);
            proof {
                assert(split.deep_view() =~= old_split.push(tok@));
            }
            if k == n {
                proof {
                    assert(split.deep_view() =~= old_split + seq![tok@]);
                    assert(split_seps(t@) =~= split.deep_view());
                }
                break ;
            }
            proof {
                assert(split.deep_view() + split_seps(t@.skip(k + 1)) =~= old_split + (seq![tok@]
                    + split_seps(t@.skip(k + 1))));
            }
            p = k + 1;
        }

        let key = BazelSortKey { phase, split };
        proof {
            assert(key@.split == split_seps(line_wo_comment(line@, "#"@)));
            assert(key@.phase == bazel_phase(line_wo_comment(line@, "#"@)));
        }
        key
    }
}

/// Scanner state for the plain Bazel pass over borrowed lines.
pub struct ScanState {
    pub out: Seq<Seq<char>>,
    pub block: Seq<Seq<char>>,
    pub sorting: bool,
    pub scope: bool,
}

pub open spec fn scan_init() -> ScanState {
    ScanState { out: Seq::empty(), block: Seq::empty(), sorting: false, scope: false }
}

pub open spec fn scan_step(st: ScanState, line: Seq<char>) -> ScanState {
    if st.sorting {
        if crate::directives::lwc_hash_has(line, ']') || crate::text::is_blank_line(line) {
            ScanState {
                out: st.out + crate::engine::sorted_block(true, false, true, st.block)
                    + seq![line],
                block: Seq::empty(),
                sorting: false,
                ..st
            }
        } else {
            ScanState { block: st.block.push(line), ..st }
        }
    } else if crate::directives::lwc_hash_has(line, '[') {
        ScanState { out: st.out.push(line), scope: true, ..st }
    } else if st.scope && crate::directives::simple_trigger_comment(line) {
        ScanState { out: st.out.push(line), block: Seq::empty(), sorting: true, ..st }
    } else {
        ScanState { out: st.out.push(line), ..st }
    }
}

pub open spec fn scan_run(lines: Seq<Seq<char>>) -> ScanState
    decreases lines.len(),
{
    if lines.len() == 0 {
        scan_init()
    } else {
        scan_step(scan_run(lines.drop_last()), lines.last())
    }
}

pub open spec fn spec_process(lines: Seq<Seq<char>>) -> Seq<Seq<char>> {
    let st = scan_run(lines);
    if st.sorting {
        st.out + crate::engine::sorted_block(true, false, true, st.block)
    } else {
        st.out
    }
}

/// Process borrowed lines under the plain Bazel dialect: the strict
/// `# Keep sorted.` trigger inside a bracket scope, regions closed by a
/// `]` line or a blank line, items ordered by the Bazel key.
pub fn process_lines_bazel<'a>(lines: Vec<&'a str>) -> (out: Vec<&'a str>)
    ensures
        out.deep_view() == spec_process(lines.deep_view()),
{
    let ghost all = lines.deep_view();
    let mut out_refs: Vec<&'a str> = Vec::new();
    let mut block: Vec<&'a str> = Vec::new();
    let mut sorting = false;
    let mut scope = false;
    let n = lines.len();
    let mut i: usize = 0;
    proof {
        assert(all.take(0) =~= Seq::<Seq<char>>::empty());
        assert(out_refs.deep_view() =~= scan_init().out);
        assert(block.deep_view() =~= scan_init().block);
    }
    while i < n
        invariant
            i <= n,
            n == lines@.len(),
            all == lines.deep_view(),
            out_refs.deep_view() == scan_run(all.take(i as int)).out,
            block.deep_view() == scan_run(all.take(i as int)).block,
            sorting == scan_run(all.take(i as int)).sorting,
            scope == scan_run(all.take(i as int)).scope,
        decreases n - i,
    {
        let line: &'a str = lines[i];
        let v = chars_of(line);
        let ghost st = scan_run(all.take(i as int));
        proof {
            assert(all.take(i + 1).drop_last() =~= all.take(i as int));
            assert(all.take(i + 1).last() == all[i as int]);
            assert(all[i as int] == line@);
            assert(scan_run(all.take(i + 1)) == scan_step(st, line@));
        }
        if sorting {
            if crate::directives::lwc_hash_contains(&v, ']')
                || crate::directives::line_is_blank(line) {
                let sorted = crate::engine::sorted_block_exec(true, false, true, &block);
                block = Vec::new();
                crate::engine::extend_refs(&mut out_refs, &sorted);
                let ghost b2 = out_refs.deep_view();
                out_refs.push(line);
                sorting = false;
                proof {
                    assert(out_refs.deep_view() =~= b2.push(line@));
                    assert(out_refs.deep_view() =~= st.out + crate::engine::sorted_block(
                        true,
                        false,
                        true,
                        st.block,
                    ) + seq![line@]);
                    assert(block.deep_view() =~= Seq::<Seq<char>>::empty());
                }
            } else {
                let ghost b2 = block.deep_view();
                block.push(line);
                proof {
                    assert(block.deep_view() =~= b2.push(line@));
                }
            }
        } else if crate::directives::lwc_hash_contains(&v, '[') {
            scope = true;
            let ghost b2 = out_refs.deep_view();
            out_refs.push(line);
            proof {
                assert(out_refs.deep_view() =~= b2.push(line@));
            }
        } else if scope && crate::directives::is_simple_keep_sorted_line(line) {
            sorting = true;
            block = Vec::new();
            let ghost b2 = out_refs.deep_view();
            out_refs.push(line);
            proof {
                assert(out_refs.deep_view() =~= b2.push(line@));
                assert(block.deep_view() =~= Seq::<Seq<char>>::empty());
            }
        } else {
            let ghost b2 = out_refs.deep_view();
            out_refs.push(line);
            proof {
                assert(out_refs.deep_view() =~= b2.push(line@));
            }
        }
        i = i + 1;
    }
    proof {
        assert(all.take(n as int) =~= all);
    }
    if sorting {
        let sorted = crate::engine::sorted_block_exec(true, false, true, &block);
        crate::engine::extend_refs(&mut out_refs, &sorted);
    }
    out_refs
}

/// Order on `Vec<String>` values, line by line, as `Vec<String>` compares.
pub fn vec_string_le(a: &Vec<String>, b: &Vec<String>) -> (r: bool)
    ensures
        r == lines_le(a.deep_view(), b.deep_view()),
{
    let mut i: usize = 0;
    proof {
        assert(a.deep_view().skip(0) =~= a.deep_view());
        assert(b.deep_view().skip(0) =~= b.deep_view());
    }
    loop
        invariant
            i <= a@.len(),
            i <= b@.len(),
            lines_le(a.deep_view(), b.deep_view()) == lines_le(
                a.deep_view().skip(i as int),
                b.deep_view().skip(i as int),
            ),
        decreases a@.len() - i,
    {
        if i == a.len() {
            return true;
        }
        if i == b.len() {
            return false;
        }
        let ca = chars_of(a[i].as_str());
        let cb = chars_of(b[i].as_str());
        proof {
            assert(a.deep_view().skip(i as int)[0] == a.deep_view()[i as int]);
            assert(b.deep_view().skip(i as int)[0] == b.deep_view()[i as int]);
        }
        if crate::text::chars_eq(&ca, &cb) {
            proof {
                assert(a.deep_view().skip(i as int).drop_first() =~= a.deep_view().skip(i + 1));
                assert(b.deep_view().skip(i as int).drop_first() =~= b.deep_view().skip(i + 1));
            }
            i = i + 1;
        } else {
            return crate::text::chars_le(&ca, &cb);
        }
    }
}

/// Key order, executably.
pub fn bazel_key_le_exec(x: &BazelSortKey, y: &BazelSortKey) -> (r: bool)
    ensures
        r == bazel_key_le(x@, y@),
{
    if x.phase < y.phase {
        true
    } else if y.phase < x.phase {
        false
    } else {
        vec_string_le(&x.split, &y.split)
    }
}

} // verus!
