//! A sorter for hand-kept lists inside line-based text files.
//!
//! The library scans a file's lines, finds regions explicitly marked for
//! sorting, reorders the entries of each region by a dialect-specific key
//! while keeping each entry's leading comments attached, and reproduces
//! every line outside those regions byte by byte.  An "ignore file"
//! directive anywhere in the input leaves the whole input untouched; an
//! "ignore block" directive shields one region.

use vstd::prelude::*;
use vstd::string::*;

pub mod bazel;
pub mod block;
pub mod cargo_toml;
pub mod default;
pub mod directives;
pub mod engine;
pub mod laws;
pub mod strategies;
pub mod text;

use crate::directives::{has_ignore_file, ignore_file_comment, is_ignore_file_line};
use crate::strategies::rust_derive::strip_nl;
use crate::text::{char_from, chars_of};

verus! {

broadcast use vstd::seq::group_seq_axioms;

/// The dialect a file is processed under.
#[derive(Clone, Copy, Debug, PartialEq, Eq, Structural)]
pub enum Strategy {
    Generic,
    Bazel,
    CargoToml,
    Gitignore,
    RustDeriveAlphabetical,
    RustDeriveCanonical,
}

/// What processing a file's lines returns: the lines unchanged when an
/// ignore-file directive stands anywhere in them, and otherwise the
/// dialect's scan, which reorders exactly the recognized regions.
pub open spec fn spec_process_lines(strategy: Strategy, lines: Seq<Seq<char>>) -> Seq<Seq<char>> {
    if has_ignore_file(lines) {
        lines
    } else {
        match strategy {
            Strategy::Generic => crate::strategies::generic::spec_process(lines),
            Strategy::Bazel => crate::strategies::bazel::spec_process(lines),
            Strategy::CargoToml => crate::strategies::cargo_toml::spec_process(lines),
            Strategy::Gitignore => crate::strategies::gitignore::spec_process(lines),
            Strategy::RustDeriveAlphabetical => crate::strategies::rust_derive::spec_process(
                true,
                lines,
            ),
            Strategy::RustDeriveCanonical => crate::strategies::rust_derive::spec_process(
                false,
                lines,
            ),
        }
    }
}

/// Whether some line is an ignore-file directive.
pub fn is_ignore_file(lines: &Vec<String>) -> (r: bool)
    ensures
        r == has_ignore_file(lines.deep_view()),
{
    let n = lines.len();
    let mut i: usize = 0;
    while i < n
        invariant
            i <= n,
            n == lines@.len(),
            forall|j: int| 0 <= j < i ==> !ignore_file_comment(lines.deep_view()[j]),
        decreases n - i,
    {
        if is_ignore_file_line(lines[i].as_str()) {
            proof {
                assert(ignore_file_comment(lines.deep_view()[i as int]));
            }
            return true;
        }
        i = i + 1;
    }
    false
}

/// Process a file's lines (each line keeping its terminator) under the
/// given dialect.
pub fn process_lines(strategy: Strategy, lines: Vec<String>) -> (out: Vec<String>)
    ensures
        out.deep_view() == spec_process_lines(strategy, lines.deep_view()),
{
    if is_ignore_file(&lines) {
        return lines;
    }
    match strategy {
        Strategy::Generic => crate::strategies::generic::process(&lines),
        Strategy::Bazel => crate::strategies::bazel::process(&lines),
        Strategy::CargoToml => crate::strategies::cargo_toml::process(&lines),
        Strategy::Gitignore => crate::strategies::gitignore::process(&lines),
        Strategy::RustDeriveAlphabetical => crate::strategies::rust_derive::process(true, &lines),
        Strategy::RustDeriveCanonical => crate::strategies::rust_derive::process(false, &lines),
    }
}

/// The text cut after each newline: every piece but the last ends with a
/// newline, and their concatenation is the text again.
pub open spec fn spec_split_lines(s: Seq<char>) -> Seq<Seq<char>>
    decreases s.len(),
{
    if s.len() == 0 {
        Seq::empty()
    } else {
        let k = char_from(s, 0, '\n');
        if 0 <= k < s.len() {
            seq![s.take(k + 1)] + spec_split_lines(s.skip(k + 1))
        } else {
            seq![s]
        }
    }
}

/// The lines joined back into one text.
pub open spec fn concat_lines(lines: Seq<Seq<char>>) -> Seq<char>
    decreases lines.len(),
{
    if lines.len() == 0 {
        Seq::empty()
    } else {
        concat_lines(lines.drop_last()) + lines.last()
    }
}

proof fn lemma_char_from_shift_nl(s: Seq<char>, off: int, i: int)
    requires
        0 <= off <= i <= s.len(),
    ensures
        char_from(s.skip(off), i - off, '\n') == char_from(s, i, '\n') - off,
    decreases s.len() - i,
{
    if i < s.len() {
        assert(s.skip(off)[i - off] == s[i]);
        if s[i] != '\n' {
            lemma_char_from_shift_nl(s, off, i + 1);
        }
    }
}

/// Split a text into lines, each keeping its terminator.
pub fn split_lines(text: &str) -> (out: Vec<String>)
    ensures
        out.deep_view() == spec_split_lines(text@),
{
    let v = chars_of(text);
    let n = v.len();
    let mut out: Vec<String> = Vec::new();
    let mut p: usize = 0;
    proof {
        assert(v@.skip(0) =~= v@);
        assert(out.deep_view() + spec_split_lines(v@) =~= spec_split_lines(v@));
    }
    loop
        invariant_except_break
            spec_split_lines(v@) == out.deep_view() + spec_split_lines(v@.skip(p as int)),
        invariant
            p <= n,
            n == v@.len(),
            v@ == text@,
        ensures
            out.deep_view() == spec_split_lines(text@),
        decreases n - p,
    {
        if p == n {
            proof {
                assert(v@.skip(p as int) =~= Seq::<char>::empty());
                assert(spec_split_lines(v@.skip(p as int)) =~= Seq::<Seq<char>>::empty());
                assert(out.deep_view() + spec_split_lines(v@.skip(p as int)) =~= out.deep_view());
            }
            break ;
        }
        let k = crate::text::find_char_from(&v, p, '\n');
        let ghost s_p = v@.skip(p as int);
        proof {
            assert(char_from(s_p, 0, '\n') == k - p) by {
                lemma_char_from_shift_nl(v@, p as int, p as int);
            }
        }
        let stop = if k < n {
            k + 1
        } else {
            n
        };
        let piece = text.substring_char(p, stop);
        let tok = String::from_str(piece);
        proof {
            assert(tok@ == v@.subrange(p as int, stop as int));
            assert(s_p.len() > 0);
            if k < n {
                assert(s_p.take(k - p + 1) =~= v@.subrange(p as int, k + 1));
                assert(s_p.skip(k - p + 1) =~= v@.skip(k + 1));
                assert(spec_split_lines(s_p) == seq![tok@] + spec_split_lines(v@.skip(k + 1)));
            } else {
                assert(s_p =~= v@.subrange(p as int, n as int));
                assert(spec_split_lines(s_p) == seq![s_p]);
                assert(tok@ =~= s_p);
            }
        }
        let ghost b2 = out.deep_view();
        out.push(tok);
        proof {
            assert(out.deep_view() =~= b2.push(tok@));
        }
        if k == n {
            proof {
                assert(out.deep_view() =~= b2 + seq![tok@]);
                assert(out.deep_view() =~= spec_split_lines(v@));
            }
            break ;
        }
        proof {
            assert(out.deep_view() + spec_split_lines(v@.skip(k + 1)) =~= b2 + (seq![tok@]
                + spec_split_lines(v@.skip(k + 1))));
        }
        p = k + 1;
    }
    out
}

/// The round trip on a whole text: processing works with an implicit
/// trailing newline appended, and strips it back when the input had none,
/// so the presence or absence of a final newline is preserved.
pub open spec fn spec_process_text(strategy: Strategy, s: Seq<char>) -> Seq<char> {
    let had_nl = s.len() > 0 && s.last() == '\n';
    let content = if had_nl {
        s
    } else {
        s + "\n"@
    };
    let out = spec_process_lines(strategy, spec_split_lines(content));
    if had_nl || out.len() == 0 {
        concat_lines(out)
    } else {
        concat_lines(out.drop_last()) + strip_nl(out.last())
    }
}

/// Process a whole text under the given dialect.
pub fn process_text(strategy: Strategy, text: &str) -> (out: String)
    ensures
        out@ == spec_process_text(strategy, text@),
{
    let tv = chars_of(text);
    let had_nl = tv.len() > 0 && tv[tv.len() - 1] == '\n';
    let mut content = String::from_str(text);
    if !had_nl {
        content.append("\n");
    }
    let lines = split_lines(content.as_str());
    let out = process_lines(strategy, lines);
    let ghost outv = out.deep_view();
    let mut res = String::new();
    let n = out.len();
    let mut i: usize = 0;
    proof {
        assert(outv.take(0) =~= Seq::<Seq<char>>::empty());
        assert(res@ =~= concat_lines(outv.take(0)));
    }
    while i < n
        invariant
            i <= n,
            n == out@.len(),
            outv == out.deep_view(),
            had_nl == (text@.len() > 0 && text@.last() == '\n'),
            res@ == (if i < n || had_nl || n == 0 {
                concat_lines(outv.take(i as int))
            } else {
                concat_lines(outv.take(n - 1)) + strip_nl(outv.last())
            }),
        decreases n - i,
    {
        let ghost b2 = res@;
        proof {
            assert(outv.take(i + 1).drop_last() =~= outv.take(i as int));
            assert(outv.take(i + 1).last() == outv[i as int]);
        }
        if i + 1 == n && !had_nl {
            let line = out[i].as_str();
            let w = chars_of(line);
            let mut j = w.len();
            proof {
                assert(w@.take(w@.len() as int) =~= w@);
            }
            while j > 0 && w[j - 1] == '\n'
                invariant
                    j <= w@.len(),
                    strip_nl(w@) == strip_nl(w@.take(j as int)),
                decreases j,
            {
                proof {
                    assert(w@.take(j as int).drop_last() =~= w@.take(j - 1));
                }
                j = j - 1;
            }
            proof {
                if j > 0 {
                    assert(strip_nl(w@.take(j as int)) == w@.take(j as int));
                } else {
                    assert(w@.take(0) =~= Seq::<char>::empty());
                }
                assert(strip_nl(w@) == w@.take(j as int));
            }
            res.append(line.substring_char(0, j));
            proof {
                assert(w@ == outv[i as int]);
                assert(res@ == b2 + strip_nl(outv[i as int]));
                assert(outv.take(n - 1) =~= outv.take(i as int));
                assert(outv.last() == outv[i as int]);
            }
        } else {
            res.append(out[i].as_str());
            proof {
                assert(res@ == b2 + outv[i as int]);
                assert(res@ == concat_lines(outv.take(i + 1)));
            }
        }
        i = i + 1;
    }
    proof {
        assert(outv.take(n as int) =~= outv);
        if n > 0 {
            assert(outv.take(n - 1) =~= outv.drop_last());
        }
    }
    res
}

} // verus!
