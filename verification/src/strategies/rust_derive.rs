//! The Rust derive dialect: a region is one `#[derive(...)]` attribute,
//! opened by `#[derive(` and closed by a line ending in `)]`.  The region's
//! sortable unit is the comma-separated trait list inside the parentheses;
//! it is reordered alphabetically (by the trait name behind any module
//! path, then by the full token) or canonically (a fixed precedence list
//! first), and rendered back on one line, three lines, or one line per
//! trait, by exact length thresholds.

use vstd::prelude::*;
use vstd::string::*;

use crate::directives::{
    derive_begin, derive_end, has_ignore_block, ignore_block_comment, is_derive_begin_line,
    is_derive_end_line, line_wo_comment, lwc_range,
};
use crate::text::{
    char_from, chars_eq, chars_le, chars_of, find_from, find_pat_from, first_non_ws,
    last_non_ws, lemma_find_from_skip, lex_le, spec_trim, sub_vec, ws_from,
};

verus! {

broadcast use vstd::seq::group_seq_axioms;

/// A line with every trailing newline removed.
pub open spec fn strip_nl(s: Seq<char>) -> Seq<char>
    decreases s.len(),
{
    if s.len() > 0 && s.last() == '\n' {
        strip_nl(s.drop_last())
    } else {
        s
    }
}

/// The region's lines joined into one logical line, each shorn of its
/// terminator, with a single newline at the end.
pub open spec fn derive_line(block: Seq<Seq<char>>) -> Seq<char>
    decreases block.len(),
{
    if block.len() == 0 {
        Seq::empty()
    } else {
        derive_line(block.drop_last()) + strip_nl(block.last())
    }
}

/// The trait tokens: the text between the parentheses split at commas, each
/// piece trimmed, empty pieces dropped.
pub open spec fn tokens_of(s: Seq<char>) -> Seq<Seq<char>>
    decreases s.len(),
{
    let k = char_from(s, 0, ',');
    if 0 <= k < s.len() {
        let t = spec_trim(s.take(k));
        (if t.len() > 0 {
            seq![t]
        } else {
            Seq::<Seq<char>>::empty()
        }) + tokens_of(s.skip(k + 1))
    } else {
        let t = spec_trim(s);
        if t.len() > 0 {
            seq![t]
        } else {
            Seq::empty()
        }
    }
}

/// The trait name behind any module path: what follows the last `::`.
pub open spec fn last_seg(t: Seq<char>) -> Seq<char>
    decreases t.len(),
{
    let k = find_from(t, 0, "::"@);
    if 0 <= k && k + 2 <= t.len() {
        last_seg(t.skip(k + 2))
    } else {
        t
    }
}

/// The canonical precedence of a trait token (unlisted tokens rank last).
pub open spec fn priority_of(t: Seq<char>) -> int {
    if t == "Copy"@ {
        0
    } else if t == "Clone"@ {
        1
    } else if t == "Eq"@ {
        2
    } else if t == "PartialEq"@ {
        3
    } else if t == "Ord"@ {
        4
    } else if t == "PartialOrd"@ {
        5
    } else if t == "Hash"@ {
        6
    } else if t == "Debug"@ {
        7
    } else if t == "Display"@ {
        8
    } else if t == "Default"@ {
        9
    } else {
        10
    }
}

/// Token order: canonical precedence first (all equal in the alphabetical
/// variant), then the trait name behind any path, then the full token.
pub open spec fn tok_le(alpha: bool, x: Seq<char>, y: Seq<char>) -> bool {
    let px = if alpha {
        10
    } else {
        priority_of(x)
    };
    let py = if alpha {
        10
    } else {
        priority_of(y)
    };
    px < py || (px == py && ((last_seg(x) != last_seg(y) && lex_le(last_seg(x), last_seg(y))) || (
    last_seg(x) == last_seg(y) && lex_le(x, y))))
}

pub open spec fn insert_tok(alpha: bool, s: Seq<Seq<char>>, x: Seq<char>) -> Seq<Seq<char>>
    decreases s.len(),
{
    if s.len() == 0 {
        seq![x]
    } else if tok_le(alpha, s.last(), x) {
        s.push(x)
    } else {
        insert_tok(alpha, s.drop_last(), x).push(s.last())
    }
}

/// Stable sort of the trait tokens.
pub open spec fn sort_toks(alpha: bool, s: Seq<Seq<char>>) -> Seq<Seq<char>>
    decreases s.len(),
{
    if s.len() == 0 {
        Seq::empty()
    } else {
        insert_tok(alpha, sort_toks(alpha, s.drop_last()), s.last())
    }
}

/// The tokens joined with `", "`.
pub open spec fn join_toks(ts: Seq<Seq<char>>) -> Seq<char>
    decreases ts.len(),
{
    if ts.len() == 0 {
        Seq::empty()
    } else if ts.len() == 1 {
        ts[0]
    } else {
        join_toks(ts.drop_last()) + ", "@ + ts.last()
    }
}

/// One rendered line per token, for the longest form.
pub open spec fn token_lines(prefix: Seq<char>, ts: Seq<Seq<char>>) -> Seq<Seq<char>>
    decreases ts.len(),
{
    if ts.len() == 0 {
        Seq::empty()
    } else {
        token_lines(prefix, ts.drop_last()) + seq![prefix + "    "@ + ts.last() + ",\n"@]
    }
}

/// What the dialect does with one closed derive region: nothing when an
/// ignore directive applies or no `#[derive(...)]` is found; otherwise the
/// trait list is sorted and rendered on one line when that stays within 97
/// characters (terminator included), as a three-line form when the middle
/// line stays within 101 characters, and one trait per line otherwise.
pub open spec fn derive_sort(alpha: bool, block: Seq<Seq<char>>, ignore_prev: bool) -> Seq<
    Seq<char>,
> {
    if ignore_prev || has_ignore_block(block) {
        block
    } else {
        let line = derive_line(block) + "\n"@;
        let lwc = line_wo_comment(line, "//"@);
        let ds = find_from(lwc, 0, "#[derive("@);
        if ds >= lwc.len() {
            block
        } else {
            let de = find_from(lwc, ds, ")]"@);
            if de >= lwc.len() || de < ds + "#[derive("@.len() {
                block
            } else {
                let content = lwc.subrange(ds + "#[derive("@.len() as int, de);
                let sorted = sort_toks(alpha, tokens_of(content));
                let joined = join_toks(sorted);
                let prefix = line.take(ws_from(line, 0));
                let suffix = line.skip(ws_from(line, 0) + lwc.len() as int);
                let single = prefix + "#[derive("@ + joined + ")]"@ + suffix;
                if single.len() <= 97 {
                    seq![single]
                } else {
                    let first = prefix + "#[derive(\n"@;
                    let mid = prefix + "    "@ + joined + ","@;
                    let last = prefix + ")]\n"@;
                    if mid.len() <= 101 {
                        seq![first, mid + "\n"@, last]
                    } else {
                        seq![first] + token_lines(prefix, sorted) + seq![last]
                    }
                }
            }
        }
    }
}

/// Index where the trait name behind any module path starts.
fn last_seg_start(v: &Vec<char>) -> (r: usize)
    ensures
        r <= v@.len(),
        last_seg(v@) == v@.skip(r as int),
{
    let pat = chars_of("::");
    let n = v.len();
    let mut p: usize = 0;
    proof {
        reveal_strlit("::");
        assert(pat@ =~= "::"@);
        assert(v@.skip(0) =~= v@);
    }
    loop
        invariant
            p <= n,
            n == v@.len(),
            pat@ == "::"@,
            "::"@.len() == 2,
            last_seg(v@) == last_seg(v@.skip(p as int)),
        decreases n - p,
    {
        let k = find_pat_from(v, p, &pat);
        proof {
            assert(v@.skip(p as int).len() == n - p);
            assert(find_from(v@.skip(p as int), 0, pat@) == k - p) by {
                lemma_find_from_skip(v@, p as int, p as int, pat@);
            }
        }
        if n - k >= 2 {
            proof {
                assert(v@.skip(p as int).skip(k - p + 2) =~= v@.skip(k + 2));
            }
            p = k + 2;
        } else {
            proof {
                assert(last_seg(v@.skip(p as int)) == v@.skip(p as int));
            }
            return p;
        }
    }
}

/// Canonical precedence, executably.
fn priority_exec(v: &Vec<char>) -> (r: u32)
    ensures
        r as int == priority_of(v@),
{
    if chars_eq(v, &chars_of("Copy")) {
        0
    } else if chars_eq(v, &chars_of("Clone")) {
        1
    } else if chars_eq(v, &chars_of("Eq")) {
        2
    } else if chars_eq(v, &chars_of("PartialEq")) {
        3
    } else if chars_eq(v, &chars_of("Ord")) {
        4
    } else if chars_eq(v, &chars_of("PartialOrd")) {
        5
    } else if chars_eq(v, &chars_of("Hash")) {
        6
    } else if chars_eq(v, &chars_of("Debug")) {
        7
    } else if chars_eq(v, &chars_of("Display")) {
        8
    } else if chars_eq(v, &chars_of("Default")) {
        9
    } else {
        10
    }
}

/// Token order, executably.
fn tok_le_exec(alpha: bool, x: &String, y: &String) -> (r: bool)
    ensures
        r == tok_le(alpha, x@, y@),
{
    let vx = chars_of(x.as_str());
    let vy = chars_of(y.as_str());
    let px: u32 = if alpha {
        10
    } else {
        priority_exec(&vx)
    };
    let py: u32 = if alpha {
        10
    } else {
        priority_exec(&vy)
    };
    if px < py {
        true
    } else if py < px {
        false
    } else {
        let sx = last_seg_start(&vx);
        let sy = last_seg_start(&vy);
        let segx = sub_vec(&vx, sx, vx.len());
        let segy = sub_vec(&vy, sy, vy.len());
        proof {
            assert(segx@ =~= vx@.skip(sx as int));
            assert(segy@ =~= vy@.skip(sy as int));
        }
        if chars_eq(&segx, &segy) {
            chars_le(&vx, &vy)
        } else {
            chars_le(&segx, &segy)
        }
    }
}

proof fn lemma_insert_tok_at(alpha: bool, s: Seq<Seq<char>>, x: Seq<char>, p: int)
    requires
        0 <= p <= s.len(),
        forall|j: int| p <= j < s.len() ==> !tok_le(alpha, s[j], x),
        p > 0 ==> tok_le(alpha, s[p - 1], x),
    ensures
        insert_tok(alpha, s, x) == s.take(p) + seq![x] + s.skip(p),
    decreases s.len(),
{
    if s.len() == 0 {
        assert(s.take(p) + seq![x] + s.skip(p) =~= seq![x]);
    } else if tok_le(alpha, s.last(), x) {
        assert(p == s.len());
        assert(s.take(p) + seq![x] + s.skip(p) =~= s.push(x));
    } else {
        assert(p < s.len());
        lemma_insert_tok_at(alpha, s.drop_last(), x, p);
        assert(insert_tok(alpha, s, x) =~= s.take(p) + seq![x] + s.skip(p)) by {
            assert(insert_tok(alpha, s, x) == (s.drop_last().take(p) + seq![x]
                + s.drop_last().skip(p)).push(s.last()));
        }
    }
}

fn insert_tok_exec(alpha: bool, out: &mut Vec<String>, x: String)
    ensures
        final (out).deep_view() == insert_tok(alpha, old(out).deep_view(), x@),
{
    let ghost s0 = out.deep_view();
    let mut p = out.len();
    while p > 0 && !tok_le_exec(alpha, &out[p - 1], &x)
        invariant
            p <= out@.len(),
            out.deep_view() == s0,
            forall|j: int| p <= j < s0.len() ==> !tok_le(alpha, s0[j], x@),
        decreases p,
    {
        p = p - 1;
    }
    proof {
        lemma_insert_tok_at(alpha, s0, x@, p as int);
    }
    let ghost xv = x@;
    out.insert(p, x);
    proof {
        assert(out.deep_view() =~= s0.take(p as int) + seq![xv] + s0.skip(p as int));
    }
}

fn sort_toks_exec(alpha: bool, toks: Vec<String>) -> (r: Vec<String>)
    ensures
        r.deep_view() == sort_toks(alpha, toks.deep_view()),
{
    let ghost orig = toks.deep_view();
    let mut rest = toks;
    let mut out: Vec<String> = Vec::new();
    let ghost i: int = 0;
    proof {
        assert(rest.deep_view() =~= orig.skip(0));
        assert(orig.take(0) =~= Seq::<Seq<char>>::empty());
        assert(out.deep_view() =~= sort_toks(alpha, orig.take(0)));
    }
    while rest.len() > 0
        invariant
            0 <= i <= orig.len(),
            rest.deep_view() == orig.skip(i),
            out.deep_view() == sort_toks(alpha, orig.take(i)),
        decreases rest@.len(),
    {
        let ghost pre_items = rest@;
        let ghost pre_deep = rest.deep_view();
        let x = rest.remove(0);
        proof {
            assert(pre_deep.len() == pre_items.len());
            assert(orig.skip(i).len() > 0);
            assert(i < orig.len());
            assert(x@ == pre_deep[0]);
            assert(pre_deep[0] == orig.skip(i)[0]);
            assert(orig.skip(i)[0] == orig[i]);
            assert(rest.deep_view() =~= orig.skip(i + 1)) by {
                assert(rest@ == pre_items.remove(0));
                assert forall|j: int| 0 <= j < rest@.len() implies rest.deep_view()[j] == orig.skip(
                    i + 1,
                )[j] by {
                    assert(rest@[j] == pre_items[j + 1]);
                    assert(rest.deep_view()[j] == rest@[j].deep_view());
                    assert(pre_deep[j + 1] == pre_items[j + 1].deep_view());
                    assert(pre_deep[j + 1] == orig.skip(i)[j + 1]);
                    assert(orig.skip(i)[j + 1] == orig[i + j + 1]);
                    assert(orig.skip(i + 1)[j] == orig[i + 1 + j]);
                }
            }
        }
        insert_tok_exec(alpha, &mut out, x);
        proof {
            assert(orig.take(i + 1).drop_last() =~= orig.take(i));
            assert(orig.take(i + 1).last() == orig[i]);
            assert(out.deep_view() == sort_toks(alpha, orig.take(i + 1)));
        }
        proof {
            i = i + 1;
        }
    }
    proof {
        assert(orig.take(orig.len() as int) =~= orig);
    }
    out
}

/// Sort one derive region, honouring the ignore directives and the length
/// policy.
pub(crate) fn derive_sort_exec(alpha: bool, block: Vec<String>, ignore_prev: bool) -> (r: Vec<
    String,
>)
    ensures
        r.deep_view() == derive_sort(alpha, block.deep_view(), ignore_prev),
{
    if ignore_prev {
        return block;
    }
    let mut any_ignore = false;
    let mut q: usize = 0;
    while q < block.len()
        invariant
            q <= block@.len(),
            any_ignore == exists|j: int|
                0 <= j < q && ignore_block_comment(block.deep_view()[j]),
        decreases block@.len() - q,
    {
        if crate::directives::is_ignore_block_line(block[q].as_str()) {
            proof {
                assert(ignore_block_comment(block.deep_view()[q as int]));
            }
            any_ignore = true;
        }
        q = q + 1;
    }
    if any_ignore {
        proof {
            assert(has_ignore_block(block.deep_view()));
        }
        return block;
    }
    proof {
        assert(!has_ignore_block(block.deep_view()));
    }

    // Join the region into one logical line.
    let mut joined = String::new();
    let ghost all = block.deep_view();
    let n = block.len();
    let mut i: usize = 0;
    proof {
        assert(all.take(0) =~= Seq::<Seq<char>>::empty());
        assert(joined@ =~= derive_line(all.take(0)));
    }
    while i < n
        invariant
            i <= n,
            n == block@.len(),
            all == block.deep_view(),
            joined@ == derive_line(all.take(i as int)),
        decreases n - i,
    {
        let line = block[i].as_str();
        let w = chars_of(line);
        let mut j = w.len();
        proof {
            assert(w@.take(w@.len() as int) =~= w@);
        }
        while j > 0 && w[j - 1] == '\n'
            invariant
                j <= w@.len(),
                strip_nl(w@) == strip_nl(w@.take(j as int)),
            decreases j,
        {
            proof {
                assert(w@.take(j as int).drop_last() =~= w@.take(j - 1));
            }
            j = j - 1;
        }
        proof {
            if j > 0 {
                assert(strip_nl(w@.take(j as int)) == w@.take(j as int));
            } else {
                assert(w@.take(0) =~= Seq::<char>::empty());
            }
            assert(strip_nl(w@) == w@.take(j as int));
        }
        let piece = line.substring_char(0, j);
        let ghost b2 = joined@;
        joined.append(piece);
        proof {
            assert(all.take(i + 1).drop_last() =~= all.take(i as int));
            assert(all.take(i + 1).last() == all[i as int]);
            assert(all[i as int] == w@);
            assert(joined@ == b2 + strip_nl(w@));
        }
        i = i + 1;
    }
    proof {
        assert(all.take(n as int) =~= all);
    }
    joined.append("\n");
    let ghost line_v = joined@;
    proof {
        assert(line_v == derive_line(all) + "\n"@);
    }

    let jv = chars_of(joined.as_str());
    let slashes = chars_of("//");
    let (a2, e2) = lwc_range(&jv, &slashes);
    let tv = sub_vec(&jv, a2, e2);
    proof {
        assert(tv@ == line_wo_comment(line_v, "//"@));
    }
    let open_pat = chars_of("#[derive(");
    let ds = find_pat_from(&tv, 0, &open_pat);
    if ds == tv.len() {
        return block;
    }
    let close_pat = chars_of(")]");
    let de = find_pat_from(&tv, ds, &close_pat);
    if de == tv.len() || de - ds < open_pat.len() {
        proof {
            assert(de < ds + "#[derive("@.len() ==> de - ds < "#[derive("@.len());
        }
        return block;
    }
    let cstart = ds + open_pat.len();
    let cv = sub_vec(&tv, cstart, de);
    proof {
        assert(cv@ == line_wo_comment(line_v, "//"@).subrange(
            ds + "#[derive("@.len() as int,
            de as int,
        ));
    }

    // Cut the content into trimmed trait tokens.
    let mut toks: Vec<String> = Vec::new();
    let cn = cv.len();
    let mut p: usize = 0;
    proof {
        assert(cv@.skip(0) =~= cv@);
        assert(toks.deep_view() + tokens_of(cv@) =~= tokens_of(cv@));
    }
    loop
        invariant_except_break
            tokens_of(cv@) == toks.deep_view() + tokens_of(cv@.skip(p as int)),
        invariant
            p <= cn,
            cn == cv@.len(),
            a2 <= e2 <= jv@.len(),
            jv@ == line_v,
            jv@ == joined@,
            tv@ == jv@.subrange(a2 as int, e2 as int),
            cv@ == tv@.subrange(cstart as int, de as int),
            cstart <= de <= tv@.len(),
        ensures
            toks.deep_view() == tokens_of(cv@),
        decreases cn - p,
    {
        let k = crate::text::find_char_from(&cv, p, ',');
        let ghost s_p = cv@.skip(p as int);
        proof {
            assert(char_from(s_p, 0, ',') == k - p) by {
                lemma_char_from_shift(cv@, p as int, p as int);
            }
        }
        // trim the piece [p, k)
        let piece = sub_vec(&cv, p, k);
        let x = first_non_ws(&piece, 0);
        let y = last_non_ws(&piece, piece.len());
        let ghost t = if x <= y {
            piece@.subrange(x as int, y as int)
        } else {
            Seq::<char>::empty()
        };
        proof {
            assert(t == spec_trim(piece@));
            if k < cn {
                assert(s_p.take(k - p) =~= piece@);
            } else {
                assert(s_p =~= piece@);
            }
        }
        if x < y {
            // the token text lives at jv[a2 + cstart + p + x .. a2 + cstart + p + y]
            let base = a2 + cstart + p;
            let tok = String::from_str(joined.substring_char(base + x, base + y));
            proof {
                assert(tok@ =~= t) by {
                    assert(tok@ == jv@.subrange(base + x, base + y));
                    assert forall|z: int| 0 <= z < y - x implies jv@.subrange(base + x, base + y)[z]
                        == t[z] by {
                        assert(t[z] == piece@[x + z]);
                        assert(piece@[x + z] == cv@[p + x + z]);
                        assert(cv@[p + x + z] == tv@[cstart + p + x + z]);
                        assert(tv@[cstart + p + x + z] == jv@[a2 + cstart + p + x + z]);
                    }
                }
            }
            let ghost b2 = toks.deep_view();
            toks.push(tok);
            proof {
                assert(toks.deep_view() =~= b2.push(t));
            }
        } else {
            proof {
                assert(t.len() == 0);
            }
        }
        if k == cn {
            proof {
                assert(tokens_of(s_p) == (if t.len() > 0 {
                    seq![t]
                } else {
                    Seq::<Seq<char>>::empty()
                }));
                assert(toks.deep_view() =~= tokens_of(cv@));
            }
            break ;
        }
        proof {
            assert(s_p.skip(k - p + 1) =~= cv@.skip(k + 1));
            assert(tokens_of(s_p) == (if t.len() > 0 {
                seq![t]
            } else {
                Seq::<Seq<char>>::empty()
            }) + tokens_of(cv@.skip(k + 1)));
            assert(toks.deep_view() + tokens_of(cv@.skip(k + 1)) =~= tokens_of(cv@));
        }
        p = k + 1;
    }

    let sorted = sort_toks_exec(alpha, toks);
    let ghost sorted_v = sorted.deep_view();

    // Join the sorted tokens with ", ".
    let mut joined_toks = String::new();
    let sn = sorted.len();
    let mut si: usize = 0;
    proof {
        assert(sorted_v.take(0) =~= Seq::<Seq<char>>::empty());
        assert(joined_toks@ =~= join_toks(sorted_v.take(0)));
    }
    while si < sn
        invariant
            si <= sn,
            sn == sorted@.len(),
            sorted_v == sorted.deep_view(),
            joined_toks@ == join_toks(sorted_v.take(si as int)),
        decreases sn - si,
    {
        let ghost b2 = joined_toks@;
        if si > 0 {
            joined_toks.append(", ");
        }
        joined_toks.append(sorted[si].as_str());
        proof {
            assert(sorted_v.take(si + 1).drop_last() =~= sorted_v.take(si as int));
            assert(sorted_v.take(si + 1).last() == sorted_v[si as int]);
            if si > 0 {
                assert(joined_toks@ == b2 + ", "@ + sorted_v[si as int]);
            } else {
                assert(sorted_v.take(1) =~= seq![sorted_v[0]]);
                assert(joined_toks@ =~= Seq::<char>::empty() + sorted_v[0]);
            }
        }
        si = si + 1;
    }
    proof {
        assert(sorted_v.take(sn as int) =~= sorted_v);
    }

    // Render by the length policy.
    let prefix = String::from_str(joined.substring_char(0, a2));
    let suffix = String::from_str(joined.substring_char(e2, jv.len()));
    let ghost prefix_v = prefix@;
    let ghost suffix_v = suffix@;
    proof {
        assert(prefix_v == line_v.take(ws_from(line_v, 0)));
        assert(suffix_v =~= line_v.skip(ws_from(line_v, 0) + line_wo_comment(
            line_v,
            "//"@,
        ).len() as int));
    }

    let mut single = String::from_str(prefix.as_str());
    single.append("#[derive(");
    single.append(joined_toks.as_str());
    single.append(")]");
    single.append(suffix.as_str());
    proof {
        assert(single@ == prefix_v + "#[derive("@ + join_toks(sort_toks(alpha, tokens_of(cv@)))
            + ")]"@ + suffix_v);
    }
    if single.as_str().unicode_len() <= 97 {
        let mut out: Vec<String> = Vec::new();
        out.push(single);
        proof {
            assert(out.deep_view() =~= derive_sort(alpha, block.deep_view(), ignore_prev));
        }
        return out;
    }

    let mut first = String::from_str(prefix.as_str());
    first.append("#[derive(\n");
    let mut mid = String::from_str(prefix.as_str());
    mid.append("    ");
    mid.append(joined_toks.as_str());
    mid.append(",");
    let mut last = String::from_str(prefix.as_str());
    last.append(")]\n");
    if mid.as_str().unicode_len() <= 101 {
        let mut out: Vec<String> = Vec::new();
        out.push(first);
        let mut mid2 = mid;
        mid2.append("\n");
        out.push(mid2);
        out.push(last);
        proof {
            assert(out.deep_view() =~= derive_sort(alpha, block.deep_view(), ignore_prev));
        }
        return out;
    }

    let mut out: Vec<String> = Vec::new();
    out.push(first);
    let mut ti: usize = 0;
    proof {
        assert(sorted_v.take(0) =~= Seq::<Seq<char>>::empty());
        assert(token_lines(prefix_v, sorted_v.take(0)) =~= Seq::<Seq<char>>::empty());
        assert(out.deep_view() =~= seq![prefix_v + "#[derive(\n"@] + token_lines(
            prefix_v,
            sorted_v.take(0),
        ));
    }
    while ti < sn
        invariant
            ti <= sn,
            sn == sorted@.len(),
            sorted_v == sorted.deep_view(),
            prefix_v == prefix@,
            out.deep_view() == seq![prefix_v + "#[derive(\n"@] + token_lines(
                prefix_v,
                sorted_v.take(ti as int),
            ),
        decreases sn - ti,
    {
        let mut tl = String::from_str(prefix.as_str());
        tl.append("    ");
        tl.append(sorted[ti].as_str());
        tl.append(",\n");
        let ghost b2 = out.deep_view();
        out.push(tl);
        proof {
            assert(sorted_v.take(ti + 1).drop_last() =~= sorted_v.take(ti as int));
            assert(sorted_v.take(ti + 1).last() == sorted_v[ti as int]);
            assert(out.deep_view() =~= b2.push(prefix_v + "    "@ + sorted_v[ti as int] + ",\n"@));
            assert(out.deep_view() =~= seq![prefix_v + "#[derive(\n"@] + token_lines(
                prefix_v,
                sorted_v.take(ti + 1),
            ));
        }
        ti = ti + 1;
    }
    proof {
        assert(sorted_v.take(sn as int) =~= sorted_v);
    }
    let ghost b3 = out.deep_view();
    out.push(last);
    proof {
        assert(out.deep_view() =~= b3.push(prefix_v + ")]\n"@));
        assert(out.deep_view() =~= derive_sort(alpha, block.deep_view(), ignore_prev));
    }
    out
}

proof fn lemma_char_from_shift(s: Seq<char>, off: int, i: int)
    requires
        0 <= off <= i <= s.len(),
    ensures
        char_from(s.skip(off), i - off, ',') == char_from(s, i, ',') - off,
    decreases s.len() - i,
{
    if i < s.len() {
        assert(s.skip(off)[i - off] == s[i]);
        if s[i] != ',' {
            lemma_char_from_shift(s, off, i + 1);
        }
    }
}

/// Scanner state for the derive dialect.
pub struct ScanState {
    pub out: Seq<Seq<char>>,
    pub block: Seq<Seq<char>>,
    pub sorting: bool,
    pub ign: bool,
}

pub open spec fn scan_init() -> ScanState {
    ScanState { out: Seq::empty(), block: Seq::empty(), sorting: false, ign: false }
}

/// One step.  `#[derive(` opens a region (re-reading the line before it for
/// an ignore directive); a line whose comment-stripped text ends in `)]`
/// closes the open region, on the opening line itself when the attribute is
/// a single line.
pub open spec fn scan_step(alpha: bool, st: ScanState, line: Seq<char>) -> ScanState {
    let begin = derive_begin(line);
    let sorting1 = st.sorting || begin;
    let ign1 = if begin {
        st.out.len() > 0 && ignore_block_comment(st.out.last())
    } else {
        st.ign
    };
    if sorting1 {
        let block1 = st.block.push(line);
        if derive_end(line) {
            ScanState {
                out: st.out + derive_sort(alpha, block1, ign1),
                block: Seq::empty(),
                sorting: false,
                ign: false,
            }
        } else {
            ScanState { out: st.out, block: block1, sorting: true, ign: ign1 }
        }
    } else {
        ScanState { out: st.out.push(line), ..st }
    }
}

pub open spec fn scan_run(alpha: bool, lines: Seq<Seq<char>>) -> ScanState
    decreases lines.len(),
{
    if lines.len() == 0 {
        scan_init()
    } else {
        scan_step(alpha, scan_run(alpha, lines.drop_last()), lines.last())
    }
}

pub open spec fn spec_process(alpha: bool, lines: Seq<Seq<char>>) -> Seq<Seq<char>> {
    let st = scan_run(alpha, lines);
    if st.sorting {
        st.out + derive_sort(alpha, st.block, st.ign)
    } else {
        st.out
    }
}

pub(crate) fn process(alpha: bool, lines: &Vec<String>) -> (out: Vec<String>)
    ensures
        out.deep_view() == spec_process(alpha, lines.deep_view()),
{
    let ghost all = lines.deep_view();
    let mut out_lines: Vec<String> = Vec::new();
    let mut block: Vec<String> = Vec::new();
    let mut sorting = false;
    let mut ign = false;
    let n = lines.len();
    let mut i: usize = 0;
    proof {
        assert(all.take(0) =~= Seq::<Seq<char>>::empty());
        assert(out_lines.deep_view() =~= scan_init().out);
        assert(block.deep_view() =~= scan_init().block);
    }
    while i < n
        invariant
            i <= n,
            n == lines@.len(),
            all == lines.deep_view(),
            out_lines.deep_view() == scan_run(alpha, all.take(i as int)).out,
            block.deep_view() == scan_run(alpha, all.take(i as int)).block,
            sorting == scan_run(alpha, all.take(i as int)).sorting,
            ign == scan_run(alpha, all.take(i as int)).ign,
        decreases n - i,
    {
        let line: String = lines[i].clone();
        let ghost st = scan_run(alpha, all.take(i as int));
        proof {
            assert(all.take(i + 1).drop_last() =~= all.take(i as int));
            assert(all.take(i + 1).last() == all[i as int]);
            assert(all[i as int] == line@);
            assert(scan_run(alpha, all.take(i + 1)) == scan_step(alpha, st, line@));
        }
        let begin = is_derive_begin_line(line.as_str());
        if begin {
            let mut prev_ign = false;
            if out_lines.len() > 0 {
                prev_ign = crate::directives::is_ignore_block_line(
                    out_lines[out_lines.len() - 1].as_str(),
                );
                proof {
                    assert(out_lines.deep_view()[out_lines@.len() - 1] == st.out.last());
                }
            }
            ign = prev_ign;
            sorting = true;
        }
        if sorting {
            let ghost b2 = block.deep_view();
            let is_end = is_derive_end_line(line.as_str());
            block.push(line);
            proof {
                assert(block.deep_view() =~= b2.push(all[i as int]));
            }
            if is_end {
                let closed = block;
                block = Vec::new();
                let sorted = derive_sort_exec(alpha, closed, ign);
                let ghost o2 = out_lines.deep_view();
                let sk = sorted.len();
                let mut k: usize = 0;
                proof {
                    assert(sorted.deep_view().take(0) =~= Seq::<Seq<char>>::empty());
                    assert(out_lines.deep_view() =~= o2 + sorted.deep_view().take(0));
                }
                while k < sk
                    invariant
                        k <= sk,
                        sk == sorted@.len(),
                        out_lines.deep_view() == o2 + sorted.deep_view().take(k as int),
                    decreases sk - k,
                {
                    let ghost b3 = out_lines.deep_view();
                    let s = sorted[k].clone();
                    out_lines.push(s);
                    proof {
                        assert(out_lines.deep_view() =~= b3.push(sorted.deep_view()[k as int]));
                        assert(b3.push(sorted.deep_view()[k as int]) =~= o2
                            + sorted.deep_view().take(k + 1));
                    }
                    k = k + 1;
                }
                proof {
                    assert(sorted.deep_view().take(sk as int) =~= sorted.deep_view());
                }
                sorting = false;
                ign = false;
                proof {
                    assert(block.deep_view() =~= Seq::<Seq<char>>::empty());
                }
            }
        } else {
            let ghost b2 = out_lines.deep_view();
            out_lines.push(line);
            proof {
                assert(out_lines.deep_view() =~= b2.push(all[i as int]));
            }
        }
        i = i + 1;
    }
    proof {
        assert(all.take(n as int) =~= all);
    }
    if sorting {
        let closed = block;
        let sorted = derive_sort_exec(alpha, closed, ign);
        let ghost o2 = out_lines.deep_view();
        let sk = sorted.len();
        let mut k: usize = 0;
        proof {
            assert(sorted.deep_view().take(0) =~= Seq::<Seq<char>>::empty());
            assert(out_lines.deep_view() =~= o2 + sorted.deep_view().take(0));
        }
        while k < sk
            invariant
                k <= sk,
                sk == sorted@.len(),
                out_lines.deep_view() == o2 + sorted.deep_view().take(k as int),
            decreases sk - k,
        {
            let ghost b3 = out_lines.deep_view();
            let s = sorted[k].clone();
            out_lines.push(s);
            proof {
                assert(out_lines.deep_view() =~= b3.push(sorted.deep_view()[k as int]));
                assert(b3.push(sorted.deep_view()[k as int]) =~= o2 + sorted.deep_view().take(
                    k + 1,
                ));
            }
            k = k + 1;
        }
        proof {
            assert(sorted.deep_view().take(sk as int) =~= sorted.deep_view());
        }
    }
    out_lines
}

} // verus!
