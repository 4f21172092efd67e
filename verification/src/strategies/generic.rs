//! The generic dialect: a region opens at a "keep sorted" trigger comment
//! and closes at the next blank line or at the end of the input.  Items are
//! single lines with `#` or `//` comments attached; they sort by the raw
//! line.

use vstd::prelude::*;

use crate::directives::{ignore_block_comment, is_keep_sorted_line, line_is_blank, trigger_comment};
use crate::engine::{extend_refs, sort_region, sort_region_exec, to_owned_lines};
use crate::text::is_blank_line;

verus! {

broadcast use vstd::seq::group_seq_axioms;

/// Scanner state: the lines already emitted, the open region, whether a
/// region is open, and whether the line before its trigger was an
/// ignore-block directive.
pub struct ScanState {
    pub out: Seq<Seq<char>>,
    pub block: Seq<Seq<char>>,
    pub sorting: bool,
    pub ign: bool,
}

pub open spec fn scan_init() -> ScanState {
    ScanState { out: Seq::empty(), block: Seq::empty(), sorting: false, ign: false }
}

/// One scanner step.  A trigger outside a region opens one (remembering
/// whether an ignore directive stood just before it); a blank line closes
/// the open region; every other line is emitted or accumulated.  A trigger
/// seen while a region is already open is inert: it is an ordinary comment
/// line of the region.
pub open spec fn scan_step(st: ScanState, line: Seq<char>) -> ScanState {
    if !st.sorting && trigger_comment(line) {
        ScanState {
            out: st.out.push(line),
            block: Seq::empty(),
            sorting: true,
            ign: st.out.len() > 0 && ignore_block_comment(st.out.last()),
        }
    } else if st.sorting && is_blank_line(line) {
        ScanState {
            out: st.out + sort_region(true, false, false, st.block, st.ign) + seq![line],
            block: Seq::empty(),
            sorting: false,
            ign: false,
        }
    } else if st.sorting {
        ScanState { block: st.block.push(line), ..st }
    } else {
        ScanState { out: st.out.push(line), ..st }
    }
}

pub open spec fn scan_run(lines: Seq<Seq<char>>) -> ScanState
    decreases lines.len(),
{
    if lines.len() == 0 {
        scan_init()
    } else {
        scan_step(scan_run(lines.drop_last()), lines.last())
    }
}

/// The whole pass: a region still open at the end of the input closes there.
pub open spec fn spec_process(lines: Seq<Seq<char>>) -> Seq<Seq<char>> {
    let st = scan_run(lines);
    if st.sorting {
        st.out + sort_region(true, false, false, st.block, st.ign)
    } else {
        st.out
    }
}

pub(crate) fn process(lines: &Vec<String>) -> (out: Vec<String>)
    ensures
        out.deep_view() == spec_process(lines.deep_view()),
{
    let ghost all = lines.deep_view();
    let mut out_refs: Vec<&str> = Vec::new();
    let mut block: Vec<&str> = Vec::new();
    let mut sorting = false;
    let mut ign = false;
    let n = lines.len();
    let mut i: usize = 0;
    proof {
        assert(all.take(0) =~= Seq::<Seq<char>>::empty());
        assert(out_refs.deep_view() =~= scan_init().out);
        assert(block.deep_view() =~= scan_init().block);
    }
    while i < n
        invariant
            i <= n,
            n == lines@.len(),
            all == lines.deep_view(),
            out_refs.deep_view() == scan_run(all.take(i as int)).out,
            block.deep_view() == scan_run(all.take(i as int)).block,
            sorting == scan_run(all.take(i as int)).sorting,
            ign == scan_run(all.take(i as int)).ign,
        decreases n - i,
    {
        let line: &str = lines[i].as_str();
        let ghost st = scan_run(all.take(i as int));
        proof {
            assert(all.take(i + 1).drop_last() =~= all.take(i as int));
            assert(all.take(i + 1).last() == all[i as int]);
            assert(all[i as int] == line@);
            assert(scan_run(all.take(i + 1)) == scan_step(st, line@));
        }
        if !sorting && is_keep_sorted_line(line) {
            let mut prev_ign = false;
            if out_refs.len() > 0 {
                prev_ign = crate::directives::is_ignore_block_line(out_refs[out_refs.len() - 1]);
                proof {
                    assert(out_refs.deep_view()[out_refs@.len() - 1] == st.out.last());
                }
            }
            ign = prev_ign;
            sorting = true;
            block = Vec::new();
            let ghost b2 = out_refs.deep_view();
            out_refs.push(line);
            proof {
                assert(out_refs.deep_view() =~= b2.push(line@));
                assert(block.deep_view() =~= Seq::<Seq<char>>::empty());
            }
        } else if sorting && line_is_blank(line) {
            let sorted = sort_region_exec(true, false, false, block, ign);
            block = Vec::new();
            extend_refs(&mut out_refs, &sorted);
            let ghost b2 = out_refs.deep_view();
            out_refs.push(line);
            sorting = false;
            ign = false;
            proof {
                assert(out_refs.deep_view() =~= b2.push(line@));
                assert(out_refs.deep_view() =~= st.out + sort_region(
                    true,
                    false,
                    false,
                    st.block,
                    st.ign,
                ) + seq![line@]);
                assert(block.deep_view() =~= Seq::<Seq<char>>::empty());
            }
        } else if sorting {
            let ghost b2 = block.deep_view();
            block.push(line);
            proof {
                assert(block.deep_view() =~= b2.push(line@));
            }
        } else {
            let ghost b2 = out_refs.deep_view();
            out_refs.push(line);
            proof {
                assert(out_refs.deep_view() =~= b2.push(line@));
            }
        }
        i = i + 1;
    }
    proof {
        assert(all.take(n as int) =~= all);
    }
    if sorting {
        let sorted = sort_region_exec(true, false, false, block, ign);
        extend_refs(&mut out_refs, &sorted);
    }
    to_owned_lines(out_refs)
}

} // verus!
