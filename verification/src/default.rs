//! The plainest scanner: a region opens at a strict `# Keep sorted.`
//! comment and closes at the next blank line or at the end of the input,
//! with no ignore handling.  It works on borrowed lines and sorts by the
//! raw line.

use vstd::prelude::*;

use crate::directives::{is_simple_keep_sorted_line, line_is_blank, simple_trigger_comment};
use crate::engine::{extend_refs, sorted_block, sorted_block_exec};
use crate::text::is_blank_line;

verus! {

broadcast use vstd::seq::group_seq_axioms;

pub struct ScanState {
    pub out: Seq<Seq<char>>,
    pub block: Seq<Seq<char>>,
    pub sorting: bool,
}

pub open spec fn scan_init() -> ScanState {
    ScanState { out: Seq::empty(), block: Seq::empty(), sorting: false }
}

pub open spec fn scan_step(st: ScanState, line: Seq<char>) -> ScanState {
    if !st.sorting && simple_trigger_comment(line) {
        ScanState { out: st.out.push(line), block: Seq::empty(), sorting: true }
    } else if st.sorting && is_blank_line(line) {
        ScanState {
            out: st.out + sorted_block(true, false, false, st.block) + seq![line],
            block: Seq::empty(),
            sorting: false,
        }
    } else if st.sorting {
        ScanState { block: st.block.push(line), ..st }
    } else {
        ScanState { out: st.out.push(line), ..st }
    }
}

pub open spec fn scan_run(lines: Seq<Seq<char>>) -> ScanState
    decreases lines.len(),
{
    if lines.len() == 0 {
        scan_init()
    } else {
        scan_step(scan_run(lines.drop_last()), lines.last())
    }
}

pub open spec fn spec_process(lines: Seq<Seq<char>>) -> Seq<Seq<char>> {
    let st = scan_run(lines);
    if st.sorting {
        st.out + sorted_block(true, false, false, st.block)
    } else {
        st.out
    }
}

/// Process borrowed lines under the plain dialect.
pub fn process_lines_default<'a>(lines: Vec<&'a str>) -> (out: Vec<&'a str>)
    ensures
        out.deep_view() == spec_process(lines.deep_view()),
{
    let ghost all = lines.deep_view();
    let mut out_refs: Vec<&'a str> = Vec::new();
    let mut block: Vec<&'a str> = Vec::new();
    let mut sorting = false;
    let n = lines.len();
    let mut i: usize = 0;
    proof {
        assert(all.take(0) =~= Seq::<Seq<char>>::empty());
        assert(out_refs.deep_view() =~= scan_init().out);
        assert(block.deep_view() =~= scan_init().block);
    }
    while i < n
        invariant
            i <= n,
            n == lines@.len(),
            all == lines.deep_view(),
            out_refs.deep_view() == scan_run(all.take(i as int)).out,
            block.deep_view() == scan_run(all.take(i as int)).block,
            sorting == scan_run(all.take(i as int)).sorting,
        decreases n - i,
    {
        let line: &'a str = lines[i];
        let ghost st = scan_run(all.take(i as int));
        proof {
            assert(all.take(i + 1).drop_last() =~= all.take(i as int));
            assert(all.take(i + 1).last() == all[i as int]);
            assert(all[i as int] == line@);
            assert(scan_run(all.take(i + 1)) == scan_step(st, line@));
        }
        if !sorting && is_simple_keep_sorted_line(line) {
            sorting = true;
            block = Vec::new();
            let ghost b2 = out_refs.deep_view();
            out_refs.push(line);
            proof {
                assert(out_refs.deep_view() =~= b2.push(line@));
                assert(block.deep_view() =~= Seq::<Seq<char>>::empty());
            }
        } else if sorting && line_is_blank(line) {
            let sorted = sorted_block_exec(true, false, false, &block);
            block = Vec::new();
            extend_refs(&mut out_refs, &sorted);
            let ghost b2 = out_refs.deep_view();
            out_refs.push(line);
            sorting = false;
            proof {
                assert(out_refs.deep_view() =~= b2.push(line@));
                assert(out_refs.deep_view() =~= st.out + sorted_block(true, false, false, st.block)
                    + seq![line@]);
                assert(block.deep_view() =~= Seq::<Seq<char>>::empty());
            }
        } else if sorting {
            let ghost b2 = block.deep_view();
            block.push(line);
            proof {
                assert(block.deep_view() =~= b2.push(line@));
            }
        } else {
            let ghost b2 = out_refs.deep_view();
            out_refs.push(line);
            proof {
                assert(out_refs.deep_view() =~= b2.push(line@));
            }
        }
        i = i + 1;
    }
    proof {
        assert(all.take(n as int) =~= all);
    }
    if sorting {
        let sorted = sorted_block_exec(true, false, false, &block);
        extend_refs(&mut out_refs, &sorted);
    }
    out_refs
}

} // verus!
