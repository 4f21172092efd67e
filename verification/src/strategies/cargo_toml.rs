//! The dependency-table dialect (`Cargo.toml`): a region opens at a
//! `[dependencies]`-family header with no trigger comment, and closes at a
//! blank line or at any new `[...]` header (a new dependency header closes
//! the region and opens the next one).  Entries may span several lines when
//! an inline table's `{` is still open.

use vstd::prelude::*;

use crate::directives::{
    dep_table_header, ignore_block_comment, is_dep_table_header_line, line_is_blank,
    lwc_hash_starts, lwc_hash_starts_with,
};
use crate::engine::{extend_refs, sort_region, sort_region_exec, to_owned_lines};
use crate::text::{chars_of, is_blank_line};

verus! {

broadcast use vstd::seq::group_seq_axioms;

pub struct ScanState {
    pub out: Seq<Seq<char>>,
    pub block: Seq<Seq<char>>,
    pub sorting: bool,
    pub ign: bool,
}

pub open spec fn scan_init() -> ScanState {
    ScanState { out: Seq::empty(), block: Seq::empty(), sorting: false, ign: false }
}

/// One step.  A dependency header opens a region, first closing any open
/// one; a blank line or any other `[` header closes the open region.
pub open spec fn scan_step(st: ScanState, line: Seq<char>) -> ScanState {
    if dep_table_header(line) {
        let out2 = if st.sorting {
            st.out + sort_region(false, true, false, st.block, st.ign)
        } else {
            st.out
        };
        ScanState {
            out: out2.push(line),
            block: Seq::empty(),
            sorting: true,
            ign: out2.len() > 0 && ignore_block_comment(out2.last()),
        }
    } else if st.sorting && (is_blank_line(line) || lwc_hash_starts(line, '[')) {
        ScanState {
            out: st.out + sort_region(false, true, false, st.block, st.ign) + seq![line],
            block: Seq::empty(),
            sorting: false,
            ign: false,
        }
    } else if st.sorting {
        ScanState { block: st.block.push(line), ..st }
    } else {
        ScanState { out: st.out.push(line), ..st }
    }
}

pub open spec fn scan_run(lines: Seq<Seq<char>>) -> ScanState
    decreases lines.len(),
{
    if lines.len() == 0 {
        scan_init()
    } else {
        scan_step(scan_run(lines.drop_last()), lines.last())
    }
}

pub open spec fn spec_process(lines: Seq<Seq<char>>) -> Seq<Seq<char>> {
    let st = scan_run(lines);
    if st.sorting {
        st.out + sort_region(false, true, false, st.block, st.ign)
    } else {
        st.out
    }
}

pub(crate) fn process(lines: &Vec<String>) -> (out: Vec<String>)
    ensures
        out.deep_view() == spec_process(lines.deep_view()),
{
    let ghost all = lines.deep_view();
    let mut out_refs: Vec<&str> = Vec::new();
    let mut block: Vec<&str> = Vec::new();
    let mut sorting = false;
    let mut ign = false;
    let n = lines.len();
    let mut i: usize = 0;
    proof {
        assert(all.take(0) =~= Seq::<Seq<char>>::empty());
        assert(out_refs.deep_view() =~= scan_init().out);
        assert(block.deep_view() =~= scan_init().block);
    }
    while i < n
        invariant
            i <= n,
            n == lines@.len(),
            all == lines.deep_view(),
            out_refs.deep_view() == scan_run(all.take(i as int)).out,
            block.deep_view() == scan_run(all.take(i as int)).block,
            sorting == scan_run(all.take(i as int)).sorting,
            ign == scan_run(all.take(i as int)).ign,
        decreases n - i,
    {
        let line: &str = lines[i].as_str();
        let ghost st = scan_run(all.take(i as int));
        proof {
            assert(all.take(i + 1).drop_last() =~= all.take(i as int));
            assert(all.take(i + 1).last() == all[i as int]);
            assert(all[i as int] == line@);
            assert(scan_run(all.take(i + 1)) == scan_step(st, line@));
        }
        if is_dep_table_header_line(line) {
            if sorting {
                let sorted = sort_region_exec(false, true, false, block, ign);
                block = Vec::new();
                extend_refs(&mut out_refs, &sorted);
            }
            let ghost out2 = out_refs.deep_view();
            let mut prev_ign = false;
            if out_refs.len() > 0 {
                prev_ign = crate::directives::is_ignore_block_line(out_refs[out_refs.len() - 1]);
                proof {
                    assert(out_refs.deep_view()[out_refs@.len() - 1] == out2.last());
                }
            }
            ign = prev_ign;
            sorting = true;
            block = Vec::new();
            out_refs.push(line);
            proof {
                assert(out_refs.deep_view() =~= out2.push(line@));
                assert(block.deep_view() =~= Seq::<Seq<char>>::empty());
            }
        } else {
            let close = if sorting {
                if line_is_blank(line) {
                    true
                } else {
                    let v = chars_of(line);
                    lwc_hash_starts_with(&v, '[')
                }
            } else {
                false
            };
            if close {
                let sorted = sort_region_exec(false, true, false, block, ign);
                block = Vec::new();
                extend_refs(&mut out_refs, &sorted);
                let ghost b2 = out_refs.deep_view();
                out_refs.push(line);
                sorting = false;
                ign = false;
                proof {
                    assert(out_refs.deep_view() =~= b2.push(line@));
                    assert(out_refs.deep_view() =~= st.out + sort_region(
                        false,
                        true,
                        false,
                        st.block,
                        st.ign,
                    ) + seq![line@]);
                    assert(block.deep_view() =~= Seq::<Seq<char>>::empty());
                }
            } else if sorting {
                let ghost b2 = block.deep_view();
                block.push(line);
                proof {
                    assert(block.deep_view() =~= b2.push(line@));
                }
            } else {
                let ghost b2 = out_refs.deep_view();
                out_refs.push(line);
                proof {
                    assert(out_refs.deep_view() =~= b2.push(line@));
                }
            }
        }
        i = i + 1;
    }
    proof {
        assert(all.take(n as int) =~= all);
    }
    if sorting {
        let sorted = sort_region_exec(false, true, false, block, ign);
        extend_refs(&mut out_refs, &sorted);
    }
    to_owned_lines(out_refs)
}

} // verus!
