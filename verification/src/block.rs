//! In-place sorting of one already-delimited block of borrowed lines: the
//! plainest entry into the block engine, with no ignore handling and a
//! `#`-or-`//` comment classifier for every strategy.

use vstd::prelude::*;

pub use crate::bazel::BazelSortKey as SortKey;

use crate::engine::{sorted_block, sorted_block_exec};

verus! {

broadcast use vstd::seq::group_seq_axioms;

/// Which key a block is sorted by: the raw line for `Default` and
/// `CargoToml`, the Bazel string sort key for `Bazel`.
#[derive(Clone, Copy, Debug, PartialEq, Eq, Structural)]
pub enum SortStrategy {
    Default,
    Bazel,
    CargoToml,
}

/// Whether the strategy keys items by the Bazel string sort key.
pub open spec fn uses_bazel_key(strategy: SortStrategy) -> bool {
    strategy == SortStrategy::Bazel
}

/// Sort the block in place: items (each a code line with its attached
/// comments) are reordered by the strategy's key, stably; trailing comments
/// stay last.
pub fn sort<'a>(block: &mut Vec<&'a str>, strategy: SortStrategy)
    ensures
        final (block).deep_view() == sorted_block(
            true,
            false,
            uses_bazel_key(strategy),
            old(block).deep_view(),
        ),
{
    let bazel = match strategy {
        SortStrategy::Bazel => true,
        SortStrategy::Default => false,
        SortStrategy::CargoToml => false,
    };
    let out = sorted_block_exec(true, false, bazel, block);
    *block = out;
}

} // verus!
