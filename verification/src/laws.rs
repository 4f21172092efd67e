//! The properties the block engine promises, proved once over its spec
//! functions: the item order is total and transitive, sorting permutes and
//! orders the items, equal-keyed items keep their relative order, an
//! already-sorted block is reproduced exactly, every item's comments stay
//! directly before its code, and a file without trigger comments passes
//! through the generic dialect unchanged.

use vstd::multiset::Multiset;
use vstd::prelude::*;

use crate::directives::{ignore_block_comment, is_comment_line, trigger_comment};
use crate::engine::{
    first_code, flatten_items, insert_item, item_le, item_lines, seg_block, seg_init, seg_run,
    seg_step, sort_items, sorted_block, ItemModel, SegState,
};
use crate::text::{lemma_lines_le_total, lemma_lines_le_trans};

verus! {

broadcast use vstd::seq::group_seq_axioms;

/// The item order is total.
pub proof fn lemma_item_le_total(bazel: bool, x: ItemModel, y: ItemModel)
    ensures
        item_le(bazel, x, y) || item_le(bazel, y, x),
{
    if bazel {
        let kx = crate::bazel::bazel_key(first_code(x));
        let ky = crate::bazel::bazel_key(first_code(y));
        if kx.phase == ky.phase {
            lemma_lines_le_total(kx.split, ky.split);
        }
    } else {
        lemma_lines_le_total(x.code, y.code);
    }
}

/// The item order is transitive.
pub proof fn lemma_item_le_trans(bazel: bool, x: ItemModel, y: ItemModel, z: ItemModel)
    requires
        item_le(bazel, x, y),
        item_le(bazel, y, z),
    ensures
        item_le(bazel, x, z),
{
    if bazel {
        let kx = crate::bazel::bazel_key(first_code(x));
        let ky = crate::bazel::bazel_key(first_code(y));
        let kz = crate::bazel::bazel_key(first_code(z));
        if kx.phase == ky.phase && ky.phase == kz.phase {
            lemma_lines_le_trans(kx.split, ky.split, kz.split);
        }
    } else {
        lemma_lines_le_trans(x.code, y.code, z.code);
    }
}

/// Items whose keys compare equal both ways.
pub open spec fn key_eq(bazel: bool, x: ItemModel, y: ItemModel) -> bool {
    item_le(bazel, x, y) && item_le(bazel, y, x)
}

/// A sequence of items in key order.
pub open spec fn items_sorted(bazel: bool, s: Seq<ItemModel>) -> bool {
    forall|i: int, j: int| 0 <= i < j < s.len() ==> item_le(bazel, s[i], s[j])
}

/// Inserting permutes: the multiset gains exactly the new item.
pub proof fn lemma_insert_item_multiset(bazel: bool, s: Seq<ItemModel>, x: ItemModel)
    ensures
        insert_item(bazel, s, x).to_multiset() == s.to_multiset().insert(x),
    decreases s.len(),
{
    broadcast use vstd::seq_lib::group_to_multiset_ensures;

    if s.len() == 0 {
        assert(insert_item(bazel, s, x) =~= Seq::<ItemModel>::empty().push(x));
        assert(Seq::<ItemModel>::empty().push(x).to_multiset() =~= s.to_multiset().insert(x));
    } else if item_le(bazel, s.last(), x) {
    } else {
        lemma_insert_item_multiset(bazel, s.drop_last(), x);
        assert(s.drop_last().push(s.last()) =~= s);
        assert(insert_item(bazel, s, x).to_multiset() =~= insert_item(
            bazel,
            s.drop_last(),
            x,
        ).to_multiset().insert(s.last()));
        assert(s.drop_last().to_multiset().insert(x).insert(s.last())
            =~= s.drop_last().to_multiset().insert(s.last()).insert(x));
    }
}

/// Sorting permutes: the items after the sort are exactly the items before
/// it, with their multiplicities.
pub proof fn lemma_sort_items_permutation(bazel: bool, s: Seq<ItemModel>)
    ensures
        sort_items(bazel, s).to_multiset() == s.to_multiset(),
    decreases s.len(),
{
    broadcast use vstd::seq_lib::group_to_multiset_ensures;

    if s.len() > 0 {
        lemma_sort_items_permutation(bazel, s.drop_last());
        lemma_insert_item_multiset(bazel, sort_items(bazel, s.drop_last()), s.last());
        assert(s.drop_last().push(s.last()) =~= s);
        assert(s.drop_last().to_multiset().insert(s.last()) =~= s.to_multiset());
    }
}

/// Inserting into a sorted sequence keeps it sorted.
pub proof fn lemma_insert_item_sorted(bazel: bool, s: Seq<ItemModel>, x: ItemModel)
    requires
        items_sorted(bazel, s),
    ensures
        items_sorted(bazel, insert_item(bazel, s, x)),
    decreases s.len(),
{
    if s.len() == 0 {
    } else if item_le(bazel, s.last(), x) {
        let r = s.push(x);
        assert forall|i: int, j: int| 0 <= i < j < r.len() implies item_le(bazel, r[i], r[j]) by {
            if j == r.len() - 1 {
                if i == s.len() - 1 {
                } else {
                    lemma_item_le_trans(bazel, r[i], s.last(), x);
                }
            }
        }
    } else {
        assert(s.drop_last() =~= s.take(s.len() - 1));
        lemma_insert_item_sorted(bazel, s.drop_last(), x);
        let t = insert_item(bazel, s.drop_last(), x);
        let r = t.push(s.last());
        lemma_insert_item_multiset(bazel, s.drop_last(), x);
        lemma_item_le_total(bazel, s.last(), x);
        // every element of t is either from s.drop_last() (all <= s.last())
        // or x itself (x <= s.last() since s.last() is not <= x)
        assert forall|i: int| 0 <= i < t.len() implies item_le(bazel, t[i], s.last()) by {
            lemma_insert_item_membership(bazel, s.drop_last(), x, i);
            if t[i] == x {
            } else {
                let w = choose|w: int| 0 <= w < s.drop_last().len() && s.drop_last()[w] == t[i];
                assert(item_le(bazel, s[w], s.last()));
            }
        }
        assert forall|i: int, j: int| 0 <= i < j < r.len() implies item_le(bazel, r[i], r[j]) by {
            if j == r.len() - 1 {
                assert(item_le(bazel, t[i], s.last()));
            }
        }
    }
}

/// Every element of an insertion's result is the inserted item or one of
/// the input's elements.
proof fn lemma_insert_item_membership(bazel: bool, s: Seq<ItemModel>, x: ItemModel, i: int)
    requires
        0 <= i < insert_item(bazel, s, x).len(),
    ensures
        insert_item(bazel, s, x)[i] == x || exists|w: int|
            0 <= w < s.len() && s[w] == insert_item(bazel, s, x)[i],
    decreases s.len(),
{
    if s.len() == 0 {
    } else if item_le(bazel, s.last(), x) {
        if i < s.len() {
            assert(s[i] == insert_item(bazel, s, x)[i]);
        }
    } else {
        let t = insert_item(bazel, s.drop_last(), x);
        if i < t.len() {
            lemma_insert_item_membership(bazel, s.drop_last(), x, i);
            if t[i] != x {
                let w = choose|w: int| 0 <= w < s.drop_last().len() && s.drop_last()[w] == t[i];
                assert(s[w] == insert_item(bazel, s, x)[i]);
            }
        } else {
            assert(insert_item(bazel, s, x)[i] == s.last());
            assert(s[s.len() - 1] == insert_item(bazel, s, x)[i]);
        }
    }
}

/// The sort orders the items.
pub proof fn lemma_sort_items_sorted(bazel: bool, s: Seq<ItemModel>)
    ensures
        items_sorted(bazel, sort_items(bazel, s)),
    decreases s.len(),
{
    if s.len() > 0 {
        lemma_sort_items_sorted(bazel, s.drop_last());
        lemma_insert_item_sorted(bazel, sort_items(bazel, s.drop_last()), s.last());
    }
}

/// The items of `s` whose key equals the pivot's, in their order in `s`.
pub open spec fn keep_eq(bazel: bool, pivot: ItemModel, s: Seq<ItemModel>) -> Seq<ItemModel>
    decreases s.len(),
{
    if s.len() == 0 {
        Seq::empty()
    } else if key_eq(bazel, s.last(), pivot) {
        keep_eq(bazel, pivot, s.drop_last()).push(s.last())
    } else {
        keep_eq(bazel, pivot, s.drop_last())
    }
}

/// Inserting leaves the equal-keyed subsequence intact, except that an
/// equal-keyed inserted item lands at its end.
proof fn lemma_insert_keeps_eq(bazel: bool, pivot: ItemModel, s: Seq<ItemModel>, x: ItemModel)
    ensures
        keep_eq(bazel, pivot, insert_item(bazel, s, x)) == (if key_eq(bazel, x, pivot) {
            keep_eq(bazel, pivot, s).push(x)
        } else {
            keep_eq(bazel, pivot, s)
        }),
    decreases s.len(),
{
    if s.len() == 0 {
        assert(insert_item(bazel, s, x) =~= seq![x]);
        assert(seq![x].drop_last() =~= s);
        assert(seq![x].last() == x);
        if key_eq(bazel, x, pivot) {
            assert(keep_eq(bazel, pivot, seq![x]) == keep_eq(bazel, pivot, s).push(x));
        } else {
            assert(keep_eq(bazel, pivot, seq![x]) == keep_eq(bazel, pivot, s));
        }
    } else if item_le(bazel, s.last(), x) {
        let r = s.push(x);
        assert(r.drop_last() =~= s);
        assert(r.last() == x);
    } else {
        // s.last() is strictly above x, so their keys differ
        if key_eq(bazel, s.last(), pivot) && key_eq(bazel, x, pivot) {
            lemma_item_le_trans(bazel, s.last(), pivot, x);
            assert(false);
        }
        lemma_insert_keeps_eq(bazel, pivot, s.drop_last(), x);
        let t = insert_item(bazel, s.drop_last(), x);
        let r = t.push(s.last());
        assert(r.drop_last() =~= t);
        assert(r.last() == s.last());
        if key_eq(bazel, s.last(), pivot) {
            // x's key differs from the pivot's
            assert(!key_eq(bazel, x, pivot));
        }
    }
}

/// Stability: sorting does not reorder items whose keys compare equal.  For
/// any pivot, the subsequence of items keyed like the pivot is the same
/// before and after the sort.
pub proof fn lemma_sort_items_stable(bazel: bool, pivot: ItemModel, s: Seq<ItemModel>)
    ensures
        keep_eq(bazel, pivot, sort_items(bazel, s)) == keep_eq(bazel, pivot, s),
    decreases s.len(),
{
    if s.len() > 0 {
        lemma_sort_items_stable(bazel, pivot, s.drop_last());
        lemma_insert_keeps_eq(bazel, pivot, sort_items(bazel, s.drop_last()), s.last());
    }
}

/// A well-formed item of a single-line dialect: every attached comment is a
/// comment line, and the code span is one non-comment line.
pub open spec fn wf_item(slash: bool, x: ItemModel) -> bool {
    (forall|i: int| 0 <= i < x.comments.len() ==> is_comment_line(slash, x.comments[i]))
        && x.code.len() == 1 && !is_comment_line(slash, x.code[0])
}

pub open spec fn wf_items(slash: bool, items: Seq<ItemModel>) -> bool {
    forall|i: int| 0 <= i < items.len() ==> wf_item(slash, items[i])
}

pub open spec fn all_comments(slash: bool, lines: Seq<Seq<char>>) -> bool {
    forall|i: int| 0 <= i < lines.len() ==> is_comment_line(slash, lines[i])
}

/// The state a single-line segmentation can be in: only finished items and
/// pending comments, never an open code span.
pub open spec fn wf_state(slash: bool, st: SegState) -> bool {
    wf_items(slash, st.items) && all_comments(slash, st.pend_c) && st.pend_code.len() == 0
        && !st.in_multi
}

proof fn lemma_seg_run_wf(slash: bool, lines: Seq<Seq<char>>)
    ensures
        wf_state(slash, seg_run(slash, false, lines)),
    decreases lines.len(),
{
    if lines.len() > 0 {
        lemma_seg_run_wf(slash, lines.drop_last());
        let st = seg_run(slash, false, lines.drop_last());
        let line = lines.last();
        if is_comment_line(slash, line) {
            assert(wf_state(slash, seg_step(slash, false, st, line)));
        } else {
            let code = st.pend_code.push(line);
            assert(code =~= seq![line]);
            let x = ItemModel { comments: st.pend_c, code };
            assert(wf_item(slash, x));
            let r = seg_step(slash, false, st, line);
            assert(r.items == st.items.push(x));
            assert forall|i: int| 0 <= i < r.items.len() implies wf_item(slash, r.items[i]) by {
                if i < st.items.len() {
                    assert(wf_item(slash, st.items[i]));
                }
            }
        }
    }
}

/// A single-line segmentation yields well-formed items and leaves only
/// comments trailing.
pub proof fn lemma_seg_block_wf(slash: bool, lines: Seq<Seq<char>>)
    ensures
        wf_items(slash, seg_block(slash, false, lines).items),
        all_comments(slash, seg_block(slash, false, lines).trailing),
{
    lemma_seg_run_wf(slash, lines);
}

/// Sorting keeps every item well-formed.
pub proof fn lemma_sort_items_wf(slash: bool, bazel: bool, s: Seq<ItemModel>)
    requires
        wf_items(slash, s),
    ensures
        wf_items(slash, sort_items(bazel, s)),
    decreases s.len(),
{
    if s.len() > 0 {
        assert(s.drop_last() =~= s.take(s.len() - 1));
        assert(wf_items(slash, s.drop_last()));
        lemma_sort_items_wf(slash, bazel, s.drop_last());
        let t = sort_items(bazel, s.drop_last());
        let r = sort_items(bazel, s);
        assert forall|i: int| 0 <= i < r.len() implies wf_item(slash, r[i]) by {
            lemma_insert_item_membership(bazel, t, s.last(), i);
            if r[i] != s.last() {
                let w = choose|w: int| 0 <= w < t.len() && t[w] == r[i];
                assert(wf_item(slash, t[w]));
            } else {
                assert(wf_item(slash, s[s.len() - 1]));
            }
        }
    }
}

/// Running the segmentation from a mid-way state.
pub open spec fn seg_run_from(
    slash: bool,
    multi: bool,
    st: SegState,
    lines: Seq<Seq<char>>,
) -> SegState
    decreases lines.len(),
{
    if lines.len() == 0 {
        st
    } else {
        seg_step(slash, multi, seg_run_from(slash, multi, st, lines.drop_last()), lines.last())
    }
}

proof fn lemma_seg_run_from_app(
    slash: bool,
    multi: bool,
    st: SegState,
    a: Seq<Seq<char>>,
    b: Seq<Seq<char>>,
)
    ensures
        seg_run_from(slash, multi, st, a + b) == seg_run_from(
            slash,
            multi,
            seg_run_from(slash, multi, st, a),
            b,
        ),
    decreases b.len(),
{
    if b.len() == 0 {
        assert(a + b =~= a);
    } else {
        assert((a + b).drop_last() =~= a + b.drop_last());
        assert((a + b).last() == b.last());
        lemma_seg_run_from_app(slash, multi, st, a, b.drop_last());
    }
}

proof fn lemma_seg_run_is_from_init(slash: bool, multi: bool, lines: Seq<Seq<char>>)
    ensures
        seg_run(slash, multi, lines) == seg_run_from(slash, multi, seg_init(), lines),
    decreases lines.len(),
{
    if lines.len() > 0 {
        lemma_seg_run_is_from_init(slash, multi, lines.drop_last());
    }
}

proof fn lemma_consume_comments(slash: bool, multi: bool, st: SegState, cs: Seq<Seq<char>>)
    requires
        all_comments(slash, cs),
        !st.in_multi,
    ensures
        seg_run_from(slash, multi, st, cs) == (SegState {
            pend_c: st.pend_c + cs,
            in_multi: false,
            ..st
        }),
    decreases cs.len(),
{
    if cs.len() == 0 {
        assert(st.pend_c + cs =~= st.pend_c);
        assert(seg_run_from(slash, multi, st, cs) == st);
        assert((SegState { pend_c: st.pend_c + cs, in_multi: false, ..st }) == st);
    } else {
        assert(all_comments(slash, cs.drop_last()));
        lemma_consume_comments(slash, multi, st, cs.drop_last());
        assert(is_comment_line(slash, cs.last()));
        assert((st.pend_c + cs.drop_last()).push(cs.last()) =~= st.pend_c + cs);
    }
}

proof fn lemma_consume_item(slash: bool, st: SegState, x: ItemModel)
    requires
        wf_item(slash, x),
        st.pend_c.len() == 0,
        st.pend_code.len() == 0,
        !st.in_multi,
    ensures
        seg_run_from(slash, false, st, item_lines(x)) == (SegState {
            items: st.items.push(x),
            pend_c: Seq::empty(),
            pend_code: Seq::empty(),
            in_multi: false,
        }),
{
    lemma_seg_run_from_app(slash, false, st, x.comments, x.code);
    lemma_consume_comments(slash, false, st, x.comments);
    let st1 = seg_run_from(slash, false, st, x.comments);
    assert(st1.pend_c =~= x.comments);
    assert(x.code =~= seq![x.code[0]]);
    let e: Seq<Seq<char>> = Seq::empty();
    assert(seq![x.code[0]].drop_last() =~= e);
    assert(seg_run_from(slash, false, st1, e) == st1);
    assert(seg_run_from(slash, false, st1, seq![x.code[0]]) == seg_step(
        slash,
        false,
        st1,
        x.code[0],
    ));
    let r = seg_step(slash, false, st1, x.code[0]);
    assert(st1.pend_code.push(x.code[0]) =~= x.code);
    assert(r.items == st.items.push(ItemModel { comments: st1.pend_c, code: x.code }));
    assert(ItemModel { comments: st1.pend_c, code: x.code } == x);
}

proof fn lemma_consume_items(slash: bool, st: SegState, items: Seq<ItemModel>)
    requires
        wf_items(slash, items),
        st.pend_c.len() == 0,
        st.pend_code.len() == 0,
        !st.in_multi,
    ensures
        seg_run_from(slash, false, st, flatten_items(items)) == (SegState {
            items: st.items + items,
            pend_c: Seq::empty(),
            pend_code: Seq::empty(),
            in_multi: false,
        }),
    decreases items.len(),
{
    if items.len() == 0 {
        assert(flatten_items(items) =~= Seq::<Seq<char>>::empty());
        assert(st.items + items =~= st.items);
        assert(st.pend_c =~= Seq::<Seq<char>>::empty());
        assert(st.pend_code =~= Seq::<Seq<char>>::empty());
        assert(st == (SegState {
            items: st.items + items,
            pend_c: Seq::empty(),
            pend_code: Seq::empty(),
            in_multi: false,
        }));
    } else {
        assert(items.drop_last() =~= items.take(items.len() - 1));
        assert(wf_items(slash, items.drop_last()));
        lemma_consume_items(slash, st, items.drop_last());
        lemma_seg_run_from_app(slash, false, st, flatten_items(items.drop_last()), item_lines(
            items.last(),
        ));
        let st1 = seg_run_from(slash, false, st, flatten_items(items.drop_last()));
        assert(wf_item(slash, items[items.len() - 1]));
        lemma_consume_item(slash, st1, items.last());
        assert((st.items + items.drop_last()).push(items.last()) =~= st.items + items);
    }
}

/// Segmenting a reassembled block gives back exactly its items and its
/// trailing comments.
pub proof fn lemma_seg_roundtrip(slash: bool, items: Seq<ItemModel>, trailing: Seq<Seq<char>>)
    requires
        wf_items(slash, items),
        all_comments(slash, trailing),
    ensures
        seg_block(slash, false, flatten_items(items) + trailing).items == items,
        seg_block(slash, false, flatten_items(items) + trailing).trailing == trailing,
{
    let lines = flatten_items(items) + trailing;
    lemma_seg_run_is_from_init(slash, false, lines);
    lemma_seg_run_from_app(slash, false, seg_init(), flatten_items(items), trailing);
    lemma_consume_items(slash, seg_init(), items);
    let st1 = seg_run_from(slash, false, seg_init(), flatten_items(items));
    lemma_consume_comments(slash, false, st1, trailing);
    let st2 = seg_run(slash, false, lines);
    assert(st2.items =~= items);
    assert(st2.pend_c =~= trailing);
    assert(st2.pend_code.len() == 0);
}

/// Idempotence of the block sort: sorting an already-sorted block changes
/// nothing, for every single-line dialect.
pub proof fn lemma_sorted_block_idempotent(slash: bool, bazel: bool, block: Seq<Seq<char>>)
    ensures
        sorted_block(slash, false, bazel, sorted_block(slash, false, bazel, block))
            == sorted_block(slash, false, bazel, block),
{
    let m = seg_block(slash, false, block);
    lemma_seg_block_wf(slash, block);
    let sorted = sort_items(bazel, m.items);
    lemma_sort_items_wf(slash, bazel, m.items);
    lemma_sort_items_sorted(bazel, m.items);
    let once = sorted_block(slash, false, bazel, block);
    assert(once == flatten_items(sorted) + m.trailing);
    lemma_seg_roundtrip(slash, sorted, m.trailing);
    let m2 = seg_block(slash, false, once);
    assert(m2.items == sorted);
    assert(m2.trailing == m.trailing);
    lemma_sort_of_sorted(bazel, sorted);
    assert(sorted_block(slash, false, bazel, once) == flatten_items(sorted) + m.trailing);
}

proof fn lemma_flatten_app(a: Seq<ItemModel>, b: Seq<ItemModel>)
    ensures
        flatten_items(a + b) == flatten_items(a) + flatten_items(b),
    decreases b.len(),
{
    if b.len() == 0 {
        assert(a + b =~= a);
        assert(flatten_items(b) =~= Seq::<Seq<char>>::empty());
        assert(flatten_items(a) + flatten_items(b) =~= flatten_items(a));
    } else {
        assert((a + b).drop_last() =~= a + b.drop_last());
        assert((a + b).last() == b.last());
        lemma_flatten_app(a, b.drop_last());
        assert(flatten_items(a) + (flatten_items(b.drop_last()) + item_lines(b.last()))
            =~= (flatten_items(a) + flatten_items(b.drop_last())) + item_lines(b.last()));
    }
}

/// Comment attachment: in the flattened output, the `j`-th item occupies
/// exactly the range after its predecessors, its comments directly before
/// its code.
pub proof fn lemma_flatten_contiguous(items: Seq<ItemModel>, j: int)
    requires
        0 <= j < items.len(),
    ensures
        ({
            let off = flatten_items(items.take(j)).len() as int;
            let len = item_lines(items[j]).len() as int;
            off >= 0 && off + len <= flatten_items(items).len()
                && flatten_items(items).subrange(off, off + len) == item_lines(items[j])
        }),
{
    let off = flatten_items(items.take(j)).len() as int;
    let len = item_lines(items[j]).len() as int;
    assert(items =~= items.take(j) + (seq![items[j]] + items.skip(j + 1)));
    lemma_flatten_app(items.take(j), seq![items[j]] + items.skip(j + 1));
    lemma_flatten_app(seq![items[j]], items.skip(j + 1));
    let ei: Seq<ItemModel> = Seq::empty();
    assert(seq![items[j]].drop_last() =~= ei);
    assert(flatten_items(ei) =~= Seq::<Seq<char>>::empty());
    assert(flatten_items(seq![items[j]]) =~= item_lines(items[j]));
    assert(flatten_items(items) == flatten_items(items.take(j)) + (item_lines(items[j])
        + flatten_items(items.skip(j + 1))));
    assert(flatten_items(items).subrange(off, off + len) =~= item_lines(items[j]));
}

/// Comment attachment for a whole sorted region: every item of the sorted
/// block stands contiguously in the output, comments first, and the sorted
/// items are exactly the segmented ones, reordered.
pub proof fn lemma_comment_attachment(
    slash: bool,
    bazel: bool,
    block: Seq<Seq<char>>,
    j: int,
)
    requires
        0 <= j < sort_items(bazel, seg_block(slash, false, block).items).len(),
    ensures
        ({
            let items = seg_block(slash, false, block).items;
            let sorted = sort_items(bazel, items);
            let off = flatten_items(sorted.take(j)).len() as int;
            let len = item_lines(sorted[j]).len() as int;
            sorted.to_multiset() == items.to_multiset() && off + len <= sorted_block(
                slash,
                false,
                bazel,
                block,
            ).len() && sorted_block(slash, false, bazel, block).subrange(off, off + len)
                == sorted[j].comments + sorted[j].code
        }),
{
    let items = seg_block(slash, false, block).items;
    let trailing = seg_block(slash, false, block).trailing;
    let sorted = sort_items(bazel, items);
    lemma_sort_items_permutation(bazel, items);
    lemma_flatten_contiguous(sorted, j);
    let off = flatten_items(sorted.take(j)).len() as int;
    let len = item_lines(sorted[j]).len() as int;
    assert(sorted_block(slash, false, bazel, block) == flatten_items(sorted) + trailing);
    assert(sorted_block(slash, false, bazel, block).subrange(off, off + len) =~= flatten_items(
        sorted,
    ).subrange(off, off + len));
}

/// Locality for the generic dialect: a file in which no line is a trigger
/// comment passes through unchanged, line for line.
pub proof fn lemma_generic_passthrough(lines: Seq<Seq<char>>)
    requires
        forall|i: int| 0 <= i < lines.len() ==> !trigger_comment(lines[i]),
    ensures
        crate::strategies::generic::spec_process(lines) == lines,
{
    lemma_generic_scan_passthrough(lines);
}

proof fn lemma_generic_scan_passthrough(lines: Seq<Seq<char>>)
    requires
        forall|i: int| 0 <= i < lines.len() ==> !trigger_comment(lines[i]),
    ensures
        crate::strategies::generic::scan_run(lines).out == lines,
        !crate::strategies::generic::scan_run(lines).sorting,
    decreases lines.len(),
{
    if lines.len() == 0 {
        assert(crate::strategies::generic::scan_run(lines).out =~= lines);
    } else {
        assert(lines.drop_last() =~= lines.take(lines.len() - 1));
        assert(forall|i: int|
            0 <= i < lines.drop_last().len() ==> !trigger_comment(lines.drop_last()[i]));
        lemma_generic_scan_passthrough(lines.drop_last());
        assert(!trigger_comment(lines.last()));
        assert(lines.drop_last().push(lines.last()) =~= lines);
    }
}

/// Segmentation loses no line and invents none: the items' lines followed
/// by the trailing comments are exactly the region's lines.
pub proof fn lemma_seg_sound(slash: bool, lines: Seq<Seq<char>>)
    ensures
        flatten_items(seg_block(slash, false, lines).items) + seg_block(
            slash,
            false,
            lines,
        ).trailing == lines,
{
    lemma_seg_run_sound(slash, lines);
    lemma_seg_run_wf(slash, lines);
}

proof fn lemma_seg_run_sound(slash: bool, lines: Seq<Seq<char>>)
    ensures
        flatten_items(seg_run(slash, false, lines).items) + seg_run(slash, false, lines).pend_c
            == lines,
    decreases lines.len(),
{
    if lines.len() == 0 {
        assert(flatten_items(seg_run(slash, false, lines).items) + seg_run(
            slash,
            false,
            lines,
        ).pend_c =~= lines);
    } else {
        lemma_seg_run_sound(slash, lines.drop_last());
        lemma_seg_run_wf(slash, lines.drop_last());
        let st = seg_run(slash, false, lines.drop_last());
        let line = lines.last();
        if is_comment_line(slash, line) {
            assert(flatten_items(st.items) + st.pend_c.push(line) =~= (flatten_items(st.items)
                + st.pend_c).push(line));
            assert((flatten_items(st.items) + st.pend_c).push(line) =~= lines);
        } else {
            let code = st.pend_code.push(line);
            assert(code =~= seq![line]);
            let x = ItemModel { comments: st.pend_c, code };
            let items2 = st.items.push(x);
            assert(items2.drop_last() =~= st.items);
            assert(flatten_items(items2) == flatten_items(st.items) + item_lines(x));
            assert(flatten_items(items2) + Seq::<Seq<char>>::empty() =~= flatten_items(items2));
            assert(flatten_items(st.items) + (st.pend_c + code) =~= (flatten_items(st.items)
                + st.pend_c).push(line));
            assert(flatten_items(st.items) + (st.pend_c + code) =~= lines);
            assert(item_lines(x) == st.pend_c + code);
            assert(flatten_items(items2) =~= lines);
        }
    }
}

/// Every item of the sort's result is one of the input items.
proof fn lemma_sort_items_membership(bazel: bool, s: Seq<ItemModel>, i: int)
    requires
        0 <= i < sort_items(bazel, s).len(),
    ensures
        exists|w: int| 0 <= w < s.len() && s[w] == sort_items(bazel, s)[i],
    decreases s.len(),
{
    if s.len() > 0 {
        let t = sort_items(bazel, s.drop_last());
        lemma_insert_item_membership(bazel, t, s.last(), i);
        let r = sort_items(bazel, s);
        if r[i] == s.last() {
            assert(s[s.len() - 1] == r[i]);
        } else {
            let w = choose|w: int| 0 <= w < t.len() && t[w] == r[i];
            lemma_sort_items_membership(bazel, s.drop_last(), w);
            let w2 = choose|w2: int| 0 <= w2 < s.drop_last().len() && s.drop_last()[w2] == t[w];
            assert(s[w2] == r[i]);
        }
    }
}

/// Every line of a flattened item sequence lies in one of its items.
proof fn lemma_flatten_position(a: Seq<ItemModel>, i: int)
    requires
        0 <= i < flatten_items(a).len(),
    ensures
        exists|k: int, o: int|
            0 <= k < a.len() && 0 <= o < item_lines(a[k]).len() && flatten_items(a)[i]
                == #[trigger] item_lines(a[k])[o],
    decreases a.len(),
{
    if a.len() > 0 {
        let pre = flatten_items(a.drop_last());
        if i < pre.len() {
            lemma_flatten_position(a.drop_last(), i);
            let (k, o): (int, int) = choose|k: int, o: int|
                0 <= k < a.drop_last().len() && 0 <= o < item_lines(a.drop_last()[k]).len()
                    && pre[i] == item_lines(a.drop_last()[k])[o];
            assert(a.drop_last()[k] == a[k]);
            assert(flatten_items(a)[i] == item_lines(a[k])[o]);
        } else {
            let o = i - pre.len();
            assert(flatten_items(a)[i] == item_lines(a[a.len() - 1])[o]);
        }
    }
}

/// Every line of a sorted block is one of the block's own lines.
pub proof fn lemma_sorted_block_membership(slash: bool, bazel: bool, block: Seq<Seq<char>>, i: int)
    requires
        0 <= i < sorted_block(slash, false, bazel, block).len(),
    ensures
        exists|j: int|
            0 <= j < block.len() && sorted_block(slash, false, bazel, block)[i] == #[trigger] block[j],
{
    let m = seg_block(slash, false, block);
    let sorted = sort_items(bazel, m.items);
    let out = sorted_block(slash, false, bazel, block);
    lemma_seg_sound(slash, block);
    let flat = flatten_items(m.items);
    if i < flatten_items(sorted).len() {
        lemma_flatten_position(sorted, i);
        let (k, o): (int, int) = choose|k: int, o: int|
            0 <= k < sorted.len() && 0 <= o < item_lines(sorted[k]).len() && flatten_items(
                sorted,
            )[i] == item_lines(sorted[k])[o];
        lemma_sort_items_membership(bazel, m.items, k);
        let w = choose|w: int| 0 <= w < m.items.len() && m.items[w] == sorted[k];
        lemma_flatten_contiguous(m.items, w);
        let off = flatten_items(m.items.take(w)).len() as int;
        assert(flat.subrange(off, off + item_lines(m.items[w]).len()) == item_lines(m.items[w]));
        assert(flat[off + o] == item_lines(m.items[w])[o]);
        assert(out[i] == flat[off + o]);
        assert((flat + m.trailing)[off + o] == flat[off + o]);
        assert(block[off + o] == out[i]);
    } else {
        let o = i - flatten_items(sorted).len();
        assert(out[i] == m.trailing[o]);
        lemma_sort_items_permutation(bazel, m.items);
        lemma_flatten_same_len(sorted, m.items);
        assert((flat + m.trailing)[flat.len() + o] == m.trailing[o]);
        assert(block[flat.len() + o] == out[i]);
    }
}

/// Item sequences with the same multiset flatten to the same number of
/// lines.
proof fn lemma_flatten_same_len(a: Seq<ItemModel>, b: Seq<ItemModel>)
    requires
        a.to_multiset() == b.to_multiset(),
    ensures
        flatten_items(a).len() == flatten_items(b).len(),
    decreases a.len(),
{
    broadcast use vstd::seq_lib::group_to_multiset_ensures;

    if a.len() == 0 {
        assert(b.to_multiset().len() == 0);
        assert(b.len() == 0);
    } else {
        let x = a.last();
        assert(a.drop_last().push(x) =~= a);
        assert(a.to_multiset().contains(x));
        assert(b.to_multiset().contains(x));
        assert(b.contains(x));
        let w = choose|w: int| 0 <= w < b.len() && b[w] == x;
        let b2 = b.remove(w);
        assert(b2.to_multiset() =~= b.to_multiset().remove(x));
        assert(a.drop_last().to_multiset() =~= a.to_multiset().remove(x));
        lemma_flatten_same_len(a.drop_last(), b2);
        lemma_flatten_remove_len(b, w);
    }
}

proof fn lemma_flatten_remove_len(b: Seq<ItemModel>, w: int)
    requires
        0 <= w < b.len(),
    ensures
        flatten_items(b).len() == flatten_items(b.remove(w)).len() + item_lines(b[w]).len(),
    decreases b.len(),
{
    if w == b.len() - 1 {
        assert(b.remove(w) =~= b.drop_last());
    } else {
        lemma_flatten_remove_len(b.drop_last(), w);
        assert(b.remove(w).drop_last() =~= b.drop_last().remove(w));
        assert(b.remove(w).last() == b.last());
    }
}

/// A region sort applied to its own output, under the same ignore flag,
/// changes nothing more.
pub proof fn lemma_sort_region_idempotent(
    slash: bool,
    bazel: bool,
    block: Seq<Seq<char>>,
    ign: bool,
)
    ensures
        crate::engine::sort_region(
            slash,
            false,
            bazel,
            crate::engine::sort_region(slash, false, bazel, block, ign),
            ign,
        ) == crate::engine::sort_region(slash, false, bazel, block, ign),
{
    let r = crate::engine::sort_region(slash, false, bazel, block, ign);
    if ign || crate::directives::has_ignore_block(block) {
    } else {
        assert(r == sorted_block(slash, false, bazel, block));
        if crate::directives::has_ignore_block(r) {
            let i = choose|i: int|
                0 <= i < r.len() && crate::directives::ignore_block_comment(r[i]);
            lemma_sorted_block_membership(slash, bazel, block, i);
            assert(false);
        }
        lemma_sorted_block_idempotent(slash, bazel, block);
    }
}

/// Running the generic scanner from a mid-way state.
pub open spec fn gscan_from(
    st: crate::strategies::generic::ScanState,
    lines: Seq<Seq<char>>,
) -> crate::strategies::generic::ScanState
    decreases lines.len(),
{
    if lines.len() == 0 {
        st
    } else {
        crate::strategies::generic::scan_step(gscan_from(st, lines.drop_last()), lines.last())
    }
}

proof fn lemma_gscan_from_app(
    st: crate::strategies::generic::ScanState,
    a: Seq<Seq<char>>,
    b: Seq<Seq<char>>,
)
    ensures
        gscan_from(st, a + b) == gscan_from(gscan_from(st, a), b),
    decreases b.len(),
{
    if b.len() == 0 {
        assert(a + b =~= a);
    } else {
        assert((a + b).drop_last() =~= a + b.drop_last());
        assert((a + b).last() == b.last());
        lemma_gscan_from_app(st, a, b.drop_last());
    }
}

proof fn lemma_gscan_is_from_init(lines: Seq<Seq<char>>)
    ensures
        crate::strategies::generic::scan_run(lines) == gscan_from(
            crate::strategies::generic::scan_init(),
            lines,
        ),
    decreases lines.len(),
{
    if lines.len() > 0 {
        lemma_gscan_is_from_init(lines.drop_last());
    }
}

/// While a region is open, non-blank lines only accumulate.
proof fn lemma_gscan_accumulate(st: crate::strategies::generic::ScanState, r: Seq<Seq<char>>)
    requires
        st.sorting,
        forall|i: int| 0 <= i < r.len() ==> !crate::text::is_blank_line(r[i]),
    ensures
        gscan_from(st, r) == (crate::strategies::generic::ScanState {
            out: st.out,
            block: st.block + r,
            sorting: true,
            ign: st.ign,
        }),
    decreases r.len(),
{
    if r.len() == 0 {
        assert(st.block + r =~= st.block);
        assert(st == (crate::strategies::generic::ScanState {
            out: st.out,
            block: st.block + r,
            sorting: true,
            ign: st.ign,
        }));
    } else {
        assert(forall|i: int|
            0 <= i < r.drop_last().len() ==> !crate::text::is_blank_line(r.drop_last()[i]));
        lemma_gscan_accumulate(st, r.drop_last());
        assert(!crate::text::is_blank_line(r.last()));
        assert((st.block + r.drop_last()).push(r.last()) =~= st.block + r);
    }
}

/// The replay invariant: scanning a pass's own emitted prefix re-emits it
/// and lands in the matching state.
proof fn lemma_gscan_replay(lines: Seq<Seq<char>>)
    ensures
        ({
            let st = crate::strategies::generic::scan_run(lines);
            let r = gscan_from(crate::strategies::generic::scan_init(), st.out);
            &&& r.out == st.out
            &&& r.block == Seq::<Seq<char>>::empty()
            &&& r.sorting == st.sorting
            &&& (st.sorting ==> r.ign == st.ign)
            &&& (st.sorting ==> forall|i: int|
                0 <= i < st.block.len() ==> !crate::text::is_blank_line(st.block[i]))
        }),
    decreases lines.len(),
{
    let init = crate::strategies::generic::scan_init();
    if lines.len() == 0 {
        assert(gscan_from(init, init.out) == init);
        assert(init.block =~= Seq::<Seq<char>>::empty());
    } else {
        lemma_gscan_replay(lines.drop_last());
        let st0 = crate::strategies::generic::scan_run(lines.drop_last());
        let line = lines.last();
        let st = crate::strategies::generic::scan_run(lines);
        let r0 = gscan_from(init, st0.out);
        if !st0.sorting && trigger_comment(line) {
            assert(st.out =~= st0.out + seq![line]);
            lemma_gscan_from_app(init, st0.out, seq![line]);
            let e: Seq<Seq<char>> = Seq::empty();
            assert(seq![line].drop_last() =~= e);
            assert(gscan_from(r0, e) == r0);
            assert(gscan_from(r0, seq![line]) == crate::strategies::generic::scan_step(r0, line));
            assert(st0.out.push(line) =~= st0.out + seq![line]);
        } else if st0.sorting && crate::text::is_blank_line(line) {
            let rg = crate::engine::sort_region(true, false, false, st0.block, st0.ign);
            assert(st.out == st0.out + rg + seq![line]);
            assert(st.out =~= (st0.out + rg) + seq![line]);
            lemma_gscan_from_app(init, st0.out + rg, seq![line]);
            lemma_gscan_from_app(init, st0.out, rg);
            assert forall|i: int| 0 <= i < rg.len() implies !crate::text::is_blank_line(
                rg[i],
            ) by {
                if st0.ign || crate::directives::has_ignore_block(st0.block) {
                    assert(rg[i] == st0.block[i]);
                } else {
                    lemma_sorted_block_membership(true, false, st0.block, i);
                }
            }
            lemma_gscan_accumulate(r0, rg);
            let r1 = gscan_from(init, st0.out + rg);
            assert(r1.block =~= rg);
            let e: Seq<Seq<char>> = Seq::empty();
            assert(seq![line].drop_last() =~= e);
            assert(gscan_from(r1, e) == r1);
            assert(gscan_from(r1, seq![line]) == crate::strategies::generic::scan_step(r1, line));
            lemma_sort_region_idempotent(true, false, st0.block, st0.ign);
            let r2 = crate::strategies::generic::scan_step(r1, line);
            assert(!trigger_comment(line)) by {
                lemma_trigger_not_blank(line);
            }
            assert(r2.out =~= st.out);
            assert(r2.block =~= Seq::<Seq<char>>::empty());
        } else if st0.sorting {
            assert(st.out == st0.out);
        } else {
            assert(st.out =~= st0.out + seq![line]);
            lemma_gscan_from_app(init, st0.out, seq![line]);
            let e: Seq<Seq<char>> = Seq::empty();
            assert(seq![line].drop_last() =~= e);
            assert(gscan_from(r0, e) == r0);
            assert(gscan_from(r0, seq![line]) == crate::strategies::generic::scan_step(r0, line));
            assert(st0.out.push(line) =~= st0.out + seq![line]);
        }
    }
}

/// Running the Bazel scanner from a mid-way state.
pub open spec fn bscan_from(
    st: crate::strategies::bazel::ScanState,
    lines: Seq<Seq<char>>,
) -> crate::strategies::bazel::ScanState
    decreases lines.len(),
{
    if lines.len() == 0 {
        st
    } else {
        crate::strategies::bazel::scan_step(bscan_from(st, lines.drop_last()), lines.last())
    }
}

proof fn lemma_bscan_from_app(
    st: crate::strategies::bazel::ScanState,
    a: Seq<Seq<char>>,
    b: Seq<Seq<char>>,
)
    ensures
        bscan_from(st, a + b) == bscan_from(bscan_from(st, a), b),
    decreases b.len(),
{
    if b.len() == 0 {
        assert(a + b =~= a);
    } else {
        assert((a + b).drop_last() =~= a + b.drop_last());
        assert((a + b).last() == b.last());
        lemma_bscan_from_app(st, a, b.drop_last());
    }
}

proof fn lemma_bscan_is_from_init(lines: Seq<Seq<char>>)
    ensures
        crate::strategies::bazel::scan_run(lines) == bscan_from(
            crate::strategies::bazel::scan_init(),
            lines,
        ),
    decreases lines.len(),
{
    if lines.len() > 0 {
        lemma_bscan_is_from_init(lines.drop_last());
    }
}

/// While a Bazel region is open, lines that neither hold `]` nor are blank
/// only accumulate.
proof fn lemma_bscan_accumulate(st: crate::strategies::bazel::ScanState, r: Seq<Seq<char>>)
    requires
        st.sorting,
        forall|i: int|
            0 <= i < r.len() ==> !crate::text::is_blank_line(r[i])
                && !crate::directives::lwc_hash_has(r[i], ']'),
    ensures
        bscan_from(st, r) == (crate::strategies::bazel::ScanState {
            out: st.out,
            block: st.block + r,
            sorting: true,
            scope: st.scope,
            ign: st.ign,
        }),
    decreases r.len(),
{
    if r.len() == 0 {
        assert(st.block + r =~= st.block);
        assert(st == (crate::strategies::bazel::ScanState {
            out: st.out,
            block: st.block + r,
            sorting: true,
            scope: st.scope,
            ign: st.ign,
        }));
    } else {
        assert(forall|i: int|
            0 <= i < r.drop_last().len() ==> !crate::text::is_blank_line(r.drop_last()[i])
                && !crate::directives::lwc_hash_has(r.drop_last()[i], ']'));
        lemma_bscan_accumulate(st, r.drop_last());
        assert(!crate::text::is_blank_line(r.last()));
        assert((st.block + r.drop_last()).push(r.last()) =~= st.block + r);
    }
}

proof fn lemma_bscan_replay(lines: Seq<Seq<char>>)
    ensures
        ({
            let st = crate::strategies::bazel::scan_run(lines);
            let r = bscan_from(crate::strategies::bazel::scan_init(), st.out);
            &&& r.out == st.out
            &&& r.block == Seq::<Seq<char>>::empty()
            &&& r.sorting == st.sorting
            &&& r.scope == st.scope
            &&& (st.sorting ==> r.ign == st.ign)
            &&& (st.sorting ==> forall|i: int|
                0 <= i < st.block.len() ==> !crate::text::is_blank_line(st.block[i])
                    && !crate::directives::lwc_hash_has(st.block[i], ']'))
        }),
    decreases lines.len(),
{
    let init = crate::strategies::bazel::scan_init();
    if lines.len() == 0 {
        assert(bscan_from(init, init.out) == init);
        assert(init.block =~= Seq::<Seq<char>>::empty());
    } else {
        lemma_bscan_replay(lines.drop_last());
        let st0 = crate::strategies::bazel::scan_run(lines.drop_last());
        let line = lines.last();
        let st = crate::strategies::bazel::scan_run(lines);
        let r0 = bscan_from(init, st0.out);
        if st0.sorting && (crate::directives::lwc_hash_has(line, ']')
            || crate::text::is_blank_line(line)) {
            let rg = crate::engine::sort_region(false, false, true, st0.block, st0.ign);
            assert(st.out == st0.out + rg + seq![line]);
            assert(st.out =~= (st0.out + rg) + seq![line]);
            lemma_bscan_from_app(init, st0.out + rg, seq![line]);
            lemma_bscan_from_app(init, st0.out, rg);
            assert forall|i: int| 0 <= i < rg.len() implies !crate::text::is_blank_line(rg[i])
                && !crate::directives::lwc_hash_has(rg[i], ']') by {
                if st0.ign || crate::directives::has_ignore_block(st0.block) {
                    assert(rg[i] == st0.block[i]);
                } else {
                    lemma_sorted_block_membership(false, true, st0.block, i);
                }
            }
            lemma_bscan_accumulate(r0, rg);
            let r1 = bscan_from(init, st0.out + rg);
            assert(r1.block =~= rg);
            let e: Seq<Seq<char>> = Seq::empty();
            assert(seq![line].drop_last() =~= e);
            assert(bscan_from(r1, e) == r1);
            assert(bscan_from(r1, seq![line]) == crate::strategies::bazel::scan_step(r1, line));
            lemma_sort_region_idempotent(false, true, st0.block, st0.ign);
            let r2 = crate::strategies::bazel::scan_step(r1, line);
            assert(r2.out =~= st.out);
            assert(r2.block =~= Seq::<Seq<char>>::empty());
        } else if st0.sorting {
            assert(st.out == st0.out);
        } else {
            assert(st.out =~= st0.out + seq![line]);
            lemma_bscan_from_app(init, st0.out, seq![line]);
            let e: Seq<Seq<char>> = Seq::empty();
            assert(seq![line].drop_last() =~= e);
            assert(bscan_from(r0, e) == r0);
            assert(bscan_from(r0, seq![line]) == crate::strategies::bazel::scan_step(r0, line));
            assert(st0.out.push(line) =~= st0.out + seq![line]);
        }
    }
}

/// Idempotence of the whole Bazel pass.
pub proof fn lemma_bazel_process_idempotent(lines: Seq<Seq<char>>)
    ensures
        crate::strategies::bazel::spec_process(crate::strategies::bazel::spec_process(lines))
            == crate::strategies::bazel::spec_process(lines),
{
    let init = crate::strategies::bazel::scan_init();
    let st = crate::strategies::bazel::scan_run(lines);
    let o = crate::strategies::bazel::spec_process(lines);
    lemma_bscan_replay(lines);
    lemma_bscan_is_from_init(o);
    if !st.sorting {
        assert(o == st.out);
        let r = bscan_from(init, o);
        assert(crate::strategies::bazel::spec_process(o) == r.out);
    } else {
        let rg = crate::engine::sort_region(false, false, true, st.block, st.ign);
        assert(o == st.out + rg);
        lemma_bscan_from_app(init, st.out, rg);
        let r0 = bscan_from(init, st.out);
        assert forall|i: int| 0 <= i < rg.len() implies !crate::text::is_blank_line(rg[i])
            && !crate::directives::lwc_hash_has(rg[i], ']') by {
            if st.ign || crate::directives::has_ignore_block(st.block) {
                assert(rg[i] == st.block[i]);
            } else {
                lemma_sorted_block_membership(false, true, st.block, i);
            }
        }
        lemma_bscan_accumulate(r0, rg);
        let r1 = bscan_from(init, o);
        assert(r1.block =~= rg);
        lemma_sort_region_idempotent(false, true, st.block, st.ign);
        assert(crate::strategies::bazel::spec_process(o) == r1.out + crate::engine::sort_region(
            false,
            false,
            true,
            rg,
            st.ign,
        ));
    }
}

/// A comment line is never blank.
proof fn lemma_comment_not_blank(slash: bool, line: Seq<char>)
    requires
        is_comment_line(slash, line),
    ensures
        !crate::text::is_blank_line(line),
{
    crate::text::lemma_ws_from_bounds(line, 0);
}

/// Running the path-ownership scanner from a mid-way state.
pub open spec fn iscan_from(
    st: crate::strategies::gitignore::ScanState,
    lines: Seq<Seq<char>>,
) -> crate::strategies::gitignore::ScanState
    decreases lines.len(),
{
    if lines.len() == 0 {
        st
    } else {
        crate::strategies::gitignore::scan_step(iscan_from(st, lines.drop_last()), lines.last())
    }
}

proof fn lemma_iscan_from_app(
    st: crate::strategies::gitignore::ScanState,
    a: Seq<Seq<char>>,
    b: Seq<Seq<char>>,
)
    ensures
        iscan_from(st, a + b) == iscan_from(iscan_from(st, a), b),
    decreases b.len(),
{
    if b.len() == 0 {
        assert(a + b =~= a);
    } else {
        assert((a + b).drop_last() =~= a + b.drop_last());
        assert((a + b).last() == b.last());
        lemma_iscan_from_app(st, a, b.drop_last());
    }
}

proof fn lemma_iscan_is_from_init(lines: Seq<Seq<char>>)
    ensures
        crate::strategies::gitignore::scan_run(lines) == iscan_from(
            crate::strategies::gitignore::scan_init(),
            lines,
        ),
    decreases lines.len(),
{
    if lines.len() > 0 {
        lemma_iscan_is_from_init(lines.drop_last());
    }
}

/// Comment lines met outside a run pass through as titles.
proof fn lemma_iscan_titles(st: crate::strategies::gitignore::ScanState, cs: Seq<Seq<char>>)
    requires
        !st.sorting,
        all_comments(false, cs),
    ensures
        iscan_from(st, cs) == (crate::strategies::gitignore::ScanState {
            out: st.out + cs,
            ..st
        }),
    decreases cs.len(),
{
    if cs.len() == 0 {
        assert(st.out + cs =~= st.out);
        assert(st == (crate::strategies::gitignore::ScanState { out: st.out + cs, ..st }));
    } else {
        assert(all_comments(false, cs.drop_last()));
        lemma_iscan_titles(st, cs.drop_last());
        assert(is_comment_line(false, cs.last()));
        lemma_comment_not_blank(false, cs.last());
        assert((st.out + cs.drop_last()).push(cs.last()) =~= st.out + cs);
    }
}

/// Non-blank lines inside an open run only accumulate.
proof fn lemma_iscan_accumulate(st: crate::strategies::gitignore::ScanState, r: Seq<Seq<char>>)
    requires
        st.sorting,
        forall|i: int| 0 <= i < r.len() ==> !crate::text::is_blank_line(r[i]),
    ensures
        iscan_from(st, r) == (crate::strategies::gitignore::ScanState {
            out: st.out,
            block: st.block + r,
            sorting: true,
            ign: st.ign,
        }),
    decreases r.len(),
{
    if r.len() == 0 {
        assert(st.block + r =~= st.block);
        assert(st == (crate::strategies::gitignore::ScanState {
            out: st.out,
            block: st.block + r,
            sorting: true,
            ign: st.ign,
        }));
    } else {
        assert(forall|i: int|
            0 <= i < r.drop_last().len() ==> !crate::text::is_blank_line(r.drop_last()[i]));
        lemma_iscan_accumulate(st, r.drop_last());
        assert(!crate::text::is_blank_line(r.last()));
        assert((st.block + r.drop_last()).push(r.last()) =~= st.block + r);
    }
}

/// Replaying one sorted run of the path-ownership dialect: the leading
/// comments of the first item pass through as titles, the rest re-opens a
/// run, and closing it reproduces the run exactly.
proof fn lemma_gitignore_region_replay(
    o0: Seq<Seq<char>>,
    block: Seq<Seq<char>>,
    ign: bool,
    igx: bool,
)
    requires
        block.len() > 0,
        !is_comment_line(false, block[0]),
        forall|i: int| 0 <= i < block.len() ==> !crate::text::is_blank_line(block[i]),
        ign == (o0.len() > 0 && ignore_block_comment(o0.last())),
    ensures
        ({
            let rg = crate::engine::sort_region(false, false, false, block, ign);
            let st1 = iscan_from(
                crate::strategies::gitignore::ScanState {
                    out: o0,
                    block: Seq::empty(),
                    sorting: false,
                    ign: igx,
                },
                rg,
            );
            &&& st1.sorting
            &&& st1.out + crate::engine::sort_region(false, false, false, st1.block, st1.ign)
                == o0 + rg
        }),
{
    broadcast use vstd::seq_lib::group_to_multiset_ensures;

    let st0 = crate::strategies::gitignore::ScanState {
        out: o0,
        block: Seq::empty(),
        sorting: false,
        ign: igx,
    };
    let rg = crate::engine::sort_region(false, false, false, block, ign);
    if !(ign || crate::directives::has_ignore_block(block)) {
        lemma_gitignore_region_replay_sorted(o0, block, ign, igx);
    } else {
        // the run was left alone; replaying re-opens it and leaves it alone
        // again, because the directive situation is unchanged
        assert(rg == block);
        assert(rg =~= seq![block[0]] + block.skip(1));
        lemma_iscan_from_app(st0, seq![block[0]], block.skip(1));
        let e: Seq<Seq<char>> = Seq::empty();
        assert(seq![block[0]].drop_last() =~= e);
        assert(iscan_from(st0, e) == st0);
        let sta = crate::strategies::gitignore::scan_step(st0, block[0]);
        assert(sta.block =~= seq![block[0]]);
        assert(sta.sorting);
        assert(sta.ign == ign);
        assert(forall|i: int|
            0 <= i < block.skip(1).len() ==> !crate::text::is_blank_line(block.skip(1)[i]));
        lemma_iscan_accumulate(sta, block.skip(1));
        let st1 = iscan_from(st0, rg);
        assert(st1.block =~= block);
        if !st1.ign {
            assert(crate::directives::has_ignore_block(block));
        }
    }
}

#[verifier::rlimit(60)]
proof fn lemma_gitignore_region_replay_sorted(
    o0: Seq<Seq<char>>,
    block: Seq<Seq<char>>,
    ign: bool,
    igx: bool,
)
    requires
        block.len() > 0,
        !is_comment_line(false, block[0]),
        forall|i: int| 0 <= i < block.len() ==> !crate::text::is_blank_line(block[i]),
        ign == (o0.len() > 0 && ignore_block_comment(o0.last())),
        !ign,
        !crate::directives::has_ignore_block(block),
    ensures
        ({
            let rg = crate::engine::sort_region(false, false, false, block, ign);
            let st1 = iscan_from(
                crate::strategies::gitignore::ScanState {
                    out: o0,
                    block: Seq::empty(),
                    sorting: false,
                    ign: igx,
                },
                rg,
            );
            &&& st1.sorting
            &&& st1.out + crate::engine::sort_region(false, false, false, st1.block, st1.ign)
                == o0 + rg
        }),
{
    broadcast use vstd::seq_lib::group_to_multiset_ensures;

    let st0 = crate::strategies::gitignore::ScanState {
        out: o0,
        block: Seq::empty(),
        sorting: false,
        ign: igx,
    };
    let rg = crate::engine::sort_region(false, false, false, block, ign);
    {
        let m = seg_block(false, false, block);
        lemma_seg_block_wf(false, block);
        let sorted = sort_items(false, m.items);
        lemma_sort_items_wf(false, false, m.items);
        lemma_sort_items_sorted(false, m.items);
        lemma_sort_items_permutation(false, m.items);
        assert(rg == flatten_items(sorted) + m.trailing);
        // the block opens with a code line, so it has at least one item
        assert(m.items.len() > 0) by {
            lemma_seg_sound(false, block);
            if m.items.len() == 0 {
                assert(flatten_items(m.items) =~= Seq::<Seq<char>>::empty());
                assert(flatten_items(m.items) + m.trailing =~= m.trailing);
                assert(m.trailing[0] == block[0]);
                assert(is_comment_line(false, block[0]));
            }
        }
        assert(sorted.len() == m.items.len()) by {
            assert(sorted.to_multiset().len() == m.items.to_multiset().len());
        }
        let c0 = sorted[0].comments;
        let head = ItemModel { comments: Seq::empty(), code: sorted[0].code };
        let rest = seq![head] + sorted.skip(1);
        // rg splits into the titles c0 and the re-opened body b2
        let b2 = flatten_items(rest) + m.trailing;
        assert(rg =~= c0 + b2) by {
            assert(sorted =~= seq![sorted[0]] + sorted.skip(1));
            lemma_flatten_app(seq![sorted[0]], sorted.skip(1));
            lemma_flatten_app(seq![head], sorted.skip(1));
            let ei: Seq<ItemModel> = Seq::empty();
            assert(seq![sorted[0]].drop_last() =~= ei);
            assert(seq![head].drop_last() =~= ei);
            assert(flatten_items(ei) =~= Seq::<Seq<char>>::empty());
            assert(flatten_items(seq![sorted[0]]) =~= item_lines(sorted[0]));
            assert(flatten_items(seq![head]) =~= item_lines(head));
            assert(item_lines(head) =~= sorted[0].code);
            assert(item_lines(sorted[0]) =~= c0 + sorted[0].code);
        }
        // every line of rg is a line of the block, hence not blank and not a
        // directive
        assert forall|i: int| 0 <= i < rg.len() implies !crate::text::is_blank_line(rg[i])
            && !ignore_block_comment(rg[i]) by {
            lemma_sorted_block_membership(false, false, block, i);
        }
        // the titles pass through
        lemma_iscan_from_app(st0, c0, b2);
        assert(all_comments(false, c0)) by {
            assert(wf_item(false, sorted[0]));
        }
        lemma_iscan_titles(st0, c0);
        let stt = iscan_from(st0, c0);
        assert(stt.out == o0 + c0);
        // the first code line re-opens a run
        assert(b2.len() > 0) by {
            assert(wf_item(false, sorted[0]));
            assert(item_lines(head).len() > 0);
        }
        assert(b2[0] == sorted[0].code[0]) by {
            lemma_flatten_app(seq![head], sorted.skip(1));
            let ei: Seq<ItemModel> = Seq::empty();
            assert(seq![head].drop_last() =~= ei);
            assert(flatten_items(ei) =~= Seq::<Seq<char>>::empty());
            assert(flatten_items(seq![head]) =~= item_lines(head));
            assert(wf_item(false, sorted[0]));
            assert(item_lines(head) =~= sorted[0].code);
            assert(item_lines(head).len() == 1);
            assert(flatten_items(rest)[0] == item_lines(head)[0]);
            assert(b2[0] == flatten_items(rest)[0]);
            assert(item_lines(head)[0] == sorted[0].code[0]);
        }
        assert(!is_comment_line(false, b2[0])) by {
            assert(wf_item(false, sorted[0]));
        }
        assert(b2 =~= seq![b2[0]] + b2.skip(1));
        lemma_iscan_from_app(stt, seq![b2[0]], b2.skip(1));
        let e: Seq<Seq<char>> = Seq::empty();
        assert(seq![b2[0]].drop_last() =~= e);
        assert(iscan_from(stt, e) == stt);
        assert(!crate::text::is_blank_line(b2[0])) by {
            assert(rg[c0.len() as int] == b2[0]);
        }
        let sta = crate::strategies::gitignore::scan_step(stt, b2[0]);
        assert(sta.sorting);
        assert(sta.block =~= seq![b2[0]]);
        // whatever stands before the body is no directive
        assert(!sta.ign) by {
            if c0.len() > 0 {
                assert(stt.out.last() == c0.last());
                assert(rg[c0.len() - 1] == c0[c0.len() - 1]);
                assert(!ignore_block_comment(c0.last()));
            } else {
                assert(stt.out =~= o0);
            }
        }
        assert(forall|i: int|
            0 <= i < b2.skip(1).len() ==> !crate::text::is_blank_line(b2.skip(1)[i]))
            by {
            assert forall|i: int| 0 <= i < b2.skip(1).len() implies !crate::text::is_blank_line(
                b2.skip(1)[i],
            ) by {
                assert(b2.skip(1)[i] == b2[i + 1]);
                assert(rg[c0.len() + i + 1] == b2[i + 1]);
            }
        }
        lemma_iscan_accumulate(sta, b2.skip(1));
        let st1 = iscan_from(st0, rg);
        assert(st1.block =~= b2);
        assert(st1.out == o0 + c0);
        assert(st1.sorting);
        assert(!st1.ign);
        // closing the re-opened run reproduces the body exactly
        assert(!crate::directives::has_ignore_block(b2)) by {
            if crate::directives::has_ignore_block(b2) {
                let i = choose|i: int| 0 <= i < b2.len() && ignore_block_comment(b2[i]);
                assert(rg[c0.len() + i] == b2[i]);
                assert(false);
            }
        }
        assert(wf_items(false, rest)) by {
            assert forall|i: int| 0 <= i < rest.len() implies wf_item(false, rest[i]) by {
                if i == 0 {
                    assert(wf_item(false, sorted[0]));
                } else {
                    assert(rest[i] == sorted[i]);
                    assert(wf_item(false, sorted[i]));
                }
            }
        }
        assert(all_comments(false, m.trailing));
        lemma_seg_roundtrip(false, rest, m.trailing);
        assert(items_sorted(false, rest)) by {
            assert forall|i: int, j: int| 0 <= i < j < rest.len() implies item_le(
                false,
                rest[i],
                rest[j],
            ) by {
                if i == 0 {
                    assert(rest[j] == sorted[j]);
                    assert(item_le(false, sorted[0], sorted[j]));
                } else {
                    assert(rest[i] == sorted[i]);
                    assert(rest[j] == sorted[j]);
                    assert(item_le(false, sorted[i], sorted[j]));
                }
            }
        }
        lemma_sort_of_sorted(false, rest);
        assert(sorted_block(false, false, false, b2) == flatten_items(rest) + m.trailing);
        assert(crate::engine::sort_region(false, false, false, b2, false) == b2);
        assert(st1.out + crate::engine::sort_region(false, false, false, st1.block, st1.ign)
            =~= o0 + rg);
    }
}

proof fn lemma_iscan_replay(lines: Seq<Seq<char>>)
    ensures
        ({
            let st = crate::strategies::gitignore::scan_run(lines);
            let r = iscan_from(crate::strategies::gitignore::scan_init(), st.out);
            &&& r.out == st.out
            &&& r.block == Seq::<Seq<char>>::empty()
            &&& !r.sorting
            &&& (st.sorting ==> st.ign == (st.out.len() > 0 && ignore_block_comment(
                st.out.last(),
            )))
            &&& (st.sorting ==> st.block.len() > 0 && !is_comment_line(false, st.block[0])
                && forall|i: int|
                    0 <= i < st.block.len() ==> !crate::text::is_blank_line(st.block[i]))
        }),
    decreases lines.len(),
{
    let init = crate::strategies::gitignore::scan_init();
    if lines.len() == 0 {
        assert(iscan_from(init, init.out) == init);
        assert(init.block =~= Seq::<Seq<char>>::empty());
    } else {
        lemma_iscan_replay(lines.drop_last());
        let st0 = crate::strategies::gitignore::scan_run(lines.drop_last());
        let line = lines.last();
        let st = crate::strategies::gitignore::scan_run(lines);
        let r0 = iscan_from(init, st0.out);
        if !crate::text::is_blank_line(line) {
            if !st0.sorting {
                if is_comment_line(false, line) {
                    // a title line
                    assert(st.out =~= st0.out + seq![line]);
                    lemma_iscan_from_app(init, st0.out, seq![line]);
                    let e: Seq<Seq<char>> = Seq::empty();
                    assert(seq![line].drop_last() =~= e);
                    assert(iscan_from(r0, e) == r0);
                    assert(iscan_from(r0, seq![line]) == crate::strategies::gitignore::scan_step(
                        r0,
                        line,
                    ));
                    assert(st0.out.push(line) =~= st0.out + seq![line]);
                } else {
                    // the run opens; nothing new is emitted
                    assert(st.out == st0.out);
                    assert(st.block =~= seq![line]);
                }
            } else {
                assert(st.out == st0.out);
                assert(st.block =~= st0.block.push(line));
            }
        } else if st0.sorting {
            // the run closes
            let rg = crate::engine::sort_region(false, false, false, st0.block, st0.ign);
            assert(st.out == st0.out + rg + seq![line]);
            assert(st.out =~= (st0.out + rg) + seq![line]);
            lemma_iscan_from_app(init, st0.out + rg, seq![line]);
            lemma_iscan_from_app(init, st0.out, rg);
            lemma_gitignore_region_replay(st0.out, st0.block, st0.ign, r0.ign);
            let st1 = iscan_from(
                crate::strategies::gitignore::ScanState {
                    out: st0.out,
                    block: Seq::empty(),
                    sorting: false,
                    ign: r0.ign,
                },
                rg,
            );
            assert(r0 == (crate::strategies::gitignore::ScanState {
                out: st0.out,
                block: Seq::empty(),
                sorting: false,
                ign: r0.ign,
            })) by {
                assert(r0.block =~= Seq::<Seq<char>>::empty());
            }
            let e: Seq<Seq<char>> = Seq::empty();
            assert(seq![line].drop_last() =~= e);
            assert(iscan_from(st1, e) == st1);
            assert(iscan_from(st1, seq![line]) == crate::strategies::gitignore::scan_step(
                st1,
                line,
            ));
            let r2 = crate::strategies::gitignore::scan_step(st1, line);
            assert(r2.out =~= st.out);
            assert(r2.block =~= Seq::<Seq<char>>::empty());
        } else {
            assert(st.out =~= st0.out + seq![line]);
            lemma_iscan_from_app(init, st0.out, seq![line]);
            let e: Seq<Seq<char>> = Seq::empty();
            assert(seq![line].drop_last() =~= e);
            assert(iscan_from(r0, e) == r0);
            assert(iscan_from(r0, seq![line]) == crate::strategies::gitignore::scan_step(
                r0,
                line,
            ));
            assert(st0.out.push(line) =~= st0.out + seq![line]);
        }
    }
}

/// Idempotence of the whole path-ownership pass.
pub proof fn lemma_gitignore_process_idempotent(lines: Seq<Seq<char>>)
    ensures
        crate::strategies::gitignore::spec_process(
            crate::strategies::gitignore::spec_process(lines),
        ) == crate::strategies::gitignore::spec_process(lines),
{
    let init = crate::strategies::gitignore::scan_init();
    let st = crate::strategies::gitignore::scan_run(lines);
    let o = crate::strategies::gitignore::spec_process(lines);
    lemma_iscan_replay(lines);
    lemma_iscan_is_from_init(o);
    let r0 = iscan_from(init, st.out);
    if !st.sorting {
        assert(o == st.out);
        assert(crate::strategies::gitignore::spec_process(o) == r0.out);
    } else {
        let rg = crate::engine::sort_region(false, false, false, st.block, st.ign);
        assert(o == st.out + rg);
        lemma_iscan_from_app(init, st.out, rg);
        lemma_gitignore_region_replay(st.out, st.block, st.ign, r0.ign);
        assert(r0 == (crate::strategies::gitignore::ScanState {
            out: st.out,
            block: Seq::empty(),
            sorting: false,
            ign: r0.ign,
        })) by {
            assert(r0.block =~= Seq::<Seq<char>>::empty());
        }
        let st1 = iscan_from(init, o);
        assert(crate::strategies::gitignore::spec_process(o) == st1.out
            + crate::engine::sort_region(false, false, false, st1.block, st1.ign));
    }
}

/// A trigger comment is never a blank line.
proof fn lemma_trigger_not_blank(line: Seq<char>)
    requires
        crate::text::is_blank_line(line),
    ensures
        !trigger_comment(line),
{
    crate::text::lemma_ws_from_bounds(line, 0);
}

/// Idempotence of the whole generic pass: processing its own output changes
/// nothing, so an already-sorted file is reproduced byte for byte.
pub proof fn lemma_generic_process_idempotent(lines: Seq<Seq<char>>)
    ensures
        crate::strategies::generic::spec_process(crate::strategies::generic::spec_process(lines))
            == crate::strategies::generic::spec_process(lines),
{
    let init = crate::strategies::generic::scan_init();
    let st = crate::strategies::generic::scan_run(lines);
    let o = crate::strategies::generic::spec_process(lines);
    lemma_gscan_replay(lines);
    lemma_gscan_is_from_init(o);
    if !st.sorting {
        assert(o == st.out);
        let r = gscan_from(init, o);
        assert(crate::strategies::generic::spec_process(o) == r.out);
    } else {
        let rg = crate::engine::sort_region(true, false, false, st.block, st.ign);
        assert(o == st.out + rg);
        lemma_gscan_from_app(init, st.out, rg);
        let r0 = gscan_from(init, st.out);
        assert forall|i: int| 0 <= i < rg.len() implies !crate::text::is_blank_line(rg[i]) by {
            if st.ign || crate::directives::has_ignore_block(st.block) {
                assert(rg[i] == st.block[i]);
            } else {
                lemma_sorted_block_membership(true, false, st.block, i);
            }
        }
        lemma_gscan_accumulate(r0, rg);
        let r1 = gscan_from(init, o);
        assert(r1.block =~= rg);
        lemma_sort_region_idempotent(true, false, st.block, st.ign);
        assert(crate::strategies::generic::spec_process(o) == r1.out + crate::engine::sort_region(
            true,
            false,
            false,
            rg,
            st.ign,
        ));
    }
}

/// Locality for the Bazel dialect: a file in which no line is a trigger
/// comment passes through unchanged.
pub proof fn lemma_bazel_passthrough(lines: Seq<Seq<char>>)
    requires
        forall|i: int| 0 <= i < lines.len() ==> !trigger_comment(lines[i]),
    ensures
        crate::strategies::bazel::spec_process(lines) == lines,
{
    lemma_bazel_scan_passthrough(lines);
}

proof fn lemma_bazel_scan_passthrough(lines: Seq<Seq<char>>)
    requires
        forall|i: int| 0 <= i < lines.len() ==> !trigger_comment(lines[i]),
    ensures
        crate::strategies::bazel::scan_run(lines).out == lines,
        !crate::strategies::bazel::scan_run(lines).sorting,
    decreases lines.len(),
{
    if lines.len() == 0 {
        assert(crate::strategies::bazel::scan_run(lines).out =~= lines);
    } else {
        assert(lines.drop_last() =~= lines.take(lines.len() - 1));
        assert(forall|i: int|
            0 <= i < lines.drop_last().len() ==> !trigger_comment(lines.drop_last()[i]));
        lemma_bazel_scan_passthrough(lines.drop_last());
        assert(!trigger_comment(lines.last()));
        assert(lines.drop_last().push(lines.last()) =~= lines);
    }
}

/// Locality for the dependency-table dialect: a file with no dependency
/// header passes through unchanged.
pub proof fn lemma_cargo_passthrough(lines: Seq<Seq<char>>)
    requires
        forall|i: int| 0 <= i < lines.len() ==> !crate::directives::dep_table_header(lines[i]),
    ensures
        crate::strategies::cargo_toml::spec_process(lines) == lines,
{
    lemma_cargo_scan_passthrough(lines);
}

proof fn lemma_cargo_scan_passthrough(lines: Seq<Seq<char>>)
    requires
        forall|i: int| 0 <= i < lines.len() ==> !crate::directives::dep_table_header(lines[i]),
    ensures
        crate::strategies::cargo_toml::scan_run(lines).out == lines,
        !crate::strategies::cargo_toml::scan_run(lines).sorting,
    decreases lines.len(),
{
    if lines.len() == 0 {
        assert(crate::strategies::cargo_toml::scan_run(lines).out =~= lines);
    } else {
        assert(lines.drop_last() =~= lines.take(lines.len() - 1));
        assert(forall|i: int|
            0 <= i < lines.drop_last().len() ==> !crate::directives::dep_table_header(
                lines.drop_last()[i],
            ));
        lemma_cargo_scan_passthrough(lines.drop_last());
        assert(!crate::directives::dep_table_header(lines.last()));
        assert(lines.drop_last().push(lines.last()) =~= lines);
    }
}

/// Locality for the derive dialects: a file with no `#[derive(` line passes
/// through unchanged.
pub proof fn lemma_rust_derive_passthrough(alpha: bool, lines: Seq<Seq<char>>)
    requires
        forall|i: int| 0 <= i < lines.len() ==> !crate::directives::derive_begin(lines[i]),
    ensures
        crate::strategies::rust_derive::spec_process(alpha, lines) == lines,
{
    lemma_rust_derive_scan_passthrough(alpha, lines);
}

proof fn lemma_rust_derive_scan_passthrough(alpha: bool, lines: Seq<Seq<char>>)
    requires
        forall|i: int| 0 <= i < lines.len() ==> !crate::directives::derive_begin(lines[i]),
    ensures
        crate::strategies::rust_derive::scan_run(alpha, lines).out == lines,
        !crate::strategies::rust_derive::scan_run(alpha, lines).sorting,
    decreases lines.len(),
{
    if lines.len() == 0 {
        assert(crate::strategies::rust_derive::scan_run(alpha, lines).out =~= lines);
    } else {
        assert(lines.drop_last() =~= lines.take(lines.len() - 1));
        assert(forall|i: int|
            0 <= i < lines.drop_last().len() ==> !crate::directives::derive_begin(
                lines.drop_last()[i],
            ));
        lemma_rust_derive_scan_passthrough(alpha, lines.drop_last());
        assert(!crate::directives::derive_begin(lines.last()));
        assert(lines.drop_last().push(lines.last()) =~= lines);
    }
}

/// Whether a multi-line code span is still open after its line `t`, parsed
/// from a fresh state: an unanswered `{` has been seen and no line has yet
/// ended in `}`.
pub open spec fn open_after(code: Seq<Seq<char>>, t: int) -> bool
    decreases t,
{
    if t < 0 || t >= code.len() {
        false
    } else {
        let prev = if t == 0 {
            false
        } else {
            open_after(code, t - 1)
        };
        (prev || crate::text::has_char_in(code[t], 0, code[t].len() as int, '{'))
            && !crate::directives::code_span_complete(code[t])
    }
}

/// A code span that re-parses as one entry: it stays open up to its last
/// line and closes exactly there.  A span interrupted by comment lines can
/// lose this shape, and such blocks are the ones the multi-line dialect
/// does not reproduce.
pub open spec fn span_ok(code: Seq<Seq<char>>) -> bool {
    code.len() > 0 && (forall|t: int| 0 <= t < code.len() - 1 ==> open_after(code, t))
        && !open_after(code, code.len() - 1)
}

/// A well-formed item of the multi-line dialect: comment lines attached,
/// a non-empty code span of non-comment lines.
pub open spec fn wf_item_multi(slash: bool, x: ItemModel) -> bool {
    (forall|i: int| 0 <= i < x.comments.len() ==> is_comment_line(slash, x.comments[i]))
        && x.code.len() > 0 && (forall|i: int|
        0 <= i < x.code.len() ==> !is_comment_line(slash, x.code[i]))
}

pub open spec fn wf_items_multi(slash: bool, items: Seq<ItemModel>) -> bool {
    forall|i: int| 0 <= i < items.len() ==> wf_item_multi(slash, items[i])
}

proof fn lemma_seg_run_wf_multi(slash: bool, lines: Seq<Seq<char>>)
    ensures
        ({
            let st = seg_run(slash, true, lines);
            &&& wf_items_multi(slash, st.items)
            &&& all_comments(slash, st.pend_c)
            &&& forall|i: int|
                0 <= i < st.pend_code.len() ==> !is_comment_line(slash, st.pend_code[i])
        }),
    decreases lines.len(),
{
    if lines.len() > 0 {
        lemma_seg_run_wf_multi(slash, lines.drop_last());
        let st = seg_run(slash, true, lines.drop_last());
        let line = lines.last();
        let r = seg_step(slash, true, st, line);
        if is_comment_line(slash, line) {
        } else {
            let code = st.pend_code.push(line);
            assert(forall|i: int| 0 <= i < code.len() ==> !is_comment_line(slash, code[i]));
            let x = ItemModel { comments: st.pend_c, code };
            assert(wf_item_multi(slash, x));
            if r.items == st.items.push(x) {
                assert forall|i: int| 0 <= i < r.items.len() implies wf_item_multi(
                    slash,
                    r.items[i],
                ) by {
                    if i < st.items.len() {
                        assert(wf_item_multi(slash, st.items[i]));
                    }
                }
            }
        }
    }
}

/// The multi-line segmentation yields well-formed items and only comments
/// trailing.
pub proof fn lemma_seg_block_wf_multi(slash: bool, lines: Seq<Seq<char>>)
    ensures
        wf_items_multi(slash, seg_block(slash, true, lines).items),
        all_comments(slash, seg_block(slash, true, lines).trailing),
{
    lemma_seg_run_wf_multi(slash, lines);
    let st = seg_run(slash, true, lines);
    if st.pend_code.len() > 0 {
        let x = ItemModel { comments: st.pend_c, code: st.pend_code };
        assert(wf_item_multi(slash, x));
        assert forall|i: int| 0 <= i < st.items.push(x).len() implies wf_item_multi(
            slash,
            st.items.push(x)[i],
        ) by {
            if i < st.items.len() {
                assert(wf_item_multi(slash, st.items[i]));
            }
        }
    }
}

/// Consuming the open part of a span accumulates it without a flush.
proof fn lemma_consume_open(slash: bool, st: SegState, code: Seq<Seq<char>>)
    requires
        !st.in_multi,
        st.pend_code.len() == 0,
        forall|i: int| 0 <= i < code.len() ==> !is_comment_line(slash, code[i]),
        forall|t: int| 0 <= t < code.len() ==> open_after(code, t),
    ensures
        seg_run_from(slash, true, st, code) == (SegState {
            items: st.items,
            pend_c: st.pend_c,
            pend_code: code,
            in_multi: code.len() > 0,
        }),
    decreases code.len(),
{
    if code.len() == 0 {
        assert(st.pend_code =~= code);
        assert(st == (SegState {
            items: st.items,
            pend_c: st.pend_c,
            pend_code: code,
            in_multi: false,
        }));
    } else {
        assert(code.drop_last() =~= code.take(code.len() - 1));
        assert(forall|i: int|
            0 <= i < code.drop_last().len() ==> !is_comment_line(slash, code.drop_last()[i]));
        assert forall|t: int| 0 <= t < code.drop_last().len() implies open_after(
            code.drop_last(),
            t,
        ) by {
            lemma_open_after_prefix(code, t);
        }
        lemma_consume_open(slash, st, code.drop_last());
        let r = seg_run_from(slash, true, st, code.drop_last());
        let line = code.last();
        assert(!is_comment_line(slash, line));
        assert(r.pend_code.push(line) =~= code);
        assert(open_after(code, code.len() - 1));
        if code.len() > 1 {
            lemma_open_after_prefix(code, code.len() - 2);
            assert(open_after(code, code.len() - 2));
            assert(r.in_multi);
        } else {
            assert(!r.in_multi);
        }
        let r2 = seg_step(slash, true, r, line);
        assert(r2 == (SegState {
            items: st.items,
            pend_c: st.pend_c,
            pend_code: code,
            in_multi: true,
        }));
    }
}

/// Openness of a span is decided by the lines up to `t` alone.
proof fn lemma_open_after_prefix(code: Seq<Seq<char>>, t: int)
    requires
        0 <= t < code.len() - 1,
    ensures
        open_after(code.drop_last(), t) == open_after(code, t),
    decreases t,
{
    if t > 0 {
        lemma_open_after_prefix(code, t - 1);
    }
    assert(code.drop_last()[t] == code[t]);
}

/// Consuming a whole self-delimiting span flushes exactly one item.
proof fn lemma_consume_span(slash: bool, st: SegState, code: Seq<Seq<char>>)
    requires
        !st.in_multi,
        st.pend_code.len() == 0,
        forall|i: int| 0 <= i < code.len() ==> !is_comment_line(slash, code[i]),
        span_ok(code),
    ensures
        seg_run_from(slash, true, st, code) == (SegState {
            items: st.items.push(ItemModel { comments: st.pend_c, code }),
            pend_c: Seq::empty(),
            pend_code: Seq::empty(),
            in_multi: false,
        }),
{
    assert(code.drop_last() =~= code.take(code.len() - 1));
    assert(forall|i: int|
        0 <= i < code.drop_last().len() ==> !is_comment_line(slash, code.drop_last()[i]));
    assert forall|t: int| 0 <= t < code.drop_last().len() implies open_after(
        code.drop_last(),
        t,
    ) by {
        lemma_open_after_prefix(code, t);
    }
    lemma_consume_open(slash, st, code.drop_last());
    let r = seg_run_from(slash, true, st, code.drop_last());
    let line = code.last();
    assert(!is_comment_line(slash, line));
    assert(r.pend_code.push(line) =~= code);
    assert(!open_after(code, code.len() - 1));
    if code.len() > 1 {
        lemma_open_after_prefix(code, code.len() - 2);
    }
}

proof fn lemma_consume_item_multi(slash: bool, st: SegState, x: ItemModel)
    requires
        wf_item_multi(slash, x),
        span_ok(x.code),
        st.pend_c.len() == 0,
        st.pend_code.len() == 0,
        !st.in_multi,
    ensures
        seg_run_from(slash, true, st, item_lines(x)) == (SegState {
            items: st.items.push(x),
            pend_c: Seq::empty(),
            pend_code: Seq::empty(),
            in_multi: false,
        }),
{
    lemma_seg_run_from_app(slash, true, st, x.comments, x.code);
    lemma_consume_comments(slash, true, st, x.comments);
    let st1 = seg_run_from(slash, true, st, x.comments);
    assert(st1.pend_c =~= x.comments);
    lemma_consume_span(slash, st1, x.code);
    assert(ItemModel { comments: st1.pend_c, code: x.code } == x);
}

proof fn lemma_consume_items_multi(slash: bool, st: SegState, items: Seq<ItemModel>)
    requires
        wf_items_multi(slash, items),
        forall|i: int| 0 <= i < items.len() ==> span_ok(#[trigger] items[i].code),
        st.pend_c.len() == 0,
        st.pend_code.len() == 0,
        !st.in_multi,
    ensures
        seg_run_from(slash, true, st, flatten_items(items)) == (SegState {
            items: st.items + items,
            pend_c: Seq::empty(),
            pend_code: Seq::empty(),
            in_multi: false,
        }),
    decreases items.len(),
{
    if items.len() == 0 {
        assert(flatten_items(items) =~= Seq::<Seq<char>>::empty());
        assert(st.items + items =~= st.items);
        assert(st.pend_c =~= Seq::<Seq<char>>::empty());
        assert(st.pend_code =~= Seq::<Seq<char>>::empty());
        assert(st == (SegState {
            items: st.items + items,
            pend_c: Seq::empty(),
            pend_code: Seq::empty(),
            in_multi: false,
        }));
    } else {
        assert(items.drop_last() =~= items.take(items.len() - 1));
        assert(wf_items_multi(slash, items.drop_last()));
        lemma_consume_items_multi(slash, st, items.drop_last());
        lemma_seg_run_from_app(slash, true, st, flatten_items(items.drop_last()), item_lines(
            items.last(),
        ));
        let st1 = seg_run_from(slash, true, st, flatten_items(items.drop_last()));
        assert(wf_item_multi(slash, items[items.len() - 1]));
        assert(span_ok(items[items.len() - 1].code));
        lemma_consume_item_multi(slash, st1, items.last());
        assert((st.items + items.drop_last()).push(items.last()) =~= st.items + items);
    }
}

/// The multi-line round trip: reassembled items whose spans re-parse
/// cleanly segment back to themselves.
pub proof fn lemma_seg_roundtrip_multi(
    slash: bool,
    items: Seq<ItemModel>,
    trailing: Seq<Seq<char>>,
)
    requires
        wf_items_multi(slash, items),
        forall|i: int| 0 <= i < items.len() ==> span_ok(#[trigger] items[i].code),
        all_comments(slash, trailing),
    ensures
        seg_block(slash, true, flatten_items(items) + trailing).items == items,
        seg_block(slash, true, flatten_items(items) + trailing).trailing == trailing,
{
    let lines = flatten_items(items) + trailing;
    lemma_seg_run_is_from_init(slash, true, lines);
    lemma_seg_run_from_app(slash, true, seg_init(), flatten_items(items), trailing);
    lemma_consume_items_multi(slash, seg_init(), items);
    let st1 = seg_run_from(slash, true, seg_init(), flatten_items(items));
    lemma_consume_comments(slash, true, st1, trailing);
    let st2 = seg_run(slash, true, lines);
    assert(st2.items =~= items);
    assert(st2.pend_c =~= trailing);
    assert(st2.pend_code.len() == 0);
}

/// Idempotence of the multi-line block sort, for blocks whose entries'
/// spans re-parse cleanly (a span interrupted by a comment line can lose
/// that shape, and such blocks are not reproduced).
pub proof fn lemma_multi_sorted_block_idempotent(slash: bool, block: Seq<Seq<char>>)
    requires
        forall|i: int|
            0 <= i < seg_block(slash, true, block).items.len() ==> span_ok(
                #[trigger] seg_block(slash, true, block).items[i].code,
            ),
    ensures
        sorted_block(slash, true, false, sorted_block(slash, true, false, block))
            == sorted_block(slash, true, false, block),
{
    let m = seg_block(slash, true, block);
    lemma_seg_block_wf_multi(slash, block);
    let sorted = sort_items(false, m.items);
    lemma_sort_items_sorted(false, m.items);
    assert forall|i: int| 0 <= i < sorted.len() implies wf_item_multi(slash, sorted[i]) by {
        lemma_sort_items_membership(false, m.items, i);
        let w = choose|w: int| 0 <= w < m.items.len() && m.items[w] == sorted[i];
        assert(wf_item_multi(slash, m.items[w]));
    }
    assert forall|i: int| 0 <= i < sorted.len() implies span_ok(#[trigger] sorted[i].code) by {
        lemma_sort_items_membership(false, m.items, i);
        let w = choose|w: int| 0 <= w < m.items.len() && m.items[w] == sorted[i];
        assert(span_ok(m.items[w].code));
    }
    let once = sorted_block(slash, true, false, block);
    assert(once == flatten_items(sorted) + m.trailing);
    lemma_seg_roundtrip_multi(slash, sorted, m.trailing);
    let m2 = seg_block(slash, true, once);
    assert(m2.items == sorted);
    assert(m2.trailing == m.trailing);
    lemma_sort_of_sorted(false, sorted);
    assert(sorted_block(slash, true, false, once) == flatten_items(sorted) + m.trailing);
}

/// The multi-line segmentation is a permutation at line level: an item's
/// comments move in front of its whole span, but no line appears or goes
/// missing.
pub proof fn lemma_seg_ms_multi(slash: bool, lines: Seq<Seq<char>>)
    ensures
        (flatten_items(seg_block(slash, true, lines).items) + seg_block(
            slash,
            true,
            lines,
        ).trailing).to_multiset() == lines.to_multiset(),
{
    broadcast use vstd::multiset::group_multiset_axioms;
    broadcast use vstd::seq_lib::group_to_multiset_ensures;

    lemma_seg_run_ms_multi(slash, lines);
    let st = seg_run(slash, true, lines);
    if st.pend_code.len() > 0 {
        let x = ItemModel { comments: st.pend_c, code: st.pend_code };
        let items2 = st.items.push(x);
        assert(items2.drop_last() =~= st.items);
        assert(flatten_items(items2) == flatten_items(st.items) + item_lines(x));
        vstd::seq_lib::lemma_multiset_commutative(flatten_items(st.items), item_lines(x));
        vstd::seq_lib::lemma_multiset_commutative(st.pend_c, st.pend_code);
        assert(item_lines(x).to_multiset() =~= st.pend_c.to_multiset().add(
            st.pend_code.to_multiset(),
        ));
        assert(flatten_items(items2) + Seq::<Seq<char>>::empty() =~= flatten_items(items2));
        vstd::seq_lib::lemma_multiset_commutative(
            flatten_items(items2),
            Seq::<Seq<char>>::empty(),
        );
        assert((flatten_items(items2) + Seq::<Seq<char>>::empty()).to_multiset()
            =~= flatten_items(st.items).to_multiset().add(st.pend_c.to_multiset()).add(
            st.pend_code.to_multiset(),
        ));
    } else {
        vstd::seq_lib::lemma_multiset_commutative(flatten_items(st.items), st.pend_c);
        assert(st.pend_code.to_multiset() =~= Multiset::<Seq<char>>::empty());
        assert((flatten_items(st.items) + st.pend_c).to_multiset() =~= flatten_items(
            st.items,
        ).to_multiset().add(st.pend_c.to_multiset()).add(st.pend_code.to_multiset()));
    }
}

proof fn lemma_seg_run_ms_multi(slash: bool, lines: Seq<Seq<char>>)
    ensures
        ({
            let st = seg_run(slash, true, lines);
            flatten_items(st.items).to_multiset().add(st.pend_c.to_multiset()).add(
                st.pend_code.to_multiset(),
            ) == lines.to_multiset()
        }),
    decreases lines.len(),
{
    broadcast use vstd::multiset::group_multiset_axioms;
    broadcast use vstd::seq_lib::group_to_multiset_ensures;

    if lines.len() == 0 {
        let st = seg_run(slash, true, lines);
        assert(flatten_items(st.items) =~= Seq::<Seq<char>>::empty());
        assert(flatten_items(st.items).to_multiset().add(st.pend_c.to_multiset()).add(
            st.pend_code.to_multiset(),
        ) =~= lines.to_multiset());
    } else {
        lemma_seg_run_ms_multi(slash, lines.drop_last());
        let st = seg_run(slash, true, lines.drop_last());
        let line = lines.last();
        let r = seg_run(slash, true, lines);
        assert(lines.drop_last().push(line) =~= lines);
        assert(lines.to_multiset() =~= lines.drop_last().to_multiset().insert(line));
        if is_comment_line(slash, line) {
            assert(r.pend_c.to_multiset() =~= st.pend_c.to_multiset().insert(line));
            assert(flatten_items(r.items).to_multiset().add(r.pend_c.to_multiset()).add(
                r.pend_code.to_multiset(),
            ) =~= lines.to_multiset());
        } else {
            let code = st.pend_code.push(line);
            assert(code.to_multiset() =~= st.pend_code.to_multiset().insert(line));
            let multi_now = st.in_multi || crate::text::has_char_in(
                line,
                0,
                line.len() as int,
                '{',
            );
            if multi_now && !crate::directives::code_span_complete(line) {
                assert(flatten_items(r.items).to_multiset().add(r.pend_c.to_multiset()).add(
                    r.pend_code.to_multiset(),
                ) =~= lines.to_multiset());
            } else {
                let x = ItemModel { comments: st.pend_c, code };
                assert(r.items.drop_last() =~= st.items);
                assert(flatten_items(r.items) == flatten_items(st.items) + item_lines(x));
                vstd::seq_lib::lemma_multiset_commutative(flatten_items(st.items), item_lines(x));
                vstd::seq_lib::lemma_multiset_commutative(st.pend_c, code);
                assert(item_lines(x).to_multiset() =~= st.pend_c.to_multiset().add(
                    code.to_multiset(),
                ));
                assert(r.pend_c.to_multiset() =~= Multiset::<Seq<char>>::empty());
                assert(r.pend_code.to_multiset() =~= Multiset::<Seq<char>>::empty());
                assert(flatten_items(r.items).to_multiset().add(r.pend_c.to_multiset()).add(
                    r.pend_code.to_multiset(),
                ) =~= lines.to_multiset());
            }
        }
    }
}

proof fn lemma_flatten_remove_ms(b: Seq<ItemModel>, w: int)
    requires
        0 <= w < b.len(),
    ensures
        flatten_items(b).to_multiset() == flatten_items(b.remove(w)).to_multiset().add(
            item_lines(b[w]).to_multiset(),
        ),
    decreases b.len(),
{
    broadcast use vstd::multiset::group_multiset_axioms;

    if w == b.len() - 1 {
        assert(b.remove(w) =~= b.drop_last());
        vstd::seq_lib::lemma_multiset_commutative(flatten_items(b.drop_last()), item_lines(
            b.last(),
        ));
    } else {
        lemma_flatten_remove_ms(b.drop_last(), w);
        assert(b.remove(w).drop_last() =~= b.drop_last().remove(w));
        assert(b.remove(w).last() == b.last());
        assert(flatten_items(b.remove(w)) == flatten_items(b.drop_last().remove(w)) + item_lines(
            b.last(),
        ));
        vstd::seq_lib::lemma_multiset_commutative(
            flatten_items(b.drop_last().remove(w)),
            item_lines(b.last()),
        );
        vstd::seq_lib::lemma_multiset_commutative(flatten_items(b.drop_last()), item_lines(
            b.last(),
        ));
        assert(b.drop_last()[w] == b[w]);
        assert(flatten_items(b).to_multiset() =~= flatten_items(b.remove(w)).to_multiset().add(
            item_lines(b[w]).to_multiset(),
        ));
    }
}

/// Item sequences with the same multiset flatten to the same lines, as
/// multisets.
proof fn lemma_flatten_same_ms(a: Seq<ItemModel>, b: Seq<ItemModel>)
    requires
        a.to_multiset() == b.to_multiset(),
    ensures
        flatten_items(a).to_multiset() == flatten_items(b).to_multiset(),
    decreases a.len(),
{
    broadcast use vstd::multiset::group_multiset_axioms;
    broadcast use vstd::seq_lib::group_to_multiset_ensures;

    if a.len() == 0 {
        assert(b.to_multiset().len() == 0);
        assert(b.len() == 0);
        assert(flatten_items(a).to_multiset() =~= flatten_items(b).to_multiset());
    } else {
        let x = a.last();
        assert(a.drop_last().push(x) =~= a);
        assert(a.to_multiset().contains(x));
        assert(b.to_multiset().contains(x));
        assert(b.contains(x));
        let w = choose|w: int| 0 <= w < b.len() && b[w] == x;
        let b2 = b.remove(w);
        assert(b2.to_multiset() =~= b.to_multiset().remove(x));
        assert(a.drop_last().to_multiset() =~= a.to_multiset().remove(x));
        lemma_flatten_same_ms(a.drop_last(), b2);
        lemma_flatten_remove_ms(b, w);
        vstd::seq_lib::lemma_multiset_commutative(flatten_items(a.drop_last()), item_lines(x));
        assert(flatten_items(a).to_multiset() =~= flatten_items(b).to_multiset());
    }
}

/// A multi-line sorted block holds exactly the block's lines, as a
/// multiset.
pub proof fn lemma_sorted_block_ms_multi(slash: bool, block: Seq<Seq<char>>)
    ensures
        sorted_block(slash, true, false, block).to_multiset() == block.to_multiset(),
{
    broadcast use vstd::multiset::group_multiset_axioms;

    let m = seg_block(slash, true, block);
    let sorted = sort_items(false, m.items);
    lemma_sort_items_permutation(false, m.items);
    lemma_flatten_same_ms(sorted, m.items);
    lemma_seg_ms_multi(slash, block);
    vstd::seq_lib::lemma_multiset_commutative(flatten_items(sorted), m.trailing);
    vstd::seq_lib::lemma_multiset_commutative(flatten_items(m.items), m.trailing);
    assert(sorted_block(slash, true, false, block).to_multiset() =~= block.to_multiset());
}

/// One line of a multi-line sorted block is always a line of the block.
proof fn lemma_sorted_block_member_multi(slash: bool, block: Seq<Seq<char>>, i: int)
    requires
        0 <= i < sorted_block(slash, true, false, block).len(),
    ensures
        exists|j: int|
            0 <= j < block.len() && sorted_block(slash, true, false, block)[i] == #[trigger] block[j],
{
    broadcast use vstd::seq_lib::group_to_multiset_ensures;

    let r = sorted_block(slash, true, false, block);
    lemma_sorted_block_ms_multi(slash, block);
    assert(r.contains(r[i]));
    assert(r.to_multiset().contains(r[i]));
    assert(block.to_multiset().contains(r[i]));
    assert(block.contains(r[i]));
}

/// Whether a region's sort reproduces itself: it is shielded by an ignore
/// directive, or each of its entries' spans re-parses cleanly.
pub open spec fn cargo_region_ok(block: Seq<Seq<char>>, ign: bool) -> bool {
    ign || crate::directives::has_ignore_block(block) || (forall|i: int|
        0 <= i < seg_block(false, true, block).items.len() ==> span_ok(
            #[trigger] seg_block(false, true, block).items[i].code,
        ))
}

/// A multi-line region sort applied to its own output, under the same
/// ignore flag, changes nothing more.
pub proof fn lemma_sort_region_multi_idempotent(block: Seq<Seq<char>>, ign: bool)
    requires
        cargo_region_ok(block, ign),
    ensures
        crate::engine::sort_region(
            false,
            true,
            false,
            crate::engine::sort_region(false, true, false, block, ign),
            ign,
        ) == crate::engine::sort_region(false, true, false, block, ign),
{
    let r = crate::engine::sort_region(false, true, false, block, ign);
    if ign || crate::directives::has_ignore_block(block) {
    } else {
        assert(r == sorted_block(false, true, false, block));
        if crate::directives::has_ignore_block(r) {
            let i = choose|i: int| 0 <= i < r.len() && ignore_block_comment(r[i]);
            lemma_sorted_block_member_multi(false, block, i);
            assert(false);
        }
        lemma_multi_sorted_block_idempotent(false, block);
    }
}

/// Trailing whitespace never reaches back past a non-whitespace character.
proof fn lemma_ws_back_lb(s: Seq<char>, i: int, j: int)
    requires
        0 <= i < j <= s.len(),
        !crate::text::is_ws_char(s[i]),
    ensures
        crate::text::ws_back(s, j) >= i + 1,
    decreases j,
{
    if 0 < j <= s.len() && crate::text::is_ws_char(s[j - 1]) {
        assert(j - 1 != i);
        lemma_ws_back_lb(s, i, j - 1);
    }
}

/// A dependency-table header's comment-stripped text starts with `[`.
proof fn lemma_header_lwc(s: Seq<char>)
    requires
        crate::directives::dep_table_header(s),
    ensures
        crate::directives::lwc_hash_starts(s, '['),
{
    reveal_strlit("#");
    assert("#"@ =~= seq!['#']);
    let a = crate::text::ws_from(s, 0);
    let b = crate::text::ws_back(s, s.len() as int);
    crate::text::lemma_ws_from_bounds(s, 0);
    crate::text::lemma_ws_back_bounds(s, s.len() as int);
    let t = crate::text::spec_trim(s);
    assert(t.len() > 0);
    assert(a < b);
    assert(s[a] == t[0]);
    assert(s[a] == '[');
    assert(!crate::text::is_ws_char('['));
    let h = crate::text::find_from(s, a, "#"@);
    assert(!crate::text::has_at(s, a, "#"@)) by {
        if crate::text::has_at(s, a, "#"@) {
            assert(s.subrange(a, a + 1) == "#"@);
            assert(s.subrange(a, a + 1)[0] == s[a]);
            assert("#"@[0] == '#');
            assert(s[a] == '#');
            assert(false);
        }
    }
    assert(h >= a + 1) by {
        crate::text::lemma_find_from_bounds(s, a + 1, "#"@);
    }
    let h2 = if h < b {
        h
    } else {
        b
    };
    assert(h2 >= a + 1);
    assert(h2 <= s.len()) by {
        crate::text::lemma_find_from_bounds(s, a + 1, "#"@);
    }
    crate::text::lemma_ws_back_bounds(s, h2);
    lemma_ws_back_lb(s, a, h2);
    let e = crate::directives::lwc_hi(s, "#"@);
    assert(e == crate::text::ws_back(s, h2));
    assert(e >= a + 1);
    let t2 = crate::directives::line_wo_comment(s, "#"@);
    assert(t2 == s.subrange(a, e));
    assert(t2.len() > 0);
    assert(t2[0] == s[a]);
}

/// Running the dependency-table scanner from a mid-way state.
pub open spec fn cscan_from(
    st: crate::strategies::cargo_toml::ScanState,
    lines: Seq<Seq<char>>,
) -> crate::strategies::cargo_toml::ScanState
    decreases lines.len(),
{
    if lines.len() == 0 {
        st
    } else {
        crate::strategies::cargo_toml::scan_step(cscan_from(st, lines.drop_last()), lines.last())
    }
}

proof fn lemma_cscan_from_app(
    st: crate::strategies::cargo_toml::ScanState,
    a: Seq<Seq<char>>,
    b: Seq<Seq<char>>,
)
    ensures
        cscan_from(st, a + b) == cscan_from(cscan_from(st, a), b),
    decreases b.len(),
{
    if b.len() == 0 {
        assert(a + b =~= a);
    } else {
        assert((a + b).drop_last() =~= a + b.drop_last());
        assert((a + b).last() == b.last());
        lemma_cscan_from_app(st, a, b.drop_last());
    }
}

proof fn lemma_cscan_is_from_init(lines: Seq<Seq<char>>)
    ensures
        crate::strategies::cargo_toml::scan_run(lines) == cscan_from(
            crate::strategies::cargo_toml::scan_init(),
            lines,
        ),
    decreases lines.len(),
{
    if lines.len() > 0 {
        lemma_cscan_is_from_init(lines.drop_last());
    }
}

/// While a table region is open, ordinary entry lines only accumulate.
proof fn lemma_cscan_accumulate(
    st: crate::strategies::cargo_toml::ScanState,
    r: Seq<Seq<char>>,
)
    requires
        st.sorting,
        forall|i: int|
            0 <= i < r.len() ==> !crate::text::is_blank_line(r[i])
                && !crate::directives::lwc_hash_starts(r[i], '['),
    ensures
        cscan_from(st, r) == (crate::strategies::cargo_toml::ScanState {
            out: st.out,
            block: st.block + r,
            sorting: true,
            ign: st.ign,
        }),
    decreases r.len(),
{
    if r.len() == 0 {
        assert(st.block + r =~= st.block);
        assert(st == (crate::strategies::cargo_toml::ScanState {
            out: st.out,
            block: st.block + r,
            sorting: true,
            ign: st.ign,
        }));
    } else {
        assert(forall|i: int|
            0 <= i < r.drop_last().len() ==> !crate::text::is_blank_line(r.drop_last()[i])
                && !crate::directives::lwc_hash_starts(r.drop_last()[i], '['));
        lemma_cscan_accumulate(st, r.drop_last());
        let line = r.last();
        assert(!crate::text::is_blank_line(line));
        assert(!crate::directives::lwc_hash_starts(line, '['));
        assert(!crate::directives::dep_table_header(line)) by {
            if crate::directives::dep_table_header(line) {
                lemma_header_lwc(line);
            }
        }
        assert((st.block + r.drop_last()).push(line) =~= st.block + r);
    }
}

/// Every region the dependency-table scan closes, and the one still open at
/// the end, reproduces itself under its sort.
pub open spec fn cargo_regions_ok(lines: Seq<Seq<char>>) -> bool
    decreases lines.len(),
{
    if lines.len() == 0 {
        true
    } else {
        cargo_regions_ok(lines.drop_last()) && {
            let st0 = crate::strategies::cargo_toml::scan_run(lines.drop_last());
            let line = lines.last();
            if st0.sorting && (crate::directives::dep_table_header(line)
                || crate::text::is_blank_line(line) || crate::directives::lwc_hash_starts(
                line,
                '[',
            )) {
                cargo_region_ok(st0.block, st0.ign)
            } else {
                true
            }
        }
    }
}

pub open spec fn cargo_file_ok(lines: Seq<Seq<char>>) -> bool {
    cargo_regions_ok(lines) && (crate::strategies::cargo_toml::scan_run(lines).sorting
        ==> cargo_region_ok(
        crate::strategies::cargo_toml::scan_run(lines).block,
        crate::strategies::cargo_toml::scan_run(lines).ign,
    ))
}

/// Lines of a region's sorted form keep the properties of the block's own
/// lines.
proof fn lemma_cargo_region_lines(block: Seq<Seq<char>>, ign: bool, i: int)
    requires
        forall|k: int|
            0 <= k < block.len() ==> !crate::text::is_blank_line(block[k])
                && !crate::directives::lwc_hash_starts(block[k], '['),
        0 <= i < crate::engine::sort_region(false, true, false, block, ign).len(),
    ensures
        !crate::text::is_blank_line(crate::engine::sort_region(false, true, false, block, ign)[i]),
        !crate::directives::lwc_hash_starts(
            crate::engine::sort_region(false, true, false, block, ign)[i],
            '[',
        ),
{
    let rg = crate::engine::sort_region(false, true, false, block, ign);
    if ign || crate::directives::has_ignore_block(block) {
        assert(rg[i] == block[i]);
    } else {
        lemma_sorted_block_member_multi(false, block, i);
    }
}

proof fn lemma_cscan_replay(lines: Seq<Seq<char>>)
    requires
        cargo_regions_ok(lines),
    ensures
        ({
            let st = crate::strategies::cargo_toml::scan_run(lines);
            let r = cscan_from(crate::strategies::cargo_toml::scan_init(), st.out);
            &&& r.out == st.out
            &&& r.block == Seq::<Seq<char>>::empty()
            &&& r.sorting == st.sorting
            &&& (st.sorting ==> r.ign == st.ign)
            &&& (st.sorting ==> forall|i: int|
                0 <= i < st.block.len() ==> !crate::text::is_blank_line(st.block[i])
                    && !crate::directives::lwc_hash_starts(st.block[i], '['))
        }),
    decreases lines.len(),
{
    let init = crate::strategies::cargo_toml::scan_init();
    if lines.len() == 0 {
        assert(cscan_from(init, init.out) == init);
        assert(init.block =~= Seq::<Seq<char>>::empty());
    } else {
        lemma_cscan_replay(lines.drop_last());
        let st0 = crate::strategies::cargo_toml::scan_run(lines.drop_last());
        let line = lines.last();
        let st = crate::strategies::cargo_toml::scan_run(lines);
        let r0 = cscan_from(init, st0.out);
        if crate::directives::dep_table_header(line) {
            if st0.sorting {
                // close the open region, then reopen at this header
                let rg = crate::engine::sort_region(false, true, false, st0.block, st0.ign);
                let out2 = st0.out + rg;
                assert(st.out == out2.push(line));
                assert(st.out =~= (st0.out + rg) + seq![line]);
                lemma_cscan_from_app(init, st0.out + rg, seq![line]);
                lemma_cscan_from_app(init, st0.out, rg);
                assert forall|i: int| 0 <= i < rg.len() implies !crate::text::is_blank_line(
                    rg[i],
                ) && !crate::directives::lwc_hash_starts(rg[i], '[') by {
                    lemma_cargo_region_lines(st0.block, st0.ign, i);
                }
                lemma_cscan_accumulate(r0, rg);
                let r1 = cscan_from(init, st0.out + rg);
                assert(r1.block =~= rg);
                let e: Seq<Seq<char>> = Seq::empty();
                assert(seq![line].drop_last() =~= e);
                assert(cscan_from(r1, e) == r1);
                assert(cscan_from(r1, seq![line]) == crate::strategies::cargo_toml::scan_step(
                    r1,
                    line,
                ));
                lemma_sort_region_multi_idempotent(st0.block, st0.ign);
                let r2 = crate::strategies::cargo_toml::scan_step(r1, line);
                assert(r2.out =~= st.out);
                assert(r2.block =~= Seq::<Seq<char>>::empty());
                assert(r2.ign == st.ign) by {
                    assert(r1.out + crate::engine::sort_region(
                        false,
                        true,
                        false,
                        r1.block,
                        r1.ign,
                    ) == out2);
                }
            } else {
                assert(st.out =~= st0.out + seq![line]);
                lemma_cscan_from_app(init, st0.out, seq![line]);
                let e: Seq<Seq<char>> = Seq::empty();
                assert(seq![line].drop_last() =~= e);
                assert(cscan_from(r0, e) == r0);
                assert(cscan_from(r0, seq![line]) == crate::strategies::cargo_toml::scan_step(
                    r0,
                    line,
                ));
                assert(st0.out.push(line) =~= st0.out + seq![line]);
            }
        } else if st0.sorting && (crate::text::is_blank_line(line)
            || crate::directives::lwc_hash_starts(line, '[')) {
            let rg = crate::engine::sort_region(false, true, false, st0.block, st0.ign);
            assert(st.out == st0.out + rg + seq![line]);
            assert(st.out =~= (st0.out + rg) + seq![line]);
            lemma_cscan_from_app(init, st0.out + rg, seq![line]);
            lemma_cscan_from_app(init, st0.out, rg);
            assert forall|i: int| 0 <= i < rg.len() implies !crate::text::is_blank_line(rg[i])
                && !crate::directives::lwc_hash_starts(rg[i], '[') by {
                lemma_cargo_region_lines(st0.block, st0.ign, i);
            }
            lemma_cscan_accumulate(r0, rg);
            let r1 = cscan_from(init, st0.out + rg);
            assert(r1.block =~= rg);
            let e: Seq<Seq<char>> = Seq::empty();
            assert(seq![line].drop_last() =~= e);
            assert(cscan_from(r1, e) == r1);
            assert(cscan_from(r1, seq![line]) == crate::strategies::cargo_toml::scan_step(
                r1,
                line,
            ));
            lemma_sort_region_multi_idempotent(st0.block, st0.ign);
            let r2 = crate::strategies::cargo_toml::scan_step(r1, line);
            assert(r2.out =~= st.out);
            assert(r2.block =~= Seq::<Seq<char>>::empty());
        } else if st0.sorting {
            assert(st.out == st0.out);
        } else {
            assert(st.out =~= st0.out + seq![line]);
            lemma_cscan_from_app(init, st0.out, seq![line]);
            let e: Seq<Seq<char>> = Seq::empty();
            assert(seq![line].drop_last() =~= e);
            assert(cscan_from(r0, e) == r0);
            assert(cscan_from(r0, seq![line]) == crate::strategies::cargo_toml::scan_step(
                r0,
                line,
            ));
            assert(st0.out.push(line) =~= st0.out + seq![line]);
        }
    }
}

/// Idempotence of the whole dependency-table pass, for files whose regions
/// reproduce themselves (a multi-line span interrupted by a comment line
/// can group differently on a second pass, and such files are excluded).
pub proof fn lemma_cargo_process_idempotent(lines: Seq<Seq<char>>)
    requires
        cargo_file_ok(lines),
    ensures
        crate::strategies::cargo_toml::spec_process(
            crate::strategies::cargo_toml::spec_process(lines),
        ) == crate::strategies::cargo_toml::spec_process(lines),
{
    let init = crate::strategies::cargo_toml::scan_init();
    let st = crate::strategies::cargo_toml::scan_run(lines);
    let o = crate::strategies::cargo_toml::spec_process(lines);
    lemma_cscan_replay(lines);
    lemma_cscan_is_from_init(o);
    if !st.sorting {
        assert(o == st.out);
        let r = cscan_from(init, o);
        assert(crate::strategies::cargo_toml::spec_process(o) == r.out);
    } else {
        let rg = crate::engine::sort_region(false, true, false, st.block, st.ign);
        assert(o == st.out + rg);
        lemma_cscan_from_app(init, st.out, rg);
        let r0 = cscan_from(init, st.out);
        assert forall|i: int| 0 <= i < rg.len() implies !crate::text::is_blank_line(rg[i])
            && !crate::directives::lwc_hash_starts(rg[i], '[') by {
            lemma_cargo_region_lines(st.block, st.ign, i);
        }
        lemma_cscan_accumulate(r0, rg);
        let r1 = cscan_from(init, o);
        assert(r1.block =~= rg);
        lemma_sort_region_multi_idempotent(st.block, st.ign);
        assert(crate::strategies::cargo_toml::spec_process(o) == r1.out
            + crate::engine::sort_region(false, true, false, rg, st.ign));
    }
}

/// Sorting an already-sorted sequence is the identity.
pub proof fn lemma_sort_of_sorted(bazel: bool, s: Seq<ItemModel>)
    requires
        items_sorted(bazel, s),
    ensures
        sort_items(bazel, s) == s,
    decreases s.len(),
{
    if s.len() > 0 {
        assert(s.drop_last() =~= s.take(s.len() - 1));
        assert(items_sorted(bazel, s.drop_last()));
        lemma_sort_of_sorted(bazel, s.drop_last());
        if s.len() == 1 {
            assert(insert_item(bazel, s.drop_last(), s.last()) =~= seq![s.last()]);
            assert(seq![s.last()] =~= s);
        } else {
            assert(item_le(bazel, s[s.len() - 2], s[s.len() - 1]));
            assert(s.drop_last().last() == s[s.len() - 2]);
            assert(insert_item(bazel, s.drop_last(), s.last()) == s.drop_last().push(s.last()));
            assert(s.drop_last().push(s.last()) =~= s);
        }
    }
}

} // verus!
