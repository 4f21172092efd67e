//! The block engine shared by every dialect: it segments a closed region's
//! raw lines into items (leading comments attached to the code line or span
//! they precede), sorts the items by the dialect's key with a stable
//! insertion sort, and flattens them back into lines with any trailing
//! orphan comments kept at the end.

use vstd::prelude::*;
use vstd::string::*;

use crate::bazel::{bazel_key, bazel_key_le, bazel_key_le_exec, BazelSortKey};
use crate::directives::{
    code_span_complete, has_ignore_block, ignore_block_comment, is_comment_line,
    line_code_span_complete, line_is_comment,
};
use crate::text::{chars_of, contains_char_in, has_char_in, lines_le};

verus! {

broadcast use vstd::seq::group_seq_axioms;

/// The model of one sortable entry: its attached leading comments and its
/// code span (one line, or several for a multi-line entry).
pub struct ItemModel {
    pub comments: Seq<Seq<char>>,
    pub code: Seq<Seq<char>>,
}

/// Segmentation state: finished items, comments waiting to attach, an open
/// code span, and whether that span continues across lines.
pub struct SegState {
    pub items: Seq<ItemModel>,
    pub pend_c: Seq<Seq<char>>,
    pub pend_code: Seq<Seq<char>>,
    pub in_multi: bool,
}

/// A fully segmented region: its items, then comments that follow the last
/// code line and never move.
pub struct BlockModel {
    pub items: Seq<ItemModel>,
    pub trailing: Seq<Seq<char>>,
}

pub open spec fn seg_init() -> SegState {
    SegState {
        items: Seq::empty(),
        pend_c: Seq::empty(),
        pend_code: Seq::empty(),
        in_multi: false,
    }
}

/// One segmentation step.  A comment line joins the pending comments (and
/// interrupts a multi-line span).  A code line extends the span; the span
/// closes the item unless the dialect reads multi-line entries and an open
/// `{` has not yet been answered by a line ending in `}`.
pub open spec fn seg_step(slash: bool, multi: bool, st: SegState, line: Seq<char>) -> SegState {
    if is_comment_line(slash, line) {
        SegState { pend_c: st.pend_c.push(line), in_multi: false, ..st }
    } else {
        let code = st.pend_code.push(line);
        let multi_now = multi && (st.in_multi || has_char_in(line, 0, line.len() as int, '{'));
        if multi_now && !code_span_complete(line) {
            SegState { pend_code: code, in_multi: multi_now, ..st }
        } else {
            SegState {
                items: st.items.push(ItemModel { comments: st.pend_c, code }),
                pend_c: Seq::empty(),
                pend_code: Seq::empty(),
                in_multi: false,
            }
        }
    }
}

pub open spec fn seg_run(slash: bool, multi: bool, lines: Seq<Seq<char>>) -> SegState
    decreases lines.len(),
{
    if lines.len() == 0 {
        seg_init()
    } else {
        seg_step(slash, multi, seg_run(slash, multi, lines.drop_last()), lines.last())
    }
}

/// The segmentation of a whole region.  An entry whose span is still open at
/// the end of the region closes there, so that no line is lost.
pub open spec fn seg_block(slash: bool, multi: bool, lines: Seq<Seq<char>>) -> BlockModel {
    let st = seg_run(slash, multi, lines);
    if st.pend_code.len() > 0 {
        BlockModel {
            items: st.items.push(ItemModel { comments: st.pend_c, code: st.pend_code }),
            trailing: Seq::empty(),
        }
    } else {
        BlockModel { items: st.items, trailing: st.pend_c }
    }
}

/// The line a dialect keys an item by: the first line of its code span.
pub open spec fn first_code(x: ItemModel) -> Seq<char> {
    if x.code.len() > 0 {
        x.code[0]
    } else {
        Seq::empty()
    }
}

/// Item order: the Bazel key of the first code line, or the code span
/// compared line by line.
pub open spec fn item_le(bazel: bool, x: ItemModel, y: ItemModel) -> bool {
    if bazel {
        bazel_key_le(bazel_key(first_code(x)), bazel_key(first_code(y)))
    } else {
        lines_le(x.code, y.code)
    }
}

/// Insertion of `x` into `s` behind every element that compares `<= x`: the
/// placement a stable sort gives the latest element.
pub open spec fn insert_item(bazel: bool, s: Seq<ItemModel>, x: ItemModel) -> Seq<ItemModel>
    decreases s.len(),
{
    if s.len() == 0 {
        seq![x]
    } else if item_le(bazel, s.last(), x) {
        s.push(x)
    } else {
        insert_item(bazel, s.drop_last(), x).push(s.last())
    }
}

/// Stable sort of the items, defined by inserting each element, in order,
/// behind its equals.
pub open spec fn sort_items(bazel: bool, s: Seq<ItemModel>) -> Seq<ItemModel>
    decreases s.len(),
{
    if s.len() == 0 {
        Seq::empty()
    } else {
        insert_item(bazel, sort_items(bazel, s.drop_last()), s.last())
    }
}

/// The lines of one item: its comments, then its code span.
pub open spec fn item_lines(x: ItemModel) -> Seq<Seq<char>> {
    x.comments + x.code
}

pub open spec fn flatten_items(items: Seq<ItemModel>) -> Seq<Seq<char>>
    decreases items.len(),
{
    if items.len() == 0 {
        Seq::empty()
    } else {
        flatten_items(items.drop_last()) + item_lines(items.last())
    }
}

/// A region's lines after sorting: items in key order, each one's comments
/// directly before its code, trailing comments last.
pub open spec fn sorted_block(slash: bool, multi: bool, bazel: bool, block: Seq<Seq<char>>) -> Seq<
    Seq<char>,
> {
    let m = seg_block(slash, multi, block);
    flatten_items(sort_items(bazel, m.items)) + m.trailing
}

/// What the scanner emits for a closed region: the block untouched when an
/// ignore directive stood directly before it or stands anywhere inside it,
/// its sorted lines otherwise.
pub open spec fn sort_region(
    slash: bool,
    multi: bool,
    bazel: bool,
    block: Seq<Seq<char>>,
    ignore_prev: bool,
) -> Seq<Seq<char>> {
    if ignore_prev || has_ignore_block(block) {
        block
    } else {
        sorted_block(slash, multi, bazel, block)
    }
}

/// One sortable entry of a region, holding borrowed lines.
pub struct Item<'a> {
    pub comments: Vec<&'a str>,
    pub code: Vec<&'a str>,
}

impl<'a> View for Item<'a> {
    type V = ItemModel;

    open spec fn view(&self) -> ItemModel {
        ItemModel { comments: self.comments.deep_view(), code: self.code.deep_view() }
    }
}

impl<'a> DeepView for Item<'a> {
    type V = ItemModel;

    open spec fn deep_view(&self) -> ItemModel {
        self.view()
    }
}

/// Order on code spans of borrowed lines, as `Vec<String>` compares.
pub fn vec_str_le(a: &Vec<&str>, b: &Vec<&str>) -> (r: bool)
    ensures
        r == lines_le(a.deep_view(), b.deep_view()),
{
    let mut i: usize = 0;
    proof {
        assert(a.deep_view().skip(0) =~= a.deep_view());
        assert(b.deep_view().skip(0) =~= b.deep_view());
    }
    loop
        invariant
            i <= a@.len(),
            i <= b@.len(),
            lines_le(a.deep_view(), b.deep_view()) == lines_le(
                a.deep_view().skip(i as int),
                b.deep_view().skip(i as int),
            ),
        decreases a@.len() - i,
    {
        if i == a.len() {
            return true;
        }
        if i == b.len() {
            return false;
        }
        let ca = chars_of(a[i]);
        let cb = chars_of(b[i]);
        proof {
            assert(a.deep_view().skip(i as int)[0] == a.deep_view()[i as int]);
            assert(b.deep_view().skip(i as int)[0] == b.deep_view()[i as int]);
        }
        if crate::text::chars_eq(&ca, &cb) {
            proof {
                assert(a.deep_view().skip(i as int).drop_first() =~= a.deep_view().skip(i + 1));
                assert(b.deep_view().skip(i as int).drop_first() =~= b.deep_view().skip(i + 1));
            }
            i = i + 1;
        } else {
            return crate::text::chars_le(&ca, &cb);
        }
    }
}

/// Item order, executably.
pub fn item_le_exec(bazel: bool, x: &Item, y: &Item) -> (r: bool)
    ensures
        r == item_le(bazel, x@, y@),
{
    if bazel {
        let fx: &str = if x.code.len() > 0 {
            x.code[0]
        } else {
            ""
        };
        let fy: &str = if y.code.len() > 0 {
            y.code[0]
        } else {
            ""
        };
        proof {
            reveal_strlit("");
            assert(""@ =~= Seq::<char>::empty());
            assert(fx@ == first_code(x@));
            assert(fy@ == first_code(y@));
        }
        let kx = BazelSortKey::new(fx);
        let ky = BazelSortKey::new(fy);
        bazel_key_le_exec(&kx, &ky)
    } else {
        vec_str_le(&x.code, &y.code)
    }
}

/// Segment a region's raw lines into items and trailing comments.
pub fn segment_block<'a>(slash: bool, multi: bool, block: &Vec<&'a str>) -> (r: (
    Vec<Item<'a>>,
    Vec<&'a str>,
))
    ensures
        r.0.deep_view() == seg_block(slash, multi, block.deep_view()).items,
        r.1.deep_view() == seg_block(slash, multi, block.deep_view()).trailing,
{
    let ghost all = block.deep_view();
    let mut items: Vec<Item<'a>> = Vec::new();
    let mut pend_c: Vec<&'a str> = Vec::new();
    let mut pend_code: Vec<&'a str> = Vec::new();
    let mut in_multi = false;
    let n = block.len();
    let mut i: usize = 0;
    proof {
        assert(all.take(0) =~= Seq::<Seq<char>>::empty());
        assert(items.deep_view() =~= seg_init().items);
        assert(pend_c.deep_view() =~= seg_init().pend_c);
        assert(pend_code.deep_view() =~= seg_init().pend_code);
    }
    while i < n
        invariant
            i <= n,
            n == block@.len(),
            all == block.deep_view(),
            items.deep_view() == seg_run(slash, multi, all.take(i as int)).items,
            pend_c.deep_view() == seg_run(slash, multi, all.take(i as int)).pend_c,
            pend_code.deep_view() == seg_run(slash, multi, all.take(i as int)).pend_code,
            in_multi == seg_run(slash, multi, all.take(i as int)).in_multi,
        decreases n - i,
    {
        let line: &'a str = block[i];
        let ghost st = seg_run(slash, multi, all.take(i as int));
        proof {
            assert(all.take(i + 1).drop_last() =~= all.take(i as int));
            assert(all.take(i + 1).last() == all[i as int]);
            assert(all[i as int] == line@);
            assert(seg_run(slash, multi, all.take(i + 1)) == seg_step(slash, multi, st, line@));
        }
        if line_is_comment(slash, line) {
            let ghost old_pc = pend_c.deep_view();
            pend_c.push(line);
            in_multi = false;
            proof {
                assert(pend_c.deep_view() =~= old_pc.push(line@));
            }
        } else {
            let ghost old_code = pend_code.deep_view();
            pend_code.push(line);
            proof {
                assert(pend_code.deep_view() =~= old_code.push(line@));
            }
            let mut multi_now = false;
            if multi {
                if in_multi {
                    multi_now = true;
                } else {
                    let v = chars_of(line);
                    let nn = v.len();
                    if contains_char_in(&v, 0, nn, '{') {
                        multi_now = true;
                    }
                }
            }
            let complete = line_code_span_complete(line);
            if multi_now && !complete {
                in_multi = true;
            } else {
                let item = Item { comments: pend_c, code: pend_code };
                let ghost old_items = items.deep_view();
                items.push(item);
                pend_c = Vec::new();
                pend_code = Vec::new();
                in_multi = false;
                proof {
                    assert(items.deep_view() =~= old_items.push(
                        ItemModel { comments: st.pend_c, code: old_code.push(line@) },
                    ));
                    assert(pend_c.deep_view() =~= Seq::<Seq<char>>::empty());
                    assert(pend_code.deep_view() =~= Seq::<Seq<char>>::empty());
                }
            }
        }
        i = i + 1;
    }
    proof {
        assert(all.take(n as int) =~= all);
    }
    if pend_code.len() > 0 {
        let item = Item { comments: pend_c, code: pend_code };
        let ghost old_items = items.deep_view();
        let ghost st = seg_run(slash, multi, all);
        items.push(item);
        let trailing: Vec<&'a str> = Vec::new();
        proof {
            assert(items.deep_view() =~= old_items.push(
                ItemModel { comments: st.pend_c, code: st.pend_code },
            ));
            assert(trailing.deep_view() =~= Seq::<Seq<char>>::empty());
        }
        (items, trailing)
    } else {
        (items, pend_c)
    }
}

/// `insert_item` is splicing at the scan position: everything from `p` on
/// compares strictly above `x`, and `x` lands right after position `p - 1`.
proof fn lemma_insert_item_at(bazel: bool, s: Seq<ItemModel>, x: ItemModel, p: int)
    requires
        0 <= p <= s.len(),
        forall|j: int| p <= j < s.len() ==> !item_le(bazel, s[j], x),
        p > 0 ==> item_le(bazel, s[p - 1], x),
    ensures
        insert_item(bazel, s, x) == s.take(p) + seq![x] + s.skip(p),
    decreases s.len(),
{
    if s.len() == 0 {
        assert(s.take(p) + seq![x] + s.skip(p) =~= seq![x]);
    } else if item_le(bazel, s.last(), x) {
        assert(p == s.len());
        assert(s.take(p) + seq![x] + s.skip(p) =~= s.push(x));
    } else {
        assert(p < s.len());
        lemma_insert_item_at(bazel, s.drop_last(), x, p);
        assert(insert_item(bazel, s, x) =~= s.take(p) + seq![x] + s.skip(p)) by {
            assert(insert_item(bazel, s, x) == (s.drop_last().take(p) + seq![x] + s.drop_last().skip(
                p,
            )).push(s.last()));
        }
    }
}

/// Insert `x` into the already-sorted `out` at the stable position.
fn insert_sorted<'a>(bazel: bool, out: &mut Vec<Item<'a>>, x: Item<'a>)
    ensures
        final (out).deep_view() == insert_item(bazel, old(out).deep_view(), x@),
{
    let ghost s0 = out.deep_view();
    let mut p = out.len();
    while p > 0 && !item_le_exec(bazel, &out[p - 1], &x)
        invariant
            p <= out@.len(),
            out.deep_view() == s0,
            forall|j: int| p <= j < s0.len() ==> !item_le(bazel, s0[j], x@),
        decreases p,
    {
        p = p - 1;
    }
    proof {
        lemma_insert_item_at(bazel, s0, x@, p as int);
    }
    let ghost xv = x@;
    out.insert(p, x);
    proof {
        assert(out.deep_view() =~= s0.take(p as int) + seq![xv] + s0.skip(p as int));
    }
}

/// Sort a region's items with a stable insertion sort.
pub fn sort_items_exec<'a>(bazel: bool, items: Vec<Item<'a>>) -> (r: Vec<Item<'a>>)
    ensures
        r.deep_view() == sort_items(bazel, items.deep_view()),
{
    let ghost orig = items.deep_view();
    let mut rest = items;
    let mut out: Vec<Item<'a>> = Vec::new();
    let ghost i: int = 0;
    proof {
        assert(rest.deep_view() =~= orig.skip(0));
        assert(orig.take(0) =~= Seq::<ItemModel>::empty());
        assert(out.deep_view() =~= sort_items(bazel, orig.take(0)));
    }
    while rest.len() > 0
        invariant
            0 <= i <= orig.len(),
            rest.deep_view() == orig.skip(i),
            out.deep_view() == sort_items(bazel, orig.take(i)),
        decreases rest@.len(),
    {
        let ghost pre_items = rest@;
        let ghost pre_deep = rest.deep_view();
        let x = rest.remove(0);
        proof {
            assert(pre_deep.len() == pre_items.len());
            assert(pre_items.len() > 0);
            assert(orig.skip(i).len() > 0);
            assert(i < orig.len());
            assert(x.deep_view() == pre_deep[0]);
            assert(pre_deep[0] == orig.skip(i)[0]);
            assert(orig.skip(i)[0] == orig[i]);
            assert(x.deep_view() == orig[i]);
            assert(rest.deep_view() =~= orig.skip(i + 1)) by {
                assert(rest@ == pre_items.remove(0));
                assert forall|j: int| 0 <= j < rest@.len() implies rest.deep_view()[j] == orig.skip(
                    i + 1,
                )[j] by {
                    assert(rest@[j] == pre_items[j + 1]);
                    assert(rest.deep_view()[j] == rest@[j].deep_view());
                    assert(pre_deep[j + 1] == pre_items[j + 1].deep_view());
                    assert(pre_deep[j + 1] == orig.skip(i)[j + 1]);
                    assert(orig.skip(i)[j + 1] == orig[i + j + 1]);
                    assert(orig.skip(i + 1)[j] == orig[i + 1 + j]);
                }
            }
        }
        insert_sorted(bazel, &mut out, x);
        proof {
            assert(orig.take(i + 1).drop_last() =~= orig.take(i));
            assert(orig.take(i + 1).last() == orig[i]);
            assert(out.deep_view() == sort_items(bazel, orig.take(i + 1)));
        }
        proof {
            i = i + 1;
        }
    }
    proof {
        assert(orig.take(orig.len() as int) =~= orig);
    }
    out
}

/// Emit the sorted items back as lines, each item's comments directly before
/// its code span.
pub fn flatten_exec<'a>(items: &Vec<Item<'a>>) -> (r: Vec<&'a str>)
    ensures
        r.deep_view() == flatten_items(items.deep_view()),
{
    let ghost all = items.deep_view();
    let mut out: Vec<&'a str> = Vec::new();
    let n = items.len();
    let mut j: usize = 0;
    proof {
        assert(all.take(0) =~= Seq::<ItemModel>::empty());
        assert(out.deep_view() =~= flatten_items(all.take(0)));
    }
    while j < n
        invariant
            j <= n,
            n == items@.len(),
            all == items.deep_view(),
            out.deep_view() == flatten_items(all.take(j as int)),
        decreases n - j,
    {
        let ghost before = out.deep_view();
        let item = &items[j];
        let ghost m = item.deep_view();
        proof {
            assert(m == all[j as int]);
        }
        let mut k: usize = 0;
        while k < item.comments.len()
            invariant
                k <= item.comments@.len(),
                m == item.deep_view(),
                out.deep_view() == before + m.comments.take(k as int),
            decreases item.comments@.len() - k,
        {
            let ghost b2 = out.deep_view();
            out.push(item.comments[k]);
            proof {
                assert(out.deep_view() =~= b2.push(m.comments[k as int]));
                assert(b2.push(m.comments[k as int]) =~= before + m.comments.take(k + 1));
            }
            k = k + 1;
        }
        proof {
            assert(m.comments.take(item.comments@.len() as int) =~= m.comments);
        }
        let mut k2: usize = 0;
        while k2 < item.code.len()
            invariant
                k2 <= item.code@.len(),
                m == item.deep_view(),
                out.deep_view() == before + m.comments + m.code.take(k2 as int),
            decreases item.code@.len() - k2,
        {
            let ghost b2 = out.deep_view();
            out.push(item.code[k2]);
            proof {
                assert(out.deep_view() =~= b2.push(m.code[k2 as int]));
                assert(b2.push(m.code[k2 as int]) =~= before + m.comments + m.code.take(k2 + 1));
            }
            k2 = k2 + 1;
        }
        proof {
            assert(m.code.take(item.code@.len() as int) =~= m.code);
            assert(all.take(j + 1).drop_last() =~= all.take(j as int));
            assert(all.take(j + 1).last() == all[j as int]);
            assert(before + m.comments + m.code =~= flatten_items(all.take(j as int)) + item_lines(
                m,
            ));
        }
        j = j + 1;
    }
    proof {
        assert(all.take(n as int) =~= all);
    }
    out
}

/// Append all of `src` to `dst`.
pub fn extend_refs<'a>(dst: &mut Vec<&'a str>, src: &Vec<&'a str>)
    ensures
        final (dst).deep_view() == old(dst).deep_view() + src.deep_view(),
{
    let ghost base = dst.deep_view();
    let n = src.len();
    let mut k: usize = 0;
    proof {
        assert(src.deep_view().take(0) =~= Seq::<Seq<char>>::empty());
        assert(dst.deep_view() =~= base + src.deep_view().take(0));
    }
    while k < n
        invariant
            k <= n,
            n == src@.len(),
            dst.deep_view() == base + src.deep_view().take(k as int),
        decreases n - k,
    {
        let ghost b2 = dst.deep_view();
        dst.push(src[k]);
        proof {
            assert(dst.deep_view() =~= b2.push(src.deep_view()[k as int]));
            assert(b2.push(src.deep_view()[k as int]) =~= base + src.deep_view().take(k + 1));
        }
        k = k + 1;
    }
    proof {
        assert(src.deep_view().take(n as int) =~= src.deep_view());
    }
}

/// Copy borrowed lines into owned ones.
pub fn to_owned_lines(refs: Vec<&str>) -> (out: Vec<String>)
    ensures
        out.deep_view() == refs.deep_view(),
{
    let n = refs.len();
    let mut out: Vec<String> = Vec::new();
    let mut k: usize = 0;
    proof {
        assert(out.deep_view() =~= refs.deep_view().take(0));
    }
    while k < n
        invariant
            k <= n,
            n == refs@.len(),
            out.deep_view() == refs.deep_view().take(k as int),
        decreases n - k,
    {
        let ghost b2 = out.deep_view();
        let s = String::from_str(refs[k]);
        out.push(s);
        proof {
            assert(out.deep_view() =~= b2.push(refs.deep_view()[k as int]));
            assert(b2.push(refs.deep_view()[k as int]) =~= refs.deep_view().take(k + 1));
        }
        k = k + 1;
    }
    proof {
        assert(refs.deep_view().take(n as int) =~= refs.deep_view());
    }
    out
}

/// Whether any line of the block is an ignore-block directive.
pub fn block_has_ignore(block: &Vec<&str>) -> (r: bool)
    ensures
        r == has_ignore_block(block.deep_view()),
{
    let n = block.len();
    let mut i: usize = 0;
    while i < n
        invariant
            i <= n,
            n == block@.len(),
            forall|j: int| 0 <= j < i ==> !ignore_block_comment(block.deep_view()[j]),
        decreases n - i,
    {
        if crate::directives::is_ignore_block_line(block[i]) {
            proof {
                assert(ignore_block_comment(block.deep_view()[i as int]));
            }
            return true;
        }
        i = i + 1;
    }
    false
}

/// A region's lines in sorted order, with no ignore handling.
pub fn sorted_block_exec<'a>(slash: bool, multi: bool, bazel: bool, block: &Vec<&'a str>) -> (r:
    Vec<&'a str>)
    ensures
        r.deep_view() == sorted_block(slash, multi, bazel, block.deep_view()),
{
    let (items, trailing) = segment_block(slash, multi, block);
    let sorted = sort_items_exec(bazel, items);
    let mut out = flatten_exec(&sorted);
    let ghost flat = out.deep_view();
    let mut k: usize = 0;
    proof {
        assert(trailing.deep_view().take(0) =~= Seq::<Seq<char>>::empty());
        assert(out.deep_view() =~= flat + trailing.deep_view().take(0));
    }
    while k < trailing.len()
        invariant
            k <= trailing@.len(),
            out.deep_view() == flat + trailing.deep_view().take(k as int),
        decreases trailing@.len() - k,
    {
        let ghost b2 = out.deep_view();
        out.push(trailing[k]);
        proof {
            assert(out.deep_view() =~= b2.push(trailing.deep_view()[k as int]));
            assert(b2.push(trailing.deep_view()[k as int]) =~= flat + trailing.deep_view().take(
                k + 1,
            ));
        }
        k = k + 1;
    }
    proof {
        assert(trailing.deep_view().take(trailing@.len() as int) =~= trailing.deep_view());
    }
    out
}

/// Sort one closed region, honouring the ignore directives.
pub fn sort_region_exec<'a>(
    slash: bool,
    multi: bool,
    bazel: bool,
    block: Vec<&'a str>,
    ignore_prev: bool,
) -> (r: Vec<&'a str>)
    ensures
        r.deep_view() == sort_region(slash, multi, bazel, block.deep_view(), ignore_prev),
{
    if ignore_prev {
        return block;
    }
    if block_has_ignore(&block) {
        return block;
    }
    sorted_block_exec(slash, multi, bazel, &block)
}

} // verus!
