//! Third stage: cutting rectangles into pieces no larger than a tile.

use crate::cover::{
    all_held_by, all_wf, covered_by, held_by, lemma_all_held_by_refl, lemma_all_held_by_trans,
    pairwise_disjoint, same_cover,
};
use crate::rect::{Rect, MAX_RECT_SIZE};
use vstd::prelude::*;

verus! {

/// Wider than a tile.
pub open spec fn too_wide(r: Rect) -> bool {
    r.spec_width() > MAX_RECT_SIZE
}

/// Higher than a tile.
pub open spec fn too_tall(r: Rect) -> bool {
    r.spec_height() > MAX_RECT_SIZE
}

/// What is left of a pixel count once a tile's side is taken off it, and
/// nothing where the count is smaller than that.
pub open spec fn count_less_tile(used: usize) -> usize {
    if used >= MAX_RECT_SIZE {
        (used - MAX_RECT_SIZE) as usize
    } else {
        0
    }
}

/// The leftmost tile-wide part of a rectangle that is too wide. It keeps
/// the whole pixel count.
pub open spec fn left_part(r: Rect) -> Rect {
    Rect { x_end: (r.x + MAX_RECT_SIZE) as usize, ..r }
}

/// What is right of the leftmost tile-wide part.
pub open spec fn right_part(r: Rect) -> Rect {
    Rect { x: (r.x + MAX_RECT_SIZE) as usize, used_pixels: count_less_tile(r.used_pixels), ..r }
}

/// The topmost tile-high part of a rectangle that is too tall. It keeps
/// the whole pixel count.
pub open spec fn top_part(r: Rect) -> Rect {
    Rect { y_end: (r.y + MAX_RECT_SIZE) as usize, ..r }
}

/// What is below the topmost tile-high part.
pub open spec fn bottom_part(r: Rect) -> Rect {
    Rect { y: (r.y + MAX_RECT_SIZE) as usize, used_pixels: count_less_tile(r.used_pixels), ..r }
}

/// Number of tiles that a side of the given length needs.
pub open spec fn tiles_along(side: int) -> int {
    if side <= MAX_RECT_SIZE {
        1
    } else {
        (side + MAX_RECT_SIZE - 1) / (MAX_RECT_SIZE as int)
    }
}

/// Number of steps that the splitter spends on a rectangle: one cut less
/// than it has tiles, and one visit for each tile.
pub open spec fn split_cost(r: Rect) -> int {
    2 * (tiles_along(r.spec_width()) * tiles_along(r.spec_height())) - 1
}

/// Number of steps that the splitter has left when it stands at entry `i`.
pub open spec fn split_work(s: Seq<Rect>, i: int) -> int
    decreases s.len() - i,
{
    if i >= s.len() {
        0
    } else {
        split_cost(s[i]) + split_work(s, i + 1)
    }
}

/// The collection after the splitter, standing at entry `i`, has run to
/// the end: an entry that is too wide is cut first, one that is only too
/// tall next, and the part cut off joins the collection at the end.
pub open spec fn split_from(s: Seq<Rect>, i: int) -> Seq<Rect>
    decreases split_work(s, i),
{
    if i < 0 || i >= s.len() {
        s
    } else if too_wide(s[i]) {
        proof {
            lemma_cut_work(s, i, left_part(s[i]), right_part(s[i]));
            lemma_split_work_nonneg(s.update(i, left_part(s[i])).push(right_part(s[i])), i);
        }
        split_from(s.update(i, left_part(s[i])).push(right_part(s[i])), i)
    } else if too_tall(s[i]) {
        proof {
            lemma_cut_work(s, i, top_part(s[i]), bottom_part(s[i]));
            lemma_split_work_nonneg(s.update(i, top_part(s[i])).push(bottom_part(s[i])), i);
        }
        split_from(s.update(i, top_part(s[i])).push(bottom_part(s[i])), i)
    } else {
        proof {
            lemma_split_cost_positive(s[i]);
            lemma_split_work_nonneg(s, i + 1);
        }
        split_from(s, i + 1)
    }
}

/// The collection after the splitter has visited every entry.
pub open spec fn split_all(s: Seq<Rect>) -> Seq<Rect> {
    split_from(s, 0)
}

/// Every rectangle costs the splitter at least the step that passes it.
pub proof fn lemma_split_cost_positive(r: Rect)
    ensures
        split_cost(r) >= 1,
{
    let c = tiles_along(r.spec_width());
    let q = tiles_along(r.spec_height());
    assert(c * q >= 1) by (nonlinear_arith)
        requires
            c >= 1,
            q >= 1,
    ;
}

/// The splitter never has less than nothing left to do.
pub proof fn lemma_split_work_nonneg(s: Seq<Rect>, i: int)
    ensures
        split_work(s, i) >= 0,
    decreases s.len() - i,
{
    if i < s.len() {
        lemma_split_cost_positive(s[i]);
        lemma_split_work_nonneg(s, i + 1);
    }
}

/// A cut leaves two parts that cost one step less than the whole.
pub proof fn lemma_cut_cost(r: Rect)
    ensures
        too_wide(r) ==> split_cost(left_part(r)) + split_cost(right_part(r)) + 1 == split_cost(r),
        !too_wide(r) && too_tall(r) ==> split_cost(top_part(r)) + split_cost(bottom_part(r)) + 1
            == split_cost(r),
{
    let c = tiles_along(r.spec_width());
    let q = tiles_along(r.spec_height());
    if too_wide(r) {
        assert(left_part(r).spec_width() == 512);
        assert(right_part(r).spec_width() == r.spec_width() - 512);
        assert(tiles_along(right_part(r).spec_width()) == c - 1);
        assert(1 * q + (c - 1) * q == c * q) by (nonlinear_arith);
    } else if too_tall(r) {
        assert(top_part(r).spec_height() == 512);
        assert(bottom_part(r).spec_height() == r.spec_height() - 512);
        assert(tiles_along(bottom_part(r).spec_height()) == q - 1);
        assert(c == 1);
        assert(1 * 1 + 1 * (q - 1) == 1 * q) by (nonlinear_arith);
    }
}

/// Work that is left behind entry `i` after a part was put in its place
/// and another at the end.
proof fn lemma_work_behind(s: Seq<Rect>, i: int, kept: Rect, cut: Rect, k: int)
    requires
        0 <= i < k <= s.len(),
    ensures
        split_work(s.update(i, kept).push(cut), k) == split_work(s, k) + split_cost(cut),
    decreases s.len() - k,
{
    let t = s.update(i, kept).push(cut);
    if k < s.len() {
        lemma_work_behind(s, i, kept, cut, k + 1);
    } else {
        assert(split_work(t, k + 1) == 0);
    }
}

/// Every cut brings the splitter a step forward.
pub proof fn lemma_cut_work(s: Seq<Rect>, i: int, kept: Rect, cut: Rect)
    requires
        0 <= i < s.len(),
        (too_wide(s[i]) && kept == left_part(s[i]) && cut == right_part(s[i])) || (!too_wide(s[i])
            && too_tall(s[i]) && kept == top_part(s[i]) && cut == bottom_part(s[i])),
    ensures
        split_work(s.update(i, kept).push(cut), i) + 1 == split_work(s, i),
{
    lemma_work_behind(s, i, kept, cut, i + 1);
    lemma_cut_cost(s[i]);
}

/// A cut leaves well-formed parts that cover what the whole covered and
/// nothing else, and that overlap neither each other nor anything that the
/// whole did not overlap.
pub proof fn lemma_cut(s: Seq<Rect>, i: int, kept: Rect, cut: Rect)
    requires
        all_wf(s),
        0 <= i < s.len(),
        (too_wide(s[i]) && kept == left_part(s[i]) && cut == right_part(s[i])) || (!too_wide(s[i])
            && too_tall(s[i]) && kept == top_part(s[i]) && cut == bottom_part(s[i])),
    ensures
        all_wf(s.update(i, kept).push(cut)),
        same_cover(s, s.update(i, kept).push(cut)),
        all_held_by(s.update(i, kept).push(cut), s),
        pairwise_disjoint(s) ==> pairwise_disjoint(s.update(i, kept).push(cut)),
{
    let t = s.update(i, kept).push(cut);
    let n = s.len() as int;
    let whole = s[i];
    assert(whole.wf());
    assert(kept.wf() && cut.wf() && kept.within(whole) && cut.within(whole));
    assert(!kept.spec_intersect(cut) && !cut.spec_intersect(kept));
    assert forall|k: int| 0 <= k < t.len() implies (#[trigger] t[k]).wf() by {
        if k < n && k != i {
            assert(s[k].wf());
        }
    }
    assert forall|k: int| 0 <= k < t.len() implies held_by(s, #[trigger] t[k]) by {
        if k < n && k != i {
            assert(t[k].within(s[k]));
        } else {
            assert(t[k].within(s[i]));
        }
    }
    assert forall|px: int, py: int| covered_by(s, px, py) <==> covered_by(t, px, py) by {
        if covered_by(s, px, py) {
            let k = choose|k: int| 0 <= k < s.len() && (#[trigger] s[k]).contains(px, py);
            if k != i {
                assert(t[k].contains(px, py));
            } else if kept.contains(px, py) {
                assert(t[i].contains(px, py));
            } else {
                assert(t[n].contains(px, py));
            }
        }
        if covered_by(t, px, py) {
            let k = choose|k: int| 0 <= k < t.len() && (#[trigger] t[k]).contains(px, py);
            if k < n && k != i {
                assert(s[k].contains(px, py));
            } else {
                assert(s[i].contains(px, py));
            }
        }
    }
    if pairwise_disjoint(s) {
        assert forall|a: int, b: int|
            0 <= a < t.len() && 0 <= b < t.len() && a != b implies !(#[trigger] t[a]).spec_intersect(
                #[trigger] t[b],
            ) by {
            let sa = if a == n { i } else { a };
            let sb = if b == n { i } else { b };
            assert(t[a].within(s[sa]) && t[b].within(s[sb]));
            if sa != sb {
                assert(!s[sa].spec_intersect(s[sb]));
            }
        }
    }
}

/// Splitting leaves well-formed rectangles that fit a tile, that cover
/// what the collection covered and nothing else, each inside one of the
/// rectangles it was cut from, and it brings no overlap into a collection
/// that had none.
pub proof fn lemma_split_from(s: Seq<Rect>, i: int)
    requires
        all_wf(s),
        0 <= i <= s.len(),
        forall|k: int| 0 <= k < i ==> (#[trigger] s[k]).fits_tile(),
    ensures
        split_from(s, i).len() >= s.len(),
        all_wf(split_from(s, i)),
        forall|k: int| 0 <= k < split_from(s, i).len() ==> (#[trigger] split_from(s, i)[k]).fits_tile(),
        same_cover(s, split_from(s, i)),
        all_held_by(split_from(s, i), s),
        pairwise_disjoint(s) ==> pairwise_disjoint(split_from(s, i)),
    decreases split_work(s, i),
{
    if i >= s.len() {
        lemma_all_held_by_refl(s);
    } else if too_wide(s[i]) || too_tall(s[i]) {
        let kept = if too_wide(s[i]) { left_part(s[i]) } else { top_part(s[i]) };
        let cut = if too_wide(s[i]) { right_part(s[i]) } else { bottom_part(s[i]) };
        let t = s.update(i, kept).push(cut);
        lemma_cut(s, i, kept, cut);
        lemma_cut_work(s, i, kept, cut);
        lemma_split_work_nonneg(t, i);
        assert forall|k: int| 0 <= k < i implies (#[trigger] t[k]).fits_tile() by {
            assert(s[k].fits_tile());
        }
        lemma_split_from(t, i);
        lemma_all_held_by_trans(split_from(t, i), t, s);
        assert(same_cover(s, split_from(s, i))) by {
            assert forall|px: int, py: int|
                covered_by(s, px, py) <==> covered_by(split_from(s, i), px, py) by {
                assert(covered_by(s, px, py) <==> covered_by(t, px, py));
                assert(covered_by(t, px, py) <==> covered_by(split_from(t, i), px, py));
            }
        }
    } else {
        lemma_split_cost_positive(s[i]);
        lemma_split_work_nonneg(s, i + 1);
        assert forall|k: int| 0 <= k < i + 1 implies (#[trigger] s[k]).fits_tile() by {
            if k == i {
                assert(s[i].fits_tile());
            }
        }
        lemma_split_from(s, i + 1);
    }
}

/// Cuts every rectangle that is wider or higher than a tile into parts
/// that are not: first along its width, a tile at a time from the left,
/// then along its height. The part that stays in place keeps the pixel
/// count; the part cut off gets the count less a tile's side, or nothing
/// where the count is smaller than that, and joins the collection at the
/// end.
pub fn split_rects(rects: Vec<Rect>) -> (out: Vec<Rect>)
    requires
        all_wf(rects@),
    ensures
        out@ == split_all(rects@),
        all_wf(out@),
        forall|k: int| 0 <= k < out@.len() ==> (#[trigger] out@[k]).fits_tile(),
        same_cover(rects@, out@),
        all_held_by(out@, rects@),
        pairwise_disjoint(rects@) ==> pairwise_disjoint(out@),
{
    proof {
        lemma_split_from(rects@, 0);
    }
    let mut work = rects;
    let mut i: usize = 0;
    while i < work.len()
        invariant
            all_wf(work@),
            i <= work.len(),
            split_from(work@, i as int) == split_all(rects@),
        decreases split_work(work@, i as int),
    {
        let ghost before = work@;
        let r = work[i];
        assert(r.wf());
        if r.width() > MAX_RECT_SIZE {
            proof {
                lemma_cut(before, i as int, left_part(r), right_part(r));
                lemma_cut_work(before, i as int, left_part(r), right_part(r));
                lemma_split_work_nonneg(
                    before.update(i as int, left_part(r)).push(right_part(r)),
                    i as int,
                );
            }
            work.push(
                Rect {
                    x: r.x + MAX_RECT_SIZE,
                    y: r.y,
                    x_end: r.x_end,
                    y_end: r.y_end,
                    used_pixels: r.used_pixels.saturating_sub(MAX_RECT_SIZE),
                },
            );
            work[i] = Rect {
                x: r.x,
                y: r.y,
                x_end: r.x + MAX_RECT_SIZE,
                y_end: r.y_end,
                used_pixels: r.used_pixels,
            };
            assert(work@ =~= before.update(i as int, left_part(r)).push(right_part(r)));
        } else if r.height() > MAX_RECT_SIZE {
            proof {
                lemma_cut(before, i as int, top_part(r), bottom_part(r));
                lemma_cut_work(before, i as int, top_part(r), bottom_part(r));
                lemma_split_work_nonneg(
                    before.update(i as int, top_part(r)).push(bottom_part(r)),
                    i as int,
                );
            }
            work.push(
                Rect {
                    x: r.x,
                    y: r.y + MAX_RECT_SIZE,
                    x_end: r.x_end,
                    y_end: r.y_end,
                    used_pixels: r.used_pixels.saturating_sub(MAX_RECT_SIZE),
                },
            );
            work[i] = Rect {
                x: r.x,
                y: r.y,
                x_end: r.x_end,
                y_end: r.y + MAX_RECT_SIZE,
                used_pixels: r.used_pixels,
            };
            assert(work@ =~= before.update(i as int, top_part(r)).push(bottom_part(r)));
        } else {
            proof {
                lemma_split_cost_positive(r);
                lemma_split_work_nonneg(before, i + 1);
            }
            i += 1;
        }
    }
    work
}

} // verus!
