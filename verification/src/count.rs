//! Counting pixels: how the areas of rectangles relate to the pixels that
//! they hold.

use crate::cover::{all_wf, all_within, covered_by, pairwise_disjoint};
use crate::rect::Rect;
use vstd::prelude::*;

verus! {

/// Sum of the areas of the collection.
pub open spec fn total_area(s: Seq<Rect>) -> int
    decreases s.len(),
{
    if s.len() == 0 {
        0
    } else {
        total_area(s.drop_last()) + s.last().spec_area()
    }
}

/// Number of rectangles of the collection that hold the pixel.
pub open spec fn hits(s: Seq<Rect>, px: int, py: int) -> int
    decreases s.len(),
{
    if s.len() == 0 {
        0
    } else {
        hits(s.drop_last(), px, py) + if s.last().contains(px, py) {
            1int
        } else {
            0int
        }
    }
}

/// Sum of `hits` over columns `x0..x1` of row `y`.
pub open spec fn hits_in_row(s: Seq<Rect>, y: int, x0: int, x1: int) -> int
    decreases x1 - x0,
{
    if x1 <= x0 {
        0
    } else {
        hits_in_row(s, y, x0, x1 - 1) + hits(s, x1 - 1, y)
    }
}

/// Sum of `hits` over columns `x0..x1` of rows `y0..y1`.
pub open spec fn hits_in_box(s: Seq<Rect>, x0: int, x1: int, y0: int, y1: int) -> int
    decreases y1 - y0,
{
    if y1 <= y0 {
        0
    } else {
        hits_in_box(s, x0, x1, y0, y1 - 1) + hits_in_row(s, y1 - 1, x0, x1)
    }
}

/// Length of what the ranges `a0..a1` and `b0..b1` share.
pub open spec fn span(a0: int, a1: int, b0: int, b1: int) -> int {
    let lo = if a0 >= b0 { a0 } else { b0 };
    let hi = if a1 <= b1 { a1 } else { b1 };
    if hi > lo {
        hi - lo
    } else {
        0
    }
}

/// Number of pixels that `r` holds in columns `x0..x1` of row `y`.
pub open spec fn shared_in_row(r: Rect, y: int, x0: int, x1: int) -> int {
    if r.y <= y < r.y_end {
        span(r.x as int, r.x_end as int, x0, x1)
    } else {
        0
    }
}

/// Number of pixels that `r` holds in columns `x0..x1` of rows `y0..y1`.
pub open spec fn shared_in_box(r: Rect, x0: int, x1: int, y0: int, y1: int) -> int {
    span(r.x as int, r.x_end as int, x0, x1) * span(r.y as int, r.y_end as int, y0, y1)
}

/// Number of pixels that the rectangles hold in columns `x0..x1` of row
/// `y`, a pixel counted once for each rectangle that holds it.
pub open spec fn total_in_row(s: Seq<Rect>, y: int, x0: int, x1: int) -> int
    decreases s.len(),
{
    if s.len() == 0 {
        0
    } else {
        total_in_row(s.drop_last(), y, x0, x1) + shared_in_row(s.last(), y, x0, x1)
    }
}

/// Number of pixels that the rectangles hold in columns `x0..x1` of rows
/// `y0..y1`, a pixel counted once for each rectangle that holds it.
pub open spec fn total_in_box(s: Seq<Rect>, x0: int, x1: int, y0: int, y1: int) -> int
    decreases s.len(),
{
    if s.len() == 0 {
        0
    } else {
        total_in_box(s.drop_last(), x0, x1, y0, y1) + shared_in_box(s.last(), x0, x1, y0, y1)
    }
}

/// A column more adds the hits of its pixel.
proof fn lemma_row_grows(s: Seq<Rect>, y: int, x0: int, x1: int)
    requires
        x0 <= x1,
    ensures
        total_in_row(s, y, x0, x1 + 1) == total_in_row(s, y, x0, x1) + hits(s, x1, y),
        x0 == x1 ==> total_in_row(s, y, x0, x1) == 0,
    decreases s.len(),
{
    if s.len() > 0 {
        lemma_row_grows(s.drop_last(), y, x0, x1);
    }
}

/// A row more adds what the rectangles hold in it.
proof fn lemma_box_grows(s: Seq<Rect>, x0: int, x1: int, y0: int, y1: int)
    requires
        y0 <= y1,
    ensures
        total_in_box(s, x0, x1, y0, y1 + 1) == total_in_box(s, x0, x1, y0, y1) + total_in_row(
            s,
            y1,
            x0,
            x1,
        ),
        y0 == y1 ==> total_in_box(s, x0, x1, y0, y1) == 0,
    decreases s.len(),
{
    if s.len() > 0 {
        lemma_box_grows(s.drop_last(), x0, x1, y0, y1);
        let r = s.last();
        let across = span(r.x as int, r.x_end as int, x0, x1);
        let down = span(r.y as int, r.y_end as int, y0, y1);
        let more = span(r.y as int, r.y_end as int, y0, y1 + 1);
        if r.y <= y1 < r.y_end {
            assert(more == down + 1);
            assert(across * more == across * down + across) by (nonlinear_arith)
                requires
                    more == down + 1,
            ;
        } else {
            assert(more == down);
        }
        if y0 == y1 {
            assert(down == 0);
            assert(across * down == 0) by (nonlinear_arith)
                requires
                    down == 0,
            ;
        }
    }
}

/// The hits in a row are the pixels that the rectangles hold in it.
proof fn lemma_hits_in_row(s: Seq<Rect>, y: int, x0: int, x1: int)
    requires
        x0 <= x1,
    ensures
        hits_in_row(s, y, x0, x1) == total_in_row(s, y, x0, x1),
    decreases x1 - x0,
{
    if x0 < x1 {
        lemma_hits_in_row(s, y, x0, x1 - 1);
        lemma_row_grows(s, y, x0, x1 - 1);
    } else {
        lemma_row_grows(s, y, x0, x1);
    }
}

/// The hits in a box are the pixels that the rectangles hold in it.
pub proof fn lemma_hits_in_box(s: Seq<Rect>, x0: int, x1: int, y0: int, y1: int)
    requires
        x0 <= x1,
        y0 <= y1,
    ensures
        hits_in_box(s, x0, x1, y0, y1) == total_in_box(s, x0, x1, y0, y1),
    decreases y1 - y0,
{
    if y0 < y1 {
        lemma_hits_in_box(s, x0, x1, y0, y1 - 1);
        lemma_box_grows(s, x0, x1, y0, y1 - 1);
        lemma_hits_in_row(s, y1 - 1, x0, x1);
    } else {
        lemma_box_grows(s, x0, x1, y0, y1);
    }
}

/// A pixel is hit as often as the collection has rectangles that hold it:
/// at least once where it is covered, at most once where nothing overlaps.
pub proof fn lemma_hits(s: Seq<Rect>, px: int, py: int)
    ensures
        0 <= hits(s, px, py),
        covered_by(s, px, py) <==> hits(s, px, py) >= 1,
        pairwise_disjoint(s) ==> hits(s, px, py) <= 1,
    decreases s.len(),
{
    if s.len() > 0 {
        let front = s.drop_last();
        lemma_hits(front, px, py);
        if covered_by(s, px, py) {
            let k = choose|k: int| 0 <= k < s.len() && (#[trigger] s[k]).contains(px, py);
            if k < s.len() - 1 {
                assert(front[k].contains(px, py));
            }
        }
        if covered_by(front, px, py) {
            let k = choose|k: int| 0 <= k < front.len() && (#[trigger] front[k]).contains(px, py);
            assert(s[k].contains(px, py));
            if pairwise_disjoint(s) && s.last().contains(px, py) {
                assert(s[k].spec_intersect(s[s.len() - 1]));
            }
        }
        if s.last().contains(px, py) {
            assert(s[s.len() - 1].contains(px, py));
        }
        if pairwise_disjoint(s) {
            assert forall|i: int, j: int|
                0 <= i < front.len() && 0 <= j < front.len() && i != j implies !(#[trigger] front[i]).spec_intersect(
                    #[trigger] front[j],
                ) by {
                assert(!s[i].spec_intersect(s[j]));
            }
        }
    }
}

/// Bounds on the hits in part of a row.
proof fn lemma_row_bounds(s: Seq<Rect>, y: int, x0: int, x1: int)
    requires
        x0 <= x1,
    ensures
        (forall|px: int| x0 <= px < x1 ==> covered_by(s, px, y)) ==> hits_in_row(s, y, x0, x1)
            >= x1 - x0,
        pairwise_disjoint(s) ==> hits_in_row(s, y, x0, x1) <= x1 - x0,
    decreases x1 - x0,
{
    if x0 < x1 {
        lemma_row_bounds(s, y, x0, x1 - 1);
        lemma_hits(s, x1 - 1, y);
    }
}

/// Rectangles that cover a whole box hold at least as many pixels in it as
/// it has; rectangles that do not overlap hold at most as many.
pub proof fn lemma_box_bounds(s: Seq<Rect>, x0: int, x1: int, y0: int, y1: int)
    requires
        x0 <= x1,
        y0 <= y1,
    ensures
        (forall|px: int, py: int| x0 <= px < x1 && y0 <= py < y1 ==> covered_by(s, px, py))
            ==> hits_in_box(s, x0, x1, y0, y1) >= (x1 - x0) * (y1 - y0),
        pairwise_disjoint(s) ==> hits_in_box(s, x0, x1, y0, y1) <= (x1 - x0) * (y1 - y0),
    decreases y1 - y0,
{
    if y0 < y1 {
        lemma_box_bounds(s, x0, x1, y0, y1 - 1);
        lemma_row_bounds(s, y1 - 1, x0, x1);
        assert((x1 - x0) * (y1 - y0) == (x1 - x0) * (y1 - 1 - y0) + (x1 - x0))
            by (nonlinear_arith);
    } else {
        assert((x1 - x0) * (y1 - y0) == 0) by (nonlinear_arith)
            requires
                y1 == y0,
        ;
    }
}

/// Well-formed rectangles hold no more pixels in a box than they have, and
/// all they have where they lie inside it.
pub proof fn lemma_total_in_box(s: Seq<Rect>, x0: int, x1: int, y0: int, y1: int)
    requires
        all_wf(s),
    ensures
        0 <= total_in_box(s, x0, x1, y0, y1) <= total_area(s),
        (forall|k: int|
            0 <= k < s.len() ==> x0 <= (#[trigger] s[k]).x && s[k].x_end <= x1 && y0 <= s[k].y
                && s[k].y_end <= y1) ==> total_in_box(s, x0, x1, y0, y1) == total_area(s),
    decreases s.len(),
{
    if s.len() > 0 {
        let front = s.drop_last();
        let r = s.last();
        assert(r == s[s.len() - 1]);
        assert(r.wf());
        assert forall|k: int| 0 <= k < front.len() implies (#[trigger] front[k]).wf() by {
            assert(s[k].wf());
        }
        lemma_total_in_box(front, x0, x1, y0, y1);
        let across = span(r.x as int, r.x_end as int, x0, x1);
        let down = span(r.y as int, r.y_end as int, y0, y1);
        let w = r.spec_width();
        let h = r.spec_height();
        assert(0 <= across * down <= w * h) by (nonlinear_arith)
            requires
                0 <= across <= w,
                0 <= down <= h,
        ;
        if forall|k: int|
            0 <= k < s.len() ==> x0 <= (#[trigger] s[k]).x && s[k].x_end <= x1 && y0 <= s[k].y
                && s[k].y_end <= y1 {
            assert forall|k: int| 0 <= k < front.len() implies x0 <= (#[trigger] front[k]).x
                && front[k].x_end <= x1 && y0 <= front[k].y && front[k].y_end <= y1 by {
                assert(front[k] == s[k]);
            }
            assert(across == w && down == h);
        }
    }
}

/// Rectangles that cover a whole box have at least its area between them.
pub proof fn lemma_cover_area(s: Seq<Rect>, x0: int, x1: int, y0: int, y1: int)
    requires
        all_wf(s),
        x0 <= x1,
        y0 <= y1,
        forall|px: int, py: int| x0 <= px < x1 && y0 <= py < y1 ==> covered_by(s, px, py),
    ensures
        total_area(s) >= (x1 - x0) * (y1 - y0),
{
    lemma_box_bounds(s, x0, x1, y0, y1);
    lemma_hits_in_box(s, x0, x1, y0, y1);
    lemma_total_in_box(s, x0, x1, y0, y1);
}

/// Rectangles that lie inside a box and do not overlap have at most its
/// area between them.
pub proof fn lemma_packed_area(s: Seq<Rect>, outer: Rect)
    requires
        all_wf(s),
        outer.x <= outer.x_end,
        outer.y <= outer.y_end,
        all_within(s, outer),
        pairwise_disjoint(s),
    ensures
        total_area(s) <= outer.spec_area(),
{
    let (x0, x1, y0, y1) = (outer.x as int, outer.x_end as int, outer.y as int, outer.y_end as int);
    lemma_box_bounds(s, x0, x1, y0, y1);
    lemma_hits_in_box(s, x0, x1, y0, y1);
    assert forall|k: int| 0 <= k < s.len() implies x0 <= (#[trigger] s[k]).x && s[k].x_end <= x1
        && y0 <= s[k].y && s[k].y_end <= y1 by {
        assert(s[k].within(outer));
    }
    lemma_total_in_box(s, x0, x1, y0, y1);
}

} // verus!
