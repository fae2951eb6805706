//! First stage: one rectangle for every horizontal run of visible pixels,
//! and the checksum of the buffer.

use crate::checksum::{crc32, fed};
use crate::cover::{all_dense, all_wf, covered_by, lemma_total_used_concat, lemma_total_used_push, pairwise_disjoint, total_used};
use crate::rect::Rect;
use vstd::prelude::*;
use vstd::slice::slice_subrange;

verus! {

/// The pixel in column `x` of row `y` has a nonzero alpha byte. The buffer
/// holds four bytes per pixel, row after row, alpha last.
pub open spec fn visible(pixels: Seq<u8>, width: int, x: int, y: int) -> bool {
    pixels[(y * width + x) * 4 + 3] != 0
}

/// The column where the visible pixels that lead up to column `x` begin:
/// `x` itself where the pixel before it is not visible.
pub open spec fn run_start(pixels: Seq<u8>, width: int, y: int, x: int) -> int
    decreases x,
{
    if x > 0 && visible(pixels, width, x - 1, y) {
        run_start(pixels, width, y, x - 1)
    } else {
        x
    }
}

/// The rectangle of a run: columns `start..end` of row `y`, all of them counted.
pub open spec fn run_rect(start: int, end: int, y: int) -> Rect {
    Rect {
        x: start as usize,
        y: y as usize,
        x_end: end as usize,
        y_end: (y + 1) as usize,
        used_pixels: (end - start) as usize,
    }
}

/// The runs of row `y` that an invisible pixel before column `x` has ended,
/// from left to right.
pub open spec fn closed_runs(pixels: Seq<u8>, width: int, y: int, x: int) -> Seq<Rect>
    decreases x,
{
    if x <= 0 {
        Seq::empty()
    } else {
        let before = closed_runs(pixels, width, y, x - 1);
        if x >= 2 && visible(pixels, width, x - 2, y) && !visible(pixels, width, x - 1, y) {
            before.push(run_rect(run_start(pixels, width, y, x - 1), x - 1, y))
        } else {
            before
        }
    }
}

/// All runs of row `y`, from left to right.
pub open spec fn row_runs(pixels: Seq<u8>, width: int, y: int) -> Seq<Rect> {
    let closed = closed_runs(pixels, width, y, width);
    if width > 0 && visible(pixels, width, width - 1, y) {
        closed.push(run_rect(run_start(pixels, width, y, width), width, y))
    } else {
        closed
    }
}

/// All runs of the first `height` rows, row by row.
pub open spec fn image_runs(pixels: Seq<u8>, width: int, height: int) -> Seq<Rect>
    decreases height,
{
    if height <= 0 {
        Seq::empty()
    } else {
        image_runs(pixels, width, height - 1) + row_runs(pixels, width, height - 1)
    }
}

/// The four bytes of a pixel lie inside a buffer of the right length.
pub proof fn lemma_pixel_in_buffer(width: int, height: int, x: int, y: int)
    requires
        0 <= x < width,
        0 <= y < height,
    ensures
        0 <= (y * width + x) * 4,
        (y * width + x) * 4 + 4 <= width * height * 4,
        (y + 1) * width * 4 == (y * width + width) * 4,
        (y + 1) * width * 4 <= width * height * 4,
{
    assert(0 <= y * width && (y + 1) * width == y * width + width && (y + 1) * width <= width
        * height) by (nonlinear_arith)
        requires
            0 <= x < width,
            0 <= y < height,
    ;
}

/// The visible pixels that lead up to a column begin at or before it, in
/// the first column or behind an invisible pixel.
pub proof fn lemma_run_start_bounds(pixels: Seq<u8>, width: int, y: int, x: int)
    requires
        0 <= x,
    ensures
        0 <= run_start(pixels, width, y, x) <= x,
        x > 0 && visible(pixels, width, x - 1, y) ==> run_start(pixels, width, y, x) < x,
        run_start(pixels, width, y, x) == 0 || !visible(
            pixels,
            width,
            run_start(pixels, width, y, x) - 1,
            y,
        ),
    decreases x,
{
    if x > 0 && visible(pixels, width, x - 1, y) {
        lemma_run_start_bounds(pixels, width, y, x - 1);
    }
}

/// `r` is a run of an image that is `width` pixels wide and `height`
/// pixels high: a stretch of visible pixels in one row, as long as it can
/// be, that counts every pixel it holds.
pub open spec fn is_run(pixels: Seq<u8>, width: int, height: int, r: Rect) -> bool {
    &&& r.y < height
    &&& r.y_end == r.y + 1
    &&& r.x < r.x_end <= width
    &&& r.used_pixels == r.x_end - r.x
    &&& forall|c: int| r.x <= c < r.x_end ==> #[trigger] visible(pixels, width, c, r.y as int)
    &&& r.x == 0 || !visible(pixels, width, r.x - 1, r.y as int)
    &&& r.x_end == width || !visible(pixels, width, r.x_end as int, r.y as int)
}

/// The collection covers every visible pixel of the image.
pub open spec fn covers_visible(s: Seq<Rect>, pixels: Seq<u8>, width: int, height: int) -> bool {
    forall|px: int, py: int|
        0 <= px < width && 0 <= py < height && #[trigger] visible(pixels, width, px, py)
            ==> covered_by(s, px, py)
}

/// A run of row `y` that an invisible pixel in column `r.x_end`, before
/// column `x`, has ended.
spec fn is_closed_run(pixels: Seq<u8>, width: int, y: int, x: int, r: Rect) -> bool {
    &&& r.y == y
    &&& r.y_end == y + 1
    &&& r.x < r.x_end < x
    &&& r.used_pixels == r.x_end - r.x
    &&& forall|c: int| r.x <= c < r.x_end ==> #[trigger] visible(pixels, width, c, y)
    &&& r.x == 0 || !visible(pixels, width, r.x - 1, y)
    &&& !visible(pixels, width, r.x_end as int, y)
}

/// From where they begin up to column `x`, the pixels are visible.
proof fn lemma_run_all_visible(pixels: Seq<u8>, width: int, y: int, x: int, c: int)
    requires
        run_start(pixels, width, y, x) <= c < x,
    ensures
        visible(pixels, width, c, y),
    decreases x,
{
    if x > 0 && visible(pixels, width, x - 1, y) {
        if c < x - 1 {
            lemma_run_all_visible(pixels, width, y, x - 1, c);
        }
    }
}

/// The runs that have ended before column `x` are runs, do not overlap,
/// cover the visible pixels before the stretch that leads up to `x`, and
/// count no more pixels than lie before it.
proof fn lemma_closed_runs(pixels: Seq<u8>, width: int, y: int, x: int)
    requires
        0 <= x <= width <= usize::MAX,
        0 <= y < usize::MAX,
    ensures
        forall|k: int|
            0 <= k < closed_runs(pixels, width, y, x).len() ==> is_closed_run(
                pixels,
                width,
                y,
                x,
                #[trigger] closed_runs(pixels, width, y, x)[k],
            ),
        pairwise_disjoint(closed_runs(pixels, width, y, x)),
        forall|c: int|
            0 <= c < run_start(pixels, width, y, x) && #[trigger] visible(pixels, width, c, y)
                ==> covered_by(closed_runs(pixels, width, y, x), c, y),
        0 <= total_used(closed_runs(pixels, width, y, x)) <= run_start(pixels, width, y, x),
    decreases x,
{
    let cr = closed_runs(pixels, width, y, x);
    if x > 0 {
        let before = closed_runs(pixels, width, y, x - 1);
        let start = run_start(pixels, width, y, x - 1);
        lemma_closed_runs(pixels, width, y, x - 1);
        lemma_run_start_bounds(pixels, width, y, x - 1);
        lemma_run_start_bounds(pixels, width, y, x);
        if x >= 2 && visible(pixels, width, x - 2, y) && !visible(pixels, width, x - 1, y) {
            let run = run_rect(start, x - 1, y);
            assert(cr == before.push(run));
            lemma_total_used_push(before, run);
            assert forall|c: int| start <= c < x - 1 implies #[trigger] visible(
                pixels,
                width,
                c,
                y,
            ) by {
                lemma_run_all_visible(pixels, width, y, x - 1, c);
            }
            assert(is_closed_run(pixels, width, y, x, run));
            assert forall|k: int| 0 <= k < cr.len() implies is_closed_run(
                pixels,
                width,
                y,
                x,
                #[trigger] cr[k],
            ) by {
                if k < before.len() {
                    assert(is_closed_run(pixels, width, y, x - 1, before[k]));
                }
            }
            assert forall|k: int| 0 <= k < before.len() implies (#[trigger] before[k]).x_end
                <= start by {
                assert(is_closed_run(pixels, width, y, x - 1, before[k]));
                if start < before[k].x_end {
                    lemma_run_all_visible(pixels, width, y, x - 1, before[k].x_end as int);
                }
            }
            assert forall|i: int, j: int|
                0 <= i < cr.len() && 0 <= j < cr.len() && i != j implies !(#[trigger] cr[i]).spec_intersect(
                #[trigger] cr[j],
            ) by {
                if i < before.len() && j < before.len() {
                    assert(!before[i].spec_intersect(before[j]));
                } else if i < before.len() {
                    assert(before[i].x_end <= start);
                } else {
                    assert(before[j].x_end <= start);
                }
            }
            assert forall|c: int|
                0 <= c < run_start(pixels, width, y, x) && #[trigger] visible(
                    pixels,
                    width,
                    c,
                    y,
                ) implies covered_by(cr, c, y) by {
                if c < start {
                    assert(covered_by(before, c, y));
                    let k = choose|k: int|
                        0 <= k < before.len() && (#[trigger] before[k]).contains(c, y);
                    assert(cr[k].contains(c, y));
                } else {
                    assert(cr[before.len() as int].contains(c, y));
                }
            }
        } else {
            assert(cr == before);
            assert forall|k: int| 0 <= k < cr.len() implies is_closed_run(
                pixels,
                width,
                y,
                x,
                #[trigger] cr[k],
            ) by {
                assert(is_closed_run(pixels, width, y, x - 1, before[k]));
            }
        }
    }
}

/// The runs of one row are runs of the image, do not overlap, cover the
/// visible pixels of the row and count no more pixels than the row has.
proof fn lemma_row_runs(pixels: Seq<u8>, width: int, height: int, y: int)
    requires
        0 <= width <= usize::MAX,
        0 <= y < height <= usize::MAX,
    ensures
        forall|k: int|
            0 <= k < row_runs(pixels, width, y).len() ==> is_run(
                pixels,
                width,
                height,
                #[trigger] row_runs(pixels, width, y)[k],
            ) && row_runs(pixels, width, y)[k].y == y,
        pairwise_disjoint(row_runs(pixels, width, y)),
        forall|c: int|
            0 <= c < width && #[trigger] visible(pixels, width, c, y) ==> covered_by(
                row_runs(pixels, width, y),
                c,
                y,
            ),
        0 <= total_used(row_runs(pixels, width, y)) <= width,
{
    let closed = closed_runs(pixels, width, y, width);
    let row = row_runs(pixels, width, y);
    let start = run_start(pixels, width, y, width);
    lemma_closed_runs(pixels, width, y, width);
    lemma_run_start_bounds(pixels, width, y, width);
    assert forall|k: int| 0 <= k < closed.len() implies is_run(
        pixels,
        width,
        height,
        #[trigger] closed[k],
    ) && closed[k].y == y by {
        assert(is_closed_run(pixels, width, y, width, closed[k]));
    }
    if width > 0 && visible(pixels, width, width - 1, y) {
        let run = run_rect(start, width, y);
        assert(row == closed.push(run));
        lemma_total_used_push(closed, run);
        assert forall|c: int| start <= c < width implies #[trigger] visible(
            pixels,
            width,
            c,
            y,
        ) by {
            lemma_run_all_visible(pixels, width, y, width, c);
        }
        assert(is_run(pixels, width, height, run));
        assert forall|k: int| 0 <= k < closed.len() implies (#[trigger] closed[k]).x_end
            <= start by {
            assert(is_closed_run(pixels, width, y, width, closed[k]));
            if start < closed[k].x_end {
                lemma_run_all_visible(pixels, width, y, width, closed[k].x_end as int);
            }
        }
        assert forall|i: int, j: int|
            0 <= i < row.len() && 0 <= j < row.len() && i != j implies !(#[trigger] row[i]).spec_intersect(
            #[trigger] row[j],
        ) by {
            if i < closed.len() && j < closed.len() {
                assert(!closed[i].spec_intersect(closed[j]));
            } else if i < closed.len() {
                assert(closed[i].x_end <= start);
            } else {
                assert(closed[j].x_end <= start);
            }
        }
        assert forall|c: int|
            0 <= c < width && #[trigger] visible(pixels, width, c, y) implies covered_by(
            row,
            c,
            y,
        ) by {
            if c < start {
                assert(covered_by(closed, c, y));
                let k = choose|k: int|
                    0 <= k < closed.len() && (#[trigger] closed[k]).contains(c, y);
                assert(row[k].contains(c, y));
            } else {
                assert(row[closed.len() as int].contains(c, y));
            }
        }
    } else {
        assert(row == closed);
        assert(start == width);
    }
}

/// The runs of an image are runs of it, hold at least one pixel each, do not
/// overlap, cover every visible pixel, and count no more pixels than the
/// image has.
pub proof fn lemma_image_runs(pixels: Seq<u8>, width: int, height: int)
    requires
        0 <= width <= usize::MAX,
        0 <= height <= usize::MAX,
    ensures
        forall|k: int|
            0 <= k < image_runs(pixels, width, height).len() ==> is_run(
                pixels,
                width,
                height,
                #[trigger] image_runs(pixels, width, height)[k],
            ),
        all_wf(image_runs(pixels, width, height)),
        all_dense(image_runs(pixels, width, height)),
        pairwise_disjoint(image_runs(pixels, width, height)),
        covers_visible(image_runs(pixels, width, height), pixels, width, height),
        0 <= total_used(image_runs(pixels, width, height)) <= width * height,
    decreases height,
{
    let all = image_runs(pixels, width, height);
    if height > 0 {
        let above = image_runs(pixels, width, height - 1);
        let row = row_runs(pixels, width, height - 1);
        lemma_image_runs(pixels, width, height - 1);
        lemma_row_runs(pixels, width, height, height - 1);
        lemma_total_used_concat(above, row);
        assert(width * height == width * (height - 1) + width) by (nonlinear_arith);
        assert forall|k: int| 0 <= k < all.len() implies is_run(
            pixels,
            width,
            height,
            #[trigger] all[k],
        ) by {
            if k < above.len() {
                assert(is_run(pixels, width, height - 1, above[k]));
            } else {
                assert(all[k] == row[k - above.len()]);
            }
        }
        assert forall|i: int, j: int|
            0 <= i < all.len() && 0 <= j < all.len() && i != j implies !(#[trigger] all[i]).spec_intersect(
            #[trigger] all[j],
        ) by {
            if i < above.len() && j < above.len() {
                assert(!above[i].spec_intersect(above[j]));
            } else if i < above.len() {
                assert(is_run(pixels, width, height - 1, above[i]));
                assert(all[j] == row[j - above.len()]);
            } else if j < above.len() {
                assert(is_run(pixels, width, height - 1, above[j]));
                assert(all[i] == row[i - above.len()]);
            } else {
                assert(!row[i - above.len()].spec_intersect(row[j - above.len()]));
            }
        }
        assert forall|px: int, py: int|
            0 <= px < width && 0 <= py < height && #[trigger] visible(
                pixels,
                width,
                px,
                py,
            ) implies covered_by(all, px, py) by {
            if py < height - 1 {
                assert(covered_by(above, px, py));
                let k = choose|k: int|
                    0 <= k < above.len() && (#[trigger] above[k]).contains(px, py);
                assert(all[k].contains(px, py));
            } else {
                assert(covered_by(row, px, py));
                let k = choose|k: int| 0 <= k < row.len() && (#[trigger] row[k]).contains(px, py);
                assert(all[above.len() + k].contains(px, py));
            }
        }
    } else {
        assert(width * height == 0) by (nonlinear_arith)
            requires
                height == 0,
        ;
    }
    assert forall|k: int| 0 <= k < all.len() implies (#[trigger] all[k]).used_pixels
        <= all[k].spec_area() by {
        assert(is_run(pixels, width, height, all[k]));
        assert(all[k].spec_height() == 1);
        assert(all[k].spec_width() * 1 == all[k].spec_width());
    }
}

/// Scans row `y`, whose first byte is at `at`: feeds each pixel to the hasher
/// and appends the row's runs. Returns where the next row begins.
fn scan_row(
    pixels: &[u8],
    width: usize,
    height: usize,
    y: usize,
    at: usize,
    hasher: &mut crc32fast::Hasher,
    rects: &mut Vec<Rect>,
) -> (next: usize)
    requires
        pixels@.len() == width * height * 4,
        y < height,
        at == y * width * 4,
        fed(*old(hasher)) == pixels@.subrange(0, at as int),
    ensures
        next == (y + 1) * width * 4,
        fed(*final(hasher)) == pixels@.subrange(0, next as int),
        final(rects)@ == old(rects)@ + row_runs(pixels@, width as int, y as int),
{
    let ghost before = rects@;
    let mut x: usize = 0;
    let mut x_start: usize = 0;
    let mut was_visible = false;
    let mut at = at;
    assert(rects@ =~= before + closed_runs(pixels@, width as int, y as int, 0));
    while x < width
        invariant
            x <= width,
            y < height,
            pixels@.len() == width * height * 4,
            at == (y * width + x) * 4,
            fed(*hasher) == pixels@.subrange(0, at as int),
            rects@ == before + closed_runs(pixels@, width as int, y as int, x as int),
            was_visible == (x > 0 && visible(pixels@, width as int, x - 1, y as int)),
            was_visible ==> x_start == run_start(pixels@, width as int, y as int, x as int),
        decreases width - x,
    {
        proof {
            lemma_pixel_in_buffer(width as int, height as int, x as int, y as int);
            lemma_run_start_bounds(pixels@, width as int, y as int, x as int);
        }
        let is_visible = pixels[at + 3] != 0;
        assert(is_visible == visible(pixels@, width as int, x as int, y as int));
        hasher.update(slice_subrange(pixels, at, at + 4));
        assert(pixels@.subrange(0, at as int) + pixels@.subrange(at as int, at + 4)
            =~= pixels@.subrange(0, at + 4));
        if is_visible != was_visible {
            if was_visible {
                let ghost closed = closed_runs(pixels@, width as int, y as int, x as int);
                let run = Rect {
                    x: x_start,
                    y,
                    x_end: x,
                    y_end: y + 1,
                    used_pixels: x - x_start,
                };
                assert(run == run_rect(x_start as int, x as int, y as int));
                rects.push(run);
                assert(rects@ =~= before + closed.push(run));
            }
            x_start = x;
            was_visible = is_visible;
        }
        x += 1;
        at += 4;
    }
    if was_visible {
        proof {
            lemma_run_start_bounds(pixels@, width as int, y as int, x as int);
        }
        let ghost closed = closed_runs(pixels@, width as int, y as int, x as int);
        let run = Rect { x: x_start, y, x_end: width, y_end: y + 1, used_pixels: width - x_start };
        assert(run == run_rect(x_start as int, width as int, y as int));
        rects.push(run);
        assert(rects@ =~= before + closed.push(run));
    }
    assert((y + 1) * width * 4 == (y * width + width) * 4) by (nonlinear_arith);
    at
}

/// The runs of visible pixels of the image, row by row and from left to
/// right, each as a rectangle of height one, and the CRC-32 checksum of the
/// whole buffer.
pub fn extract_runs(pixels: &[u8], width: usize, height: usize) -> (out: (Vec<Rect>, u32))
    requires
        pixels@.len() == width * height * 4,
    ensures
        out.0@ == image_runs(pixels@, width as int, height as int),
        out.1 == crc32(pixels@),
        forall|k: int|
            0 <= k < out.0@.len() ==> is_run(
                pixels@,
                width as int,
                height as int,
                #[trigger] out.0@[k],
            ),
        all_wf(out.0@),
        all_dense(out.0@),
        pairwise_disjoint(out.0@),
        covers_visible(out.0@, pixels@, width as int, height as int),
        total_used(out.0@) <= width * height,
{
    proof {
        lemma_image_runs(pixels@, width as int, height as int);
    }
    let mut hasher = crc32fast::Hasher::new();
    let mut rects: Vec<Rect> = Vec::new();
    let mut y: usize = 0;
    let mut at: usize = 0;
    assert(pixels@.subrange(0, 0) =~= Seq::<u8>::empty());
    while y < height
        invariant
            y <= height,
            pixels@.len() == width * height * 4,
            at == y * width * 4,
            fed(hasher) == pixels@.subrange(0, at as int),
            rects@ == image_runs(pixels@, width as int, y as int),
        decreases height - y,
    {
        at = scan_row(pixels, width, height, y, at, &mut hasher, &mut rects);
        y += 1;
    }
    assert(height * width * 4 == width * height * 4) by (nonlinear_arith);
    assert(pixels@.subrange(0, at as int) =~= pixels@);
    (rects, hasher.finalize())
}

} // verus!
