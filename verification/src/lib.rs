//! Covers the visible pixels of an RGBA image with a bounded set of
//! axis-aligned rectangles and checksums the pixel buffer.
//!
//! The work is done in three stages. [`extract::extract_runs`] turns every
//! horizontal run of visible pixels into a rectangle of height one and
//! computes the checksum, [`merge::merge_rects`] greedily merges rectangles
//! while the wasted area stays within a budget, and [`split::split_rects`]
//! cuts whatever is larger than a tile. [`process`] runs the three in
//! sequence and reports the outcome.

pub mod checksum;
pub mod count;
pub mod cover;
pub mod extract;
pub mod merge;
pub mod rect;
pub mod report;
pub mod split;

use crate::checksum::crc32;
use crate::count::{lemma_cover_area, lemma_packed_area};
use crate::cover::{all_dense, all_within, all_wf, covered_by, lemma_held_covers, pairwise_disjoint};
use crate::extract::{
    covers_visible, extract_runs, image_runs, is_run, lemma_image_runs, visible,
};
use crate::merge::{lemma_merged, lemma_merged_dense, lemma_merged_within, merge_rects, merged};
use crate::rect::Rect;
use crate::report::{
    all_opaque, all_transparent, lemma_regions_area, regions_are_tiles, regions_area,
    regions_cover_visible, regions_disjoint, regions_of, to_regions, Report,
};
use crate::split::{lemma_split_from, split_all, split_rects};
use vstd::prelude::*;

verus! {

/// The rectangles that the three stages leave of an image.
pub open spec fn final_rects(pixels: Seq<u8>, width: int, height: int) -> Seq<Rect> {
    split_all(merged(image_runs(pixels, width, height)))
}

/// The rectangle of all pixels of an image.
pub open spec fn image_rect(width: int, height: int) -> Rect {
    Rect { x: 0, y: 0, x_end: width as usize, y_end: height as usize, used_pixels: 0 }
}

/// Whatever the image holds, the rectangles that are left of it hold at
/// least one pixel each, are no larger than a tile, lie inside the image,
/// do not overlap, and cover every visible pixel. Where no pixel is
/// visible, none is left.
pub proof fn lemma_final_rects(pixels: Seq<u8>, width: int, height: int)
    requires
        0 <= width <= usize::MAX,
        0 <= height <= usize::MAX,
        width * height <= usize::MAX,
    ensures
        all_wf(final_rects(pixels, width, height)),
        forall|k: int|
            0 <= k < final_rects(pixels, width, height).len() ==> (#[trigger] final_rects(
                pixels,
                width,
                height,
            )[k]).fits_tile(),
        all_within(final_rects(pixels, width, height), image_rect(width, height)),
        pairwise_disjoint(final_rects(pixels, width, height)),
        covers_visible(final_rects(pixels, width, height), pixels, width, height),
        all_transparent(pixels, width, height) ==> final_rects(pixels, width, height).len() == 0,
{
    let runs = image_runs(pixels, width, height);
    let big = merged(runs);
    let tiles = final_rects(pixels, width, height);
    let frame = image_rect(width, height);
    lemma_image_runs(pixels, width, height);
    assert forall|k: int| 0 <= k < runs.len() implies (#[trigger] runs[k]).within(frame) by {
        assert(is_run(pixels, width, height, runs[k]));
    }
    lemma_merged(runs);
    lemma_merged_within(runs, frame);
    lemma_split_from(big, 0);
    assert forall|k: int| 0 <= k < tiles.len() implies (#[trigger] tiles[k]).within(frame) by {
        let m = choose|m: int| 0 <= m < big.len() && tiles[k].within(#[trigger] big[m]);
        assert(big[m].within(frame));
    }
    assert forall|px: int, py: int|
        0 <= px < width && 0 <= py < height && #[trigger] visible(
            pixels,
            width,
            px,
            py,
        ) implies covered_by(tiles, px, py) by {
        assert(covered_by(runs, px, py));
        lemma_held_covers(runs, big, px, py);
    }
    if all_transparent(pixels, width, height) {
        if runs.len() > 0 {
            assert(is_run(pixels, width, height, runs[0]));
            assert(visible(pixels, width, runs[0].x as int, runs[0].y as int));
        }
    }
}

/// Until they are cut into tiles, the rectangles count no more pixels than
/// they have: no waste is negative.
pub proof fn lemma_merged_runs_dense(pixels: Seq<u8>, width: int, height: int)
    requires
        0 <= width <= usize::MAX,
        0 <= height <= usize::MAX,
        width * height <= usize::MAX,
    ensures
        all_dense(image_runs(pixels, width, height)),
        all_dense(merged(image_runs(pixels, width, height))),
{
    lemma_image_runs(pixels, width, height);
    lemma_merged_dense(image_runs(pixels, width, height));
}

/// The same bytes have the same checksum, whatever the size of the image
/// they are taken for.
pub proof fn lemma_checksum_stable(a: Seq<u8>, b: Seq<u8>)
    requires
        a =~= b,
    ensures
        crc32(a) == crc32(b),
{
}

/// A buffer of `len` bytes holds exactly an image of the given size, four
/// bytes for each pixel.
pub fn buffer_matches(len: usize, width: usize, height: usize) -> (ok: bool)
    ensures
        ok == (len == width * height * 4),
{
    match width.checked_mul(height) {
        None => false,
        Some(count) => match count.checked_mul(4) {
            None => false,
            Some(bytes) => bytes == len,
        },
    }
}

/// Whatever the image holds, the regions reported for it cover every
/// visible pixel, do not overlap, are at most a tile in size and lie inside
/// the image, so that their areas sum to no more than the image has. Where
/// every pixel is visible their areas sum to the area of the image, and
/// where none is there is no region.
pub proof fn lemma_report(pixels: Seq<u8>, width: int, height: int)
    requires
        0 <= width <= usize::MAX,
        0 <= height <= usize::MAX,
        width * height <= usize::MAX,
    ensures
        regions_cover_visible(
            regions_of(final_rects(pixels, width, height)),
            pixels,
            width,
            height,
        ),
        regions_disjoint(regions_of(final_rects(pixels, width, height))),
        regions_are_tiles(regions_of(final_rects(pixels, width, height)), width, height),
        regions_area(regions_of(final_rects(pixels, width, height))) <= width * height,
        all_opaque(pixels, width, height) ==> regions_area(
            regions_of(final_rects(pixels, width, height)),
        ) == width * height,
        all_transparent(pixels, width, height) ==> regions_of(
            final_rects(pixels, width, height),
        ).len() == 0,
{
    let tiles = final_rects(pixels, width, height);
    let regions = regions_of(tiles);
    let frame = image_rect(width, height);
    lemma_final_rects(pixels, width, height);
    lemma_regions_area(tiles);
    lemma_packed_area(tiles, frame);
    assert forall|m: int| 0 <= m < regions.len() implies (#[trigger] regions[m]).is_tile()
        && regions[m].x + regions[m].width <= width && regions[m].y + regions[m].height
        <= height by {
        assert(tiles[m].wf() && tiles[m].fits_tile() && tiles[m].within(frame));
    }
    assert forall|a: int, b: int|
        0 <= a < regions.len() && 0 <= b < regions.len() && a != b implies !(#[trigger] regions[a]).overlaps(
    #[trigger] regions[b]) by {
        assert(tiles[a].wf() && tiles[b].wf());
        assert(!tiles[a].spec_intersect(tiles[b]));
    }
    assert forall|px: int, py: int|
        0 <= px < width && 0 <= py < height && #[trigger] visible(
            pixels,
            width,
            px,
            py,
        ) implies exists|m: int|
        0 <= m < regions.len() && (#[trigger] regions[m]).contains(px, py) by {
        assert(covered_by(tiles, px, py));
        let m = choose|m: int| 0 <= m < tiles.len() && (#[trigger] tiles[m]).contains(px, py);
        assert(tiles[m].wf());
        assert(regions[m].contains(px, py));
    }
    if all_opaque(pixels, width, height) {
        assert forall|px: int, py: int| 0 <= px < width && 0 <= py < height implies covered_by(
            tiles,
            px,
            py,
        ) by {
            assert(visible(pixels, width, px, py));
        }
        lemma_cover_area(tiles, 0, width, 0, height);
    }
}

/// Checksums the pixel buffer of an image and covers its visible pixels,
/// those with a nonzero alpha byte, with rectangles: the runs of visible
/// pixels of each row, merged while the waste stays within the budget, and
/// cut into pieces no larger than a tile.
pub fn process(pixels: &[u8], width: usize, height: usize) -> (out: Report)
    requires
        pixels@.len() == width * height * 4,
    ensures
        out.hash == crc32(pixels@),
        out.rects@ == regions_of(final_rects(pixels@, width as int, height as int)),
        regions_cover_visible(out.rects@, pixels@, width as int, height as int),
        regions_disjoint(out.rects@),
        regions_are_tiles(out.rects@, width as int, height as int),
        regions_area(out.rects@) <= width * height,
        all_opaque(pixels@, width as int, height as int) ==> regions_area(out.rects@) == width
            * height,
        all_transparent(pixels@, width as int, height as int) ==> out.rects@.len() == 0,
{
    proof {
        assert(0 <= width * height) by (nonlinear_arith);
        assert(pixels.len() == pixels@.len());
        lemma_report(pixels@, width as int, height as int);
    }
    let found = extract_runs(pixels, width, height);
    let tiles = split_rects(merge_rects(found.0));
    Report { hash: found.1, rects: to_regions(&tiles) }
}

} // verus!
