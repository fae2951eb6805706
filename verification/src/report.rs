//! The result as callers see it.

use crate::count::total_area;
use crate::cover::all_wf;
use crate::extract::visible;
use crate::rect::{Rect, MAX_RECT_SIZE};
use vstd::prelude::*;

verus! {

/// A rectangle of the result: its top-left pixel, its width and its height.
#[derive(Clone, Copy, Debug, PartialEq, Eq, Structural)]
pub struct Region {
    pub x: usize,
    pub y: usize,
    pub width: usize,
    pub height: usize,
}

/// The checksum of the pixel buffer and the rectangles that cover its
/// visible pixels.
#[derive(Debug)]
pub struct Report {
    pub hash: u32,
    pub rects: Vec<Region>,
}

impl Region {
    /// The region that a rectangle is reported as.
    pub open spec fn of(r: Rect) -> Region {
        Region {
            x: r.x,
            y: r.y,
            width: (r.x_end - r.x) as usize,
            height: (r.y_end - r.y) as usize,
        }
    }

    /// The pixel in column `px` and row `py` lies inside the region.
    pub open spec fn contains(self, px: int, py: int) -> bool {
        self.x <= px < self.x + self.width && self.y <= py < self.y + self.height
    }

    /// The two regions overlap in both extents. Touching edges do not count.
    pub open spec fn overlaps(self, other: Region) -> bool {
        self.x < other.x + other.width && self.x + self.width > other.x && self.y < other.y
            + other.height && self.y + self.height > other.y
    }

    /// Neither side is longer than a tile, and neither is empty.
    pub open spec fn is_tile(self) -> bool {
        0 < self.width <= MAX_RECT_SIZE && 0 < self.height <= MAX_RECT_SIZE
    }

    /// The region that a rectangle is reported as.
    pub fn from_rect(r: &Rect) -> (region: Region)
        requires
            r.wf(),
        ensures
            region == Region::of(*r),
    {
        Region { x: r.x, y: r.y, width: r.width(), height: r.height() }
    }
}

/// The regions that the rectangles of a collection are reported as, in order.
pub open spec fn regions_of(s: Seq<Rect>) -> Seq<Region> {
    Seq::new(s.len(), |k: int| Region::of(s[k]))
}

/// Every visible pixel of the image lies inside one of the regions.
pub open spec fn regions_cover_visible(
    regions: Seq<Region>,
    pixels: Seq<u8>,
    width: int,
    height: int,
) -> bool {
    forall|px: int, py: int|
        0 <= px < width && 0 <= py < height && #[trigger] visible(pixels, width, px, py)
            ==> exists|k: int| 0 <= k < regions.len() && (#[trigger] regions[k]).contains(px, py)
}

/// No two of the regions overlap.
pub open spec fn regions_disjoint(regions: Seq<Region>) -> bool {
    forall|a: int, b: int|
        0 <= a < regions.len() && 0 <= b < regions.len() && a != b ==> !(#[trigger] regions[a]).overlaps(
            #[trigger] regions[b],
        )
}

/// Every region is at most a tile in size and lies inside the image.
pub open spec fn regions_are_tiles(regions: Seq<Region>, width: int, height: int) -> bool {
    forall|k: int|
        0 <= k < regions.len() ==> (#[trigger] regions[k]).is_tile() && regions[k].x
            + regions[k].width <= width && regions[k].y + regions[k].height <= height
}

/// Sum of the areas of the regions.
pub open spec fn regions_area(regions: Seq<Region>) -> int
    decreases regions.len(),
{
    if regions.len() == 0 {
        0
    } else {
        regions_area(regions.drop_last()) + regions.last().width * regions.last().height
    }
}

/// Every pixel of the image is visible.
pub open spec fn all_opaque(pixels: Seq<u8>, width: int, height: int) -> bool {
    forall|px: int, py: int|
        0 <= px < width && 0 <= py < height ==> #[trigger] visible(pixels, width, px, py)
}

/// No pixel of the image is visible.
pub open spec fn all_transparent(pixels: Seq<u8>, width: int, height: int) -> bool {
    forall|px: int, py: int|
        0 <= px < width && 0 <= py < height ==> !#[trigger] visible(pixels, width, px, py)
}

/// The regions of well-formed rectangles have the areas of the rectangles.
pub proof fn lemma_regions_area(s: Seq<Rect>)
    requires
        all_wf(s),
    ensures
        regions_area(regions_of(s)) == total_area(s),
    decreases s.len(),
{
    if s.len() > 0 {
        let front = s.drop_last();
        assert(s.last() == s[s.len() - 1]);
        assert(s.last().wf());
        assert forall|k: int| 0 <= k < front.len() implies (#[trigger] front[k]).wf() by {
            assert(s[k].wf());
        }
        lemma_regions_area(front);
        assert(regions_of(s).drop_last() =~= regions_of(front));
    }
}

/// The regions of a collection of rectangles.
pub fn to_regions(rects: &Vec<Rect>) -> (regions: Vec<Region>)
    requires
        all_wf(rects@),
    ensures
        regions@ == regions_of(rects@),
{
    let mut regions: Vec<Region> = Vec::new();
    let mut k: usize = 0;
    while k < rects.len()
        invariant
            k <= rects.len(),
            all_wf(rects@),
            regions@.len() == k,
            forall|m: int| 0 <= m < k ==> #[trigger] regions@[m] == Region::of(rects@[m]),
        decreases rects.len() - k,
    {
        regions.push(Region::from_rect(&rects[k]));
        k += 1;
    }
    assert(regions@ =~= regions_of(rects@));
    regions
}

} // verus!
