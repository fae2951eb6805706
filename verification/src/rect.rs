//! The rectangle type shared by all stages, with its geometry.

use vstd::prelude::*;

verus! {

/// Largest width and height of a rectangle in the final output.
pub const MAX_RECT_SIZE: usize = 512;

/// Largest waste that a merge of two rectangles may have.
pub const MAX_MERGE_WASTE: usize = 8192;

/// An axis-aligned rectangle of pixels: columns `x..x_end`, rows `y..y_end`.
///
/// `used_pixels` counts the visible pixels that the rectangle was built from.
#[derive(Clone, Copy, Debug, PartialEq, Eq, Structural)]
pub struct Rect {
    pub x: usize,
    pub y: usize,
    pub x_end: usize,
    pub y_end: usize,
    pub used_pixels: usize,
}

impl Rect {
    /// A rectangle is well formed when it holds at least one pixel.
    pub open spec fn wf(self) -> bool {
        self.x < self.x_end && self.y < self.y_end
    }

    /// Number of columns.
    pub open spec fn spec_width(self) -> int {
        self.x_end - self.x
    }

    /// Number of rows.
    pub open spec fn spec_height(self) -> int {
        self.y_end - self.y
    }

    /// Number of pixels.
    pub open spec fn spec_area(self) -> int {
        self.spec_width() * self.spec_height()
    }

    /// Area that holds no counted pixel. Negative where more pixels were
    /// counted than the rectangle has room for.
    pub open spec fn spec_wasted(self) -> int {
        self.spec_area() - self.used_pixels
    }

    /// The pixel in column `px` and row `py` lies inside the rectangle.
    pub open spec fn contains(self, px: int, py: int) -> bool {
        self.x <= px < self.x_end && self.y <= py < self.y_end
    }

    /// Every pixel of the rectangle lies inside `outer`.
    pub open spec fn within(self, outer: Rect) -> bool {
        outer.x <= self.x && self.x_end <= outer.x_end && outer.y <= self.y && self.y_end
            <= outer.y_end
    }

    /// The two rectangles overlap in both extents. Touching edges do not count.
    pub open spec fn spec_intersect(self, other: Rect) -> bool {
        self.x < other.x_end && self.x_end > other.x && self.y < other.y_end && self.y_end
            > other.y
    }

    /// The bounding box of the two rectangles, counting the pixels of both.
    pub open spec fn spec_merge(self, other: Rect) -> Rect {
        Rect {
            x: if self.x <= other.x { self.x } else { other.x },
            y: if self.y <= other.y { self.y } else { other.y },
            x_end: if self.x_end >= other.x_end { self.x_end } else { other.x_end },
            y_end: if self.y_end >= other.y_end { self.y_end } else { other.y_end },
            used_pixels: (self.used_pixels + other.used_pixels) as usize,
        }
    }

    /// Neither side is longer than a tile.
    pub open spec fn fits_tile(self) -> bool {
        self.spec_width() <= MAX_RECT_SIZE && self.spec_height() <= MAX_RECT_SIZE
    }

    /// Number of columns.
    pub fn width(&self) -> (w: usize)
        requires
            self.wf(),
        ensures
            w == self.spec_width(),
    {
        self.x_end - self.x
    }

    /// Number of rows.
    pub fn height(&self) -> (h: usize)
        requires
            self.wf(),
        ensures
            h == self.spec_height(),
    {
        self.y_end - self.y
    }

    /// Number of pixels.
    pub fn area(&self) -> (a: usize)
        requires
            self.wf(),
            self.spec_area() <= usize::MAX,
        ensures
            a == self.spec_area(),
    {
        self.width() * self.height()
    }

    /// Area that holds no counted pixel.
    pub fn wasted(&self) -> (w: i128)
        requires
            self.wf(),
            self.spec_area() <= usize::MAX,
        ensures
            w == self.spec_wasted(),
    {
        self.area() as i128 - self.used_pixels as i128
    }

    /// Whether the two rectangles overlap in both extents.
    pub fn intersect(&self, other: &Rect) -> (hit: bool)
        ensures
            hit == self.spec_intersect(*other),
    {
        self.x < other.x_end && self.x_end > other.x && self.y < other.y_end && self.y_end
            > other.y
    }

    /// The bounding box of the two rectangles, counting the pixels of both.
    pub fn merge(&self, other: &Rect) -> (merged: Rect)
        requires
            self.used_pixels + other.used_pixels <= usize::MAX,
        ensures
            merged == self.spec_merge(*other),
    {
        Rect {
            x: if self.x <= other.x { self.x } else { other.x },
            y: if self.y <= other.y { self.y } else { other.y },
            x_end: if self.x_end >= other.x_end { self.x_end } else { other.x_end },
            y_end: if self.y_end >= other.y_end { self.y_end } else { other.y_end },
            used_pixels: self.used_pixels + other.used_pixels,
        }
    }
}

/// The bounding box holds both rectangles, and is well formed if one of them is.
pub proof fn lemma_merge_bounds(a: Rect, b: Rect)
    ensures
        a.within(a.spec_merge(b)),
        b.within(a.spec_merge(b)),
        a.wf() || b.wf() ==> a.spec_merge(b).wf(),
        a.spec_merge(b).x == b.spec_merge(a).x,
        a.spec_merge(b).x_end == b.spec_merge(a).x_end,
        a.spec_merge(b).y == b.spec_merge(a).y,
        a.spec_merge(b).y_end == b.spec_merge(a).y_end,
{
}

/// A tile-sized rectangle has at most `512 * 512` pixels.
pub proof fn lemma_tile_area(r: Rect)
    requires
        r.wf(),
        r.fits_tile(),
    ensures
        0 < r.spec_area() <= 262144,
{
    let w = r.spec_width();
    let h = r.spec_height();
    assert(0 < w * h <= 262144) by (nonlinear_arith)
        requires
            0 < w <= 512,
            0 < h <= 512,
    ;
}

} // verus!
