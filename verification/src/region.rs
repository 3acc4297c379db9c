//! The rectangle that the atlas hands out for one glyph.

use vstd::prelude::*;

verus! {

/// A rectangle of the atlas, in pixels. It holds the glyph and one pixel of
/// padding on the right and at the bottom.
#[derive(Clone, Copy, Debug, PartialEq, Eq, Structural)]
pub struct AssignedRegion {
    pub x: u32,
    pub y: u32,
    pub width: u32,
    pub height: u32,
}

impl AssignedRegion {
    /// The first column to the right of the region.
    pub open spec fn right(self) -> int {
        self.x + self.width
    }

    /// The first row below the region.
    pub open spec fn bottom(self) -> int {
        self.y + self.height
    }

    /// The two rectangles share at least one pixel.
    pub open spec fn overlaps(self, other: AssignedRegion) -> bool {
        &&& self.x < other.right()
        &&& other.x < self.right()
        &&& self.y < other.bottom()
        &&& other.y < self.bottom()
    }

    /// The region lies inside a surface of `width` by `height` pixels.
    pub open spec fn within(self, width: int, height: int) -> bool {
        &&& self.right() <= width
        &&& self.bottom() <= height
    }

    /// The number of pixels of the region, padding included.
    pub open spec fn area(self) -> int {
        self.width * self.height
    }

    /// The number of pixels of the glyph itself, without the padding.
    pub open spec fn glyph_area(self) -> int {
        (self.width - 1) * (self.height - 1)
    }

    /// Whether two regions share a pixel.
    pub fn intersects(&self, other: &AssignedRegion) -> (r: bool)
        ensures
            r == self.overlaps(*other),
    {
        (self.x as u64) < other.x as u64 + other.width as u64
            && (other.x as u64) < self.x as u64 + self.width as u64
            && (self.y as u64) < other.y as u64 + other.height as u64
            && (other.y as u64) < self.y as u64 + self.height as u64
    }
}

} // verus!
