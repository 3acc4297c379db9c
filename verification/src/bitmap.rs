//! The glyph bitmap that a rasterizer hands to the atlas.

use crate::arith::mul_u32;
use vstd::prelude::*;

verus! {

/// A rasterized glyph: `height` rows of `width` pixels, `depth` bytes per
/// pixel. Row `r` starts at byte `r * stride` of `pixels`; a rasterizer may
/// align its rows, so `stride` can be more than `width * depth`.
#[derive(Clone, Debug)]
pub struct Bitmap {
    pub width: u32,
    pub height: u32,
    pub stride: u32,
    pub depth: u32,
    pub pixels: Vec<u8>,
}

/// A bitmap as a mathematical value.
pub struct BitmapView {
    /// The number of pixels of one row.
    pub width: u32,
    /// The number of rows.
    pub height: u32,
    /// The number of bytes from the start of one row to the start of the
    /// next.
    pub stride: u32,
    /// The number of bytes of one pixel.
    pub depth: u32,
    /// The bytes of the pixels.
    pub pixels: Seq<u8>,
}

impl BitmapView {
    /// The number of bytes of one row of pixels.
    pub open spec fn row_bytes(self) -> int {
        self.width * self.depth
    }

    /// The pixel data is as large as the dimensions say: every row is inside
    /// `pixels` and no row runs into the next.
    pub open spec fn consistent(self) -> bool {
        &&& self.row_bytes() <= self.stride
        &&& self.height * self.stride <= self.pixels.len()
    }

    /// The byte at `offset` in row `row`.
    pub open spec fn byte_at(self, row: int, offset: int) -> u8 {
        self.pixels[row * self.stride + offset]
    }
}

impl View for Bitmap {
    type V = BitmapView;

    open spec fn view(&self) -> BitmapView {
        BitmapView {
            width: self.width,
            height: self.height,
            stride: self.stride,
            depth: self.depth,
            pixels: self.pixels@,
        }
    }
}

impl Bitmap {
    /// Checks that the pixel data is as large as the dimensions say.
    pub fn is_consistent(&self) -> (r: bool)
        ensures
            r == self@.consistent(),
    {
        let row_bytes: u64 = mul_u32(self.width, self.depth);
        let needed: u64 = mul_u32(self.height, self.stride);
        row_bytes <= self.stride as u64 && needed <= self.pixels.len() as u64
    }
}

} // verus!
