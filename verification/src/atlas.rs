//! The glyph atlas: one pixel buffer into which glyph bitmaps are packed one
//! at a time, each in a region of its own.

use crate::arith::mul_u32;
use crate::bitmap::{Bitmap, BitmapView};
use crate::blit::{copied, copy_region, holds_glyph};
use crate::packing::{lemma_data_used_bounded, lemma_place_keeps_wf, lemma_region_on};
use crate::region::AssignedRegion;
use crate::skyline::{
    area_below, best_fit, find_best, last_under, raise, raised, rest_row, skyline_wf, Segment,
};
use std::collections::HashMap;
use vstd::prelude::*;

verus! {

/// Why a bitmap was not added to the atlas.
#[derive(Clone, Copy, Debug, PartialEq, Eq, Structural)]
pub enum AtlasError {
    /// No place is left that is wide and high enough for the bitmap and its
    /// padding.
    NoSpace,
    /// The bitmap is larger than the atlas, has another pixel depth, or holds
    /// less pixel data than its dimensions say.
    InvalidBitmap,
}

/// The sum of the areas of the regions, padding included.
pub open spec fn total_area(regions: Seq<AssignedRegion>) -> int
    decreases regions.len(),
{
    if regions.len() == 0 {
        0
    } else {
        total_area(regions.drop_last()) + regions.last().area()
    }
}

/// The sum of the areas of the glyphs in the regions, without the padding.
pub open spec fn total_glyph_area(regions: Seq<AssignedRegion>) -> int
    decreases regions.len(),
{
    if regions.len() == 0 {
        0
    } else {
        total_glyph_area(regions.drop_last()) + regions.last().glyph_area()
    }
}

/// No two of the regions share a pixel.
pub open spec fn pairwise_disjoint(regions: Seq<AssignedRegion>) -> bool {
    forall|i: int, j: int|
        0 <= i < j < regions.len() ==> !(#[trigger] regions[i]).overlaps(#[trigger] regions[j])
}

/// Every region lies below the skyline: wherever a segment shares a column
/// with a region, the segment's row is at or below the region's bottom.
pub open spec fn under_skyline(regions: Seq<AssignedRegion>, segs: Seq<Segment>) -> bool {
    forall|i: int, k: int|
        0 <= i < regions.len() && 0 <= k < segs.len() && (#[trigger] regions[i]).x
            < (#[trigger] segs[k]).end() && segs[k].x < regions[i].right() ==> regions[i].bottom()
            <= segs[k].y
}

/// Every region is at least one pixel wide and high and keeps the margin of
/// one pixel to the left, top and right edge of the surface.
pub open spec fn inside_margin(regions: Seq<AssignedRegion>, width: int, height: int) -> bool {
    forall|i: int|
        0 <= i < regions.len() ==> {
            &&& 1 <= (#[trigger] regions[i]).x
            &&& 1 <= regions[i].y
            &&& 1 <= regions[i].width
            &&& 1 <= regions[i].height
            &&& regions[i].right() <= width - 1
            &&& regions[i].bottom() <= height
        }
}

/// Region `i` was made for bitmap `i` and the buffer still holds that
/// bitmap there, for every region handed out.
pub open spec fn glyphs_intact(
    buffer: Seq<u8>,
    width: int,
    depth: int,
    regions: Seq<AssignedRegion>,
    bitmaps: Seq<BitmapView>,
) -> bool {
    &&& bitmaps.len() == regions.len()
    &&& forall|i: int|
        0 <= i < bitmaps.len() ==> {
            &&& (#[trigger] bitmaps[i]).depth == depth
            &&& regions[i].width == bitmaps[i].width + 1
            &&& regions[i].height == bitmaps[i].height + 1
            &&& holds_glyph(buffer, width, regions[i], bitmaps[i])
        }
}

/// The atlas as a mathematical value.
pub struct AtlasView {
    /// The width of the surface in pixels.
    pub width: u32,
    /// The height of the surface in pixels.
    pub height: u32,
    /// The number of bytes of one pixel.
    pub depth: u32,
    /// The pixels, row by row.
    pub buffer: Seq<u8>,
    /// The number of glyph bytes copied so far.
    pub data_used: nat,
    /// The skyline, from left to right.
    pub segments: Seq<Segment>,
    /// The region of each glyph, by its character.
    pub glyph_map: Map<char, AssignedRegion>,
    /// Every region handed out so far, in the order of the calls.
    pub placed: Seq<AssignedRegion>,
    /// The bitmap that each of these regions was handed out for.
    pub sources: Seq<BitmapView>,
}

impl AtlasView {
    /// The atlas of the given size with nothing in it.
    pub open spec fn empty(width: u32, height: u32, depth: u32) -> AtlasView {
        AtlasView {
            width,
            height,
            depth,
            buffer: Seq::new((width * height * depth) as nat, |p: int| 0u8),
            data_used: 0,
            segments: seq![Segment { x: 1, y: 1, width: (width - 2) as u32 }],
            glyph_map: Map::empty(),
            placed: Seq::empty(),
            sources: Seq::empty(),
        }
    }

    /// The invariant of the atlas.
    pub open spec fn wf(self) -> bool {
        &&& self.width >= 3
        &&& self.height >= 3
        &&& self.buffer.len() == self.width * self.height * self.depth
        &&& skyline_wf(self.segments, self.width as int, self.height as int)
        &&& inside_margin(self.placed, self.width as int, self.height as int)
        &&& under_skyline(self.placed, self.segments)
        &&& pairwise_disjoint(self.placed)
        &&& total_area(self.placed) <= area_below(self.segments)
        &&& self.data_used == total_glyph_area(self.placed) * self.depth
        &&& forall|c: char| #[trigger]
            self.glyph_map.contains_key(c) ==> self.placed.contains(self.glyph_map[c])
        &&& glyphs_intact(
            self.buffer,
            self.width as int,
            self.depth as int,
            self.placed,
            self.sources,
        )
    }

    /// The atlas takes the bitmap at all: it is no larger than the surface,
    /// has the atlas's pixel depth, and holds the pixel data it declares.
    pub open spec fn accepts(self, bitmap: BitmapView) -> bool {
        &&& bitmap.width <= self.width
        &&& bitmap.height <= self.height
        &&& bitmap.depth == self.depth
        &&& bitmap.consistent()
    }

    /// The segment on which the search stands the bitmap with its padding,
    /// if it fits anywhere.
    pub open spec fn choice(self, bitmap: BitmapView) -> Option<int> {
        best_fit(
            self.segments,
            bitmap.width + 1,
            bitmap.height + 1,
            self.width as int,
            self.height as int,
        )
    }

    /// The region of a bitmap that stands on segment `first`.
    pub open spec fn region_on(self, bitmap: BitmapView, first: int) -> AssignedRegion {
        AssignedRegion {
            x: self.segments[first].x,
            y: rest_row(self.segments, first, bitmap.width + 1) as u32,
            width: (bitmap.width + 1) as u32,
            height: (bitmap.height + 1) as u32,
        }
    }

    /// The atlas after the bitmap has been placed on segment `first` under
    /// the given character.
    pub open spec fn place(self, character: char, bitmap: BitmapView, first: int) -> AtlasView {
        let region = self.region_on(bitmap, first);
        AtlasView {
            width: self.width,
            height: self.height,
            depth: self.depth,
            buffer: copied(self.buffer, self.width as int, self.depth as int, region, bitmap),
            data_used: (self.data_used + bitmap.width * bitmap.height * self.depth) as nat,
            segments: raised(
                self.segments,
                first,
                last_under(self.segments, first, bitmap.width + 1),
                region.bottom(),
            ),
            glyph_map: self.glyph_map.insert(character, region),
            placed: self.placed.push(region),
            sources: self.sources.push(bitmap),
        }
    }

    /// What `add_glyph` returns.
    pub open spec fn add_glyph_result(self, bitmap: BitmapView) -> Result<AssignedRegion, AtlasError> {
        if !self.accepts(bitmap) {
            Err(AtlasError::InvalidBitmap)
        } else {
            match self.choice(bitmap) {
                Some(first) => Ok(self.region_on(bitmap, first)),
                None => Err(AtlasError::NoSpace),
            }
        }
    }

    /// The atlas after `add_glyph`: with the bitmap placed where the search
    /// chose, or unchanged where the call fails.
    pub open spec fn after_add_glyph(self, character: char, bitmap: BitmapView) -> AtlasView {
        if !self.accepts(bitmap) {
            self
        } else {
            match self.choice(bitmap) {
                Some(first) => self.place(character, bitmap, first),
                None => self,
            }
        }
    }
}

/// Two characters with the same code point are the same character.
proof fn lemma_char_code(a: char, b: char)
    ensures
        a as u32 == b as u32 <==> a == b,
{
}

/// A texture atlas for glyphs. The surface has a fixed size; each bitmap gets
/// a region of its own, found by a best-fit search along the skyline, and is
/// copied there. Nothing is ever removed.
pub struct Atlas {
    pixel_width: u32,
    pixel_height: u32,
    pixel_depth: u32,
    data_used: usize,
    buffer: Vec<u8>,
    segments: Vec<Segment>,
    glyph_map: HashMap<u32, AssignedRegion>,
    placed: Ghost<Seq<AssignedRegion>>,
    sources: Ghost<Seq<BitmapView>>,
}

impl View for Atlas {
    type V = AtlasView;

    closed spec fn view(&self) -> AtlasView {
        AtlasView {
            width: self.pixel_width,
            height: self.pixel_height,
            depth: self.pixel_depth,
            buffer: self.buffer@,
            data_used: self.data_used as nat,
            segments: self.segments@,
            glyph_map: Map::new(
                |c: char| self.glyph_map@.contains_key(c as u32),
                |c: char| self.glyph_map@[c as u32],
            ),
            placed: self.placed@,
            sources: self.sources@,
        }
    }
}

impl Atlas {
    /// The invariant of the atlas, which every function of it keeps.
    pub open spec fn wf(&self) -> bool {
        self@.wf()
    }

    /// An empty atlas of `width` by `height` pixels with `depth` bytes per
    /// pixel: the buffer is all zero and the skyline is one segment at row 1
    /// between the left and the right margin.
    pub fn new(width: u32, height: u32, depth: u32) -> (atlas: Atlas)
        requires
            width >= 3,
            height >= 3,
            width * height * depth <= usize::MAX,
        ensures
            atlas.wf(),
            atlas@ == AtlasView::empty(width, height, depth),
    {
        let size: usize = if depth == 0 {
            assert(width * height * depth == 0) by (nonlinear_arith)
                requires
                    depth == 0,
            ;
            0
        } else {
            assert(width * height <= width * height * depth) by (nonlinear_arith)
                requires
                    depth >= 1,
            ;
            width as usize * height as usize * depth as usize
        };
        let mut segments: Vec<Segment> = Vec::new();
        segments.push(Segment { x: 1, y: 1, width: width - 2 });
        let atlas = Atlas {
            pixel_width: width,
            pixel_height: height,
            pixel_depth: depth,
            data_used: 0,
            buffer: vec![0u8; size],
            segments,
            glyph_map: HashMap::new(),
            placed: Ghost(Seq::empty()),
            sources: Ghost(Seq::empty()),
        };
        proof {
            let v = atlas@;
            let e = AtlasView::empty(width, height, depth);
            assert(v.buffer =~= e.buffer);
            assert(v.segments =~= e.segments);
            assert(v.glyph_map =~= e.glyph_map);
            assert(v.placed =~= e.placed);
            assert(v.sources =~= e.sources);
            assert(area_below(v.segments.drop_last()) == 0);
            assert(area_below(v.segments) >= 0) by (nonlinear_arith)
                requires
                    area_below(v.segments) == 0 + v.segments.last().width * (v.segments.last().y
                        - 1),
                    v.segments.last().y == 1,
            ;
        }
        atlas
    }

    /// Packs one glyph: finds the place where the bitmap, with one pixel of
    /// padding to the right and below, rests lowest on the skyline, raises
    /// the skyline over it, copies the pixels there and records the region
    /// under the character. A bitmap that the atlas cannot take at all gives
    /// `InvalidBitmap`, one for which no place is left gives `NoSpace`; in
    /// both cases the atlas stays as it was.
    pub fn add_glyph(&mut self, character: char, bitmap: &Bitmap) -> (result: Result<
        AssignedRegion,
        AtlasError,
    >)
        requires
            old(self).wf(),
        ensures
            final(self).wf(),
            result == old(self)@.add_glyph_result(bitmap@),
            final(self)@ == old(self)@.after_add_glyph(character, bitmap@),
            result is Err ==> final(self)@ == old(self)@,
            result matches Ok(region) ==> {
                &&& region.width == bitmap.width + 1
                &&& region.height == bitmap.height + 1
                &&& 1 <= region.x
                &&& 1 <= region.y
                &&& region.right() <= old(self)@.width - 1
                &&& region.within(old(self)@.width as int, old(self)@.height as int)
                &&& forall|i: int|
                    0 <= i < old(self)@.placed.len() ==> !region.overlaps(
                        #[trigger] old(self)@.placed[i],
                    )
                &&& final(self)@.placed == old(self)@.placed.push(region)
                &&& final(self)@.glyph_map == old(self)@.glyph_map.insert(character, region)
                &&& holds_glyph(
                    final(self)@.buffer,
                    old(self)@.width as int,
                    region,
                    bitmap@,
                )
            },
            old(self)@.data_used <= final(self)@.data_used <= final(self)@.buffer.len(),
    {
        broadcast use vstd::std_specs::hash::group_hash_axioms;

        let ghost before = self@;
        let total: usize = self.buffer.len();
        proof {
            lemma_data_used_bounded(before);
        }
        if bitmap.width > self.pixel_width || bitmap.height > self.pixel_height || bitmap.depth
            != self.pixel_depth || !bitmap.is_consistent() {
            return Err(AtlasError::InvalidBitmap);
        }
        let rw: u64 = bitmap.width as u64 + 1;
        let rh: u64 = bitmap.height as u64 + 1;
        let found = find_best(&self.segments, rw, rh, self.pixel_width, self.pixel_height);
        match found {
            None => Err(AtlasError::NoSpace),
            Some(p) => {
                let ghost after = before.place(character, bitmap@, p.first as int);
                proof {
                    lemma_place_keeps_wf(before, character, bitmap@, p.first as int);
                    lemma_region_on(before, bitmap@, p.first as int);
                    lemma_data_used_bounded(after);
                }
                let region = AssignedRegion {
                    x: self.segments[p.first].x,
                    y: p.row,
                    width: rw as u32,
                    height: rh as u32,
                };
                assert(region == before.region_on(bitmap@, p.first as int));
                raise(&mut self.segments, p.first, p.last, p.row + rh as u32);
                self.add_bitmap_to_texture_data(bitmap, region);
                proof {
                    assert(after.buffer.len() == total);
                    assert(bitmap.width * bitmap.height * self.pixel_depth
                        == after.data_used - before.data_used);
                    assert(bitmap.width * bitmap.height * self.pixel_depth <= total);
                }
                let glyph_bytes: u64 = mul_u32(bitmap.width, bitmap.height)
                    * self.pixel_depth as u64;
                self.data_used = self.data_used + glyph_bytes as usize;
                self.glyph_map.insert(character as u32, region);
                self.placed = Ghost(self.placed@.push(region));
                self.sources = Ghost(self.sources@.push(bitmap@));
                proof {
                    assert(self.glyph_map@ == old(self).glyph_map@.insert(character as u32, region));
                    let now = self@.glyph_map;
                    assert forall|c: char|
                        #![trigger now.dom().contains(c)]
                        #![trigger after.glyph_map.dom().contains(c)]
                        now.dom().contains(c) == after.glyph_map.dom().contains(c) && (
                        now.dom().contains(c) ==> now[c] == after.glyph_map[c]) by {
                        lemma_char_code(c, character);
                    }
                    assert(self@.glyph_map =~= after.glyph_map);
                    assert(self@.segments == after.segments);
                    assert(self@.buffer == after.buffer);
                    assert(self@.placed == after.placed);
                    assert(self@.sources == after.sources);
                    assert(after.sources[before.placed.len() as int] == bitmap@);
                    assert(self@.data_used == after.data_used);
                    assert(self@ == after);
                }
                Ok(region)
            },
        }
    }

    /// The width of the surface in pixels.
    pub fn pixel_width(&self) -> (width: u32)
        ensures
            width == self@.width,
    {
        self.pixel_width
    }

    /// The height of the surface in pixels.
    pub fn pixel_height(&self) -> (height: u32)
        ensures
            height == self@.height,
    {
        self.pixel_height
    }

    /// The number of bytes of one pixel.
    pub fn pixel_depth(&self) -> (depth: u32)
        ensures
            depth == self@.depth,
    {
        self.pixel_depth
    }

    /// The number of glyph bytes copied into the buffer so far.
    pub fn data_used(&self) -> (used: usize)
        ensures
            used == self@.data_used,
    {
        self.data_used
    }

    /// The pixels of the surface, row by row, for the texture to be made
    /// from.
    pub fn buffer(&self) -> (pixels: &Vec<u8>)
        ensures
            pixels@ == self@.buffer,
    {
        &self.buffer
    }

    /// The skyline, from left to right.
    pub fn segments(&self) -> (segments: &Vec<Segment>)
        ensures
            segments@ == self@.segments,
    {
        &self.segments
    }

    /// The region of the glyph last added under the character, if there is
    /// one.
    pub fn region_of(&self, character: char) -> (region: Option<AssignedRegion>)
        ensures
            region == if self@.glyph_map.contains_key(character) {
                Some(self@.glyph_map[character])
            } else {
                None
            },
    {
        broadcast use vstd::std_specs::hash::group_hash_axioms;

        let key: u32 = character as u32;
        match self.glyph_map.get(&key) {
            Some(region) => Some(*region),
            None => None,
        }
    }

    /// Copies the bitmap into its region of the pixel buffer and leaves the
    /// padding of the region as it is.
    fn add_bitmap_to_texture_data(&mut self, bitmap: &Bitmap, region: AssignedRegion)
        requires
            bitmap@.consistent(),
            bitmap.depth == old(self).pixel_depth,
            region.width == bitmap.width + 1,
            region.height == bitmap.height + 1,
            region.right() <= old(self).pixel_width,
            region.bottom() <= old(self).pixel_height,
            old(self).buffer@.len() == old(self).pixel_width * old(self).pixel_height * old(
                self,
            ).pixel_depth,
        ensures
            final(self).buffer@ == copied(
                old(self).buffer@,
                old(self).pixel_width as int,
                old(self).pixel_depth as int,
                region,
                bitmap@,
            ),
            final(self).pixel_width == old(self).pixel_width,
            final(self).pixel_height == old(self).pixel_height,
            final(self).pixel_depth == old(self).pixel_depth,
            final(self).data_used == old(self).data_used,
            final(self).segments == old(self).segments,
            final(self).glyph_map == old(self).glyph_map,
            final(self).placed == old(self).placed,
            final(self).sources == old(self).sources,
    {
        proof {
            let w = self.pixel_width as int;
            let h = self.pixel_height as int;
            let d = self.pixel_depth as int;
            assert(w * d * region.bottom() <= w * h * d) by (nonlinear_arith)
                requires
                    0 <= region.bottom() <= h,
                    0 <= w,
                    0 <= d,
            ;
        }
        copy_region(&mut self.buffer, self.pixel_width, self.pixel_depth, region, bitmap);
    }
}

} // verus!
