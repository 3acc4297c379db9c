//! Why placing a rectangle keeps the atlas in order: the proofs that the
//! raised skyline is again a skyline, that the new region meets no earlier
//! one, and that the regions never take more room than lies below the
//! skyline.

use crate::arith::lemma_mul_le;
use crate::atlas::{
    glyphs_intact, inside_margin, pairwise_disjoint, total_area, total_glyph_area, under_skyline,
    AtlasView,
};
use crate::bitmap::BitmapView;
use crate::blit::{copied, holds_glyph, lemma_copy_holds_glyph, lemma_copy_keeps_glyph};
use crate::region::AssignedRegion;
use crate::skyline::{
    area_below, contiguous, fits, last_under, lemma_contiguous_order, lemma_reach_is_margin,
    lemma_segment_at, lemma_span_last, lemma_span_top_bounds, merged, raised, rest_row,
    skyline_wf, span_top, Segment,
};
use vstd::prelude::*;

verus! {

/// The area below two lists of segments, one after the other, is the sum of
/// the two areas.
pub proof fn lemma_area_concat(a: Seq<Segment>, b: Seq<Segment>)
    ensures
        area_below(a + b) == area_below(a) + area_below(b),
    decreases b.len(),
{
    if b.len() == 0 {
        assert(a + b =~= a);
    } else {
        assert((a + b).drop_last() =~= a + b.drop_last());
        assert((a + b).last() == b.last());
        lemma_area_concat(a, b.drop_last());
    }
}

/// The area below contiguous segments that are all at or below row `top` is
/// at most that of the rectangle over the same columns up to `top`.
pub proof fn lemma_area_at_most(s: Seq<Segment>, top: int)
    requires
        s.len() >= 1,
        contiguous(s),
        forall|k: int| 0 <= k < s.len() ==> 1 <= (#[trigger] s[k]).y <= top,
    ensures
        0 <= area_below(s) <= (s.last().end() - s[0].x) * (top - 1),
        s[0].x <= s.last().end(),
    decreases s.len(),
{
    let t = s.drop_last();
    let l = s.last();
    lemma_mul_le(l.width as int, l.width as int, l.y - 1, top - 1);
    if s.len() == 1 {
        assert(area_below(t) == 0);
    } else {
        assert(contiguous(t)) by {
            assert forall|j: int, k: int| 0 <= j && k == j + 1 && k < t.len() implies (
            #[trigger] t[j]).end() == (#[trigger] t[k]).x by {
                assert(s[j].end() == s[k].x);
            }
        }
        assert forall|k: int| 0 <= k < t.len() implies 1 <= (#[trigger] t[k]).y <= top by {
            assert(t[k] == s[k]);
        }
        lemma_area_at_most(t, top);
        assert(t.last() == s[s.len() - 2]);
        assert(s[s.len() - 2].end() == s[s.len() - 1].x);
        assert((l.end() - s[0].x) * (top - 1) == (l.x - s[0].x) * (top - 1) + l.width * (top - 1))
            by (nonlinear_arith)
            requires
                l.end() == l.x + l.width,
        ;
    }
}

/// One more region adds its area to the sum.
pub proof fn lemma_total_area_push(regions: Seq<AssignedRegion>, region: AssignedRegion)
    ensures
        total_area(regions.push(region)) == total_area(regions) + region.area(),
        total_glyph_area(regions.push(region)) == total_glyph_area(regions) + region.glyph_area(),
{
    assert(regions.push(region).drop_last() =~= regions);
}

/// A glyph is no larger than its region, so the glyphs together are no
/// larger than the regions together.
pub proof fn lemma_glyph_area_at_most(regions: Seq<AssignedRegion>)
    requires
        forall|i: int|
            0 <= i < regions.len() ==> 1 <= (#[trigger] regions[i]).width && 1 <= regions[i].height,
    ensures
        0 <= total_glyph_area(regions) <= total_area(regions),
    decreases regions.len(),
{
    if regions.len() > 0 {
        let l = regions.last();
        let t = regions.drop_last();
        assert forall|i: int| 0 <= i < t.len() implies 1 <= (#[trigger] t[i]).width && 1
            <= t[i].height by {
            assert(t[i] == regions[i]);
        }
        lemma_glyph_area_at_most(t);
        lemma_mul_le(l.width - 1, l.width as int, l.height - 1, l.height as int);
    }
}

/// What the raised skyline holds at each index.
pub proof fn lemma_raised_index(segs: Seq<Segment>, first: int, last: int, y: int)
    requires
        0 <= first <= last < segs.len(),
    ensures
        raised(segs, first, last, y).len() == segs.len() - (last - first),
        raised(segs, first, last, y)[first] == merged(segs, first, last, y),
        forall|k: int| 0 <= k < first ==> #[trigger] raised(segs, first, last, y)[k] == segs[k],
        forall|k: int|
            first < k < segs.len() - (last - first) ==> #[trigger] raised(segs, first, last, y)[k]
                == segs[k + (last - first)],
{
}

/// Raising the segments under a rectangle to its bottom row gives a
/// well-formed skyline again.
pub proof fn lemma_raised_wf(
    segs: Seq<Segment>,
    first: int,
    last: int,
    y: int,
    width: int,
    height: int,
)
    requires
        skyline_wf(segs, width, height),
        0 <= first <= last < segs.len(),
        1 <= y <= height,
        width <= u32::MAX,
        height <= u32::MAX,
    ensures
        skyline_wf(raised(segs, first, last, y), width, height),
{
    let r = raised(segs, first, last, y);
    let d = last - first;
    let m = merged(segs, first, last, y);
    lemma_raised_index(segs, first, last, y);
    if first < last {
        lemma_contiguous_order(segs, first, last);
    }
    if last < segs.len() - 1 {
        lemma_contiguous_order(segs, last, segs.len() - 1);
    }
    assert(m.x == segs[first].x);
    assert(m.end() == segs[last].end());
    assert(m.width >= 1);
    assert(m.y == y);
    assert forall|j: int, k: int| 0 <= j && k == j + 1 && k < r.len() implies (
    #[trigger] r[j]).end() == (#[trigger] r[k]).x by {
        if k < first {
            assert(r[j] == segs[j]);
            assert(r[k] == segs[k]);
            assert(segs[j].end() == segs[k].x);
        } else if k == first {
            assert(r[j] == segs[j]);
            assert(segs[j].end() == segs[first].x);
        } else if j == first {
            assert(r[k] == segs[last + 1]);
            assert(segs[last].end() == segs[last + 1].x);
        } else {
            assert(r[j] == segs[j + d]);
            assert(r[k] == segs[k + d]);
            assert(segs[j + d].end() == segs[k + d].x);
        }
    }
    assert forall|k: int| 0 <= k < r.len() implies (#[trigger] r[k]).width >= 1 && 1 <= r[k].y
        <= height by {
        if k < first {
            assert(r[k] == segs[k]);
        } else if k > first {
            assert(r[k] == segs[k + d]);
        }
    }
    if first == 0 {
        assert(r[0] == m);
    } else {
        assert(r[0] == segs[0]);
    }
    if first == r.len() - 1 {
        assert(last == segs.len() - 1);
    } else {
        assert(r[r.len() - 1] == segs[r.len() - 1 + d]);
    }
}

/// Raising the segments under a rectangle of height `rh` from the row it
/// rests on adds at least the columns under it times `rh` to the area below
/// the skyline.
pub proof fn lemma_raised_area(segs: Seq<Segment>, first: int, last: int, rh: int)
    requires
        contiguous(segs),
        forall|k: int| 0 <= k < segs.len() ==> 1 <= (#[trigger] segs[k]).y,
        0 <= first <= last < segs.len(),
        0 <= rh,
        span_top(segs, first, last) + rh <= u32::MAX,
        segs[last].end() <= u32::MAX,
    ensures
        segs[first].x <= segs[last].end(),
        area_below(raised(segs, first, last, span_top(segs, first, last) + rh)) >= area_below(segs)
            + (segs[last].end() - segs[first].x) * rh,
{
    let top = span_top(segs, first, last);
    let y = top + rh;
    let pre = segs.subrange(0, first);
    let mid = segs.subrange(first, last + 1);
    let suf = segs.subrange(last + 1, segs.len() as int);
    let m = merged(segs, first, last, y);
    let span = segs[last].end() - segs[first].x;
    lemma_span_top_bounds(segs, first, last);
    assert(contiguous(mid)) by {
        assert forall|j: int, k: int| 0 <= j && k == j + 1 && k < mid.len() implies (
        #[trigger] mid[j]).end() == (#[trigger] mid[k]).x by {
            assert(segs[first + j].end() == segs[first + k].x);
        }
    }
    assert forall|k: int| 0 <= k < mid.len() implies 1 <= (#[trigger] mid[k]).y <= top by {
        assert(mid[k] == segs[first + k]);
    }
    lemma_area_at_most(mid, top);
    assert(mid[0] == segs[first]);
    assert(mid.last() == segs[last]);
    assert(segs =~= pre + mid + suf);
    lemma_area_concat(pre, mid);
    lemma_area_concat(pre + mid, suf);
    assert(raised(segs, first, last, y) =~= pre + seq![m] + suf);
    lemma_area_concat(pre, seq![m]);
    lemma_area_concat(pre + seq![m], suf);
    assert(seq![m].drop_last() =~= Seq::<Segment>::empty());
    assert(area_below(seq![m].drop_last()) == 0);
    assert(area_below(seq![m]) == m.width * (m.y - 1));
    assert(m.width == span);
    assert(m.y == y);
    assert(span * (top + rh - 1) == span * (top - 1) + span * rh) by (nonlinear_arith);
}

/// The whole area below a well-formed skyline is at most the surface between
/// the margins.
pub proof fn lemma_area_below_surface(segs: Seq<Segment>, width: int, height: int)
    requires
        skyline_wf(segs, width, height),
    ensures
        0 <= area_below(segs) <= (width - 2) * (height - 1),
{
    lemma_area_at_most(segs, height);
}

/// The glyph bytes counted so far are no more than the buffer holds.
pub proof fn lemma_data_used_bounded(a: AtlasView)
    requires
        a.wf(),
    ensures
        a.data_used <= a.width * a.height * a.depth,
        a.data_used <= a.buffer.len(),
{
    let w = a.width as int;
    let h = a.height as int;
    assert forall|i: int| 0 <= i < a.placed.len() implies 1 <= (#[trigger] a.placed[i]).width && 1
        <= a.placed[i].height by {}
    lemma_glyph_area_at_most(a.placed);
    lemma_area_below_surface(a.segments, w, h);
    lemma_mul_le(w - 2, w, h - 1, h);
    lemma_mul_le(total_glyph_area(a.placed), w * h, a.depth as int, a.depth as int);
}

/// A rectangle that stands on the segments `first ..= last`, at or above
/// the highest of them, meets none of the regions below the skyline.
pub proof fn lemma_region_clear(
    placed: Seq<AssignedRegion>,
    segs: Seq<Segment>,
    first: int,
    last: int,
    region: AssignedRegion,
)
    requires
        contiguous(segs),
        under_skyline(placed, segs),
        0 <= first <= last < segs.len(),
        region.x == segs[first].x,
        region.right() <= segs[last].end(),
        span_top(segs, first, last) <= region.y,
        1 <= region.width,
        forall|i: int| 0 <= i < placed.len() ==> 1 <= (#[trigger] placed[i]).width,
    ensures
        forall|i: int| 0 <= i < placed.len() ==> !region.overlaps(#[trigger] placed[i]),
{
    lemma_span_top_bounds(segs, first, last);
    assert forall|i: int| 0 <= i < placed.len() implies !region.overlaps(#[trigger] placed[i]) by {
        let r = placed[i];
        if region.overlaps(r) {
            let p = if r.x >= region.x {
                r.x as int
            } else {
                region.x as int
            };
            let k = lemma_segment_at(segs, first, last, p);
            assert(r.x < segs[k].end() && segs[k].x < r.right());
            assert(r.bottom() <= segs[k].y);
        }
    }
}

/// Once the skyline has been raised over a new region to its bottom row,
/// the earlier regions and the new one all lie below it.
pub proof fn lemma_under_raised(
    placed: Seq<AssignedRegion>,
    segs: Seq<Segment>,
    first: int,
    last: int,
    region: AssignedRegion,
)
    requires
        contiguous(segs),
        under_skyline(placed, segs),
        0 <= first <= last < segs.len(),
        region.x == segs[first].x,
        region.right() <= segs[last].end(),
        segs[last].end() <= u32::MAX,
        span_top(segs, first, last) <= region.bottom() <= u32::MAX,
        forall|k: int| 0 <= k < segs.len() ==> 1 <= (#[trigger] segs[k]).width,
        forall|i: int| 0 <= i < placed.len() ==> 1 <= (#[trigger] placed[i]).width,
    ensures
        under_skyline(placed.push(region), raised(segs, first, last, region.bottom())),
{
    let up = raised(segs, first, last, region.bottom());
    let all = placed.push(region);
    let d = last - first;
    lemma_raised_index(segs, first, last, region.bottom());
    lemma_span_top_bounds(segs, first, last);
    if first < last {
        lemma_contiguous_order(segs, first, last);
    }
    let m = up[first];
    assert(m.x == segs[first].x && m.y == region.bottom() && m.end() == segs[last].end());
    assert forall|i: int, k: int|
        0 <= i < all.len() && 0 <= k < up.len() && (#[trigger] all[i]).x < (#[trigger] up[k]).end()
            && up[k].x < all[i].right() implies all[i].bottom() <= up[k].y by {
        let r = all[i];
        if i == placed.len() {
            if k < first {
                assert(up[k] == segs[k]);
                lemma_contiguous_order(segs, k, first);
            } else if k > first {
                assert(up[k] == segs[k + d]);
                lemma_contiguous_order(segs, last, k + d);
            }
        } else {
            assert(r == placed[i]);
            if k < first {
                assert(up[k] == segs[k]);
            } else if k > first {
                assert(up[k] == segs[k + d]);
            } else {
                let p = if r.x >= segs[first].x {
                    r.x as int
                } else {
                    segs[first].x as int
                };
                let k2 = lemma_segment_at(segs, first, last, p);
                assert(r.x < segs[k2].end() && segs[k2].x < r.right());
                assert(r.bottom() <= segs[k2].y);
            }
        }
    }
}

/// A region that meets none of a list of disjoint regions can join them.
pub proof fn lemma_disjoint_push(placed: Seq<AssignedRegion>, region: AssignedRegion)
    requires
        pairwise_disjoint(placed),
        forall|i: int| 0 <= i < placed.len() ==> !region.overlaps(#[trigger] placed[i]),
    ensures
        pairwise_disjoint(placed.push(region)),
{
    let all = placed.push(region);
    assert forall|i: int, j: int| 0 <= i < j < all.len() implies !(#[trigger] all[i]).overlaps(
        #[trigger] all[j],
    ) by {
        assert(all[i] == placed[i]);
        if j < placed.len() {
            assert(all[j] == placed[j]);
        } else {
            assert(!region.overlaps(placed[i]));
        }
    }
}

/// A region inside the margins can join a list of such regions.
pub proof fn lemma_margin_push(
    placed: Seq<AssignedRegion>,
    region: AssignedRegion,
    width: int,
    height: int,
)
    requires
        inside_margin(placed, width, height),
        1 <= region.x,
        1 <= region.y,
        1 <= region.width,
        1 <= region.height,
        region.right() <= width - 1,
        region.bottom() <= height,
    ensures
        inside_margin(placed.push(region), width, height),
{
    let all = placed.push(region);
    assert forall|i: int| 0 <= i < all.len() implies {
        &&& 1 <= (#[trigger] all[i]).x
        &&& 1 <= all[i].y
        &&& 1 <= all[i].width
        &&& 1 <= all[i].height
        &&& all[i].right() <= width - 1
        &&& all[i].bottom() <= height
    } by {
        if i < placed.len() {
            assert(all[i] == placed[i]);
        }
    }
}

/// A glyph recorded under a character keeps every recorded region among
/// the regions handed out.
pub proof fn lemma_recorded_push(
    glyphs: Map<char, AssignedRegion>,
    placed: Seq<AssignedRegion>,
    character: char,
    region: AssignedRegion,
)
    requires
        forall|c: char| #[trigger] glyphs.contains_key(c) ==> placed.contains(glyphs[c]),
    ensures
        forall|c: char| #[trigger]
            glyphs.insert(character, region).contains_key(c) ==> placed.push(region).contains(
                glyphs.insert(character, region)[c],
            ),
{
    let all = placed.push(region);
    assert forall|c: char| #[trigger]
        glyphs.insert(character, region).contains_key(c) implies all.contains(
        glyphs.insert(character, region)[c],
    ) by {
        if c == character {
            assert(all[placed.len() as int] == region);
        } else {
            let v = glyphs[c];
            assert(glyphs.contains_key(c));
            let i = choose|i: int| 0 <= i < placed.len() && placed[i] == v;
            assert(all[i] == v);
        }
    }
}

/// Copying a bitmap into a region that meets none of the earlier regions
/// leaves every earlier glyph in the buffer as it was, and puts the new one
/// beside them.
pub proof fn lemma_intact_push(
    buffer: Seq<u8>,
    width: int,
    height: int,
    placed: Seq<AssignedRegion>,
    sources: Seq<BitmapView>,
    region: AssignedRegion,
    bitmap: BitmapView,
)
    requires
        glyphs_intact(buffer, width, bitmap.depth as int, placed, sources),
        inside_margin(placed, width, height),
        buffer.len() == width * height * bitmap.depth,
        region.width == bitmap.width + 1,
        region.height == bitmap.height + 1,
        region.within(width, height),
        forall|i: int| 0 <= i < placed.len() ==> !region.overlaps(#[trigger] placed[i]),
    ensures
        glyphs_intact(
            copied(buffer, width, bitmap.depth as int, region, bitmap),
            width,
            bitmap.depth as int,
            placed.push(region),
            sources.push(bitmap),
        ),
{
    let after = copied(buffer, width, bitmap.depth as int, region, bitmap);
    let regions = placed.push(region);
    let bitmaps = sources.push(bitmap);
    assert forall|i: int| 0 <= i < bitmaps.len() implies {
        &&& (#[trigger] bitmaps[i]).depth == bitmap.depth
        &&& regions[i].width == bitmaps[i].width + 1
        &&& regions[i].height == bitmaps[i].height + 1
        &&& holds_glyph(after, width, regions[i], bitmaps[i])
    } by {
        if i < sources.len() {
            assert(bitmaps[i] == sources[i]);
            assert(regions[i] == placed[i]);
            assert(!region.overlaps(placed[i]));
            lemma_copy_keeps_glyph(buffer, width, height, region, bitmap, placed[i], sources[i]);
        } else {
            lemma_copy_holds_glyph(buffer, width, height, region, bitmap);
        }
    }
}

/// The region of a bitmap that fits on segment `first`: it is as large as
/// the bitmap and its padding, rests on the highest segment under it, and
/// keeps the margins.
pub proof fn lemma_region_on(a: AtlasView, bitmap: BitmapView, first: int)
    requires
        a.width >= 3,
        a.height >= 3,
        skyline_wf(a.segments, a.width as int, a.height as int),
        fits(
            a.segments,
            first,
            bitmap.width + 1,
            bitmap.height + 1,
            a.width as int,
            a.height as int,
        ),
    ensures
        first <= last_under(a.segments, first, bitmap.width + 1) < a.segments.len(),
        a.region_on(bitmap, first).x == a.segments[first].x,
        a.region_on(bitmap, first).y == rest_row(a.segments, first, bitmap.width + 1),
        a.region_on(bitmap, first).width == bitmap.width + 1,
        a.region_on(bitmap, first).height == bitmap.height + 1,
        1 <= a.region_on(bitmap, first).x,
        1 <= a.region_on(bitmap, first).y,
        a.region_on(bitmap, first).right() <= a.segments[last_under(
            a.segments,
            first,
            bitmap.width + 1,
        )].end(),
        a.segments[last_under(a.segments, first, bitmap.width + 1)].end() <= a.width - 1,
        a.region_on(bitmap, first).right() <= a.width - 1,
        a.region_on(bitmap, first).bottom() <= a.height,
{
    let segs = a.segments;
    let rw = bitmap.width + 1;
    let last = last_under(segs, first, rw);
    lemma_span_last(segs, first, segs[first].x + rw);
    lemma_reach_is_margin(segs, first, rw, a.width as int, a.height as int);
    lemma_span_top_bounds(segs, first, last);
    if 0 < first {
        lemma_contiguous_order(segs, 0, first);
    }
    if last < segs.len() - 1 {
        lemma_contiguous_order(segs, last, segs.len() - 1);
    }
}

/// What placing a bitmap on a segment where it fits does: the region keeps
/// the margins, meets none of the earlier regions, and the atlas is well
/// formed again.
pub proof fn lemma_place_keeps_wf(a: AtlasView, character: char, bitmap: BitmapView, first: int)
    requires
        a.wf(),
        a.accepts(bitmap),
        fits(
            a.segments,
            first,
            bitmap.width + 1,
            bitmap.height + 1,
            a.width as int,
            a.height as int,
        ),
    ensures
        a.place(character, bitmap, first).wf(),
        forall|i: int|
            0 <= i < a.placed.len() ==> !a.region_on(bitmap, first).overlaps(#[trigger] a.placed[i]),
{
    let segs = a.segments;
    let rw = bitmap.width + 1;
    let rh = bitmap.height + 1;
    let w = a.width as int;
    let h = a.height as int;
    let last = last_under(segs, first, rw);
    let region = a.region_on(bitmap, first);
    let after = a.place(character, bitmap, first);

    lemma_region_on(a, bitmap, first);
    assert(span_top(segs, first, last) == region.y);
    lemma_region_clear(a.placed, segs, first, last, region);
    lemma_raised_wf(segs, first, last, region.bottom(), w, h);
    lemma_under_raised(a.placed, segs, first, last, region);
    lemma_margin_push(a.placed, region, w, h);
    lemma_disjoint_push(a.placed, region);
    lemma_recorded_push(a.glyph_map, a.placed, character, region);
    lemma_intact_push(a.buffer, w, h, a.placed, a.sources, region, bitmap);

    lemma_total_area_push(a.placed, region);
    lemma_raised_area(segs, first, last, rh);
    lemma_mul_le(rw, segs[last].end() - segs[first].x, rh, rh);
    assert(region.area() == rw * rh);
    assert(region.glyph_area() == bitmap.width * bitmap.height);
    assert((total_glyph_area(a.placed) + bitmap.width * bitmap.height) * a.depth
        == total_glyph_area(a.placed) * a.depth + bitmap.width * bitmap.height * a.depth)
        by (nonlinear_arith);
    lemma_mul_le(0, bitmap.width as int, 0, bitmap.height as int);
    lemma_mul_le(0, bitmap.width * bitmap.height, 0, a.depth as int);
    assert(after.segments == raised(segs, first, last, region.bottom()));
    assert(total_area(after.placed) <= area_below(after.segments));
    assert(after.data_used == total_glyph_area(after.placed) * after.depth);
}

} // verus!
