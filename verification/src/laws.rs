//! What holds of an atlas over any number of calls of `add_glyph`: the
//! regions it hands out never overlap and stay inside the surface, the
//! skyline stays in order, no glyph in the buffer is ever overwritten, the
//! count of glyph bytes only grows and stays within the buffer, and glyphs
//! that together are larger than the surface cannot all be placed.

use crate::arith::lemma_mul_le;
use crate::atlas::{total_area, AtlasError, AtlasView};
use crate::bitmap::BitmapView;
use crate::blit::holds_glyph;
use crate::packing::{
    lemma_area_below_surface, lemma_data_used_bounded, lemma_place_keeps_wf, lemma_region_on,
    lemma_total_area_push,
};
use crate::region::AssignedRegion;
use crate::skyline::{fits, lemma_best_fit_some, skyline_wf};
use vstd::prelude::*;

verus! {

/// The atlas after `add_glyph` has been called for each of the glyphs in
/// turn.
pub open spec fn run(a: AtlasView, glyphs: Seq<(char, BitmapView)>) -> AtlasView
    decreases glyphs.len(),
{
    if glyphs.len() == 0 {
        a
    } else {
        run(a, glyphs.drop_last()).after_add_glyph(glyphs.last().0, glyphs.last().1)
    }
}

/// What the call for glyph `i` returns when `add_glyph` is called for each
/// of the glyphs in turn.
pub open spec fn outcome(a: AtlasView, glyphs: Seq<(char, BitmapView)>, i: int) -> Result<
    AssignedRegion,
    AtlasError,
> {
    run(a, glyphs.take(i)).add_glyph_result(glyphs[i].1)
}

/// The surface that the glyphs ask for together, each with its padding.
pub open spec fn footprint(glyphs: Seq<(char, BitmapView)>) -> int
    decreases glyphs.len(),
{
    if glyphs.len() == 0 {
        0
    } else {
        footprint(glyphs.drop_last()) + (glyphs.last().1.width + 1) * (glyphs.last().1.height + 1)
    }
}

/// One call of `add_glyph` on a well-formed atlas: the atlas is well formed
/// afterwards and has the same size; a failed call changes nothing; a
/// successful one adds its region, which keeps the margins and meets no
/// earlier region, to the regions handed out, and the bitmap's bytes to the
/// count.
pub proof fn lemma_add_glyph(a: AtlasView, character: char, bitmap: BitmapView)
    requires
        a.wf(),
    ensures
        a.after_add_glyph(character, bitmap).wf(),
        a.after_add_glyph(character, bitmap).width == a.width,
        a.after_add_glyph(character, bitmap).height == a.height,
        a.after_add_glyph(character, bitmap).depth == a.depth,
        a.after_add_glyph(character, bitmap).buffer.len() == a.buffer.len(),
        a.add_glyph_result(bitmap) is Err ==> a.after_add_glyph(character, bitmap) == a,
        a.add_glyph_result(bitmap) == Err::<AssignedRegion, AtlasError>(AtlasError::InvalidBitmap)
            <==> !a.accepts(bitmap),
        a.add_glyph_result(bitmap) == Err::<AssignedRegion, AtlasError>(AtlasError::NoSpace) <==> (
        a.accepts(bitmap) && forall|k: int|
            !#[trigger] fits(
                a.segments,
                k,
                bitmap.width + 1,
                bitmap.height + 1,
                a.width as int,
                a.height as int,
            )),
        a.add_glyph_result(bitmap) matches Ok(region) ==> {
            &&& a.after_add_glyph(character, bitmap).placed == a.placed.push(region)
            &&& a.after_add_glyph(character, bitmap).sources == a.sources.push(bitmap)
            &&& a.after_add_glyph(character, bitmap).glyph_map == a.glyph_map.insert(
                character,
                region,
            )
            &&& a.after_add_glyph(character, bitmap).data_used == a.data_used + bitmap.width
                * bitmap.height * a.depth
            &&& region.width == bitmap.width + 1
            &&& region.height == bitmap.height + 1
            &&& 1 <= region.x
            &&& 1 <= region.y
            &&& region.right() <= a.width - 1
            &&& region.bottom() <= a.height
            &&& forall|i: int| 0 <= i < a.placed.len() ==> !region.overlaps(#[trigger] a.placed[i])
        },
        a.data_used <= a.after_add_glyph(character, bitmap).data_used,
{
    lemma_best_fit_some(
        a.segments,
        bitmap.width + 1,
        bitmap.height + 1,
        a.width as int,
        a.height as int,
    );
    if a.accepts(bitmap) {
        match a.choice(bitmap) {
            Some(first) => {
                lemma_place_keeps_wf(a, character, bitmap, first);
                lemma_region_on(a, bitmap, first);
                lemma_mul_le(0, bitmap.width as int, 0, bitmap.height as int);
                lemma_mul_le(0, bitmap.width * bitmap.height, 0, a.depth as int);
            },
            None => {},
        }
    }
}

/// Calling for one list of glyphs and then for another is calling for the
/// two lists joined.
pub proof fn lemma_run_split(a: AtlasView, head: Seq<(char, BitmapView)>, tail: Seq<(char, BitmapView)>)
    ensures
        run(a, head + tail) == run(run(a, head), tail),
    decreases tail.len(),
{
    if tail.len() == 0 {
        assert(head + tail =~= head);
    } else {
        assert((head + tail).drop_last() =~= head + tail.drop_last());
        assert((head + tail).last() == tail.last());
        lemma_run_split(a, head, tail.drop_last());
    }
}

/// Any number of calls keep the atlas well formed and its size fixed; the
/// regions handed out before are still there, in their order, and the count
/// of glyph bytes has not gone down.
pub proof fn lemma_run(a: AtlasView, glyphs: Seq<(char, BitmapView)>)
    requires
        a.wf(),
    ensures
        run(a, glyphs).wf(),
        run(a, glyphs).width == a.width,
        run(a, glyphs).height == a.height,
        run(a, glyphs).depth == a.depth,
        run(a, glyphs).buffer.len() == a.buffer.len(),
        a.placed.len() <= run(a, glyphs).placed.len(),
        forall|k: int| 0 <= k < a.placed.len() ==> #[trigger] run(a, glyphs).placed[k] == a.placed[k],
        forall|k: int|
            0 <= k < a.placed.len() ==> #[trigger] run(a, glyphs).sources[k] == a.sources[k],
        a.data_used <= run(a, glyphs).data_used,
    decreases glyphs.len(),
{
    if glyphs.len() > 0 {
        lemma_run(a, glyphs.drop_last());
        let s = run(a, glyphs.drop_last());
        lemma_add_glyph(s, glyphs.last().0, glyphs.last().1);
    }
}

/// The atlas before call `j` is the atlas before call `i` after the calls
/// `i .. j`.
pub proof fn lemma_run_between(a: AtlasView, glyphs: Seq<(char, BitmapView)>, i: int, j: int)
    requires
        0 <= i <= j <= glyphs.len(),
    ensures
        run(a, glyphs.take(j)) == run(run(a, glyphs.take(i)), glyphs.subrange(i, j)),
{
    assert(glyphs.take(j) =~= glyphs.take(i) + glyphs.subrange(i, j));
    lemma_run_split(a, glyphs.take(i), glyphs.subrange(i, j));
}

/// No overlap: whatever glyphs are added to an atlas, in whatever order, the
/// regions of any two successful calls share no pixel.
pub proof fn lemma_regions_never_overlap(
    a: AtlasView,
    glyphs: Seq<(char, BitmapView)>,
    i: int,
    j: int,
)
    requires
        a.wf(),
        0 <= i < j < glyphs.len(),
        outcome(a, glyphs, i) is Ok,
        outcome(a, glyphs, j) is Ok,
    ensures
        !outcome(a, glyphs, i)->Ok_0.overlaps(outcome(a, glyphs, j)->Ok_0),
{
    let si = run(a, glyphs.take(i));
    let sn = run(a, glyphs.take(i + 1));
    let sj = run(a, glyphs.take(j));
    let ri = outcome(a, glyphs, i)->Ok_0;
    let rj = outcome(a, glyphs, j)->Ok_0;
    lemma_run(a, glyphs.take(i));
    assert(glyphs.take(i + 1).drop_last() =~= glyphs.take(i));
    assert(glyphs.take(i + 1).last() == glyphs[i]);
    assert(sn == si.after_add_glyph(glyphs[i].0, glyphs[i].1));
    lemma_add_glyph(si, glyphs[i].0, glyphs[i].1);
    let n = si.placed.len() as int;
    assert(sn.placed[n] == ri);
    lemma_run_between(a, glyphs, i + 1, j);
    lemma_run(sn, glyphs.subrange(i + 1, j));
    assert(sj.placed[n] == ri);
    lemma_add_glyph(sj, glyphs[j].0, glyphs[j].1);
    assert(!rj.overlaps(sj.placed[n]));
}

/// Containment: the region of every successful call lies inside the
/// surface, and inside its margins on the left, at the top and on the
/// right.
pub proof fn lemma_regions_inside(a: AtlasView, glyphs: Seq<(char, BitmapView)>, i: int)
    requires
        a.wf(),
        0 <= i < glyphs.len(),
        outcome(a, glyphs, i) is Ok,
    ensures
        outcome(a, glyphs, i)->Ok_0.within(a.width as int, a.height as int),
        1 <= outcome(a, glyphs, i)->Ok_0.x,
        1 <= outcome(a, glyphs, i)->Ok_0.y,
        outcome(a, glyphs, i)->Ok_0.right() <= a.width - 1,
{
    lemma_run(a, glyphs.take(i));
    lemma_add_glyph(run(a, glyphs.take(i)), glyphs[i].0, glyphs[i].1);
}

/// The skyline after any number of calls: its segments run from left to
/// right, each ends where the next one starts, the first starts at the left
/// margin and the last ends at the right margin.
pub proof fn lemma_skyline_stays_in_order(a: AtlasView, glyphs: Seq<(char, BitmapView)>)
    requires
        a.wf(),
    ensures
        skyline_wf(run(a, glyphs).segments, a.width as int, a.height as int),
        run(a, glyphs).segments[0].x == 1,
        run(a, glyphs).segments.last().end() == a.width - 1,
        forall|j: int, k: int|
            0 <= j && k == j + 1 && k < run(a, glyphs).segments.len() ==> (#[trigger] run(
                a,
                glyphs,
            ).segments[j]).end() == (#[trigger] run(a, glyphs).segments[k]).x,
        forall|j: int, k: int|
            0 <= j < k < run(a, glyphs).segments.len() ==> (#[trigger] run(a, glyphs).segments[j]).x
                < (#[trigger] run(a, glyphs).segments[k]).x,
{
    lemma_run(a, glyphs);
    let segs = run(a, glyphs).segments;
    assert forall|j: int, k: int| 0 <= j < k < segs.len() implies (#[trigger] segs[j]).x < (
    #[trigger] segs[k]).x by {
        crate::skyline::lemma_contiguous_order(segs, j, k);
    }
}

/// Nothing is overwritten: after any number of further calls the buffer
/// still holds the bitmap of every successful call in the region that the
/// call returned.
pub proof fn lemma_glyphs_stay_intact(a: AtlasView, glyphs: Seq<(char, BitmapView)>, i: int)
    requires
        a.wf(),
        0 <= i < glyphs.len(),
        outcome(a, glyphs, i) is Ok,
    ensures
        holds_glyph(
            run(a, glyphs).buffer,
            a.width as int,
            outcome(a, glyphs, i)->Ok_0,
            glyphs[i].1,
        ),
{
    let si = run(a, glyphs.take(i));
    let sn = run(a, glyphs.take(i + 1));
    let end = run(a, glyphs);
    let ri = outcome(a, glyphs, i)->Ok_0;
    lemma_run(a, glyphs.take(i));
    assert(glyphs.take(i + 1).drop_last() =~= glyphs.take(i));
    assert(glyphs.take(i + 1).last() == glyphs[i]);
    lemma_add_glyph(si, glyphs[i].0, glyphs[i].1);
    let n = si.placed.len() as int;
    assert(sn.placed[n] == ri);
    assert(sn.sources[n] == glyphs[i].1);
    lemma_run_between(a, glyphs, i + 1, glyphs.len() as int);
    assert(glyphs.take(glyphs.len() as int) =~= glyphs);
    lemma_run(sn, glyphs.subrange(i + 1, glyphs.len() as int));
    lemma_run(a, glyphs);
    assert(end.placed[n] == ri);
    assert(end.sources[n] == glyphs[i].1);
}

/// The regions recorded under two characters are the same region or share
/// no pixel.
pub proof fn lemma_recorded_regions_disjoint(a: AtlasView, first: char, second: char)
    requires
        a.wf(),
        a.glyph_map.contains_key(first),
        a.glyph_map.contains_key(second),
        a.glyph_map[first] != a.glyph_map[second],
    ensures
        !a.glyph_map[first].overlaps(a.glyph_map[second]),
{
    let r = a.glyph_map[first];
    let s = a.glyph_map[second];
    let i = choose|i: int| 0 <= i < a.placed.len() && a.placed[i] == r;
    let j = choose|j: int| 0 <= j < a.placed.len() && a.placed[j] == s;
    if i < j {
        assert(!a.placed[i].overlaps(a.placed[j]));
    } else {
        assert(!a.placed[j].overlaps(a.placed[i]));
    }
}

/// The count of glyph bytes never goes down from one call to a later one
/// and never exceeds the size of the buffer.
pub proof fn lemma_data_used_monotonic(a: AtlasView, glyphs: Seq<(char, BitmapView)>, i: int, j: int)
    requires
        a.wf(),
        0 <= i <= j <= glyphs.len(),
    ensures
        run(a, glyphs.take(i)).data_used <= run(a, glyphs.take(j)).data_used,
        run(a, glyphs.take(j)).data_used <= a.width * a.height * a.depth,
{
    lemma_run(a, glyphs.take(i));
    lemma_run_between(a, glyphs, i, j);
    lemma_run(run(a, glyphs.take(i)), glyphs.subrange(i, j));
    lemma_run(a, glyphs.take(j));
    lemma_data_used_bounded(run(a, glyphs.take(j)));
}

/// Where every call succeeds, the regions handed out take the room that the
/// glyphs ask for.
proof fn lemma_all_placed(a: AtlasView, glyphs: Seq<(char, BitmapView)>)
    requires
        a.wf(),
        forall|i: int| 0 <= i < glyphs.len() ==> #[trigger] outcome(a, glyphs, i) is Ok,
    ensures
        total_area(run(a, glyphs).placed) == total_area(a.placed) + footprint(glyphs),
    decreases glyphs.len(),
{
    if glyphs.len() > 0 {
        let front = glyphs.drop_last();
        let n = front.len() as int;
        assert forall|i: int| 0 <= i < front.len() implies #[trigger] outcome(a, front, i) is Ok by {
            assert(front.take(i) =~= glyphs.take(i));
            assert(outcome(a, glyphs, i) is Ok);
        }
        lemma_all_placed(a, front);
        lemma_run(a, front);
        let s = run(a, front);
        assert(glyphs.take(n) =~= front);
        assert(outcome(a, glyphs, n) is Ok);
        lemma_add_glyph(s, glyphs.last().0, glyphs.last().1);
        let region = s.add_glyph_result(glyphs.last().1)->Ok_0;
        lemma_total_area_push(s.placed, region);
    }
}

/// Exhaustion: glyphs that, with their padding and with what the atlas
/// holds already, ask for more than the surface cannot all be placed. If
/// the atlas accepts each bitmap, one of the calls returns `NoSpace`.
pub proof fn lemma_exhaustion(a: AtlasView, glyphs: Seq<(char, BitmapView)>)
    requires
        a.wf(),
        forall|i: int| 0 <= i < glyphs.len() ==> a.accepts(#[trigger] glyphs[i].1),
        total_area(a.placed) + footprint(glyphs) > a.width * a.height,
    ensures
        exists|i: int|
            0 <= i < glyphs.len() && #[trigger] outcome(a, glyphs, i) == Err::<
                AssignedRegion,
                AtlasError,
            >(AtlasError::NoSpace),
{
    if forall|i: int| 0 <= i < glyphs.len() ==> #[trigger] outcome(a, glyphs, i) is Ok {
        lemma_all_placed(a, glyphs);
        lemma_run(a, glyphs);
        let s = run(a, glyphs);
        lemma_area_below_surface(s.segments, s.width as int, s.height as int);
        lemma_mul_le(a.width - 2, a.width as int, a.height - 1, a.height as int);
        assert(false);
    } else {
        let i = choose|i: int| 0 <= i < glyphs.len() && !(#[trigger] outcome(a, glyphs, i) is Ok);
        lemma_run(a, glyphs.take(i));
        let s = run(a, glyphs.take(i));
        lemma_add_glyph(s, glyphs[i].0, glyphs[i].1);
        assert(s.accepts(glyphs[i].1));
        assert(outcome(a, glyphs, i) == Err::<AssignedRegion, AtlasError>(AtlasError::NoSpace));
    }
}

/// A call that fails, for want of space or because the bitmap is not
/// accepted, leaves the atlas as it was: buffer, skyline, glyphs and count.
pub proof fn lemma_failure_changes_nothing(a: AtlasView, character: char, bitmap: BitmapView)
    requires
        a.add_glyph_result(bitmap) is Err,
    ensures
        a.after_add_glyph(character, bitmap) == a,
{
}

} // verus!
