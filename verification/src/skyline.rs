//! The skyline: the profile of occupied height across the width of the atlas,
//! and the best-fit search for the place of a new rectangle.

use vstd::prelude::*;

verus! {

/// One step of the skyline: from column `x`, over `width` columns, the next
/// free row is `y`.
#[derive(Clone, Copy, Debug, PartialEq, Eq, Structural)]
pub struct Segment {
    pub x: u32,
    pub y: u32,
    pub width: u32,
}

impl Segment {
    /// The first column to the right of the segment.
    pub open spec fn end(self) -> int {
        self.x + self.width
    }
}

/// Each segment ends where the next one starts.
pub open spec fn contiguous(segs: Seq<Segment>) -> bool {
    forall|j: int, k: int|
        0 <= j && k == j + 1 && k < segs.len() ==> (#[trigger] segs[j]).end() == (
        #[trigger] segs[k]).x
}

/// The segments tile the columns `1 .. width - 1` from left to right, none is
/// empty, and none is higher than the surface.
pub open spec fn skyline_wf(segs: Seq<Segment>, width: int, height: int) -> bool {
    &&& segs.len() >= 1
    &&& segs[0].x == 1
    &&& segs[segs.len() - 1].end() == width - 1
    &&& contiguous(segs)
    &&& forall|k: int|
        0 <= k < segs.len() ==> (#[trigger] segs[k]).width >= 1 && 1 <= segs[k].y <= height
}

/// The first segment at or after `from` that ends at or beyond column
/// `reach`; the number of segments if there is none.
pub open spec fn span_last(segs: Seq<Segment>, from: int, reach: int) -> int
    decreases segs.len() - from,
{
    if from < 0 || from >= segs.len() {
        segs.len() as int
    } else if segs[from].end() >= reach {
        from
    } else {
        span_last(segs, from + 1, reach)
    }
}

/// The highest `y` among the segments `first ..= last`.
pub open spec fn span_top(segs: Seq<Segment>, first: int, last: int) -> int
    decreases last - first,
{
    if last <= first {
        segs[first].y as int
    } else {
        let rest = span_top(segs, first, last - 1);
        if segs[last].y > rest {
            segs[last].y as int
        } else {
            rest
        }
    }
}

/// The last segment under a rectangle `rw` wide whose left edge is that of
/// segment `first`.
pub open spec fn last_under(segs: Seq<Segment>, first: int, rw: int) -> int {
    span_last(segs, first, segs[first].x + rw)
}

/// The row on which such a rectangle comes to rest.
pub open spec fn rest_row(segs: Seq<Segment>, first: int, rw: int) -> int {
    span_top(segs, first, last_under(segs, first, rw))
}

/// A rectangle of `rw` by `rh` pixels can stand with its left edge on segment
/// `first`: it stays inside the surface, the segments reach under all of it,
/// and there is room above the highest of them.
pub open spec fn fits(
    segs: Seq<Segment>,
    first: int,
    rw: int,
    rh: int,
    width: int,
    height: int,
) -> bool {
    &&& 0 <= first < segs.len()
    &&& segs[first].x + rw <= width
    &&& last_under(segs, first, rw) < segs.len()
    &&& rest_row(segs, first, rw) + rh <= height
}

/// Standing on segment `a` is strictly better than standing on segment `b`:
/// the rectangle rests lower, or as low and on a narrower segment.
pub open spec fn better(segs: Seq<Segment>, a: int, b: int, rw: int) -> bool {
    let ra = rest_row(segs, a, rw);
    let rb = rest_row(segs, b, rw);
    ra < rb || (ra == rb && segs[a].width < segs[b].width)
}

/// Segment `b` is the choice of the search: the rectangle fits there, it fits
/// nowhere better, and everywhere to the left it fits strictly worse.
pub open spec fn is_best(
    segs: Seq<Segment>,
    b: int,
    rw: int,
    rh: int,
    width: int,
    height: int,
) -> bool {
    &&& fits(segs, b, rw, rh, width, height)
    &&& forall|k: int| #[trigger] fits(segs, k, rw, rh, width, height) ==> !better(segs, k, b, rw)
    &&& forall|k: int|
        k < b && #[trigger] fits(segs, k, rw, rh, width, height) ==> better(segs, b, k, rw)
}

/// The segment that the search chooses, if the rectangle fits anywhere.
pub open spec fn best_fit(segs: Seq<Segment>, rw: int, rh: int, width: int, height: int) -> Option<
    int,
> {
    if exists|b: int| is_best(segs, b, rw, rh, width, height) {
        Some(choose|b: int| is_best(segs, b, rw, rh, width, height))
    } else {
        None
    }
}

/// The one segment over the columns of the segments `first ..= last`, at
/// row `y`.
pub open spec fn merged(segs: Seq<Segment>, first: int, last: int, y: int) -> Segment {
    Segment { x: segs[first].x, y: y as u32, width: (segs[last].end() - segs[first].x) as u32 }
}

/// The skyline after the segments `first ..= last` have been replaced by one
/// segment over the same columns at row `y`.
pub open spec fn raised(segs: Seq<Segment>, first: int, last: int, y: int) -> Seq<Segment> {
    segs.subrange(0, first).push(merged(segs, first, last, y)) + segs.subrange(
        last + 1,
        segs.len() as int,
    )
}

/// The surface under the skyline, in pixels, without the top margin row.
pub open spec fn area_below(segs: Seq<Segment>) -> int
    decreases segs.len(),
{
    if segs.len() == 0 {
        0
    } else {
        area_below(segs.drop_last()) + segs.last().width * (segs.last().y - 1)
    }
}

/// In a contiguous list a later segment starts at or after the end of an
/// earlier one.
pub proof fn lemma_contiguous_order(segs: Seq<Segment>, a: int, b: int)
    requires
        contiguous(segs),
        0 <= a < b < segs.len(),
    ensures
        segs[a].end() <= segs[b].x,
    decreases b - a,
{
    if a + 1 < b {
        lemma_contiguous_order(segs, a, b - 1);
        assert(segs[b - 1].end() == segs[b].x);
    } else {
        assert(segs[a].end() == segs[b].x);
    }
}

/// Every column under the segments `first ..= last` of a contiguous list lies
/// in one of them.
pub proof fn lemma_segment_at(segs: Seq<Segment>, first: int, last: int, p: int) -> (k: int)
    requires
        contiguous(segs),
        0 <= first <= last < segs.len(),
        segs[first].x <= p < segs[last].end(),
    ensures
        first <= k <= last,
        segs[k].x <= p < segs[k].end(),
    decreases last - first,
{
    if p >= segs[last].x {
        last
    } else {
        assert(segs[last - 1].end() == segs[last].x);
        lemma_segment_at(segs, first, last - 1, p)
    }
}

/// `span_top` is at least the `y` of every segment it ranges over, and it is
/// the `y` of one of them.
pub proof fn lemma_span_top_bounds(segs: Seq<Segment>, first: int, last: int)
    requires
        0 <= first <= last < segs.len(),
    ensures
        forall|k: int| first <= k <= last ==> (#[trigger] segs[k]).y <= span_top(segs, first, last),
        exists|k: int| first <= k <= last && (#[trigger] segs[k]).y == span_top(segs, first, last),
    decreases last - first,
{
    if last > first {
        lemma_span_top_bounds(segs, first, last - 1);
        let w = choose|k: int|
            first <= k <= last - 1 && (#[trigger] segs[k]).y == span_top(segs, first, last - 1);
        if segs[last].y > span_top(segs, first, last - 1) {
            assert(segs[last].y == span_top(segs, first, last));
        } else {
            assert(segs[w].y == span_top(segs, first, last));
        }
    } else {
        assert(segs[first].y == span_top(segs, first, last));
    }
}

/// What `span_last` finds is the first segment from `from` on that reaches
/// the column.
pub proof fn lemma_span_last(segs: Seq<Segment>, from: int, reach: int)
    requires
        0 <= from <= segs.len(),
    ensures
        from <= span_last(segs, from, reach) <= segs.len(),
        span_last(segs, from, reach) < segs.len() ==> segs[span_last(segs, from, reach)].end()
            >= reach,
        forall|k: int|
            from <= k < span_last(segs, from, reach) ==> (#[trigger] segs[k]).end() < reach,
    decreases segs.len() - from,
{
    if from < segs.len() && segs[from].end() < reach {
        lemma_span_last(segs, from + 1, reach);
    }
}

/// `span_top` grows with the range.
pub proof fn lemma_span_top_mono(segs: Seq<Segment>, first: int, a: int, b: int)
    requires
        first <= a <= b,
    ensures
        span_top(segs, first, a) <= span_top(segs, first, b),
    decreases b - a,
{
    if a < b {
        lemma_span_top_mono(segs, first, a, b - 1);
    }
}

/// Where the segments `first ..= last` do not yet reach under the whole
/// rectangle and are already too high for it, the rectangle does not fit on
/// segment `first`.
pub proof fn lemma_too_high(
    segs: Seq<Segment>,
    first: int,
    last: int,
    rw: int,
    rh: int,
    width: int,
    height: int,
)
    requires
        0 <= first <= last < segs.len(),
        last_under(segs, first, rw) == span_last(segs, last, segs[first].x + rw),
        span_top(segs, first, last) + rh > height,
    ensures
        !fits(segs, first, rw, rh, width, height),
{
    lemma_span_last(segs, last, segs[first].x + rw);
    lemma_span_top_mono(segs, first, last, last_under(segs, first, rw));
}

/// On a well-formed skyline the segments reach under a rectangle exactly when
/// it ends before the right margin.
pub proof fn lemma_reach_is_margin(segs: Seq<Segment>, first: int, rw: int, width: int, height: int)
    requires
        skyline_wf(segs, width, height),
        0 <= first < segs.len(),
    ensures
        last_under(segs, first, rw) < segs.len() <==> segs[first].x + rw <= width - 1,
{
    let reach = segs[first].x + rw;
    lemma_span_last(segs, first, reach);
    let j = span_last(segs, first, reach);
    let n = segs.len() as int;
    if j < n {
        if j < n - 1 {
            lemma_contiguous_order(segs, j, n - 1);
        }
    } else {
        assert(segs[n - 1].end() < reach);
    }
}

/// At most one segment is the choice of the search.
pub proof fn lemma_best_unique(
    segs: Seq<Segment>,
    a: int,
    b: int,
    rw: int,
    rh: int,
    width: int,
    height: int,
)
    requires
        is_best(segs, a, rw, rh, width, height),
        is_best(segs, b, rw, rh, width, height),
    ensures
        a == b,
{
}

/// A segment that meets `is_best` is what `best_fit` names.
pub proof fn lemma_best_fit_is(segs: Seq<Segment>, b: int, rw: int, rh: int, width: int, height: int)
    requires
        is_best(segs, b, rw, rh, width, height),
    ensures
        best_fit(segs, rw, rh, width, height) == Some(b),
{
    let c = choose|c: int| is_best(segs, c, rw, rh, width, height);
    lemma_best_unique(segs, b, c, rw, rh, width, height);
}

/// Where the rectangle fits nowhere, `best_fit` names nothing.
pub proof fn lemma_best_fit_none(segs: Seq<Segment>, rw: int, rh: int, width: int, height: int)
    requires
        forall|k: int| !#[trigger] fits(segs, k, rw, rh, width, height),
    ensures
        best_fit(segs, rw, rh, width, height) is None,
{
}

/// Where the rectangle fits somewhere, one segment is the choice of the
/// search among the first `n` segments.
proof fn lemma_best_exists_upto(
    segs: Seq<Segment>,
    n: int,
    rw: int,
    rh: int,
    width: int,
    height: int,
) -> (b: int)
    requires
        0 <= n <= segs.len(),
        exists|k: int| k < n && #[trigger] fits(segs, k, rw, rh, width, height),
    ensures
        b < n,
        fits(segs, b, rw, rh, width, height),
        forall|k: int|
            k < n && #[trigger] fits(segs, k, rw, rh, width, height) ==> !better(segs, k, b, rw),
        forall|k: int|
            k < b && #[trigger] fits(segs, k, rw, rh, width, height) ==> better(segs, b, k, rw),
    decreases n,
{
    let m = n - 1;
    if exists|k: int| k < m && #[trigger] fits(segs, k, rw, rh, width, height) {
        let c = lemma_best_exists_upto(segs, m, rw, rh, width, height);
        if fits(segs, m, rw, rh, width, height) && better(segs, m, c, rw) {
            m
        } else {
            c
        }
    } else {
        m
    }
}

/// `best_fit` names a segment exactly when the rectangle fits somewhere.
pub proof fn lemma_best_fit_some(segs: Seq<Segment>, rw: int, rh: int, width: int, height: int)
    ensures
        best_fit(segs, rw, rh, width, height) is Some <==> exists|k: int| #[trigger]
            fits(segs, k, rw, rh, width, height),
        best_fit(segs, rw, rh, width, height) matches Some(b) ==> is_best(
            segs,
            b,
            rw,
            rh,
            width,
            height,
        ),
{
    if exists|k: int| #[trigger] fits(segs, k, rw, rh, width, height) {
        let k = choose|k: int| #[trigger] fits(segs, k, rw, rh, width, height);
        assert(k < segs.len());
        let b = lemma_best_exists_upto(segs, segs.len() as int, rw, rh, width, height);
        assert(is_best(segs, b, rw, rh, width, height));
    }
}

/// The place that the search found: the segments `first ..= last` lie under
/// the rectangle, which rests on row `row`.
#[derive(Clone, Copy, Debug, PartialEq, Eq, Structural)]
pub struct Placement {
    pub first: usize,
    pub last: usize,
    pub row: u32,
}

/// Tries to stand a rectangle of `rw` by `rh` pixels with its left edge on
/// segment `first`.
pub fn try_segment(
    segs: &Vec<Segment>,
    first: usize,
    rw: u64,
    rh: u64,
    width: u32,
    height: u32,
) -> (r: Option<Placement>)
    requires
        skyline_wf(segs@, width as int, height as int),
        first < segs.len(),
    ensures
        r is Some <==> fits(segs@, first as int, rw as int, rh as int, width as int, height as int),
        r matches Some(p) ==> p.first == first && p.last == last_under(
            segs@,
            first as int,
            rw as int,
        ) && p.row == rest_row(segs@, first as int, rw as int),
{
    let n: usize = segs.len();
    let x: u32 = segs[first].x;
    proof {
        if (first as int) < n - 1 {
            lemma_contiguous_order(segs@, first as int, n - 1);
        }
    }
    if rw > (width - x) as u64 {
        return None;
    }
    let reach: u64 = x as u64 + rw;
    let mut last: usize = first;
    let mut top: u32 = segs[first].y;
    if rh > (height - top) as u64 {
        proof {
            lemma_too_high(
                segs@,
                first as int,
                last as int,
                rw as int,
                rh as int,
                width as int,
                height as int,
            );
        }
        return None;
    }
    while (segs[last].x as u64 + segs[last].width as u64) < reach
        invariant
            n == segs.len(),
            first <= last < n,
            reach == segs[first as int].x + rw,
            segs[first as int].x + rw <= width,
            forall|k: int| 0 <= k < n ==> 1 <= (#[trigger] segs[k]).y <= height,
            last_under(segs@, first as int, rw as int) == span_last(
                segs@,
                last as int,
                reach as int,
            ),
            top == span_top(segs@, first as int, last as int),
            top + rh <= height,
        decreases n - last,
    {
        if last + 1 == n {
            assert(span_last(segs@, last + 1, reach as int) == n);
            return None;
        }
        last = last + 1;
        if segs[last].y > top {
            top = segs[last].y;
        }
        if rh > (height - top) as u64 {
            proof {
                lemma_too_high(
                    segs@,
                    first as int,
                    last as int,
                    rw as int,
                    rh as int,
                    width as int,
                    height as int,
                );
            }
            return None;
        }
    }
    Some(Placement { first, last, row: top })
}

/// The best-fit search: tries every segment from left to right and keeps the
/// one on which the rectangle rests lowest; among equals the narrowest, and
/// among those the leftmost.
pub fn find_best(segs: &Vec<Segment>, rw: u64, rh: u64, width: u32, height: u32) -> (r: Option<
    Placement,
>)
    requires
        skyline_wf(segs@, width as int, height as int),
    ensures
        r is Some <==> exists|k: int| #[trigger]
            fits(segs@, k, rw as int, rh as int, width as int, height as int),
        match r {
            Some(p) => {
                &&& best_fit(segs@, rw as int, rh as int, width as int, height as int) == Some(
                    p.first as int,
                )
                &&& is_best(segs@, p.first as int, rw as int, rh as int, width as int, height as int)
                &&& p.last == last_under(segs@, p.first as int, rw as int)
                &&& p.row == rest_row(segs@, p.first as int, rw as int)
            },
            None => best_fit(segs@, rw as int, rh as int, width as int, height as int) is None,
        },
{
    let n: usize = segs.len();
    let mut best: Option<Placement> = None;
    let mut i: usize = 0;
    while i < n
        invariant
            i <= n,
            n == segs.len(),
            skyline_wf(segs@, width as int, height as int),
            match best {
                None => forall|k: int|
                    k < i ==> !#[trigger] fits(
                        segs@,
                        k,
                        rw as int,
                        rh as int,
                        width as int,
                        height as int,
                    ),
                Some(p) => {
                    &&& p.first < i
                    &&& fits(segs@, p.first as int, rw as int, rh as int, width as int, height as int)
                    &&& p.last == last_under(segs@, p.first as int, rw as int)
                    &&& p.row == rest_row(segs@, p.first as int, rw as int)
                    &&& forall|k: int|
                        k < i && #[trigger] fits(
                            segs@,
                            k,
                            rw as int,
                            rh as int,
                            width as int,
                            height as int,
                        ) ==> !better(segs@, k, p.first as int, rw as int)
                    &&& forall|k: int|
                        k < p.first && #[trigger] fits(
                            segs@,
                            k,
                            rw as int,
                            rh as int,
                            width as int,
                            height as int,
                        ) ==> better(segs@, p.first as int, k, rw as int)
                },
            },
        decreases n - i,
    {
        match try_segment(segs, i, rw, rh, width, height) {
            Some(c) => {
                let take: bool = match best {
                    None => true,
                    Some(p) => c.row < p.row || (c.row == p.row && segs[i].width
                        < segs[p.first].width),
                };
                if take {
                    best = Some(c);
                }
            },
            None => {},
        }
        i = i + 1;
    }
    proof {
        match best {
            Some(p) => {
                lemma_best_fit_is(
                    segs@,
                    p.first as int,
                    rw as int,
                    rh as int,
                    width as int,
                    height as int,
                );
            },
            None => {
                lemma_best_fit_none(segs@, rw as int, rh as int, width as int, height as int);
            },
        }
    }
    best
}

/// Replaces the segments `first ..= last` by one segment over the same
/// columns at row `y`; the segments to the left and to the right stay.
pub fn raise(segs: &mut Vec<Segment>, first: usize, last: usize, y: u32)
    requires
        first <= last < old(segs).len(),
        old(segs)[first as int].x <= old(segs)[last as int].end() <= u32::MAX,
    ensures
        final(segs)@ == raised(old(segs)@, first as int, last as int, y as int),
{
    let n: usize = segs.len();
    let ghost before = segs@;
    let merged = Segment {
        x: segs[first].x,
        y,
        width: segs[last].x + segs[last].width - segs[first].x,
    };
    let mut out: Vec<Segment> = Vec::new();
    let mut i: usize = 0;
    while i < first
        invariant
            i <= first < n,
            n == segs.len(),
            segs@ == before,
            out@ == before.subrange(0, i as int),
        decreases first - i,
    {
        out.push(segs[i]);
        assert(out@ =~= before.subrange(0, i + 1));
        i = i + 1;
    }
    out.push(merged);
    let ghost head = out@;
    let mut j: usize = last + 1;
    while j < n
        invariant
            last < j <= n,
            n == segs.len(),
            segs@ == before,
            out@ == head + before.subrange(last + 1, j as int),
        decreases n - j,
    {
        out.push(segs[j]);
        assert(out@ =~= head + before.subrange(last + 1, j + 1));
        j = j + 1;
    }
    *segs = out;
}

} // verus!
