use rustgl::skyline::{find_best, raise, try_segment, Placement, Segment};

fn hills() -> Vec<Segment> {
    // Columns 1..9 of a surface 10 wide and 20 high.
    vec![
        Segment { x: 1, y: 5, width: 3 },
        Segment { x: 4, y: 2, width: 2 },
        Segment { x: 6, y: 2, width: 3 },
    ]
}

#[test]
fn rectangle_rests_on_the_segment_it_stands_on() {
    let segments = hills();
    assert_eq!(
        try_segment(&segments, 0, 2, 2, 10, 20),
        Some(Placement { first: 0, last: 0, row: 5 })
    );
    assert_eq!(
        try_segment(&segments, 1, 2, 2, 10, 20),
        Some(Placement { first: 1, last: 1, row: 2 })
    );
}

#[test]
fn rectangle_that_hangs_over_rests_on_the_highest_segment_under_it() {
    let segments = hills();
    assert_eq!(
        try_segment(&segments, 0, 4, 2, 10, 20),
        Some(Placement { first: 0, last: 1, row: 5 })
    );
    assert_eq!(
        try_segment(&segments, 1, 3, 2, 10, 20),
        Some(Placement { first: 1, last: 2, row: 2 })
    );
    assert_eq!(
        try_segment(&segments, 0, 8, 2, 10, 20),
        Some(Placement { first: 0, last: 2, row: 5 })
    );
}

#[test]
fn rectangle_must_end_before_the_right_margin() {
    let segments = hills();
    assert_eq!(try_segment(&segments, 2, 3, 2, 10, 20), Some(Placement { first: 2, last: 2, row: 2 }));
    assert_eq!(try_segment(&segments, 2, 4, 2, 10, 20), None);
    assert_eq!(try_segment(&segments, 2, 5, 2, 10, 20), None);
    assert_eq!(try_segment(&segments, 0, 9, 2, 10, 20), None);
    assert_eq!(try_segment(&segments, 0, u64::MAX, 2, 10, 20), None);
}

#[test]
fn rectangle_must_end_above_the_bottom() {
    let segments = hills();
    assert_eq!(try_segment(&segments, 0, 2, 15, 10, 20), Some(Placement { first: 0, last: 0, row: 5 }));
    assert_eq!(try_segment(&segments, 0, 2, 16, 10, 20), None);
    assert_eq!(try_segment(&segments, 1, 2, 18, 10, 20), Some(Placement { first: 1, last: 1, row: 2 }));
    assert_eq!(try_segment(&segments, 1, 2, 19, 10, 20), None);
    // Hanging over the high first segment costs its height.
    assert_eq!(try_segment(&segments, 0, 4, 16, 10, 20), None);
    assert_eq!(try_segment(&segments, 1, 2, u64::MAX, 10, 20), None);
}

#[test]
fn search_takes_the_lowest_place() {
    let segments = hills();
    assert_eq!(find_best(&segments, 2, 2, 10, 20), Some(Placement { first: 1, last: 1, row: 2 }));
}

#[test]
fn search_takes_the_narrower_segment_among_equally_low_places() {
    let segments = vec![
        Segment { x: 1, y: 2, width: 5 },
        Segment { x: 6, y: 2, width: 3 },
    ];
    assert_eq!(find_best(&segments, 2, 2, 10, 20), Some(Placement { first: 1, last: 1, row: 2 }));
    let segments = hills();
    assert_eq!(find_best(&segments, 3, 2, 10, 20), Some(Placement { first: 1, last: 2, row: 2 }));
}

#[test]
fn search_takes_the_leftmost_among_equals() {
    let segments = vec![
        Segment { x: 1, y: 3, width: 4 },
        Segment { x: 5, y: 3, width: 4 },
    ];
    assert_eq!(find_best(&segments, 2, 2, 10, 20), Some(Placement { first: 0, last: 0, row: 3 }));
}

#[test]
fn search_finds_nothing_where_nothing_fits() {
    let segments = hills();
    assert_eq!(find_best(&segments, 9, 1, 10, 20), None);
    assert_eq!(find_best(&segments, 1, 19, 10, 20), None);
    assert_eq!(find_best(&segments, 8, 15, 10, 20), Some(Placement { first: 0, last: 2, row: 5 }));
    assert_eq!(find_best(&segments, 8, 16, 10, 20), None);
}

#[test]
fn search_passes_over_a_low_place_that_is_too_narrow_at_the_right_margin() {
    let segments = vec![
        Segment { x: 1, y: 6, width: 6 },
        Segment { x: 7, y: 1, width: 2 },
    ];
    assert_eq!(find_best(&segments, 3, 2, 10, 20), Some(Placement { first: 0, last: 0, row: 6 }));
    assert_eq!(find_best(&segments, 2, 2, 10, 20), Some(Placement { first: 1, last: 1, row: 1 }));
}

#[test]
fn raise_replaces_the_segments_under_the_rectangle() {
    let mut segments = hills();
    raise(&mut segments, 1, 2, 4);
    assert_eq!(
        segments,
        vec![Segment { x: 1, y: 5, width: 3 }, Segment { x: 4, y: 4, width: 5 }]
    );
    let mut segments = hills();
    raise(&mut segments, 0, 0, 9);
    assert_eq!(
        segments,
        vec![
            Segment { x: 1, y: 9, width: 3 },
            Segment { x: 4, y: 2, width: 2 },
            Segment { x: 6, y: 2, width: 3 },
        ]
    );
    let mut segments = hills();
    raise(&mut segments, 0, 2, 7);
    assert_eq!(segments, vec![Segment { x: 1, y: 7, width: 8 }]);
    let mut segments = hills();
    raise(&mut segments, 0, 1, 7);
    assert_eq!(
        segments,
        vec![Segment { x: 1, y: 7, width: 5 }, Segment { x: 6, y: 2, width: 3 }]
    );
}
