use rustgl::atlas::{Atlas, AtlasError};
use rustgl::bitmap::Bitmap;
use rustgl::region::AssignedRegion;
use rustgl::skyline::Segment;

fn bitmap(width: u32, height: u32, depth: u32, fill: u8) -> Bitmap {
    let stride = width * depth;
    Bitmap { width, height, stride, depth, pixels: vec![fill; (stride * height) as usize] }
}

fn assert_skyline_in_order(atlas: &Atlas) {
    let segments = atlas.segments();
    assert!(!segments.is_empty());
    assert_eq!(segments[0].x, 1);
    let last = segments[segments.len() - 1];
    assert_eq!(last.x + last.width, atlas.pixel_width() - 1);
    for pair in segments.windows(2) {
        assert!(pair[0].x < pair[1].x);
        assert_eq!(pair[0].x + pair[0].width, pair[1].x);
    }
    for segment in segments.iter() {
        assert!(segment.width >= 1);
        assert!(segment.y >= 1 && segment.y <= atlas.pixel_height());
    }
}

#[test]
fn new_atlas_has_one_segment_between_the_margins() {
    let atlas = Atlas::new(10, 10, 1);
    assert_eq!(atlas.segments(), &vec![Segment { x: 1, y: 1, width: 8 }]);
    assert_eq!(atlas.buffer(), &vec![0u8; 100]);
    assert_eq!(atlas.data_used(), 0);
    assert_eq!(atlas.pixel_width(), 10);
    assert_eq!(atlas.pixel_height(), 10);
    assert_eq!(atlas.pixel_depth(), 1);
    assert_eq!(atlas.region_of('a'), None);
}

#[test]
fn new_atlas_of_the_smallest_size() {
    let atlas = Atlas::new(3, 3, 2);
    assert_eq!(atlas.segments(), &vec![Segment { x: 1, y: 1, width: 1 }]);
    assert_eq!(atlas.buffer().len(), 18);
}

#[test]
fn new_atlas_without_depth_has_an_empty_buffer() {
    let mut atlas = Atlas::new(8, 8, 0);
    assert_eq!(atlas.buffer().len(), 0);
    let region = atlas.add_glyph('a', &bitmap(2, 2, 0, 0));
    assert_eq!(region, Ok(AssignedRegion { x: 1, y: 1, width: 3, height: 3 }));
    assert_eq!(atlas.data_used(), 0);
}

#[test]
fn first_glyph_goes_to_the_top_left_inside_the_margin() {
    let mut atlas = Atlas::new(10, 10, 1);
    let region = atlas.add_glyph('a', &bitmap(2, 2, 1, 7));
    assert_eq!(region, Ok(AssignedRegion { x: 1, y: 1, width: 3, height: 3 }));
    assert_eq!(atlas.segments(), &vec![Segment { x: 1, y: 4, width: 8 }]);
    assert_eq!(atlas.region_of('a'), Some(AssignedRegion { x: 1, y: 1, width: 3, height: 3 }));
}

#[test]
fn too_wide_bitmap_finds_no_space_and_changes_nothing() {
    let mut atlas = Atlas::new(10, 10, 1);
    atlas.add_glyph('a', &bitmap(2, 2, 1, 7)).unwrap();
    let buffer = atlas.buffer().clone();
    let segments = atlas.segments().clone();
    let used = atlas.data_used();
    let result = atlas.add_glyph('b', &bitmap(10, 1, 1, 9));
    assert_eq!(result, Err(AtlasError::NoSpace));
    assert_eq!(atlas.buffer(), &buffer);
    assert_eq!(atlas.segments(), &segments);
    assert_eq!(atlas.segments(), &vec![Segment { x: 1, y: 4, width: 8 }]);
    assert_eq!(atlas.data_used(), used);
    assert_eq!(atlas.region_of('b'), None);
}

#[test]
fn two_small_glyphs_do_not_overlap() {
    let mut atlas = Atlas::new(6, 6, 1);
    let first = atlas.add_glyph('a', &bitmap(1, 1, 1, 1)).unwrap();
    let second = atlas.add_glyph('b', &bitmap(1, 1, 1, 2)).unwrap();
    assert!(!first.intersects(&second));
    let share_columns =
        first.x < second.x + second.width && second.x < first.x + first.width;
    if share_columns {
        assert!(second.y >= first.y + 2);
    } else {
        assert_eq!(second.y, first.y);
    }
    assert_eq!(first, AssignedRegion { x: 1, y: 1, width: 2, height: 2 });
    assert_eq!(second, AssignedRegion { x: 1, y: 3, width: 2, height: 2 });
    assert_eq!(atlas.add_glyph('c', &bitmap(1, 1, 1, 3)), Err(AtlasError::NoSpace));
}

#[test]
fn regions_never_overlap_and_stay_inside_the_surface() {
    let mut atlas = Atlas::new(64, 256, 1);
    let mut regions: Vec<AssignedRegion> = Vec::new();
    let mut seed: u32 = 12345;
    let mut used_before = 0usize;
    for i in 0..200u32 {
        seed = seed.wrapping_mul(1103515245).wrapping_add(12345);
        let width = (seed >> 16) % 12;
        seed = seed.wrapping_mul(1103515245).wrapping_add(12345);
        let height = (seed >> 16) % 9;
        let key = char::from_u32(0x100 + i).unwrap();
        match atlas.add_glyph(key, &bitmap(width, height, 1, (i % 250) as u8 + 1)) {
            Ok(region) => {
                assert_eq!(region.width, width + 1);
                assert_eq!(region.height, height + 1);
                assert!(region.x >= 1 && region.y >= 1);
                assert!(region.x + region.width <= atlas.pixel_width());
                assert!(region.y + region.height <= atlas.pixel_height());
                for earlier in regions.iter() {
                    assert!(!region.intersects(earlier));
                    assert!(!earlier.intersects(&region));
                }
                assert_eq!(atlas.region_of(key), Some(region));
                assert_eq!(atlas.data_used(), used_before + (width * height) as usize);
                regions.push(region);
            }
            Err(error) => {
                assert_eq!(error, AtlasError::NoSpace);
                assert_eq!(atlas.data_used(), used_before);
            }
        }
        assert!(atlas.data_used() >= used_before);
        assert!(atlas.data_used() <= 64 * 256);
        used_before = atlas.data_used();
        assert_skyline_in_order(&atlas);
    }
    assert!(regions.len() > 10);
}

#[test]
fn glyphs_larger_than_the_surface_together_run_out_of_space() {
    let mut atlas = Atlas::new(16, 16, 1);
    let mut placed = 0u32;
    let mut refused = 0u32;
    for i in 0..20u32 {
        let before_buffer = atlas.buffer().clone();
        let before_segments = atlas.segments().clone();
        match atlas.add_glyph(char::from_u32(0x41 + i).unwrap(), &bitmap(3, 3, 1, 5)) {
            Ok(_) => placed += 1,
            Err(error) => {
                assert_eq!(error, AtlasError::NoSpace);
                assert_eq!(atlas.buffer(), &before_buffer);
                assert_eq!(atlas.segments(), &before_segments);
                refused += 1;
            }
        }
    }
    // Twenty glyphs of 4 by 4 pixels with padding ask for 320 pixels of 256.
    assert!(refused >= 1);
    assert!(placed * 16 <= 16 * 16);
    assert_eq!(placed, 3);
    assert_eq!(refused, 17);
}

#[test]
fn bitmap_larger_than_the_atlas_is_invalid() {
    let mut atlas = Atlas::new(10, 10, 1);
    assert_eq!(atlas.add_glyph('w', &bitmap(11, 1, 1, 1)), Err(AtlasError::InvalidBitmap));
    assert_eq!(atlas.add_glyph('h', &bitmap(1, 11, 1, 1)), Err(AtlasError::InvalidBitmap));
    assert_eq!(atlas.segments(), &vec![Segment { x: 1, y: 1, width: 8 }]);
    assert_eq!(atlas.buffer(), &vec![0u8; 100]);
    assert_eq!(atlas.data_used(), 0);
    assert_eq!(atlas.region_of('w'), None);
}

#[test]
fn bitmap_as_large_as_the_atlas_is_valid_but_finds_no_space() {
    let mut atlas = Atlas::new(10, 10, 1);
    assert_eq!(atlas.add_glyph('w', &bitmap(10, 1, 1, 1)), Err(AtlasError::NoSpace));
    assert_eq!(atlas.add_glyph('h', &bitmap(1, 10, 1, 1)), Err(AtlasError::NoSpace));
    assert_eq!(atlas.buffer(), &vec![0u8; 100]);
}

#[test]
fn bitmap_of_another_depth_is_invalid() {
    let mut atlas = Atlas::new(10, 10, 1);
    assert_eq!(atlas.add_glyph('a', &bitmap(2, 2, 3, 1)), Err(AtlasError::InvalidBitmap));
    assert_eq!(atlas.segments(), &vec![Segment { x: 1, y: 1, width: 8 }]);
}

#[test]
fn bitmap_with_too_little_pixel_data_is_invalid() {
    let mut atlas = Atlas::new(10, 10, 1);
    let short = Bitmap { width: 2, height: 2, stride: 2, depth: 1, pixels: vec![1, 2, 3] };
    assert_eq!(atlas.add_glyph('a', &short), Err(AtlasError::InvalidBitmap));
    let narrow = Bitmap { width: 2, height: 2, stride: 1, depth: 1, pixels: vec![1, 2, 3, 4] };
    assert_eq!(atlas.add_glyph('a', &narrow), Err(AtlasError::InvalidBitmap));
    assert_eq!(atlas.buffer(), &vec![0u8; 100]);
    assert_eq!(atlas.segments(), &vec![Segment { x: 1, y: 1, width: 8 }]);
}

#[test]
fn widest_and_highest_glyph_that_fits() {
    let mut atlas = Atlas::new(10, 10, 1);
    assert_eq!(atlas.add_glyph('a', &bitmap(8, 1, 1, 1)), Err(AtlasError::NoSpace));
    assert_eq!(atlas.add_glyph('b', &bitmap(1, 9, 1, 1)), Err(AtlasError::NoSpace));
    assert_eq!(
        atlas.add_glyph('c', &bitmap(7, 8, 1, 1)),
        Ok(AssignedRegion { x: 1, y: 1, width: 8, height: 9 })
    );
    assert_eq!(atlas.segments(), &vec![Segment { x: 1, y: 10, width: 8 }]);
    assert_eq!(atlas.add_glyph('d', &bitmap(0, 0, 1, 1)), Err(AtlasError::NoSpace));
}

#[test]
fn pixels_are_copied_row_by_row_into_the_region() {
    let mut atlas = Atlas::new(6, 6, 1);
    let glyph = Bitmap { width: 2, height: 2, stride: 2, depth: 1, pixels: vec![1, 2, 3, 4] };
    atlas.add_glyph('a', &glyph).unwrap();
    let mut expected = vec![0u8; 36];
    expected[1 * 6 + 1] = 1;
    expected[1 * 6 + 2] = 2;
    expected[2 * 6 + 1] = 3;
    expected[2 * 6 + 2] = 4;
    assert_eq!(atlas.buffer(), &expected);
    assert_eq!(atlas.data_used(), 4);
}

#[test]
fn rows_are_read_by_the_stride_of_the_bitmap() {
    let mut atlas = Atlas::new(6, 6, 1);
    let glyph = Bitmap {
        width: 2,
        height: 2,
        stride: 4,
        depth: 1,
        pixels: vec![1, 2, 99, 99, 3, 4, 99, 99],
    };
    atlas.add_glyph('a', &glyph).unwrap();
    let mut expected = vec![0u8; 36];
    expected[1 * 6 + 1] = 1;
    expected[1 * 6 + 2] = 2;
    expected[2 * 6 + 1] = 3;
    expected[2 * 6 + 2] = 4;
    assert_eq!(atlas.buffer(), &expected);
    assert_eq!(atlas.data_used(), 4);
}

#[test]
fn pixels_of_several_bytes_are_copied_whole() {
    let mut atlas = Atlas::new(5, 5, 3);
    let glyph = Bitmap {
        width: 2,
        height: 1,
        stride: 6,
        depth: 3,
        pixels: vec![10, 20, 30, 40, 50, 60],
    };
    let region = atlas.add_glyph('a', &glyph).unwrap();
    assert_eq!(region, AssignedRegion { x: 1, y: 1, width: 3, height: 2 });
    let mut expected = vec![0u8; 75];
    let start = (1 * 5 + 1) * 3;
    expected[start..start + 6].copy_from_slice(&[10, 20, 30, 40, 50, 60]);
    assert_eq!(atlas.buffer(), &expected);
    assert_eq!(atlas.data_used(), 6);
}

#[test]
fn second_glyph_rests_on_the_raised_skyline() {
    let mut atlas = Atlas::new(10, 10, 1);
    atlas.add_glyph('a', &bitmap(2, 2, 1, 7)).unwrap();
    let second = atlas.add_glyph('b', &bitmap(3, 1, 1, 9)).unwrap();
    assert_eq!(second, AssignedRegion { x: 1, y: 4, width: 4, height: 2 });
    assert_eq!(atlas.segments(), &vec![Segment { x: 1, y: 6, width: 8 }]);
    let mut expected = vec![0u8; 100];
    for (row, column) in [(1, 1), (1, 2), (2, 1), (2, 2)] {
        expected[row * 10 + column] = 7;
    }
    for column in 1..4 {
        expected[4 * 10 + column] = 9;
    }
    assert_eq!(atlas.buffer(), &expected);
    assert_eq!(atlas.data_used(), 7);
}

#[test]
fn same_character_again_takes_new_space_and_replaces_the_entry() {
    let mut atlas = Atlas::new(10, 10, 1);
    let first = atlas.add_glyph('a', &bitmap(2, 2, 1, 7)).unwrap();
    let second = atlas.add_glyph('a', &bitmap(2, 2, 1, 8)).unwrap();
    assert_eq!(first, AssignedRegion { x: 1, y: 1, width: 3, height: 3 });
    assert_eq!(second, AssignedRegion { x: 1, y: 4, width: 3, height: 3 });
    assert!(!first.intersects(&second));
    assert_eq!(atlas.region_of('a'), Some(second));
    assert_eq!(atlas.data_used(), 8);
    assert_eq!(atlas.buffer()[1 * 10 + 1], 7);
    assert_eq!(atlas.buffer()[4 * 10 + 1], 8);
}

#[test]
fn empty_bitmap_takes_its_padding_only() {
    let mut atlas = Atlas::new(10, 10, 1);
    let empty = Bitmap { width: 0, height: 0, stride: 0, depth: 1, pixels: vec![] };
    let region = atlas.add_glyph(' ', &empty).unwrap();
    assert_eq!(region, AssignedRegion { x: 1, y: 1, width: 1, height: 1 });
    assert_eq!(atlas.segments(), &vec![Segment { x: 1, y: 2, width: 8 }]);
    assert_eq!(atlas.data_used(), 0);
    assert_eq!(atlas.buffer(), &vec![0u8; 100]);
}

#[test]
fn regions_that_touch_do_not_intersect() {
    let a = AssignedRegion { x: 1, y: 1, width: 3, height: 3 };
    let right = AssignedRegion { x: 4, y: 1, width: 2, height: 2 };
    let below = AssignedRegion { x: 1, y: 4, width: 3, height: 1 };
    let inside = AssignedRegion { x: 3, y: 3, width: 5, height: 5 };
    assert!(!a.intersects(&right));
    assert!(!a.intersects(&below));
    assert!(a.intersects(&inside));
    assert!(inside.intersects(&a));
    assert!(a.intersects(&a));
}

#[test]
fn bitmap_consistency() {
    assert!(bitmap(3, 2, 1, 0).is_consistent());
    assert!(Bitmap { width: 3, height: 2, stride: 8, depth: 2, pixels: vec![0; 16] }
        .is_consistent());
    assert!(!Bitmap { width: 3, height: 2, stride: 5, depth: 2, pixels: vec![0; 16] }
        .is_consistent());
    assert!(!Bitmap { width: 3, height: 2, stride: 8, depth: 2, pixels: vec![0; 15] }
        .is_consistent());
    assert!(Bitmap { width: 0, height: 0, stride: 0, depth: 4, pixels: vec![] }.is_consistent());
}

#[test]
fn glyphs_stay_in_the_buffer_as_they_were_copied() {
    let mut atlas = Atlas::new(40, 120, 2);
    let mut placed: Vec<(AssignedRegion, Bitmap)> = Vec::new();
    let mut seed: u32 = 99;
    for i in 0..60u32 {
        seed = seed.wrapping_mul(1103515245).wrapping_add(12345);
        let width = (seed >> 16) % 9;
        seed = seed.wrapping_mul(1103515245).wrapping_add(12345);
        let height = (seed >> 16) % 7;
        let stride = width * 2 + (i % 3);
        let pixels: Vec<u8> =
            (0..stride * height).map(|p| ((p * 7 + i * 13) % 251) as u8 + 1).collect();
        let glyph = Bitmap { width, height, stride, depth: 2, pixels };
        if let Ok(region) = atlas.add_glyph(char::from_u32(0x4e00 + i).unwrap(), &glyph) {
            placed.push((region, glyph));
        }
    }
    assert!(placed.len() > 10);
    let buffer = atlas.buffer();
    let mut covered = vec![false; buffer.len()];
    for (region, glyph) in placed.iter() {
        for row in 0..glyph.height {
            for column in 0..glyph.width {
                for byte in 0..2u32 {
                    let target = (((region.y + row) * 40 + region.x + column) * 2 + byte) as usize;
                    let source = (row * glyph.stride + column * 2 + byte) as usize;
                    assert_eq!(buffer[target], glyph.pixels[source]);
                    assert!(!covered[target]);
                    covered[target] = true;
                }
            }
        }
    }
    for (index, byte) in buffer.iter().enumerate() {
        if !covered[index] {
            assert_eq!(*byte, 0);
        }
    }
    let glyph_bytes: usize = placed.iter().map(|(_, g)| (g.width * g.height * 2) as usize).sum();
    assert_eq!(atlas.data_used(), glyph_bytes);
}

#[test]
fn regions_recorded_under_different_characters_do_not_overlap() {
    let mut atlas = Atlas::new(32, 32, 1);
    for (i, character) in "abcdefg".chars().enumerate() {
        atlas.add_glyph(character, &bitmap(i as u32 + 1, 2, 1, 1)).unwrap();
    }
    atlas.add_glyph('c', &bitmap(1, 1, 1, 1)).unwrap();
    let regions: Vec<AssignedRegion> =
        "abcdefg".chars().map(|c| atlas.region_of(c).unwrap()).collect();
    for (i, first) in regions.iter().enumerate() {
        for second in regions.iter().skip(i + 1) {
            assert!(!first.intersects(second));
        }
    }
    assert_eq!(atlas.region_of('z'), None);
}
