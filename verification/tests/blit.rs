use rustgl::arith::mul_u32;
use rustgl::bitmap::Bitmap;
use rustgl::blit::copy_region;
use rustgl::region::AssignedRegion;

#[test]
fn copy_leaves_the_padding_and_everything_outside_as_it_was() {
    let mut buffer = vec![0xEEu8; 5 * 4];
    let glyph = Bitmap { width: 2, height: 2, stride: 3, depth: 1, pixels: vec![1, 2, 0, 3, 4, 0] };
    let region = AssignedRegion { x: 1, y: 1, width: 3, height: 3 };
    copy_region(&mut buffer, 5, 1, region, &glyph);
    let e = 0xEEu8;
    assert_eq!(
        buffer,
        vec![
            e, e, e, e, e, //
            e, 1, 2, e, e, //
            e, 3, 4, e, e, //
            e, e, e, e, e,
        ]
    );
}

#[test]
fn copy_into_the_first_row_and_column() {
    let mut buffer = vec![0u8; 3 * 2 * 2];
    let glyph = Bitmap { width: 1, height: 1, stride: 2, depth: 2, pixels: vec![5, 6] };
    let region = AssignedRegion { x: 0, y: 0, width: 2, height: 2 };
    copy_region(&mut buffer, 3, 2, region, &glyph);
    assert_eq!(buffer, vec![5, 6, 0, 0, 0, 0, 0, 0, 0, 0, 0, 0]);
}

#[test]
fn copy_into_the_last_row_and_column_that_hold_the_glyph() {
    let mut buffer = vec![0u8; 4 * 3 * 2];
    let glyph = Bitmap { width: 1, height: 1, stride: 2, depth: 2, pixels: vec![5, 6] };
    let region = AssignedRegion { x: 2, y: 1, width: 2, height: 2 };
    copy_region(&mut buffer, 4, 2, region, &glyph);
    let mut expected = vec![0u8; 24];
    expected[(1 * 4 + 2) * 2] = 5;
    expected[(1 * 4 + 2) * 2 + 1] = 6;
    assert_eq!(buffer, expected);
}

#[test]
fn copy_of_an_empty_bitmap_changes_nothing() {
    let mut buffer = vec![3u8; 9];
    let glyph = Bitmap { width: 0, height: 0, stride: 0, depth: 1, pixels: vec![] };
    copy_region(&mut buffer, 3, 1, AssignedRegion { x: 1, y: 1, width: 1, height: 1 }, &glyph);
    assert_eq!(buffer, vec![3u8; 9]);
}

#[test]
fn copy_without_depth_changes_nothing() {
    let mut buffer: Vec<u8> = Vec::new();
    let glyph = Bitmap { width: 2, height: 2, stride: 0, depth: 0, pixels: vec![] };
    copy_region(&mut buffer, 5, 0, AssignedRegion { x: 1, y: 1, width: 3, height: 3 }, &glyph);
    assert!(buffer.is_empty());
}

#[test]
fn product_of_the_largest_values_fits() {
    assert_eq!(mul_u32(0, 7), 0);
    assert_eq!(mul_u32(6, 7), 42);
    assert_eq!(mul_u32(u32::MAX, u32::MAX), 18446744065119617025);
}
