//! Copying a glyph bitmap into its region of the atlas buffer.

use crate::arith::lemma_mul_le;
use crate::bitmap::{Bitmap, BitmapView};
use crate::region::AssignedRegion;
use vstd::arithmetic::div_mod::{lemma_fundamental_div_mod, lemma_fundamental_div_mod_converse};
use vstd::prelude::*;

verus! {

/// Byte `p` of a buffer of rows of `line` bytes after `rows` whole rows of the
/// bitmap and the first `done` bytes of the next have been written from row
/// `y`, byte `x_bytes` of each row on.
spec fn written_byte(
    buffer: Seq<u8>,
    line: int,
    x_bytes: int,
    y: int,
    bitmap: BitmapView,
    rows: int,
    done: int,
    p: int,
) -> u8 {
    let row = p / line - y;
    let offset = p % line - x_bytes;
    if line > 0 && 0 <= offset < bitmap.row_bytes() && 0 <= row && (row < rows || (row == rows
        && offset < done)) {
        bitmap.byte_at(row, offset)
    } else {
        buffer[p]
    }
}

/// Byte `p` of the buffer after the bitmap has been copied into the region:
/// inside the region, without its padding row and column, the byte of the
/// bitmap; everywhere else the byte that was there.
pub open spec fn copied_byte(
    buffer: Seq<u8>,
    buffer_width: int,
    depth: int,
    region: AssignedRegion,
    bitmap: BitmapView,
    p: int,
) -> u8 {
    let line = buffer_width * depth;
    let row = p / line - region.y;
    let offset = p % line - region.x * depth;
    if line > 0 && 0 <= row < region.height - 1 && 0 <= offset < (region.width - 1) * depth {
        bitmap.byte_at(row, offset)
    } else {
        buffer[p]
    }
}

/// The buffer after the bitmap has been copied into the region.
pub open spec fn copied(
    buffer: Seq<u8>,
    buffer_width: int,
    depth: int,
    region: AssignedRegion,
    bitmap: BitmapView,
) -> Seq<u8> {
    Seq::new(buffer.len(), |p: int| copied_byte(buffer, buffer_width, depth, region, bitmap, p))
}

/// The index in the buffer of byte `byte` of the pixel in row `row` and
/// column `column` of the surface.
pub open spec fn pixel_index(buffer_width: int, depth: int, row: int, column: int, byte: int) -> int {
    (row * buffer_width + column) * depth + byte
}

/// Byte `byte` of the pixel in row `row` and column `column` of the region,
/// as the buffer holds it.
pub open spec fn region_byte(
    buffer: Seq<u8>,
    buffer_width: int,
    depth: int,
    region: AssignedRegion,
    row: int,
    column: int,
    byte: int,
) -> u8 {
    buffer[pixel_index(buffer_width, depth, region.y + row, region.x + column, byte)]
}

/// Byte `byte` of the pixel in row `row` and column `column` of the bitmap.
pub open spec fn glyph_byte(bitmap: BitmapView, row: int, column: int, byte: int) -> u8 {
    bitmap.byte_at(row, column * bitmap.depth + byte)
}

/// The buffer holds the bitmap in the region: pixel for pixel, from the top
/// left corner of the region on.
pub open spec fn holds_glyph(
    buffer: Seq<u8>,
    buffer_width: int,
    region: AssignedRegion,
    bitmap: BitmapView,
) -> bool {
    forall|row: int, column: int, byte: int|
        0 <= row < bitmap.height && 0 <= column < bitmap.width && 0 <= byte < bitmap.depth
            ==> #[trigger] region_byte(
            buffer,
            buffer_width,
            bitmap.depth as int,
            region,
            row,
            column,
            byte,
        ) == glyph_byte(bitmap, row, column, byte)
}

/// Every byte of every pixel of the surface has its place in the buffer.
pub proof fn lemma_pixel_in_buffer(
    buffer_width: int,
    buffer_height: int,
    depth: int,
    row: int,
    column: int,
    byte: int,
)
    requires
        0 <= row < buffer_height,
        0 <= column < buffer_width,
        0 <= byte < depth,
    ensures
        0 <= pixel_index(buffer_width, depth, row, column, byte) < buffer_width * buffer_height
            * depth,
{
    let pixel = row * buffer_width + column;
    assert(0 <= pixel <= buffer_width * buffer_height - 1) by (nonlinear_arith)
        requires
            pixel == row * buffer_width + column,
            0 <= row <= buffer_height - 1,
            0 <= column <= buffer_width - 1,
    ;
    assert(0 <= pixel * depth + byte < buffer_width * buffer_height * depth) by (nonlinear_arith)
        requires
            0 <= pixel <= buffer_width * buffer_height - 1,
            0 <= byte < depth,
    ;
}

/// The copy touches no byte outside the rows and columns of the region.
pub proof fn lemma_copied_outside(
    buffer: Seq<u8>,
    buffer_width: int,
    depth: int,
    region: AssignedRegion,
    bitmap: BitmapView,
    row: int,
    column: int,
    byte: int,
)
    requires
        0 <= column < buffer_width,
        0 <= byte < depth,
        0 <= row,
        0 <= (row * buffer_width + column) * depth + byte < buffer.len(),
        !(region.x <= column < region.right() - 1 && region.y <= row < region.bottom() - 1),
    ensures
        copied(buffer, buffer_width, depth, region, bitmap)[(row * buffer_width + column) * depth
            + byte] == buffer[(row * buffer_width + column) * depth + byte],
{
    let line = buffer_width * depth;
    let p = (row * buffer_width + column) * depth + byte;
    lemma_pixel_index(buffer_width, depth, row, column, byte);
    if region.y <= row < region.bottom() - 1 {
        if column < region.x {
            assert(column * depth + depth <= region.x * depth) by (nonlinear_arith)
                requires
                    column + 1 <= region.x,
                    0 <= depth,
            ;
        } else {
            assert(region.x * depth + (region.width - 1) * depth <= column * depth)
                by (nonlinear_arith)
                requires
                    region.x + region.width - 1 <= column,
                    0 <= depth,
            ;
        }
    }
}

/// Inside the region, without its padding, the copy holds the bitmap.
pub proof fn lemma_copied_inside(
    buffer: Seq<u8>,
    buffer_width: int,
    depth: int,
    region: AssignedRegion,
    bitmap: BitmapView,
    row: int,
    column: int,
    byte: int,
)
    requires
        region.right() <= buffer_width,
        0 <= byte < depth,
        0 <= row < region.height - 1,
        0 <= column < region.width - 1,
        0 <= ((region.y + row) * buffer_width + region.x + column) * depth + byte < buffer.len(),
    ensures
        copied(buffer, buffer_width, depth, region, bitmap)[((region.y + row) * buffer_width
            + region.x + column) * depth + byte] == bitmap.byte_at(row, column * depth + byte),
{
    lemma_pixel_index(buffer_width, depth, region.y + row, region.x + column, byte);
    assert((region.x + column) * depth == region.x * depth + column * depth) by (nonlinear_arith);
    lemma_mul_le(column + 1, region.width - 1, depth, depth);
    assert((column + 1) * depth == column * depth + depth) by (nonlinear_arith);
}

/// The byte of pixel (`row`, `column`) lies in line `row` of the buffer, at
/// `column * depth + byte` from its start.
pub proof fn lemma_pixel_index(buffer_width: int, depth: int, row: int, column: int, byte: int)
    requires
        0 <= column < buffer_width,
        0 <= byte < depth,
    ensures
        ((row * buffer_width + column) * depth + byte) / (buffer_width * depth) == row,
        ((row * buffer_width + column) * depth + byte) % (buffer_width * depth) == column * depth
            + byte,
        0 <= column * depth + byte < buffer_width * depth,
{
    let line = buffer_width * depth;
    let p = (row * buffer_width + column) * depth + byte;
    assert(p == line * row + (column * depth + byte)) by (nonlinear_arith)
        requires
            line == buffer_width * depth,
            p == (row * buffer_width + column) * depth + byte,
    ;
    lemma_mul_le(column + 1, buffer_width, depth, depth);
    assert((column + 1) * depth == column * depth + depth) by (nonlinear_arith);
    lemma_mul_le(0, column, depth, depth);
    lemma_fundamental_div_mod_converse(p, line, row, column * depth + byte);
}

/// After the copy the buffer holds the bitmap in the region.
pub proof fn lemma_copy_holds_glyph(
    buffer: Seq<u8>,
    buffer_width: int,
    buffer_height: int,
    region: AssignedRegion,
    bitmap: BitmapView,
)
    requires
        region.width == bitmap.width + 1,
        region.height == bitmap.height + 1,
        region.within(buffer_width, buffer_height),
        buffer.len() == buffer_width * buffer_height * bitmap.depth,
    ensures
        holds_glyph(
            copied(buffer, buffer_width, bitmap.depth as int, region, bitmap),
            buffer_width,
            region,
            bitmap,
        ),
{
    let depth = bitmap.depth as int;
    let after = copied(buffer, buffer_width, depth, region, bitmap);
    assert forall|row: int, column: int, byte: int|
        0 <= row < bitmap.height && 0 <= column < bitmap.width && 0 <= byte
            < bitmap.depth implies #[trigger] region_byte(
        after,
        buffer_width,
        depth,
        region,
        row,
        column,
        byte,
    ) == glyph_byte(bitmap, row, column, byte) by {
        lemma_pixel_in_buffer(
            buffer_width,
            buffer_height,
            depth,
            region.y + row,
            region.x + column,
            byte,
        );
        lemma_copied_inside(buffer, buffer_width, depth, region, bitmap, row, column, byte);
    }
}

/// A copy into one region leaves the glyph in a region that does not
/// overlap it as it was.
pub proof fn lemma_copy_keeps_glyph(
    buffer: Seq<u8>,
    buffer_width: int,
    buffer_height: int,
    region: AssignedRegion,
    bitmap: BitmapView,
    other_region: AssignedRegion,
    other_bitmap: BitmapView,
)
    requires
        holds_glyph(buffer, buffer_width, other_region, other_bitmap),
        other_region.width == other_bitmap.width + 1,
        other_region.height == other_bitmap.height + 1,
        other_region.within(buffer_width, buffer_height),
        other_bitmap.depth == bitmap.depth,
        !region.overlaps(other_region),
        buffer.len() == buffer_width * buffer_height * bitmap.depth,
    ensures
        holds_glyph(
            copied(buffer, buffer_width, bitmap.depth as int, region, bitmap),
            buffer_width,
            other_region,
            other_bitmap,
        ),
{
    let depth = bitmap.depth as int;
    let after = copied(buffer, buffer_width, depth, region, bitmap);
    assert forall|row: int, column: int, byte: int|
        0 <= row < other_bitmap.height && 0 <= column < other_bitmap.width && 0 <= byte
            < other_bitmap.depth implies #[trigger] region_byte(
        after,
        buffer_width,
        depth,
        other_region,
        row,
        column,
        byte,
    ) == glyph_byte(other_bitmap, row, column, byte) by {
        lemma_pixel_in_buffer(
            buffer_width,
            buffer_height,
            depth,
            other_region.y + row,
            other_region.x + column,
            byte,
        );
        lemma_copied_outside(
            buffer,
            buffer_width,
            depth,
            region,
            bitmap,
            other_region.y + row,
            other_region.x + column,
            byte,
        );
        assert(region_byte(buffer, buffer_width, depth, other_region, row, column, byte)
            == glyph_byte(other_bitmap, row, column, byte));
    }
}

/// Copies the bitmap into the region of the buffer, row by row: row `r` of
/// the bitmap goes to line `region.y + r`, from pixel `region.x` on. The
/// padding row and column of the region are left as they are.
pub fn copy_region(
    buffer: &mut Vec<u8>,
    buffer_width: u32,
    depth: u32,
    region: AssignedRegion,
    bitmap: &Bitmap,
)
    requires
        bitmap@.consistent(),
        bitmap.depth == depth,
        region.width == bitmap.width + 1,
        region.height == bitmap.height + 1,
        region.right() <= buffer_width,
        buffer_width * depth * region.bottom() <= old(buffer)@.len(),
    ensures
        final(buffer)@ == copied(
            old(buffer)@,
            buffer_width as int,
            depth as int,
            region,
            bitmap@,
        ),
{
    let ghost before = buffer@;
    let total: usize = buffer.len();
    let ghost line_int = buffer_width as int * depth as int;
    let ghost x_int = region.x as int * depth as int;
    proof {
        lemma_mul_le(0, buffer_width as int, 0, depth as int);
        lemma_mul_le(line_int, line_int, 1, region.bottom());
        assert(line_int * region.bottom() == buffer_width * depth * region.bottom())
            by (nonlinear_arith)
            requires
                line_int == buffer_width as int * depth as int,
        ;
        lemma_mul_le(region.x as int, buffer_width as int, depth as int, depth as int);
        lemma_mul_le(bitmap.width as int, buffer_width as int, depth as int, depth as int);
    }
    let line: usize = buffer_width as usize * depth as usize;
    let x_bytes: usize = region.x as usize * depth as usize;
    let row_bytes: usize = bitmap.width as usize * depth as usize;
    let stride: usize = bitmap.stride as usize;
    let available: usize = bitmap.pixels.len();
    if line == 0 {
        assert(buffer@ =~= copied(before, buffer_width as int, depth as int, region, bitmap@));
        return ;
    }
    proof {
        lemma_mul_le(1, line_int, region.bottom(), region.bottom());
        assert((region.x + bitmap.width) * depth == x_int + bitmap@.row_bytes()) by (nonlinear_arith)
            requires
                x_int == region.x as int * depth as int,
                bitmap@.row_bytes() == bitmap.width as int * depth as int,
        ;
        lemma_mul_le(
            region.x + bitmap.width,
            buffer_width as int,
            depth as int,
            depth as int,
        );
        assert(x_bytes + row_bytes <= line);
    }
    let mut row: usize = 0;
    while row < bitmap.height as usize
        invariant
            row <= bitmap.height,
            total == before.len(),
            available == bitmap.pixels@.len(),
            region.bottom() <= total,
            0 < line,
            line == line_int,
            line_int == buffer_width as int * depth as int,
            x_bytes == x_int,
            row_bytes == bitmap@.row_bytes(),
            stride == bitmap.stride,
            x_bytes + row_bytes <= line,
            bitmap@.consistent(),
            region.height == bitmap.height + 1,
            line * region.bottom() <= before.len(),
            buffer@.len() == before.len(),
            forall|p: int|
                0 <= p < before.len() ==> #[trigger] buffer@[p] == written_byte(
                    before,
                    line_int,
                    x_int,
                    region.y as int,
                    bitmap@,
                    row as int,
                    0,
                    p,
                ),
        decreases bitmap.height - row,
    {
        proof {
            lemma_mul_le(row as int + 1, bitmap.height as int, stride as int, stride as int);
            assert((row + 1) * stride == row * stride + stride) by (nonlinear_arith);
            lemma_mul_le(0, row as int, stride as int, stride as int);
            lemma_mul_le(line as int, line as int, region.y + row + 1, region.bottom());
            assert(line * (region.y + row + 1) == (region.y + row) * line + line)
                by (nonlinear_arith);
            lemma_mul_le(0, region.y + row, 0, line as int);
        }
        let source: usize = row * stride;
        let target: usize = (region.y as usize + row) * line + x_bytes;
        let mut done: usize = 0;
        while done < row_bytes
            invariant
                done <= row_bytes,
                row < bitmap.height,
                total == before.len(),
                available == bitmap.pixels@.len(),
                line == line_int,
                x_bytes == x_int,
                row_bytes == bitmap@.row_bytes(),
                stride == bitmap.stride,
                x_bytes + row_bytes <= line,
                source == row * stride,
                source + row_bytes <= bitmap.pixels@.len(),
                target == (region.y + row) * line + x_bytes,
                target + row_bytes <= before.len(),
                buffer@.len() == before.len(),
                forall|p: int|
                    0 <= p < before.len() ==> #[trigger] buffer@[p] == written_byte(
                        before,
                        line_int,
                        x_int,
                        region.y as int,
                        bitmap@,
                        row as int,
                        done as int,
                        p,
                    ),
            decreases row_bytes - done,
        {
            let ghost earlier = buffer@;
            let value: u8 = bitmap.pixels[source + done];
            buffer.set(target + done, value);
            proof {
                let q = target as int + done as int;
                assert(q == line_int * (region.y + row) + (x_int + done)) by (nonlinear_arith)
                    requires
                        q == (region.y + row) * line_int + x_int + done,
                ;
                lemma_fundamental_div_mod_converse(
                    q,
                    line_int,
                    region.y + row,
                    x_int + done as int,
                );
                assert forall|p: int| 0 <= p < before.len() implies #[trigger] buffer@[p]
                    == written_byte(
                    before,
                    line_int,
                    x_int,
                    region.y as int,
                    bitmap@,
                    row as int,
                    done as int + 1,
                    p,
                ) by {
                    lemma_fundamental_div_mod(p, line_int);
                    assert(earlier[p] == written_byte(
                        before,
                        line_int,
                        x_int,
                        region.y as int,
                        bitmap@,
                        row as int,
                        done as int,
                        p,
                    ));
                }
            }
            done = done + 1;
        }
        row = row + 1;
    }
    proof {
        assert((region.width - 1) * depth == bitmap@.row_bytes());
        assert(buffer@ =~= copied(before, buffer_width as int, depth as int, region, bitmap@));
    }
}

} // verus!
