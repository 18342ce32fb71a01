//! The picture as the bytes of an uncompressed bitmap file with 24 bits per
//! pixel.
//!
//! The file is a 54-byte header followed by the rows of the picture in the
//! order in which the canvas stores them. A row holds three bytes per pixel,
//! blue first, then green, then red, and is padded with zero bytes to a
//! multiple of four bytes.

use vstd::prelude::*;
use vstd::arithmetic::div_mod::{
    lemma_fundamental_div_mod_converse_div,
    lemma_fundamental_div_mod_converse_mod,
};
use crate::canvas::Canvas;
use crate::color::Color;

verus! {

/// The length of the two headers that precede the pixel data.
pub const HEADER_LEN: usize = 54;

/// The resolution written into the header, in pixels per metre (72 dpi).
pub const PIXELS_PER_METRE: u32 = 2835;

/// The four bytes of `v`, least significant first.
pub open spec fn le_bytes(v: int) -> Seq<u8> {
    seq![
        (v % 0x100) as u8,
        (v / 0x100 % 0x100) as u8,
        (v / 0x1_0000 % 0x100) as u8,
        (v / 0x100_0000 % 0x100) as u8,
    ]
}

/// The number of bytes that one row of `width` pixels takes in the file:
/// three per pixel, rounded up to a multiple of four.
pub open spec fn row_len(width: int) -> int {
    (3 * width + 3) / 4 * 4
}

/// The number of bytes that the pixel data of the picture takes.
pub open spec fn data_len(width: int, height: int) -> int {
    row_len(width) * height
}

/// Whether a picture of this size can be written: both sides and the length
/// of the whole file have to fit the signed and unsigned 32-bit fields of
/// the header.
pub open spec fn fits(width: int, height: int) -> bool {
    &&& 0 <= width <= i32::MAX
    &&& 0 <= height <= i32::MAX
    &&& HEADER_LEN + data_len(width, height) <= u32::MAX
}

/// The header of the file for a picture of the given size.
pub open spec fn header(width: int, height: int) -> Seq<u8> {
    seq![0x42u8, 0x4Du8] + le_bytes(HEADER_LEN + data_len(width, height)) + le_bytes(0)
        + le_bytes(HEADER_LEN as int) + le_bytes(40) + le_bytes(width) + le_bytes(height)
        + seq![1u8, 0u8, 24u8, 0u8] + le_bytes(0) + le_bytes(data_len(width, height)) + le_bytes(
        PIXELS_PER_METRE as int,
    ) + le_bytes(PIXELS_PER_METRE as int) + le_bytes(0) + le_bytes(0)
}

/// One of the three bytes that stand for a packed color: number 0 is blue,
/// number 1 green, number 2 red.
pub open spec fn channel(packed: u32, number: int) -> u8 {
    let color = Color::unpacked(packed);
    if number == 0 {
        color.b
    } else if number == 1 {
        color.g
    } else {
        color.r
    }
}

/// The byte at place `k` of the pixel data of a canvas.
pub open spec fn data_byte(canvas: Canvas, k: int) -> u8 {
    let row = k / row_len(canvas.width as int);
    let column = k % row_len(canvas.width as int);
    if column < 3 * canvas.width {
        channel(canvas.pixel(column / 3, row), column % 3)
    } else {
        0u8
    }
}

/// The pixel data of a canvas.
pub open spec fn data(canvas: Canvas) -> Seq<u8> {
    Seq::new(
        data_len(canvas.width as int, canvas.height as int) as nat,
        |k: int| data_byte(canvas, k),
    )
}

/// The bitmap file of a canvas.
pub open spec fn file_bytes(canvas: Canvas) -> Seq<u8> {
    header(canvas.width as int, canvas.height as int) + data(canvas)
}

/// Where the three bytes of pixel `(x, y)` start in the file.
pub open spec fn pixel_offset(width: int, x: int, y: int) -> int {
    HEADER_LEN + y * row_len(width) + 3 * x
}

/// A row is at least as long as its pixels need, and less than four bytes
/// longer.
pub proof fn lemma_row_len(width: int)
    requires
        0 <= width,
    ensures
        3 * width <= row_len(width) < 3 * width + 4,
        row_len(width) % 4 == 0,
{
}

/// The place of a byte of a row in the pixel data gives back the row and
/// the place in the row by division.
proof fn lemma_data_place(width: int, height: int, row: int, column: int)
    requires
        0 <= row < height,
        0 <= column < row_len(width),
    ensures
        0 <= row * row_len(width) + column < data_len(width, height),
        (row * row_len(width) + column) / row_len(width) == row,
        (row * row_len(width) + column) % row_len(width) == column,
{
    let len = row_len(width);
    assert(0 <= row * len && row * len + column < len * height) by (nonlinear_arith)
        requires
            0 <= row < height,
            0 <= column < len,
    ;
    lemma_fundamental_div_mod_converse_div(row * len + column, len, row, column);
    lemma_fundamental_div_mod_converse_mod(row * len + column, len, row, column);
}

/// The file keeps every pixel: the three bytes at the pixel's place are the
/// blue, green and red channel of its color.
pub proof fn lemma_file_keeps_pixels(canvas: Canvas, x: int, y: int)
    requires
        canvas.wf(),
        canvas.in_bounds(x, y),
    ensures
        file_bytes(canvas).len() == HEADER_LEN + data_len(
            canvas.width as int,
            canvas.height as int,
        ),
        pixel_offset(canvas.width as int, x, y) + 2 < file_bytes(canvas).len(),
        Color::unpacked(canvas.pixel(x, y)) == (Color {
            r: file_bytes(canvas)[pixel_offset(canvas.width as int, x, y) + 2],
            g: file_bytes(canvas)[pixel_offset(canvas.width as int, x, y) + 1],
            b: file_bytes(canvas)[pixel_offset(canvas.width as int, x, y)],
        }),
{
    let width = canvas.width as int;
    let height = canvas.height as int;
    lemma_row_len(width);
    lemma_data_place(width, height, y, 3 * x);
    lemma_data_place(width, height, y, 3 * x + 1);
    lemma_data_place(width, height, y, 3 * x + 2);
    assert(data_len(width, height) >= 0);
    assert(header(width, height).len() == HEADER_LEN);
}

fn push_le_bytes(bytes: &mut Vec<u8>, v: u32)
    ensures
        final(bytes)@ == old(bytes)@ + le_bytes(v as int),
{
    bytes.push((v % 0x100) as u8);
    bytes.push((v / 0x100 % 0x100) as u8);
    bytes.push((v / 0x1_0000 % 0x100) as u8);
    bytes.push((v / 0x100_0000 % 0x100) as u8);
    assert(bytes@ =~= old(bytes)@ + le_bytes(v as int));
}

/// The header of the file for a picture whose pixel data takes `data_size`
/// bytes.
fn header_bytes(width: u32, height: u32, data_size: u32) -> (bytes: Vec<u8>)
    requires
        data_size == data_len(width as int, height as int),
        HEADER_LEN + data_size <= u32::MAX,
    ensures
        bytes@ == header(width as int, height as int),
{
    let mut bytes: Vec<u8> = Vec::new();
    bytes.push(0x42);
    bytes.push(0x4D);
    push_le_bytes(&mut bytes, 54 + data_size);
    push_le_bytes(&mut bytes, 0);
    push_le_bytes(&mut bytes, 54);
    push_le_bytes(&mut bytes, 40);
    push_le_bytes(&mut bytes, width);
    push_le_bytes(&mut bytes, height);
    bytes.push(1);
    bytes.push(0);
    bytes.push(24);
    bytes.push(0);
    push_le_bytes(&mut bytes, 0);
    push_le_bytes(&mut bytes, data_size);
    push_le_bytes(&mut bytes, PIXELS_PER_METRE);
    push_le_bytes(&mut bytes, PIXELS_PER_METRE);
    push_le_bytes(&mut bytes, 0);
    push_le_bytes(&mut bytes, 0);
    assert(bytes@ =~= header(width as int, height as int));
    bytes
}

/// Appends row `y` of the picture: its pixels, then its padding.
fn push_row(
    bytes: &mut Vec<u8>,
    pixels: &Vec<u32>,
    width: usize,
    y: usize,
    row: u64,
    Ghost(canvas): Ghost<Canvas>,
)
    requires
        canvas.wf(),
        canvas.width == width,
        width <= i32::MAX,
        y < canvas.height,
        canvas.pixels == pixels@,
        row == row_len(width as int),
    ensures
        final(bytes)@ == old(bytes)@ + data(canvas).subrange(y * row, y * row + row),
        0 <= y * row,
        y * row + row <= data(canvas).len(),
{
    let ghost start = bytes@;
    let ghost w = width as int;
    let ghost h = canvas.height as int;
    let ghost from = y * row;
    proof {
        lemma_row_len(w);
        assert(0 <= y * row && y * row + row <= row * h) by (nonlinear_arith)
            requires
                0 <= y < h,
                0 <= row,
        ;
        assert(start =~= start + data(canvas).subrange(from, from));
    }
    let mut x: usize = 0;
    while x < width
        invariant
            x <= width,
            canvas.wf(),
            canvas.width == width,
            y < canvas.height,
            canvas.pixels == pixels@,
            w == width,
            h == canvas.height,
            row == row_len(w),
            3 * w <= row < 3 * w + 4,
            from == y * row,
            0 <= from,
            from + row <= data(canvas).len(),
            bytes@ == start + data(canvas).subrange(from, from + 3 * x),
        decreases width - x,
    {
        proof {
            canvas.lemma_index_of(x as int, y as int);
            assert(pixels@.len() == pixels.len());
            lemma_data_place(w, h, y as int, 3 * x);
            lemma_data_place(w, h, y as int, 3 * x + 1);
            lemma_data_place(w, h, y as int, 3 * x + 2);
        }
        let color: Color = Color::from_hex(pixels[y * width + x]);
        bytes.push(color.b);
        bytes.push(color.g);
        bytes.push(color.r);
        proof {
            let at = from + 3 * x;
            assert(data(canvas)[at] == color.b);
            assert(data(canvas)[at + 1] == color.g);
            assert(data(canvas)[at + 2] == color.r);
            assert(bytes@ =~= start + data(canvas).subrange(from, at + 3));
        }
        x += 1;
    }
    let mut filled: u64 = 3 * (width as u64);
    while filled < row
        invariant
            3 * w <= filled <= row,
            canvas.width == width,
            y < canvas.height,
            w == width,
            h == canvas.height,
            row == row_len(w),
            from == y * row,
            0 <= from,
            from + row <= data(canvas).len(),
            bytes@ == start + data(canvas).subrange(from, from + filled),
        decreases row - filled,
    {
        proof {
            lemma_data_place(w, h, y as int, filled as int);
        }
        bytes.push(0);
        proof {
            let at = from + filled;
            assert(data(canvas)[at] == 0);
            assert(bytes@ =~= start + data(canvas).subrange(from, at + 1));
        }
        filled += 1;
    }
}

/// Writes a picture of `width` by `height` pixels, stored row by row in
/// `pixels`, as a bitmap file. Returns `None` if the picture is too large
/// for the format.
pub(crate) fn encode(
    width: usize,
    height: usize,
    pixels: &Vec<u32>,
    Ghost(canvas): Ghost<Canvas>,
) -> (file: Option<Vec<u8>>)
    requires
        canvas.wf(),
        canvas.width == width,
        canvas.height == height,
        canvas.pixels == pixels@,
    ensures
        match file {
            Some(bytes) => fits(width as int, height as int) && bytes@ == file_bytes(canvas),
            None => !fits(width as int, height as int),
        },
{
    proof {
        lemma_row_len(width as int);
    }
    if width > 0x7FFF_FFFF || height > 0x7FFF_FFFF {
        return None;
    }
    let row: u64 = (3 * (width as u64) + 3) / 4 * 4;
    proof {
        assert((row as int) * (height as int) <= 0x1_8000_0000 * 0x7FFF_FFFF) by (nonlinear_arith)
            requires
                0 <= row <= 0x1_8000_0000,
                0 <= height <= 0x7FFF_FFFF,
        ;
    }
    let data_size: u64 = row * (height as u64);
    if data_size > 0xFFFF_FFFF - 54 {
        return None;
    }
    let mut bytes: Vec<u8> = header_bytes(width as u32, height as u32, data_size as u32);

    let ghost head = bytes@;
    proof {
        assert(head =~= head + data(canvas).take(0));
        assert(0 * row == 0) by (nonlinear_arith);
    }
    let mut y: usize = 0;
    while y < height
        invariant
            y <= height,
            canvas.wf(),
            canvas.width == width,
            canvas.height == height,
            canvas.pixels == pixels@,
            width <= i32::MAX,
            row == row_len(width as int),
            data_size == data(canvas).len(),
            0 <= y * row <= data_size,
            bytes@ == head + data(canvas).take(y * row),
        decreases height - y,
    {
        push_row(&mut bytes, pixels, width, y, row, Ghost(canvas));
        proof {
            assert((y + 1) * row == y * row + row) by (nonlinear_arith);
            assert(bytes@ =~= head + data(canvas).take(y * row + row));
        }
        y += 1;
    }
    proof {
        assert(height * row == row * height) by (nonlinear_arith);
        assert(data(canvas).take(data_size as int) =~= data(canvas));
    }
    Some(bytes)
}

} // verus!
