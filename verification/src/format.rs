//! The byte layout of the bitmap file: a 14-byte file header, a 40-byte info
//! header, then the pixels, row after row from the top, four bytes each.
//! Every multi-byte field is little-endian.

use vstd::prelude::*;
use crate::raster::{Raster, lemma_equal_by_pixels, rows_of};

verus! {

/// Length of the file header in bytes.
pub const FILE_HEADER_SIZE: u32 = 14;

/// Length of the info header in bytes.
pub const INFO_HEADER_SIZE: u32 = 40;

/// Offset of the first pixel byte: the two headers together.
pub const PIXEL_DATA_OFFSET: u32 = 54;

/// Bits that one pixel takes in the file.
pub const BITS_PER_PIXEL: u16 = 32;

/// The two bytes of `v`, least significant first.
pub open spec fn le_bytes_u16(v: u16) -> Seq<u8> {
    seq![(v % 0x100) as u8, (v / 0x100) as u8]
}

/// The four bytes of `v`, least significant first.
pub open spec fn le_bytes_u32(v: u32) -> Seq<u8> {
    seq![
        (v % 0x100) as u8,
        (v / 0x100 % 0x100) as u8,
        (v / 0x1_0000 % 0x100) as u8,
        (v / 0x100_0000) as u8,
    ]
}

/// The unsigned number with the same 32 bits as `v` in two's complement.
pub open spec fn as_unsigned(v: i32) -> u32 {
    if v >= 0 {
        v as u32
    } else {
        (v + 0x1_0000_0000) as u32
    }
}

/// The four bytes of `v` in two's complement, least significant first.
pub open spec fn le_bytes_i32(v: i32) -> Seq<u8> {
    le_bytes_u32(as_unsigned(v))
}

/// The number of bytes that the pixels of a `width` by `height` image take.
pub open spec fn pixel_data_size(width: int, height: int) -> int {
    4 * width * height
}

/// The length of the whole file of a `width` by `height` image.
pub open spec fn file_size(width: int, height: int) -> int {
    PIXEL_DATA_OFFSET + pixel_data_size(width, height)
}

/// Whether the file length of the image fits the 4-byte size field of the
/// file header.
pub open spec fn encodable(r: Raster) -> bool {
    file_size(r.width, r.height) <= u32::MAX
}

/// The file header: the signature `BM`, the file length, two reserved
/// 16-bit zeros, and the offset of the pixel data. The length field holds
/// the length itself for an image that is `encodable`.
pub open spec fn file_header(r: Raster) -> Seq<u8> {
    seq![0x42u8, 0x4Du8] + le_bytes_u32(file_size(r.width, r.height) as u32) + le_bytes_u16(0)
        + le_bytes_u16(0) + le_bytes_u32(PIXEL_DATA_OFFSET)
}

/// The info header: its own length, width, height, one colour plane, the
/// bits per pixel, no compression, the length of the pixel data, the two
/// densities, and two zeros for the palette.
pub open spec fn info_header(r: Raster) -> Seq<u8> {
    le_bytes_u32(INFO_HEADER_SIZE) + le_bytes_i32(r.width as i32) + le_bytes_i32(r.height as i32)
        + le_bytes_u16(1) + le_bytes_u16(BITS_PER_PIXEL) + le_bytes_u32(0) + le_bytes_u32(
        pixel_data_size(r.width, r.height) as u32,
    ) + le_bytes_i32(r.horizontal_ppm) + le_bytes_i32(r.vertical_ppm) + le_bytes_u32(0)
        + le_bytes_u32(0)
}

/// Both headers, in file order.
pub open spec fn header(r: Raster) -> Seq<u8> {
    file_header(r) + info_header(r)
}

/// The bytes of one row: each pixel's four bytes, left to right.
pub open spec fn row_bytes(row: Seq<u32>) -> Seq<u8> {
    row.map_values(|pixel: u32| le_bytes_u32(pixel)).flatten()
}

/// The bytes of a table of rows: each row's bytes, first row first, with no
/// padding between rows.
pub open spec fn pixel_bytes(rows: Seq<Seq<u32>>) -> Seq<u8> {
    rows.map_values(|row: Seq<u32>| row_bytes(row)).flatten()
}

/// The whole file: the headers, then the pixel data.
pub open spec fn encoded(r: Raster) -> Seq<u8> {
    header(r) + pixel_bytes(r.rows)
}

/// The number whose two little-endian bytes are `bytes`.
pub open spec fn u16_from_le(bytes: Seq<u8>) -> u16 {
    (bytes[0] + bytes[1] * 0x100) as u16
}

/// The number whose four little-endian bytes are `bytes`.
pub open spec fn u32_from_le(bytes: Seq<u8>) -> u32 {
    (bytes[0] + bytes[1] * 0x100 + bytes[2] * 0x1_0000 + bytes[3] * 0x100_0000) as u32
}

/// The signed number with the same 32 bits as `v` in two's complement.
pub open spec fn as_signed(v: u32) -> i32 {
    if v < 0x8000_0000 {
        v as i32
    } else {
        (v - 0x1_0000_0000) as i32
    }
}

/// The 16-bit field that starts at `offset` of `file`.
pub open spec fn u16_at(file: Seq<u8>, offset: int) -> u16 {
    u16_from_le(file.subrange(offset, offset + 2))
}

/// The unsigned 32-bit field that starts at `offset` of `file`.
pub open spec fn u32_at(file: Seq<u8>, offset: int) -> u32 {
    u32_from_le(file.subrange(offset, offset + 4))
}

/// The signed 32-bit field that starts at `offset` of `file`.
pub open spec fn i32_at(file: Seq<u8>, offset: int) -> i32 {
    as_signed(u32_at(file, offset))
}

/// The pixel at column `x` of row `y`, read from a file whose rows hold
/// `width` pixels.
pub open spec fn pixel_at(file: Seq<u8>, width: int, x: int, y: int) -> u32 {
    u32_at(file, u32_at(file, 10) + 4 * (y * width + x))
}

/// The image that a file describes: width, height and the densities from
/// their header fields, and each pixel from its place in the pixel data.
pub open spec fn decoded(file: Seq<u8>) -> Raster {
    let width = i32_at(file, 18) as int;
    let height = i32_at(file, 22) as int;
    Raster {
        width,
        height,
        horizontal_ppm: i32_at(file, 38),
        vertical_ppm: i32_at(file, 42),
        rows: Seq::new(
            height as nat,
            |y: int| Seq::new(width as nat, |x: int| pixel_at(file, width, x, y)),
        ),
    }
}

/// Reading the two little-endian bytes of a number gives the number back.
pub proof fn lemma_u16_from_le_bytes(v: u16)
    ensures
        le_bytes_u16(v).len() == 2,
        u16_from_le(le_bytes_u16(v)) == v,
{
}

/// Reading the four little-endian bytes of a number gives the number back.
pub proof fn lemma_u32_from_le_bytes(v: u32)
    ensures
        le_bytes_u32(v).len() == 4,
        u32_from_le(le_bytes_u32(v)) == v,
{
}

/// Reading the four little-endian bytes of a signed number gives the number
/// back.
pub proof fn lemma_i32_from_le_bytes(v: i32)
    ensures
        le_bytes_i32(v).len() == 4,
        as_signed(as_unsigned(v)) == v,
        as_signed(u32_from_le(le_bytes_i32(v))) == v,
{
}

/// Adding a pixel to a row adds its four bytes to the row's bytes.
pub proof fn lemma_row_bytes_push(row: Seq<u32>, pixel: u32)
    ensures
        row_bytes(row.push(pixel)) == row_bytes(row) + le_bytes_u32(pixel),
{
    let f = |pixel: u32| le_bytes_u32(pixel);
    assert(row.push(pixel).map_values(f) =~= row.map_values(f).push(f(pixel)));
    row.map_values(f).lemma_flatten_push(f(pixel));
}

/// Adding a row to a table adds its bytes to the table's bytes.
pub proof fn lemma_pixel_bytes_push(rows: Seq<Seq<u32>>, row: Seq<u32>)
    ensures
        pixel_bytes(rows.push(row)) == pixel_bytes(rows) + row_bytes(row),
{
    let f = |row: Seq<u32>| row_bytes(row);
    assert(rows.push(row).map_values(f) =~= rows.map_values(f).push(f(row)));
    rows.map_values(f).lemma_flatten_push(f(row));
}

/// A row of `n` pixels takes `4 * n` bytes.
pub proof fn lemma_row_bytes_len(row: Seq<u32>)
    ensures
        row_bytes(row).len() == 4 * row.len(),
    decreases row.len(),
{
    if row.len() == 0 {
        assert(row.map_values(|pixel: u32| le_bytes_u32(pixel)) =~= Seq::<Seq<u8>>::empty());
    } else {
        lemma_row_bytes_len(row.drop_last());
        lemma_row_bytes_push(row.drop_last(), row.last());
        assert(row.drop_last().push(row.last()) =~= row);
    }
}

/// The four bytes at offset `4 * x` of a row's bytes are those of its
/// pixel `x`.
pub proof fn lemma_row_bytes_at(row: Seq<u32>, x: int)
    requires
        0 <= x < row.len(),
    ensures
        row_bytes(row).len() == 4 * row.len(),
        row_bytes(row).subrange(4 * x, 4 * x + 4) == le_bytes_u32(row[x]),
    decreases row.len(),
{
    lemma_row_bytes_len(row);
    lemma_row_bytes_len(row.drop_last());
    lemma_row_bytes_push(row.drop_last(), row.last());
    assert(row.drop_last().push(row.last()) =~= row);
    if x == row.len() - 1 {
        assert(row_bytes(row).subrange(4 * x, 4 * x + 4) =~= le_bytes_u32(row[x]));
    } else {
        lemma_row_bytes_at(row.drop_last(), x);
        assert(row_bytes(row).subrange(4 * x, 4 * x + 4) =~= row_bytes(row.drop_last()).subrange(
            4 * x,
            4 * x + 4,
        ));
    }
}

/// A table of `n` rows of `width` pixels takes `4 * width * n` bytes.
pub proof fn lemma_pixel_bytes_len(rows: Seq<Seq<u32>>, width: int)
    requires
        forall|y: int| 0 <= y < rows.len() ==> (#[trigger] rows[y]).len() == width,
    ensures
        pixel_bytes(rows).len() == 4 * width * rows.len(),
    decreases rows.len(),
{
    if rows.len() == 0 {
        assert(rows.map_values(|row: Seq<u32>| row_bytes(row)) =~= Seq::<Seq<u8>>::empty());
        assert(4 * width * 0 == 0);
    } else {
        lemma_pixel_bytes_len(rows.drop_last(), width);
        lemma_pixel_bytes_push(rows.drop_last(), rows.last());
        lemma_row_bytes_len(rows.last());
        assert(rows.drop_last().push(rows.last()) =~= rows);
        assert(4 * width * (rows.len() - 1) + 4 * width == 4 * width * rows.len())
            by (nonlinear_arith);
    }
}

/// In the bytes of a table of rows of `width` pixels, the four bytes at
/// offset `4 * (y * width + x)` are those of the pixel at column `x` of
/// row `y`.
pub proof fn lemma_pixel_bytes_at(rows: Seq<Seq<u32>>, width: int, x: int, y: int)
    requires
        forall|j: int| 0 <= j < rows.len() ==> (#[trigger] rows[j]).len() == width,
        0 <= x < width,
        0 <= y < rows.len(),
    ensures
        0 <= 4 * (y * width + x),
        4 * (y * width + x) + 4 <= pixel_bytes(rows).len(),
        pixel_bytes(rows).subrange(4 * (y * width + x), 4 * (y * width + x) + 4) == le_bytes_u32(
            rows[y][x],
        ),
    decreases rows.len(),
{
    let at = 4 * (y * width + x);
    let front = rows.drop_last();
    lemma_pixel_bytes_len(rows, width);
    lemma_pixel_bytes_len(front, width);
    lemma_pixel_bytes_push(front, rows.last());
    assert(front.push(rows.last()) =~= rows);
    assert(0 <= y * width && y * width + width <= rows.len() * width && 4 * width * rows.len() == 4
        * (rows.len() * width) && 4 * width * front.len() == 4 * (front.len() * width)
        && front.len() * width + width == rows.len() * width) by (nonlinear_arith)
        requires
            0 <= y < rows.len(),
            0 <= width,
            front.len() == rows.len() - 1,
    ;
    if y == rows.len() - 1 {
        lemma_row_bytes_at(rows.last(), x);
        assert(pixel_bytes(rows).subrange(at, at + 4) =~= row_bytes(rows.last()).subrange(
            4 * x,
            4 * x + 4,
        ));
    } else {
        lemma_pixel_bytes_at(front, width, x, y);
        assert(y * width + width <= front.len() * width) by (nonlinear_arith)
            requires
                0 <= y < front.len(),
                0 <= width,
        ;
        assert(pixel_bytes(rows).subrange(at, at + 4) =~= pixel_bytes(front).subrange(at, at + 4));
    }
}

/// The headers take 14 and 40 bytes, 54 together, whatever the image.
pub proof fn lemma_header_len(r: Raster)
    ensures
        file_header(r).len() == FILE_HEADER_SIZE,
        info_header(r).len() == INFO_HEADER_SIZE,
        header(r).len() == PIXEL_DATA_OFFSET,
        header(r).len() == 54,
{
}

/// The file of an image takes 54 bytes and four for each pixel.
pub proof fn lemma_encoded_len(r: Raster)
    requires
        r.wf(),
    ensures
        pixel_bytes(r.rows).len() == pixel_data_size(r.width, r.height),
        encoded(r).len() == file_size(r.width, r.height),
        encoded(r).len() == 54 + 4 * r.width * r.height,
{
    lemma_header_len(r);
    lemma_pixel_bytes_len(r.rows, r.width);
}

/// Every field of the headers of an encoded image, but the two lengths,
/// reads back as the value that the layout gives it.
pub proof fn lemma_header_fields(r: Raster)
    requires
        r.wf(),
    ensures
        encoded(r).subrange(0, 2) == seq![0x42u8, 0x4Du8],
        u16_at(encoded(r), 6) == 0,
        u16_at(encoded(r), 8) == 0,
        u32_at(encoded(r), 10) == PIXEL_DATA_OFFSET,
        u32_at(encoded(r), 14) == INFO_HEADER_SIZE,
        i32_at(encoded(r), 18) == r.width,
        i32_at(encoded(r), 22) == r.height,
        u16_at(encoded(r), 26) == 1,
        u16_at(encoded(r), 28) == BITS_PER_PIXEL,
        u32_at(encoded(r), 30) == 0,
        i32_at(encoded(r), 38) == r.horizontal_ppm,
        i32_at(encoded(r), 42) == r.vertical_ppm,
        u32_at(encoded(r), 46) == 0,
        u32_at(encoded(r), 50) == 0,
{
    let file = encoded(r);
    lemma_header_len(r);
    lemma_u16_from_le_bytes(0);
    lemma_u16_from_le_bytes(1);
    lemma_u16_from_le_bytes(BITS_PER_PIXEL);
    lemma_u32_from_le_bytes(0);
    lemma_u32_from_le_bytes(PIXEL_DATA_OFFSET);
    lemma_u32_from_le_bytes(INFO_HEADER_SIZE);
    lemma_i32_from_le_bytes(r.width as i32);
    lemma_i32_from_le_bytes(r.height as i32);
    lemma_i32_from_le_bytes(r.horizontal_ppm);
    lemma_i32_from_le_bytes(r.vertical_ppm);
    assert(file.subrange(0, 2) =~= seq![0x42u8, 0x4Du8]);
    assert(file.subrange(6, 8) =~= le_bytes_u16(0));
    assert(file.subrange(8, 10) =~= le_bytes_u16(0));
    assert(file.subrange(10, 14) =~= le_bytes_u32(PIXEL_DATA_OFFSET));
    assert(file.subrange(14, 18) =~= le_bytes_u32(INFO_HEADER_SIZE));
    assert(file.subrange(18, 22) =~= le_bytes_i32(r.width as i32));
    assert(file.subrange(22, 26) =~= le_bytes_i32(r.height as i32));
    assert(file.subrange(26, 28) =~= le_bytes_u16(1));
    assert(file.subrange(28, 30) =~= le_bytes_u16(BITS_PER_PIXEL));
    assert(file.subrange(30, 34) =~= le_bytes_u32(0));
    assert(file.subrange(38, 42) =~= le_bytes_i32(r.horizontal_ppm));
    assert(file.subrange(42, 46) =~= le_bytes_i32(r.vertical_ppm));
    assert(file.subrange(46, 50) =~= le_bytes_u32(0));
    assert(file.subrange(50, 54) =~= le_bytes_u32(0));
}

/// The two length fields of the headers of an encoded image read back as
/// the length of the file and the length of its pixel data, where the file
/// is short enough for the field.
pub proof fn lemma_length_fields(r: Raster)
    requires
        r.wf(),
        encodable(r),
    ensures
        u32_at(encoded(r), 2) == file_size(r.width, r.height),
        u32_at(encoded(r), 2) == encoded(r).len(),
        u32_at(encoded(r), 34) == pixel_data_size(r.width, r.height),
        u32_at(encoded(r), 34) == pixel_bytes(r.rows).len(),
{
    let file = encoded(r);
    let size = file_size(r.width, r.height) as u32;
    let data = pixel_data_size(r.width, r.height) as u32;
    assert(0 <= pixel_data_size(r.width, r.height)) by (nonlinear_arith)
        requires
            0 <= r.width,
            0 <= r.height,
    ;
    lemma_header_len(r);
    lemma_encoded_len(r);
    lemma_u32_from_le_bytes(size);
    lemma_u32_from_le_bytes(data);
    assert(file.subrange(2, 6) =~= le_bytes_u32(size));
    assert(file.subrange(34, 38) =~= le_bytes_u32(data));
}

/// Each pixel of an encoded image reads back from its place in the file.
pub proof fn lemma_pixel_field(r: Raster, x: int, y: int)
    requires
        r.wf(),
        r.in_bounds(x, y),
    ensures
        pixel_at(encoded(r), r.width, x, y) == r.pixel(x, y),
{
    let file = encoded(r);
    let at = 4 * (y * r.width + x);
    lemma_header_fields(r);
    lemma_header_len(r);
    lemma_encoded_len(r);
    lemma_pixel_bytes_at(r.rows, r.width, x, y);
    lemma_u32_from_le_bytes(r.pixel(x, y));
    assert(file.subrange(54 + at, 54 + at + 4) =~= pixel_bytes(r.rows).subrange(at, at + 4));
}

/// Decoding the bytes of an encoded image gives the image back: its width,
/// its height, both densities and the colour of every pixel.
pub proof fn lemma_decode_encode(r: Raster)
    requires
        r.wf(),
    ensures
        decoded(encoded(r)) == r,
{
    let back = decoded(encoded(r));
    lemma_header_fields(r);
    assert forall|x: int, y: int| r.in_bounds(x, y) implies back.pixel(x, y) == r.pixel(x, y) by {
        lemma_pixel_field(r, x, y);
    }
    lemma_equal_by_pixels(back, r);
}

/// Appends the two bytes of `v`, least significant first.
pub fn push_u16_le(out: &mut Vec<u8>, v: u16)
    ensures
        final(out)@ == old(out)@ + le_bytes_u16(v),
{
    out.push((v % 0x100) as u8);
    out.push((v / 0x100) as u8);
    assert(out@ =~= old(out)@ + le_bytes_u16(v));
}

/// Appends the four bytes of `v`, least significant first.
pub fn push_u32_le(out: &mut Vec<u8>, v: u32)
    ensures
        final(out)@ == old(out)@ + le_bytes_u32(v),
{
    out.push((v % 0x100) as u8);
    out.push((v / 0x100 % 0x100) as u8);
    out.push((v / 0x1_0000 % 0x100) as u8);
    out.push((v / 0x100_0000) as u8);
    assert(out@ =~= old(out)@ + le_bytes_u32(v));
}

/// Appends the four bytes of `v` in two's complement, least significant
/// first.
pub fn push_i32_le(out: &mut Vec<u8>, v: i32)
    ensures
        final(out)@ == old(out)@ + le_bytes_i32(v),
{
    let unsigned: u32 = if v >= 0 {
        v as u32
    } else {
        (v as i64 + 0x1_0000_0000) as u32
    };
    push_u32_le(out, unsigned);
}

/// Appends the bytes of one row of pixels.
pub fn push_row(out: &mut Vec<u8>, row: &Vec<u32>)
    ensures
        final(out)@ == old(out)@ + row_bytes(row@),
{
    let mut x: usize = 0;
    assert(row@.take(0) =~= Seq::<u32>::empty());
    assert(out@ =~= old(out)@ + row_bytes(row@.take(0)));
    while x < row.len()
        invariant
            x <= row@.len(),
            out@ == old(out)@ + row_bytes(row@.take(x as int)),
        decreases row@.len() - x,
    {
        proof {
            lemma_row_bytes_push(row@.take(x as int), row@[x as int]);
            assert(row@.take(x as int).push(row@[x as int]) =~= row@.take(x + 1));
        }
        push_u32_le(out, row[x]);
        x = x + 1;
    }
    assert(row@.take(x as int) =~= row@);
}

/// The bytes of a table of pixel rows: every row from the first to the
/// last, every pixel from left to right, four bytes each.
pub fn encode_rows(table: &Vec<Vec<u32>>) -> (out: Vec<u8>)
    ensures
        out@ == pixel_bytes(rows_of(*table)),
{
    let mut out: Vec<u8> = Vec::new();
    let mut y: usize = 0;
    let ghost rows = rows_of(*table);
    assert(rows.take(0) =~= Seq::<Seq<u32>>::empty());
    assert(out@ =~= pixel_bytes(rows.take(0)));
    while y < table.len()
        invariant
            y <= table@.len(),
            rows == rows_of(*table),
            out@ == pixel_bytes(rows.take(y as int)),
        decreases table@.len() - y,
    {
        proof {
            lemma_pixel_bytes_push(rows.take(y as int), rows[y as int]);
            assert(rows.take(y as int).push(rows[y as int]) =~= rows.take(y + 1));
        }
        push_row(&mut out, &table[y]);
        y = y + 1;
    }
    assert(rows.take(y as int) =~= rows);
    out
}

} // verus!
