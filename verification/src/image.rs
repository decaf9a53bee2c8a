//! The pixel grid and its drawing operations.

use vstd::prelude::*;
use crate::elements::Color;
use crate::circle::{
    circle_points, lemma_eight_pixels, lemma_mirrored_empty, lemma_mirrored_push, mirrored,
    octant_points, octant_walk, with_eight_pixels,
};
use crate::line::{
    distance, lemma_line_single_point, lemma_walk_is_line, line_ends, line_points, line_walk,
};
use crate::format::{
    BITS_PER_PIXEL, INFO_HEADER_SIZE, PIXEL_DATA_OFFSET, encodable, encode_rows, encoded,
    file_size, header, lemma_encoded_len, pixel_bytes, pixel_data_size, push_i32_le, push_u16_le,
    push_u32_le,
};
use crate::raster::{
    Raster, lemma_equal_by_pixels, lemma_painted_insert, lemma_painted_nothing,
    lemma_painted_one, lemma_painted_union, lemma_with_pixel, rows_of, uniform_rows,
};
use crate::scan::{
    instructions, lemma_with_column, lemma_with_columns, lemma_with_row, lemma_with_rows,
    paints_nothing, scanned,
};

verus! {

/// A bitmap image: the descriptor that goes into the file header, and the
/// pixel grid that drawing operations change in place.
pub struct BMPImage {
    width: i32,
    height: i32,
    horizontal_ppm: i32,
    vertical_ppm: i32,
    bitmap: Vec<Vec<u32>>,
}

impl View for BMPImage {
    type V = Raster;

    closed spec fn view(&self) -> Raster {
        Raster {
            width: self.width as int,
            height: self.height as int,
            horizontal_ppm: self.horizontal_ppm,
            vertical_ppm: self.vertical_ppm,
            rows: rows_of(self.bitmap),
        }
    }
}

impl BMPImage {
    #[verifier::type_invariant]
    spec fn well_formed(self) -> bool {
        self@.wf()
    }

    /// Creates an image of `width` by `height` pixels, every one of them
    /// `background_color`. A dimension of zero gives an empty grid, on
    /// which every write is out of bounds. The dimensions are taken as they
    /// are given: that neither is negative is the caller's to see to.
    pub fn new(
        width: i32,
        height: i32,
        horizontal_ppm: i32,
        vertical_ppm: i32,
        background_color: u32,
    ) -> (image: BMPImage)
        requires
            width >= 0,
            height >= 0,
        ensures
            image@.wf(),
            image@ == Raster::filled(
                width as int,
                height as int,
                horizontal_ppm,
                vertical_ppm,
                background_color,
            ),
            forall|x: int, y: int|
                image@.in_bounds(x, y) ==> image@.pixel(x, y) == background_color,
    {
        let bitmap = uniform_table(width, height, background_color);
        BMPImage { width, height, horizontal_ppm, vertical_ppm, bitmap }
    }

    /// The width in pixels.
    pub fn width(&self) -> (width: i32)
        ensures
            width == self@.width,
    {
        self.width
    }

    /// The height in pixels.
    pub fn height(&self) -> (height: i32)
        ensures
            height == self@.height,
    {
        self.height
    }

    /// The horizontal density, in pixels per metre.
    pub fn horizontal_ppm(&self) -> (ppm: i32)
        ensures
            ppm == self@.horizontal_ppm,
    {
        self.horizontal_ppm
    }

    /// The vertical density, in pixels per metre.
    pub fn vertical_ppm(&self) -> (ppm: i32)
        ensures
            ppm == self@.vertical_ppm,
    {
        self.vertical_ppm
    }

    /// Reads the colour at column `x` of row `y`. Unlike a write, a read
    /// outside the grid is reported: it returns `None`.
    pub fn get_pixel(&self, x: usize, y: usize) -> (color: Option<u32>)
        ensures
            self@.wf(),
            color == if self@.in_bounds(x as int, y as int) {
                Some(self@.pixel(x as int, y as int))
            } else {
                None
            },
    {
        proof {
            use_type_invariant(self);
        }
        if x < self.width as usize && y < self.height as usize {
            assert(self@.rows[y as int] == self.bitmap@[y as int]@);
            Some(self.bitmap[y][x])
        } else {
            None
        }
    }

    /// Writes `color` at column `x` of row `y` when that cell lies in the
    /// grid, and does nothing when it does not.
    pub fn set_pixel(&mut self, x: usize, y: usize, color: u32)
        ensures
            final(self)@.wf(),
            final(self)@ == old(self)@.with_pixel(x as int, y as int, color),
            !old(self)@.in_bounds(x as int, y as int) ==> final(self)@ == old(self)@,
    {
        proof {
            use_type_invariant(&*self);
            lemma_with_pixel(self@, x as int, y as int, color);
        }
        if x < self.width as usize && y < self.height as usize {
            assert(self@.rows[y as int] == self.bitmap@[y as int]@);
            write_cell(&mut self.bitmap, x, y, color);
        }
    }

    /// Draws the segment from `(x0, y0)` to `(x1, y1)`, both ends included.
    /// Each cell of the segment is written as by `set_pixel`, so the part of
    /// the segment that lies outside the grid is left out without notice.
    pub fn draw_line(&mut self, x0: usize, y0: usize, x1: usize, y1: usize, color: u32)
        ensures
            final(self)@.wf(),
            final(self)@ == old(self)@.painted(
                line_points(x0 as int, y0 as int, x1 as int, y1 as int).to_set(),
                color,
            ),
            x0 == x1 && y0 == y1 ==> final(self)@ == old(self)@.with_pixel(
                x0 as int,
                y0 as int,
                color,
            ),
    {
        let right = x0 < x1;
        let down = y0 < y1;
        let run: usize = if right { x1 - x0 } else { x0 - x1 };
        let rise: usize = if down { y1 - y0 } else { y0 - y1 };
        let mut x: usize = x0;
        let mut y: usize = y0;
        let mut err: i128 = run as i128 - rise as i128;
        let ghost before = self@;
        let ghost points = line_points(x0 as int, y0 as int, x1 as int, y1 as int);
        let ghost mut visited: Seq<(int, int)> = Seq::empty();
        proof {
            use_type_invariant(&*self);
            lemma_walk_is_line(x0 as int, y0 as int, x1 as int, y1 as int);
            lemma_painted_nothing(before, color);
            assert(visited.to_set() =~= Set::empty());
            assert(points =~= visited + points);
        }
        loop
            invariant_except_break
                points == visited + line_walk(
                    x as int,
                    y as int,
                    x1 as int,
                    y1 as int,
                    run as nat,
                    rise as nat,
                    err as int,
                ),
                self@ == before.painted(visited.to_set(), color),
            invariant
                before.wf(),
                right == (x0 < x1),
                down == (y0 < y1),
                right ==> x <= x1,
                !right ==> x >= x1,
                down ==> y <= y1,
                !down ==> y >= y1,
                -3 * rise <= 2 * err <= 3 * run,
            ensures
                self@ == before.painted(points.to_set(), color),
            decreases distance(x as int, x1 as int) + distance(y as int, y1 as int),
        {
            self.set_pixel(x, y, color);
            let ghost here_x = x;
            let ghost here_y = y;
            let ghost here_err = err;
            proof {
                lemma_painted_insert(before, visited.to_set(), x as int, y as int, color);
                visited.lemma_push_to_set_commute((x as int, y as int));
                visited = visited.push((x as int, y as int));
                assert(line_ends(
                    here_x as int,
                    here_y as int,
                    x1 as int,
                    y1 as int,
                    run as nat,
                    rise as nat,
                    here_err as int,
                ) ==> points =~= visited);
            }
            let e2: i128 = 2 * err;
            let step_x = e2 >= -(rise as i128);
            let step_y = e2 <= run as i128;
            if step_x {
                if x == x1 {
                    break ;
                }
                err = err - rise as i128;
                x = if right { x + 1 } else { x - 1 };
            }
            if step_y {
                if y == y1 {
                    break ;
                }
                err = err + run as i128;
                y = if down { y + 1 } else { y - 1 };
            }
            proof {
                assert(points =~= visited + line_walk(
                    x as int,
                    y as int,
                    x1 as int,
                    y1 as int,
                    run as nat,
                    rise as nat,
                    err as int,
                ));
            }
        }
        proof {
            use_type_invariant(&*self);
            if x0 == x1 && y0 == y1 {
                lemma_painted_one(before, x0 as int, y0 as int, color);
                lemma_line_single_point(x0 as int, y0 as int);
            }
        }
    }

    /// Writes `color` at `(x, y)` when both coordinates could be computed
    /// and name a cell of the grid.
    fn set_pixel_at(&mut self, x: Option<usize>, y: Option<usize>, color: u32)
        ensures
            final(self)@ == match (x, y) {
                (Some(px), Some(py)) => old(self)@.with_pixel(px as int, py as int, color),
                _ => old(self)@,
            },
    {
        match (x, y) {
            (Some(px), Some(py)) => {
                self.set_pixel(px, py, color);
            },
            _ => {},
        }
    }

    /// Paints the eight mirror images of the offset `(x, y)` around the
    /// centre `(cx, cy)`. An image whose coordinate would be negative, or
    /// too large for the machine, lies outside the grid and is left out.
    fn draw_eight_points(&mut self, cx: usize, cy: usize, x: usize, y: usize, color: u32)
        ensures
            final(self)@ == old(self)@.painted(
                mirrored(seq![(x as int, y as int)], cx as int, cy as int),
                color,
            ),
    {
        let east = cx.checked_add(x);
        let west = cx.checked_sub(x);
        let south = cy.checked_add(y);
        let north = cy.checked_sub(y);
        let far_east = cx.checked_add(y);
        let far_west = cx.checked_sub(y);
        let far_south = cy.checked_add(x);
        let far_north = cy.checked_sub(x);
        proof {
            use_type_invariant(&*self);
            let r = self@;
            let (c, a, b) = (color, x as int, y as int);
            let r1 = r.with_pixel(cx + a, cy + b, c);
            let r2 = r1.with_pixel(cx - a, cy - b, c);
            let r3 = r2.with_pixel(cx + a, cy - b, c);
            let r4 = r3.with_pixel(cx - a, cy + b, c);
            let r5 = r4.with_pixel(cx + b, cy + a, c);
            let r6 = r5.with_pixel(cx - b, cy - a, c);
            let r7 = r6.with_pixel(cx + b, cy - a, c);
            lemma_with_pixel(r, cx + a, cy + b, c);
            lemma_with_pixel(r1, cx - a, cy - b, c);
            lemma_with_pixel(r2, cx + a, cy - b, c);
            lemma_with_pixel(r3, cx - a, cy + b, c);
            lemma_with_pixel(r4, cx + b, cy + a, c);
            lemma_with_pixel(r5, cx - b, cy - a, c);
            lemma_with_pixel(r6, cx + b, cy - a, c);
            lemma_with_pixel(r7, cx - b, cy + a, c);
            lemma_eight_pixels(r, cx as int, cy as int, a, b, c);
        }
        self.set_pixel_at(east, south, color);
        self.set_pixel_at(west, north, color);
        self.set_pixel_at(east, north, color);
        self.set_pixel_at(west, south, color);
        self.set_pixel_at(far_east, far_south, color);
        self.set_pixel_at(far_west, far_north, color);
        self.set_pixel_at(far_east, far_north, color);
        self.set_pixel_at(far_west, far_south, color);
        assert(self@ == with_eight_pixels(
            old(self)@,
            cx as int,
            cy as int,
            x as int,
            y as int,
            color,
        ));
    }

    /// Draws the circle of the given radius around `(cx, cy)`. Each of its
    /// cells is written as by `set_pixel`, so the part of the circle that
    /// lies outside the grid is left out without notice. A radius of zero
    /// paints the centre alone.
    pub fn draw_circle(&mut self, cx: usize, cy: usize, radius: usize, color: u32)
        ensures
            final(self)@.wf(),
            final(self)@ == old(self)@.painted(
                circle_points(cx as int, cy as int, radius as nat),
                color,
            ),
            radius == 0 ==> final(self)@ == old(self)@.with_pixel(cx as int, cy as int, color),
    {
        let ghost before = self@;
        let ghost offsets = octant_points(radius as nat);
        proof {
            use_type_invariant(&*self);
        }
        if radius == 0 {
            self.set_pixel(cx, cy, color);
            proof {
                lemma_eight_pixels(before, cx as int, cy as int, 0, 0, color);
                lemma_with_pixel(before, cx as int, cy as int, color);
                lemma_equal_by_pixels(
                    self@,
                    with_eight_pixels(before, cx as int, cy as int, 0, 0, color),
                );
            }
        } else {
            let mut x: i128 = 0;
            let mut y: i128 = radius as i128;
            let mut d: i128 = 3 - 2 * (radius as i128);
            let ghost mut visited: Seq<(int, int)> = Seq::empty();
            proof {
                lemma_mirrored_empty(cx as int, cy as int);
                lemma_painted_nothing(before, color);
                assert(offsets =~= visited + offsets);
            }
            while x <= y
                invariant
                    before.wf(),
                    0 <= x,
                    y <= radius,
                    3 - 4 * radius <= d <= 18 * x + 20,
                    offsets == visited + octant_walk(x as int, y as int, d as int),
                    self@ == before.painted(mirrored(visited, cx as int, cy as int), color),
                decreases y - x + 2,
            {
                self.draw_eight_points(cx, cy, x as usize, y as usize, color);
                proof {
                    lemma_mirrored_push(visited, (x as int, y as int), cx as int, cy as int);
                    lemma_painted_union(
                        before,
                        mirrored(visited, cx as int, cy as int),
                        mirrored(seq![(x as int, y as int)], cx as int, cy as int),
                        color,
                    );
                    assert(visited + octant_walk(x as int, y as int, d as int) =~= visited.push(
                        (x as int, y as int),
                    ) + octant_walk(
                        x + 1,
                        if d > 0 {
                            y - 1
                        } else {
                            y as int
                        },
                        if d > 0 {
                            d + 4 * (x - (y - 1)) + 10
                        } else {
                            d + 4 * x + 6
                        },
                    ));
                    visited = visited.push((x as int, y as int));
                }
                if d > 0 {
                    y = y - 1;
                    d = d + 4 * (x - y) + 10;
                } else {
                    d = d + 4 * x + 6;
                }
                x = x + 1;
            }
            proof {
                assert(visited =~= offsets);
                use_type_invariant(&*self);
            }
        }
    }

    /// Applies the paint instructions `paints` to column `x`: each pair
    /// `(y, color)`, in order, is written at `(x, y)` as by `set_pixel`.
    pub fn paint_column(&mut self, x: usize, paints: &Vec<(usize, u32)>)
        ensures
            final(self)@.wf(),
            final(self)@ == old(self)@.with_column(x as int, paints@),
    {
        let ghost before = self@;
        let mut k: usize = 0;
        proof {
            use_type_invariant(&*self);
            assert(paints@.take(0) =~= Seq::<(usize, u32)>::empty());
        }
        while k < paints.len()
            invariant
                k <= paints@.len(),
                before.wf(),
                self@ == before.with_column(x as int, paints@.take(k as int)),
            decreases paints@.len() - k,
        {
            let (y, color) = paints[k];
            proof {
                use_type_invariant(&*self);
                assert(paints@.take(k + 1).drop_last() =~= paints@.take(k as int));
            }
            if y < self.height as usize {
                self.set_pixel(x, y, color);
            }
            k = k + 1;
        }
        proof {
            assert(paints@.take(k as int) =~= paints@);
            lemma_with_column(before, x as int, paints@);
        }
    }

    /// Applies the paint instructions `paints` to row `y`: each pair
    /// `(x, color)`, in order, is written at `(x, y)` as by `set_pixel`.
    pub fn paint_row(&mut self, y: usize, paints: &Vec<(usize, u32)>)
        ensures
            final(self)@.wf(),
            final(self)@ == old(self)@.with_row(y as int, paints@),
    {
        let ghost before = self@;
        let mut k: usize = 0;
        proof {
            use_type_invariant(&*self);
            assert(paints@.take(0) =~= Seq::<(usize, u32)>::empty());
        }
        while k < paints.len()
            invariant
                k <= paints@.len(),
                before.wf(),
                self@ == before.with_row(y as int, paints@.take(k as int)),
            decreases paints@.len() - k,
        {
            let (x, color) = paints[k];
            proof {
                use_type_invariant(&*self);
                assert(paints@.take(k + 1).drop_last() =~= paints@.take(k as int));
            }
            if x < self.width as usize {
                self.set_pixel(x, y, color);
            }
            k = k + 1;
        }
        proof {
            assert(paints@.take(k as int) =~= paints@);
            lemma_with_row(before, y as int, paints@);
        }
    }

    /// Calls `f` once for each column, from column 0 up, and applies the
    /// paint instructions it returns to that column. An instruction for a
    /// row outside the grid is left out.
    pub fn apply_on_x<F: Fn(usize) -> Vec<(usize, u32)>>(&mut self, f: F)
        requires
            forall|x: usize| x < old(self)@.width ==> call_requires(f, (x,)),
        ensures
            final(self)@.wf(),
            exists|outputs: Seq<Vec<(usize, u32)>>|
                scanned(f, old(self)@.width, outputs) && final(self)@ == old(self)@.with_columns(
                    instructions(outputs),
                ),
            paints_nothing(f, old(self)@.width) ==> final(self)@ == old(self)@,
    {
        let ghost before = self@;
        let ghost mut outputs: Seq<Vec<(usize, u32)>> = Seq::empty();
        proof {
            use_type_invariant(&*self);
            assert(instructions(outputs) =~= Seq::<Seq<(usize, u32)>>::empty());
        }
        let width = self.width as usize;
        let mut x: usize = 0;
        while x < width
            invariant
                before.wf(),
                width == before.width,
                x <= width,
                forall|i: usize| i < before.width ==> call_requires(f, (i,)),
                scanned(f, x as int, outputs),
                self@ == before.with_columns(instructions(outputs)),
            decreases width - x,
        {
            let paints = f(x);
            proof {
                lemma_with_columns(before, instructions(outputs));
                assert(instructions(outputs.push(paints)).drop_last() =~= instructions(outputs));
                outputs = outputs.push(paints);
            }
            self.paint_column(x, &paints);
            x = x + 1;
        }
        proof {
            lemma_with_columns(before, instructions(outputs));
            assert(scanned(f, before.width, outputs));
        }
    }

    /// Calls `f` once for each row, from row 0 down, and applies the paint
    /// instructions it returns to that row. An instruction for a column
    /// outside the grid is left out.
    pub fn apply_on_y<F: Fn(usize) -> Vec<(usize, u32)>>(&mut self, f: F)
        requires
            forall|y: usize| y < old(self)@.height ==> call_requires(f, (y,)),
        ensures
            final(self)@.wf(),
            exists|outputs: Seq<Vec<(usize, u32)>>|
                scanned(f, old(self)@.height, outputs) && final(self)@ == old(self)@.with_rows(
                    instructions(outputs),
                ),
            paints_nothing(f, old(self)@.height) ==> final(self)@ == old(self)@,
    {
        let ghost before = self@;
        let ghost mut outputs: Seq<Vec<(usize, u32)>> = Seq::empty();
        proof {
            use_type_invariant(&*self);
            assert(instructions(outputs) =~= Seq::<Seq<(usize, u32)>>::empty());
        }
        let height = self.height as usize;
        let mut y: usize = 0;
        while y < height
            invariant
                before.wf(),
                height == before.height,
                y <= height,
                forall|i: usize| i < before.height ==> call_requires(f, (i,)),
                scanned(f, y as int, outputs),
                self@ == before.with_rows(instructions(outputs)),
            decreases height - y,
        {
            let paints = f(y);
            proof {
                lemma_with_rows(before, instructions(outputs));
                assert(instructions(outputs.push(paints)).drop_last() =~= instructions(outputs));
                outputs = outputs.push(paints);
            }
            self.paint_row(y, &paints);
            y = y + 1;
        }
        proof {
            lemma_with_rows(before, instructions(outputs));
            assert(scanned(f, before.height, outputs));
        }
    }

    /// Creates a table of pixel rows with the dimensions of this image,
    /// all of them white.
    pub fn create_table(&self) -> (table: BMPBitmap)
        ensures
            table@ == uniform_rows(self@.width, self@.height, Color::WHITE),
    {
        proof {
            use_type_invariant(self);
        }
        BMPBitmap::new(self.width, self.height)
    }

    /// Whether the length of the file fits the 4-byte size field of its
    /// header, which `header_bytes` and `encode` ask for.
    pub fn is_encodable(&self) -> (fits: bool)
        ensures
            fits == encodable(self@),
    {
        proof {
            use_type_invariant(self);
        }
        let width = self.width as u64;
        let height = self.height as u64;
        assert(4 * width * height <= 4 * 0x7FFF_FFFF * 0x7FFF_FFFF) by (nonlinear_arith)
            requires
                width <= 0x7FFF_FFFF,
                height <= 0x7FFF_FFFF,
        ;
        PIXEL_DATA_OFFSET as u64 + 4 * width * height <= u32::MAX as u64
    }

    /// The 54 bytes of the file header and the info header.
    pub fn header_bytes(&self) -> (out: Vec<u8>)
        requires
            encodable(self@),
        ensures
            out@ == header(self@),
            out@.len() == 54,
    {
        proof {
            use_type_invariant(self);
        }
        let width = self.width as u64;
        let height = self.height as u64;
        assert(4 * width * height <= 4 * 0x7FFF_FFFF * 0x7FFF_FFFF) by (nonlinear_arith)
            requires
                width <= 0x7FFF_FFFF,
                height <= 0x7FFF_FFFF,
        ;
        let data_size: u64 = 4 * width * height;
        let mut out: Vec<u8> = Vec::new();
        out.push(0x42);
        out.push(0x4D);
        push_u32_le(&mut out, (PIXEL_DATA_OFFSET as u64 + data_size) as u32);
        push_u16_le(&mut out, 0);
        push_u16_le(&mut out, 0);
        push_u32_le(&mut out, PIXEL_DATA_OFFSET);
        push_u32_le(&mut out, INFO_HEADER_SIZE);
        push_i32_le(&mut out, self.width);
        push_i32_le(&mut out, self.height);
        push_u16_le(&mut out, 1);
        push_u16_le(&mut out, BITS_PER_PIXEL);
        push_u32_le(&mut out, 0);
        push_u32_le(&mut out, data_size as u32);
        push_i32_le(&mut out, self.horizontal_ppm);
        push_i32_le(&mut out, self.vertical_ppm);
        push_u32_le(&mut out, 0);
        push_u32_le(&mut out, 0);
        assert(out@ =~= header(self@));
        out
    }

    /// The bytes of the pixel data: the rows from the top, each from the
    /// left, four little-endian bytes per pixel, with no padding.
    pub fn bitmap_bytes(&self) -> (out: Vec<u8>)
        ensures
            out@ == pixel_bytes(self@.rows),
            out@.len() == pixel_data_size(self@.width, self@.height),
    {
        proof {
            use_type_invariant(self);
            lemma_encoded_len(self@);
        }
        encode_rows(&self.bitmap)
    }

    /// The bytes of the whole file: the headers, then the pixel data.
    pub fn encode(&self) -> (out: Vec<u8>)
        requires
            encodable(self@),
        ensures
            out@ == encoded(self@),
            out@.len() == file_size(self@.width, self@.height),
    {
        let mut out = self.header_bytes();
        let mut data = self.bitmap_bytes();
        out.append(&mut data);
        out
    }
}

/// A table of pixel rows on its own, without a descriptor: `bitmap[y][x]` is
/// the colour of column `x` in row `y`. Its rows are open to direct access.
pub struct BMPBitmap {
    pub bitmap: Vec<Vec<u32>>,
}

impl View for BMPBitmap {
    type V = Seq<Seq<u32>>;

    open spec fn view(&self) -> Seq<Seq<u32>> {
        rows_of(self.bitmap)
    }
}

impl BMPBitmap {
    /// Creates a table of `height` rows of `width` pixels, all of them
    /// white.
    pub fn new(width: i32, height: i32) -> (table: BMPBitmap)
        requires
            width >= 0,
            height >= 0,
        ensures
            table@ == uniform_rows(width as int, height as int, Color::WHITE),
    {
        BMPBitmap { bitmap: uniform_table(width, height, Color::WHITE) }
    }

    /// The bytes of the table as pixel data: the rows from the first, each
    /// from the left, four little-endian bytes per pixel.
    pub fn bitmap_bytes(&self) -> (out: Vec<u8>)
        ensures
            out@ == pixel_bytes(self@),
    {
        encode_rows(&self.bitmap)
    }
}

/// Builds `height` rows of `width` pixels, all of them `color`.
fn uniform_table(width: i32, height: i32, color: u32) -> (table: Vec<Vec<u32>>)
    requires
        width >= 0,
        height >= 0,
    ensures
        rows_of(table) == uniform_rows(width as int, height as int, color),
{
    let mut table: Vec<Vec<u32>> = Vec::new();
    let mut y: i32 = 0;
    while y < height
        invariant
            0 <= y <= height,
            width >= 0,
            table@.len() == y,
            forall|j: int|
                0 <= j < y ==> (#[trigger] table@[j])@ == Seq::new(width as nat, |x: int| color),
        decreases height - y,
    {
        let mut row: Vec<u32> = Vec::new();
        let mut x: i32 = 0;
        while x < width
            invariant
                0 <= x <= width,
                row@.len() == x,
                forall|i: int| 0 <= i < x ==> row@[i] == color,
            decreases width - x,
        {
            row.push(color);
            x = x + 1;
        }
        assert(row@ =~= Seq::new(width as nat, |x: int| color));
        table.push(row);
        y = y + 1;
    }
    assert(rows_of(table) =~= uniform_rows(width as int, height as int, color));
    table
}

/// Overwrites one cell of a table that holds it; every other cell stays.
fn write_cell(table: &mut Vec<Vec<u32>>, x: usize, y: usize, color: u32)
    requires
        y < old(table)@.len(),
        x < old(table)@[y as int]@.len(),
    ensures
        rows_of(*final(table)) == rows_of(*old(table)).update(
            y as int,
            rows_of(*old(table))[y as int].update(x as int, color),
        ),
    no_unwind
{
    table[y][x] = color;
    assert(rows_of(*table) =~= rows_of(*old(table)).update(
        y as int,
        rows_of(*old(table))[y as int].update(x as int, color),
    ));
}

} // verus!
