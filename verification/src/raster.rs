//! The mathematical model of an image, over which every drawing operation is
//! specified.
//!
//! A coordinate `(x, y)` always means column `x` of row `y`; rows are stored
//! top to bottom, and each row left to right.

use vstd::prelude::*;

verus! {

/// An image as a value: the four numbers of its descriptor and its rows of
/// packed colours.
pub struct Raster {
    pub width: int,
    pub height: int,
    pub horizontal_ppm: i32,
    pub vertical_ppm: i32,
    /// `rows[y][x]` is the colour of column `x` in row `y`.
    pub rows: Seq<Seq<u32>>,
}

/// The rows of a table of pixels, as values.
pub open spec fn rows_of(table: Vec<Vec<u32>>) -> Seq<Seq<u32>> {
    table@.map_values(|row: Vec<u32>| row@)
}

/// A table of `height` rows of `width` pixels, every one of them `color`.
pub open spec fn uniform_rows(width: int, height: int, color: u32) -> Seq<Seq<u32>> {
    Seq::new(height as nat, |y: int| Seq::new(width as nat, |x: int| color))
}

impl Raster {
    /// The dimensions fit a signed 32-bit field and the rows form a
    /// `width` by `height` rectangle.
    pub open spec fn wf(self) -> bool {
        &&& 0 <= self.width <= i32::MAX
        &&& 0 <= self.height <= i32::MAX
        &&& self.rows.len() == self.height
        &&& forall|y: int| 0 <= y < self.height ==> (#[trigger] self.rows[y]).len() == self.width
    }

    /// Whether `(x, y)` names a cell of the grid.
    pub open spec fn in_bounds(self, x: int, y: int) -> bool {
        0 <= x < self.width && 0 <= y < self.height
    }

    /// The colour stored at column `x` of row `y`.
    pub open spec fn pixel(self, x: int, y: int) -> u32 {
        self.rows[y][x]
    }

    /// The image of the given descriptor whose every cell holds `color`.
    pub open spec fn filled(
        width: int,
        height: int,
        horizontal_ppm: i32,
        vertical_ppm: i32,
        color: u32,
    ) -> Raster {
        Raster {
            width,
            height,
            horizontal_ppm,
            vertical_ppm,
            rows: uniform_rows(width, height, color),
        }
    }

    /// The image after one bounds-checked write: the cell `(x, y)` takes
    /// `color` when it lies in the grid, and nothing changes when it does not.
    pub open spec fn with_pixel(self, x: int, y: int, color: u32) -> Raster {
        if self.in_bounds(x, y) {
            Raster { rows: self.rows.update(y, self.rows[y].update(x, color)), ..self }
        } else {
            self
        }
    }

    /// The image after `color` has been written to every cell of `points`
    /// that lies in the grid. Points outside the grid have no effect.
    pub open spec fn painted(self, points: Set<(int, int)>, color: u32) -> Raster {
        Raster {
            rows: Seq::new(
                self.height as nat,
                |y: int|
                    Seq::new(
                        self.width as nat,
                        |x: int|
                            if points.contains((x, y)) {
                                color
                            } else {
                                self.rows[y][x]
                            },
                    ),
            ),
            ..self
        }
    }
}

/// Two well-formed images with the same descriptor and the same colour in
/// every cell are the same image.
pub proof fn lemma_equal_by_pixels(a: Raster, b: Raster)
    requires
        a.wf(),
        b.wf(),
        a.width == b.width,
        a.height == b.height,
        a.horizontal_ppm == b.horizontal_ppm,
        a.vertical_ppm == b.vertical_ppm,
        forall|x: int, y: int| a.in_bounds(x, y) ==> a.pixel(x, y) == b.pixel(x, y),
    ensures
        a == b,
{
    assert forall|y: int| 0 <= y < a.height implies a.rows[y] =~= b.rows[y] by {
        assert forall|x: int| 0 <= x < a.width implies a.rows[y][x] == b.rows[y][x] by {
            assert(a.in_bounds(x, y));
            assert(a.pixel(x, y) == b.pixel(x, y));
        }
    }
    assert(a.rows =~= b.rows);
}

/// A bounds-checked write keeps the image well formed and changes at most
/// the cell it names.
pub proof fn lemma_with_pixel(r: Raster, x: int, y: int, color: u32)
    requires
        r.wf(),
    ensures
        r.with_pixel(x, y, color).wf(),
        r.with_pixel(x, y, color).width == r.width,
        r.with_pixel(x, y, color).height == r.height,
        forall|i: int, j: int|
            r.in_bounds(i, j) ==> #[trigger] r.with_pixel(x, y, color).pixel(i, j) == if i == x && j
                == y {
                color
            } else {
                r.pixel(i, j)
            },
        !r.in_bounds(x, y) ==> r.with_pixel(x, y, color) == r,
{
}

/// Painting no point changes nothing.
pub proof fn lemma_painted_nothing(r: Raster, color: u32)
    requires
        r.wf(),
    ensures
        r.painted(Set::empty(), color) == r,
{
    let p = r.painted(Set::empty(), color);
    assert forall|y: int| 0 <= y < r.height implies p.rows[y] =~= r.rows[y] by {}
    assert(p.rows =~= r.rows);
}

/// Painting one more point is one more bounds-checked write.
pub proof fn lemma_painted_insert(r: Raster, points: Set<(int, int)>, x: int, y: int, color: u32)
    requires
        r.wf(),
    ensures
        r.painted(points, color).wf(),
        r.painted(points.insert((x, y)), color) == r.painted(points, color).with_pixel(x, y, color),
{
    let a = r.painted(points.insert((x, y)), color);
    let b = r.painted(points, color).with_pixel(x, y, color);
    lemma_with_pixel(r.painted(points, color), x, y, color);
    lemma_equal_by_pixels(a, b);
}

/// A painted cell holds the new colour, every other cell its old one.
pub proof fn lemma_painted_pixel(r: Raster, points: Set<(int, int)>, color: u32, x: int, y: int)
    requires
        r.wf(),
        r.in_bounds(x, y),
    ensures
        r.painted(points, color).pixel(x, y) == if points.contains((x, y)) {
            color
        } else {
            r.pixel(x, y)
        },
{
}

/// Painting a single point is one bounds-checked write.
pub proof fn lemma_painted_one(r: Raster, x: int, y: int, color: u32)
    requires
        r.wf(),
    ensures
        r.painted(set![(x, y)], color) == r.with_pixel(x, y, color),
{
    lemma_painted_nothing(r, color);
    lemma_painted_insert(r, Set::empty(), x, y, color);
    assert(Set::<(int, int)>::empty().insert((x, y)) =~= set![(x, y)]);
}

/// Painting two sets of points, one after the other, with one colour is
/// painting their union.
pub proof fn lemma_painted_union(
    r: Raster,
    first: Set<(int, int)>,
    second: Set<(int, int)>,
    color: u32,
)
    requires
        r.wf(),
    ensures
        r.painted(first, color).wf(),
        r.painted(first, color).painted(second, color) == r.painted(first.union(second), color),
{
    lemma_equal_by_pixels(
        r.painted(first, color).painted(second, color),
        r.painted(first.union(second), color),
    );
}

} // verus!
