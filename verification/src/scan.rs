//! Paint instructions along the lines of an image.
//!
//! A scan function gives, for a column or a row, a list of pairs of a
//! cross-coordinate and a colour. Each pair is one bounds-checked write, and
//! the pairs of a line are applied in the order in which they stand.

use vstd::prelude::*;
use crate::raster::{Raster, lemma_with_pixel};

verus! {

/// The colour of the cell at `at` of a line after the paint instructions
/// `paints`, where it held `before`: the colour of the last instruction
/// for `at`, or `before` when there is none.
pub open spec fn last_paint(paints: Seq<(usize, u32)>, at: int, before: u32) -> u32
    decreases paints.len(),
{
    if paints.len() == 0 {
        before
    } else if paints.last().0 == at {
        paints.last().1
    } else {
        last_paint(paints.drop_last(), at, before)
    }
}

/// The paint instructions that a scan function gave, one list per line, as
/// values.
pub open spec fn instructions(outputs: Seq<Vec<(usize, u32)>>) -> Seq<Seq<(usize, u32)>> {
    outputs.map_values(|output: Vec<(usize, u32)>| output@)
}

/// Whether `outputs` holds, for each line index below `lines`, a result
/// that `f` may return for that index.
pub open spec fn scanned<F: Fn(usize) -> Vec<(usize, u32)>>(
    f: F,
    lines: int,
    outputs: Seq<Vec<(usize, u32)>>,
) -> bool {
    &&& outputs.len() == lines
    &&& forall|i: int| 0 <= i < lines ==> call_ensures(f, (i as usize,), #[trigger] outputs[i])
}

/// Whether `f` returns no paint instruction for any line index below
/// `lines`.
pub open spec fn paints_nothing<F: Fn(usize) -> Vec<(usize, u32)>>(f: F, lines: int) -> bool {
    forall|i: usize, output: Vec<(usize, u32)>|
        i < lines && call_ensures(f, (i,), output) ==> output@.len() == 0
}

impl Raster {
    /// The image after the paint instructions of one column: each pair
    /// `(y, color)` of `paints`, in order, is a bounds-checked write at
    /// `(x, y)`, so a later pair overrides an earlier one for the same cell.
    pub open spec fn with_column(self, x: int, paints: Seq<(usize, u32)>) -> Raster
        decreases paints.len(),
    {
        if paints.len() == 0 {
            self
        } else {
            self.with_column(x, paints.drop_last()).with_pixel(
                x,
                paints.last().0 as int,
                paints.last().1,
            )
        }
    }

    /// The image after the paint instructions of one row: each pair
    /// `(x, color)` of `paints`, in order, is a bounds-checked write at
    /// `(x, y)`.
    pub open spec fn with_row(self, y: int, paints: Seq<(usize, u32)>) -> Raster
        decreases paints.len(),
    {
        if paints.len() == 0 {
            self
        } else {
            self.with_row(y, paints.drop_last()).with_pixel(
                paints.last().0 as int,
                y,
                paints.last().1,
            )
        }
    }

    /// The image after `lines[x]` has been applied to column `x`, for each
    /// `x` from 0 in increasing order.
    pub open spec fn with_columns(self, lines: Seq<Seq<(usize, u32)>>) -> Raster
        decreases lines.len(),
    {
        if lines.len() == 0 {
            self
        } else {
            self.with_columns(lines.drop_last()).with_column(lines.len() - 1, lines.last())
        }
    }

    /// The image after `lines[y]` has been applied to row `y`, for each `y`
    /// from 0 in increasing order.
    pub open spec fn with_rows(self, lines: Seq<Seq<(usize, u32)>>) -> Raster
        decreases lines.len(),
    {
        if lines.len() == 0 {
            self
        } else {
            self.with_rows(lines.drop_last()).with_row(lines.len() - 1, lines.last())
        }
    }
}

/// Paint instructions along a column keep the image well formed and its
/// descriptor unchanged, and touch no other column.
pub proof fn lemma_with_column(r: Raster, x: int, paints: Seq<(usize, u32)>)
    requires
        r.wf(),
    ensures
        r.with_column(x, paints).wf(),
        r.with_column(x, paints).width == r.width,
        r.with_column(x, paints).height == r.height,
        r.with_column(x, paints).horizontal_ppm == r.horizontal_ppm,
        r.with_column(x, paints).vertical_ppm == r.vertical_ppm,
        forall|i: int, j: int|
            r.in_bounds(i, j) && i != x ==> #[trigger] r.with_column(x, paints).pixel(i, j)
                == r.pixel(i, j),
        paints.len() == 0 ==> r.with_column(x, paints) == r,
    decreases paints.len(),
{
    if paints.len() > 0 {
        lemma_with_column(r, x, paints.drop_last());
        lemma_with_pixel(
            r.with_column(x, paints.drop_last()),
            x,
            paints.last().0 as int,
            paints.last().1,
        );
    }
}

/// Paint instructions along a row keep the image well formed and its
/// descriptor unchanged, and touch no other row.
pub proof fn lemma_with_row(r: Raster, y: int, paints: Seq<(usize, u32)>)
    requires
        r.wf(),
    ensures
        r.with_row(y, paints).wf(),
        r.with_row(y, paints).width == r.width,
        r.with_row(y, paints).height == r.height,
        r.with_row(y, paints).horizontal_ppm == r.horizontal_ppm,
        r.with_row(y, paints).vertical_ppm == r.vertical_ppm,
        forall|i: int, j: int|
            r.in_bounds(i, j) && j != y ==> #[trigger] r.with_row(y, paints).pixel(i, j)
                == r.pixel(i, j),
        paints.len() == 0 ==> r.with_row(y, paints) == r,
    decreases paints.len(),
{
    if paints.len() > 0 {
        lemma_with_row(r, y, paints.drop_last());
        lemma_with_pixel(
            r.with_row(y, paints.drop_last()),
            paints.last().0 as int,
            y,
            paints.last().1,
        );
    }
}

/// Applying instructions column by column keeps the image well formed;
/// where every column's instructions are empty, nothing changes.
pub proof fn lemma_with_columns(r: Raster, lines: Seq<Seq<(usize, u32)>>)
    requires
        r.wf(),
    ensures
        r.with_columns(lines).wf(),
        r.with_columns(lines).width == r.width,
        r.with_columns(lines).height == r.height,
        (forall|x: int| 0 <= x < lines.len() ==> (#[trigger] lines[x]).len() == 0)
            ==> r.with_columns(lines) == r,
    decreases lines.len(),
{
    if lines.len() > 0 {
        lemma_with_columns(r, lines.drop_last());
        lemma_with_column(r.with_columns(lines.drop_last()), lines.len() - 1, lines.last());
        if forall|x: int| 0 <= x < lines.len() ==> (#[trigger] lines[x]).len() == 0 {
            assert forall|x: int| 0 <= x < lines.drop_last().len() implies (
            #[trigger] lines.drop_last()[x]).len() == 0 by {
                assert(lines.drop_last()[x] == lines[x]);
            }
        }
    }
}

/// Applying instructions row by row keeps the image well formed; where
/// every row's instructions are empty, nothing changes.
pub proof fn lemma_with_rows(r: Raster, lines: Seq<Seq<(usize, u32)>>)
    requires
        r.wf(),
    ensures
        r.with_rows(lines).wf(),
        r.with_rows(lines).width == r.width,
        r.with_rows(lines).height == r.height,
        (forall|y: int| 0 <= y < lines.len() ==> (#[trigger] lines[y]).len() == 0)
            ==> r.with_rows(lines) == r,
    decreases lines.len(),
{
    if lines.len() > 0 {
        lemma_with_rows(r, lines.drop_last());
        lemma_with_row(r.with_rows(lines.drop_last()), lines.len() - 1, lines.last());
        if forall|y: int| 0 <= y < lines.len() ==> (#[trigger] lines[y]).len() == 0 {
            assert forall|y: int| 0 <= y < lines.drop_last().len() implies (
            #[trigger] lines.drop_last()[y]).len() == 0 by {
                assert(lines.drop_last()[y] == lines[y]);
            }
        }
    }
}

/// After the paint instructions of a column, each cell of that column holds
/// the colour of the last instruction for its row, and every other cell its
/// old colour.
pub proof fn lemma_with_column_pixels(r: Raster, x: int, paints: Seq<(usize, u32)>)
    requires
        r.wf(),
    ensures
        forall|i: int, j: int|
            r.in_bounds(i, j) ==> #[trigger] r.with_column(x, paints).pixel(i, j) == if i == x {
                last_paint(paints, j, r.pixel(i, j))
            } else {
                r.pixel(i, j)
            },
    decreases paints.len(),
{
    if paints.len() > 0 {
        let front = r.with_column(x, paints.drop_last());
        lemma_with_column_pixels(r, x, paints.drop_last());
        lemma_with_column(r, x, paints.drop_last());
        lemma_with_pixel(front, x, paints.last().0 as int, paints.last().1);
        assert forall|i: int, j: int| r.in_bounds(i, j) implies #[trigger] r.with_column(
            x,
            paints,
        ).pixel(i, j) == if i == x {
            last_paint(paints, j, r.pixel(i, j))
        } else {
            r.pixel(i, j)
        } by {
            assert(front.in_bounds(i, j));
            assert(front.pixel(i, j) == if i == x {
                last_paint(paints.drop_last(), j, r.pixel(i, j))
            } else {
                r.pixel(i, j)
            });
        }
    }
}

/// After the paint instructions of a row, each cell of that row holds the
/// colour of the last instruction for its column, and every other cell its
/// old colour.
pub proof fn lemma_with_row_pixels(r: Raster, y: int, paints: Seq<(usize, u32)>)
    requires
        r.wf(),
    ensures
        forall|i: int, j: int|
            r.in_bounds(i, j) ==> #[trigger] r.with_row(y, paints).pixel(i, j) == if j == y {
                last_paint(paints, i, r.pixel(i, j))
            } else {
                r.pixel(i, j)
            },
    decreases paints.len(),
{
    if paints.len() > 0 {
        let front = r.with_row(y, paints.drop_last());
        lemma_with_row_pixels(r, y, paints.drop_last());
        lemma_with_row(r, y, paints.drop_last());
        lemma_with_pixel(front, paints.last().0 as int, y, paints.last().1);
        assert forall|i: int, j: int| r.in_bounds(i, j) implies #[trigger] r.with_row(
            y,
            paints,
        ).pixel(i, j) == if j == y {
            last_paint(paints, i, r.pixel(i, j))
        } else {
            r.pixel(i, j)
        } by {
            assert(front.in_bounds(i, j));
            assert(front.pixel(i, j) == if j == y {
                last_paint(paints.drop_last(), i, r.pixel(i, j))
            } else {
                r.pixel(i, j)
            });
        }
    }
}

/// After a scan by columns, each cell holds the colour of the last
/// instruction that its column's list has for its row, or its old colour
/// when the list has none.
pub proof fn lemma_with_columns_pixels(r: Raster, lines: Seq<Seq<(usize, u32)>>)
    requires
        r.wf(),
    ensures
        forall|i: int, j: int|
            r.in_bounds(i, j) ==> #[trigger] r.with_columns(lines).pixel(i, j) == if i
                < lines.len() {
                last_paint(lines[i], j, r.pixel(i, j))
            } else {
                r.pixel(i, j)
            },
    decreases lines.len(),
{
    if lines.len() > 0 {
        let front = r.with_columns(lines.drop_last());
        lemma_with_columns_pixels(r, lines.drop_last());
        lemma_with_columns(r, lines.drop_last());
        lemma_with_column_pixels(front, lines.len() - 1, lines.last());
        assert forall|i: int, j: int| r.in_bounds(i, j) implies #[trigger] r.with_columns(
            lines,
        ).pixel(i, j) == if i < lines.len() {
            last_paint(lines[i], j, r.pixel(i, j))
        } else {
            r.pixel(i, j)
        } by {
            assert(front.in_bounds(i, j));
            assert(front.pixel(i, j) == if i < lines.drop_last().len() {
                last_paint(lines.drop_last()[i], j, r.pixel(i, j))
            } else {
                r.pixel(i, j)
            });
        }
    }
}

/// After a scan by rows, each cell holds the colour of the last instruction
/// that its row's list has for its column, or its old colour when the list
/// has none.
pub proof fn lemma_with_rows_pixels(r: Raster, lines: Seq<Seq<(usize, u32)>>)
    requires
        r.wf(),
    ensures
        forall|i: int, j: int|
            r.in_bounds(i, j) ==> #[trigger] r.with_rows(lines).pixel(i, j) == if j < lines.len() {
                last_paint(lines[j], i, r.pixel(i, j))
            } else {
                r.pixel(i, j)
            },
    decreases lines.len(),
{
    if lines.len() > 0 {
        let front = r.with_rows(lines.drop_last());
        lemma_with_rows_pixels(r, lines.drop_last());
        lemma_with_rows(r, lines.drop_last());
        lemma_with_row_pixels(front, lines.len() - 1, lines.last());
        assert forall|i: int, j: int| r.in_bounds(i, j) implies #[trigger] r.with_rows(
            lines,
        ).pixel(i, j) == if j < lines.len() {
            last_paint(lines[j], i, r.pixel(i, j))
        } else {
            r.pixel(i, j)
        } by {
            assert(front.in_bounds(i, j));
            assert(front.pixel(i, j) == if j < lines.drop_last().len() {
                last_paint(lines.drop_last()[j], i, r.pixel(i, j))
            } else {
                r.pixel(i, j)
            });
        }
    }
}

} // verus!
