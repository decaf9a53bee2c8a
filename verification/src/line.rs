//! The cells of a rasterised line segment.
//!
//! A segment from `(x0, y0)` to `(x1, y1)` has a `run` of `|x1 - x0|` cells
//! along x and a `rise` of `|y1 - y0|` cells along y. It holds one cell for
//! each step along the longer of the two; on the other axis each cell is the
//! one nearest to the ideal segment.
//!
//! The drawing code finds the same cells one at a time with an integer error
//! term. That walk is `line_walk`, and `lemma_walk_is_line` shows that it
//! gives `line_points`.

use vstd::prelude::*;
use vstd::arithmetic::div_mod::lemma_fundamental_div_mod_converse;

verus! {

/// The distance between two integers.
pub open spec fn distance(a: int, b: int) -> nat {
    if a < b {
        (b - a) as nat
    } else {
        (a - b) as nat
    }
}

/// The unit step that leads from `from` towards `to`.
pub open spec fn toward(from: int, to: int) -> int {
    if from < to {
        1
    } else {
        -1
    }
}

/// `k` steps in the direction that leads from `from` towards `to`.
pub open spec fn steps_toward(k: int, from: int, to: int) -> int {
    if from < to {
        k
    } else {
        -k
    }
}

/// Whether `q` lies between `p` and `r`, both included.
pub open spec fn between(p: int, q: int, r: int) -> bool {
    (p <= q <= r) || (r <= q <= p)
}

/// Whether two cells touch, by a side or by a corner, and differ.
pub open spec fn adjacent(p: (int, int), q: (int, int)) -> bool {
    &&& distance(p.0, q.0) <= 1
    &&& distance(p.1, q.1) <= 1
    &&& p != q
}

/// The quotient `n / d` rounded to the nearest integer, a half rounded up.
/// It is 0 where `d` is not positive.
pub open spec fn nearest(n: int, d: int) -> int {
    if d <= 0 {
        0
    } else {
        (2 * n + d) / (2 * d)
    }
}

/// The number of cells of the segment: one more than the longer of its run
/// and its rise.
pub open spec fn line_len(x0: int, y0: int, x1: int, y1: int) -> nat {
    if distance(x0, x1) >= distance(y0, y1) {
        distance(x0, x1) + 1
    } else {
        distance(y0, y1) + 1
    }
}

/// The `k`-th cell of the segment, counted from 0 at `(x0, y0)`: `k` steps
/// from the start along the longer axis, and along the other axis the
/// nearest whole number of steps to where the ideal segment is then.
pub open spec fn line_point(x0: int, y0: int, x1: int, y1: int, k: int) -> (int, int) {
    let run = distance(x0, x1) as int;
    let rise = distance(y0, y1) as int;
    if run >= rise {
        (x0 + steps_toward(k, x0, x1), y0 + steps_toward(nearest(k * rise, run), y0, y1))
    } else {
        (x0 + steps_toward(nearest(k * run, rise), x0, x1), y0 + steps_toward(k, y0, y1))
    }
}

/// The cells of the segment from `(x0, y0)` to `(x1, y1)`, in order from the
/// first end to the second.
pub open spec fn line_points(x0: int, y0: int, x1: int, y1: int) -> Seq<(int, int)> {
    Seq::new(line_len(x0, y0, x1, y1), |k: int| line_point(x0, y0, x1, y1, k))
}

/// Whether the walk moves along x at a cell with error `err`.
pub open spec fn steps_x(rise: nat, err: int) -> bool {
    2 * err >= -(rise as int)
}

/// Whether the walk moves along y at a cell with error `err`.
pub open spec fn steps_y(run: nat, err: int) -> bool {
    2 * err <= run as int
}

/// Whether the walk ends at `(x, y)`: it would move along an axis on which
/// it has already reached the target.
pub open spec fn line_ends(
    x: int,
    y: int,
    x1: int,
    y1: int,
    run: nat,
    rise: nat,
    err: int,
) -> bool {
    (steps_x(rise, err) && x == x1) || (steps_y(run, err) && y == y1)
}

/// The cell that follows `(x, y)` in the walk, and the error there.
pub open spec fn line_step(x: int, y: int, x1: int, y1: int, run: nat, rise: nat, err: int) -> (
    int,
    int,
    int,
) {
    (
        if steps_x(rise, err) {
            x + toward(x, x1)
        } else {
            x
        },
        if steps_y(run, err) {
            y + toward(y, y1)
        } else {
            y
        },
        err - (if steps_x(rise, err) {
            rise as int
        } else {
            0
        }) + (if steps_y(run, err) {
            run as int
        } else {
            0
        }),
    )
}

/// The cells that the walk towards `(x1, y1)` visits from `(x, y)` on, for
/// a segment of extents `run` and `rise` whose error at `(x, y)` is `err`.
/// The walk of a whole segment starts with the error `run - rise`.
pub open spec fn line_walk(x: int, y: int, x1: int, y1: int, run: nat, rise: nat, err: int) -> Seq<
    (int, int),
>
    decreases distance(x, x1) + distance(y, y1),
{
    if line_ends(x, y, x1, y1, run, rise, err) {
        seq![(x, y)]
    } else {
        let next = line_step(x, y, x1, y1, run, rise, err);
        seq![(x, y)] + line_walk(next.0, next.1, x1, y1, run, rise, next.2)
    }
}

/// Whether the walk from `(x0, y0)` to `(x1, y1)` can stand at `(x, y)`
/// with error `err`: the cell lies in the box of the two ends, the error is
/// the initial one, less `rise` for each step taken along x, plus `run` for
/// each step taken along y, and the cell is within half a step of the ideal
/// segment along the shorter axis.
pub open spec fn on_track(x0: int, y0: int, x1: int, y1: int, x: int, y: int, err: int) -> bool {
    let run = distance(x0, x1) as int;
    let rise = distance(y0, y1) as int;
    let i = distance(x0, x) as int;
    let j = distance(y0, y) as int;
    &&& between(x0, x, x1)
    &&& between(y0, y, y1)
    &&& err == run - rise + j * run - i * rise
    &&& 0 < run && run >= rise ==> -run < 2 * (j * run - i * rise) <= run
    &&& run < rise ==> -rise < 2 * (i * rise - j * run) <= rise
}

/// The number of steps taken along the longer axis when the walk stands at
/// `(x, y)`.
pub open spec fn steps_taken(x0: int, y0: int, x1: int, y1: int, x: int, y: int) -> int {
    if distance(x0, x1) >= distance(y0, y1) {
        distance(x0, x) as int
    } else {
        distance(y0, y) as int
    }
}

/// The walk starts on its track.
proof fn lemma_start_on_track(x0: int, y0: int, x1: int, y1: int)
    ensures
        on_track(x0, y0, x1, y1, x0, y0, distance(x0, x1) - distance(y0, y1)),
{
    let run = distance(x0, x1) as int;
    let rise = distance(y0, y1) as int;
    let i = distance(x0, x0) as int;
    let j = distance(y0, y0) as int;
    assert(i * rise == 0 && j * run == 0) by (nonlinear_arith)
        requires
            i == 0,
            j == 0,
    ;
}

/// On its track, the walk ends exactly where it stands on the target, and
/// reaches the target on both axes at once.
proof fn lemma_ends_at_target(x0: int, y0: int, x1: int, y1: int, x: int, y: int, err: int)
    requires
        on_track(x0, y0, x1, y1, x, y, err),
    ensures
        line_ends(x, y, x1, y1, distance(x0, x1), distance(y0, y1), err) <==> (x == x1 && y == y1),
        distance(x0, x1) >= distance(y0, y1) ==> (x == x1 ==> y == y1),
        distance(x0, x1) < distance(y0, y1) ==> (y == y1 ==> x == x1),
{
    let run = distance(x0, x1) as int;
    let rise = distance(y0, y1) as int;
    let i = distance(x0, x) as int;
    let j = distance(y0, y) as int;
    if x == x1 && y != y1 {
        assert(run - rise + j * run - run * rise <= -rise) by (nonlinear_arith)
            requires
                0 <= j < rise,
                0 <= run,
        ;
    }
    if y == y1 && x != x1 {
        assert(run - rise + rise * run - i * rise >= run) by (nonlinear_arith)
            requires
                0 <= i < run,
                0 <= rise,
        ;
    }
}

/// A cell on the track is the cell that the segment holds for the number of
/// steps taken so far.
proof fn lemma_on_track_is_line_point(x0: int, y0: int, x1: int, y1: int, x: int, y: int, err: int)
    requires
        on_track(x0, y0, x1, y1, x, y, err),
    ensures
        (x, y) == line_point(x0, y0, x1, y1, steps_taken(x0, y0, x1, y1, x, y)),
{
    let run = distance(x0, x1) as int;
    let rise = distance(y0, y1) as int;
    let i = distance(x0, x) as int;
    let j = distance(y0, y) as int;
    if run >= rise {
        if run > 0 {
            assert(2 * (i * rise) + run == j * (2 * run) + (run - 2 * (j * run - i * rise)))
                by (nonlinear_arith);
            lemma_fundamental_div_mod_converse(
                2 * (i * rise) + run,
                2 * run,
                j,
                run - 2 * (j * run - i * rise),
            );
        }
    } else {
        assert(2 * (j * run) + rise == i * (2 * rise) + (rise - 2 * (i * rise - j * run)))
            by (nonlinear_arith);
        lemma_fundamental_div_mod_converse(
            2 * (j * run) + rise,
            2 * rise,
            i,
            rise - 2 * (i * rise - j * run),
        );
    }
}

/// One step of the walk keeps it on its track, and is one step along the
/// longer axis.
proof fn lemma_step_on_track(x0: int, y0: int, x1: int, y1: int, x: int, y: int, err: int)
    requires
        on_track(x0, y0, x1, y1, x, y, err),
        !(x == x1 && y == y1),
    ensures
        ({
            let next = line_step(x, y, x1, y1, distance(x0, x1), distance(y0, y1), err);
            &&& on_track(x0, y0, x1, y1, next.0, next.1, next.2)
            &&& adjacent((x, y), (next.0, next.1))
            &&& steps_taken(x0, y0, x1, y1, next.0, next.1) == steps_taken(x0, y0, x1, y1, x, y)
                + 1
            &&& steps_taken(x0, y0, x1, y1, next.0, next.1) < line_len(x0, y0, x1, y1)
            &&& distance(next.0, x1) + distance(next.1, y1) < distance(x, x1) + distance(y, y1)
        }),
{
    let run = distance(x0, x1) as int;
    let rise = distance(y0, y1) as int;
    let i = distance(x0, x) as int;
    let j = distance(y0, y) as int;
    lemma_ends_at_target(x0, y0, x1, y1, x, y, err);
    assert((i + 1) * rise == i * rise + rise) by (nonlinear_arith);
    assert((j + 1) * run == j * run + run) by (nonlinear_arith);
}

/// From a cell on its track, the walk visits the cells that the segment
/// holds from there to its second end.
proof fn lemma_walk_from(x0: int, y0: int, x1: int, y1: int, x: int, y: int, err: int)
    requires
        on_track(x0, y0, x1, y1, x, y, err),
    ensures
        ({
            let walk = line_walk(x, y, x1, y1, distance(x0, x1), distance(y0, y1), err);
            let taken = steps_taken(x0, y0, x1, y1, x, y);
            &&& walk.len() == line_len(x0, y0, x1, y1) - taken
            &&& forall|m: int|
                0 <= m < walk.len() ==> #[trigger] walk[m] == line_point(x0, y0, x1, y1, taken + m)
        }),
    decreases distance(x, x1) + distance(y, y1),
{
    let run = distance(x0, x1);
    let rise = distance(y0, y1);
    let walk = line_walk(x, y, x1, y1, run, rise, err);
    let taken = steps_taken(x0, y0, x1, y1, x, y);
    lemma_ends_at_target(x0, y0, x1, y1, x, y, err);
    lemma_on_track_is_line_point(x0, y0, x1, y1, x, y, err);
    if !(x == x1 && y == y1) {
        let next = line_step(x, y, x1, y1, run, rise, err);
        let rest = line_walk(next.0, next.1, x1, y1, run, rise, next.2);
        lemma_step_on_track(x0, y0, x1, y1, x, y, err);
        lemma_walk_from(x0, y0, x1, y1, next.0, next.1, next.2);
        assert(walk == seq![(x, y)] + rest);
        assert forall|m: int| 0 <= m < walk.len() implies #[trigger] walk[m] == line_point(
            x0,
            y0,
            x1,
            y1,
            taken + m,
        ) by {
            if m > 0 {
                assert(walk[m] == rest[m - 1]);
            }
        }
    }
}

/// The walk with the error term, started at the first end with the error
/// `run - rise`, visits the cells of the segment, in order.
pub proof fn lemma_walk_is_line(x0: int, y0: int, x1: int, y1: int)
    ensures
        line_walk(
            x0,
            y0,
            x1,
            y1,
            distance(x0, x1),
            distance(y0, y1),
            distance(x0, x1) - distance(y0, y1),
        ) == line_points(x0, y0, x1, y1),
{
    let run = distance(x0, x1);
    let rise = distance(y0, y1);
    lemma_start_on_track(x0, y0, x1, y1);
    lemma_walk_from(x0, y0, x1, y1, x0, y0, run - rise);
    assert(line_walk(x0, y0, x1, y1, run, rise, run - rise) =~= line_points(x0, y0, x1, y1));
}

/// Each cell of a segment is within half a step of the ideal segment,
/// measured along the shorter axis: where the longer axis has `long` steps
/// and the shorter one `short`, the cell that is `k` steps along the longer
/// axis is `n` steps along the shorter one, with
/// `-long < 2 * (n * long - k * short) <= long`.
pub proof fn lemma_line_nearest(x0: int, y0: int, x1: int, y1: int, k: int)
    requires
        0 <= k < line_len(x0, y0, x1, y1),
    ensures
        ({
            let run = distance(x0, x1) as int;
            let rise = distance(y0, y1) as int;
            let p = line_point(x0, y0, x1, y1, k);
            &&& run >= rise ==> distance(x0, p.0) == k
            &&& 0 < run && run >= rise ==> -run < 2 * (distance(y0, p.1) * run - k * rise) <= run
            &&& run < rise ==> distance(y0, p.1) == k && -rise < 2 * (distance(x0, p.0) * rise - k
                * run) <= rise
        }),
{
    let run = distance(x0, x1) as int;
    let rise = distance(y0, y1) as int;
    assert(0 <= k * rise && 0 <= k * run) by (nonlinear_arith)
        requires
            0 <= k,
            0 <= rise,
            0 <= run,
    ;
    if run >= rise {
        if run > 0 {
            lemma_nearest(k * rise, run);
        } else {
            assert(0 * run == 0 && k * rise == 0) by (nonlinear_arith)
                requires
                    k == 0,
            ;
        }
    } else {
        lemma_nearest(k * run, rise);
    }
}

/// Rounding to the nearest integer leaves at most a half.
proof fn lemma_nearest(n: int, d: int)
    requires
        0 <= n,
        0 < d,
    ensures
        0 <= nearest(n, d),
        -d < 2 * (nearest(n, d) * d - n) <= d,
{
    let q = (2 * n + d) / (2 * d);
    let r = (2 * n + d) % (2 * d);
    vstd::arithmetic::div_mod::lemma_fundamental_div_mod(2 * n + d, 2 * d);
    vstd::arithmetic::div_mod::lemma_mod_pos_bound(2 * n + d, 2 * d);
    assert((2 * d) * q == 2 * (q * d)) by (nonlinear_arith);
    assert(q >= 0) by (nonlinear_arith)
        requires
            2 * n + d == 2 * (q * d) + r,
            0 <= r < 2 * d,
            0 <= n,
            0 < d,
    ;
}

/// A segment starts on its first end and stops on its second, never leaves
/// the box of the two, and runs from cell to touching cell.
pub proof fn lemma_line_shape(x0: int, y0: int, x1: int, y1: int)
    ensures
        ({
            let points = line_points(x0, y0, x1, y1);
            &&& points.len() >= 1
            &&& points[0] == (x0, y0)
            &&& points.last() == (x1, y1)
            &&& forall|k: int|
                0 <= k < points.len() ==> between(x0, (#[trigger] points[k]).0, x1) && between(
                    y0,
                    points[k].1,
                    y1,
                )
            &&& forall|k: int|
                0 <= k < points.len() - 1 ==> adjacent(#[trigger] points[k], points[k + 1])
        }),
{
    let run = distance(x0, x1) as int;
    let rise = distance(y0, y1) as int;
    let points = line_points(x0, y0, x1, y1);
    lemma_start_on_track(x0, y0, x1, y1);
    lemma_walk_is_line(x0, y0, x1, y1);
    lemma_walk_shape(x0, y0, x1, y1, x0, y0, run - rise);
}

/// The shape of the rest of a walk that is on its track.
proof fn lemma_walk_shape(x0: int, y0: int, x1: int, y1: int, x: int, y: int, err: int)
    requires
        on_track(x0, y0, x1, y1, x, y, err),
    ensures
        ({
            let walk = line_walk(x, y, x1, y1, distance(x0, x1), distance(y0, y1), err);
            &&& walk.len() >= 1
            &&& walk[0] == (x, y)
            &&& walk.last() == (x1, y1)
            &&& forall|k: int|
                0 <= k < walk.len() ==> between(x0, (#[trigger] walk[k]).0, x1) && between(
                    y0,
                    walk[k].1,
                    y1,
                )
            &&& forall|k: int|
                0 <= k < walk.len() - 1 ==> adjacent(#[trigger] walk[k], walk[k + 1])
        }),
    decreases distance(x, x1) + distance(y, y1),
{
    let run = distance(x0, x1);
    let rise = distance(y0, y1);
    let walk = line_walk(x, y, x1, y1, run, rise, err);
    lemma_ends_at_target(x0, y0, x1, y1, x, y, err);
    if !(x == x1 && y == y1) {
        let next = line_step(x, y, x1, y1, run, rise, err);
        let rest = line_walk(next.0, next.1, x1, y1, run, rise, next.2);
        lemma_step_on_track(x0, y0, x1, y1, x, y, err);
        lemma_walk_shape(x0, y0, x1, y1, next.0, next.1, next.2);
        assert(walk == seq![(x, y)] + rest);
        assert forall|k: int| 0 < k < walk.len() implies walk[k] == rest[k - 1] by {}
        assert forall|k: int| 0 <= k < walk.len() - 1 implies adjacent(
            #[trigger] walk[k],
            walk[k + 1],
        ) by {
            if k > 0 {
                assert(walk[k] == rest[k - 1]);
                assert(walk[k + 1] == rest[k]);
            } else {
                assert(walk[1] == rest[0]);
            }
        }
    }
}

/// A segment whose two ends are one cell is that cell alone.
pub proof fn lemma_line_single_point(x: int, y: int)
    ensures
        line_points(x, y, x, y) == seq![(x, y)],
        line_points(x, y, x, y).to_set() == set![(x, y)],
{
    let points = line_points(x, y, x, y);
    assert(points =~= seq![(x, y)]);
    assert(points[0] == (x, y));
    assert(points.to_set() =~= set![(x, y)]);
}

/// A horizontal segment is the cells of its row from one end to the other.
pub proof fn lemma_line_horizontal(x0: int, x1: int, y: int)
    ensures
        line_points(x0, y, x1, y) == Seq::new(
            distance(x0, x1) + 1,
            |k: int| (x0 + steps_toward(k, x0, x1), y),
        ),
{
    assert forall|k: int| 0 <= k <= distance(x0, x1) implies line_point(x0, y, x1, y, k) == (
        x0 + steps_toward(k, x0, x1),
        y,
    ) by {
        let run = distance(x0, x1) as int;
        assert(k * 0 == 0);
        if run > 0 {
            assert((2 * 0 + run) / (2 * run) == 0) by {
                lemma_fundamental_div_mod_converse(run, 2 * run, 0, run);
            }
        }
    }
    assert(line_points(x0, y, x1, y) =~= Seq::new(
        distance(x0, x1) + 1,
        |k: int| (x0 + steps_toward(k, x0, x1), y),
    ));
}

/// A vertical segment is the cells of its column from one end to the other.
pub proof fn lemma_line_vertical(x: int, y0: int, y1: int)
    ensures
        line_points(x, y0, x, y1) == Seq::new(
            distance(y0, y1) + 1,
            |k: int| (x, y0 + steps_toward(k, y0, y1)),
        ),
{
    assert forall|k: int| 0 <= k <= distance(y0, y1) implies line_point(x, y0, x, y1, k) == (
        x,
        y0 + steps_toward(k, y0, y1),
    ) by {
        let rise = distance(y0, y1) as int;
        assert(k * 0 == 0);
        if rise > 0 {
            assert((2 * 0 + rise) / (2 * rise) == 0) by {
                lemma_fundamental_div_mod_converse(rise, 2 * rise, 0, rise);
            }
        }
    }
    assert(line_points(x, y0, x, y1) =~= Seq::new(
        distance(y0, y1) + 1,
        |k: int| (x, y0 + steps_toward(k, y0, y1)),
    ));
}

} // verus!
