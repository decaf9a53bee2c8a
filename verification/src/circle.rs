//! The cells of a rasterised circle.
//!
//! One octant is walked with an integer decision value: from the offset
//! `(0, radius)` with decision `3 - 2 * radius`, each step moves one cell
//! along x and, when the decision is positive, one cell back along y. The
//! other seven octants are the mirror images of the first.
//!
//! The laws at the end say what the walk amounts to: the circle is closed
//! under the eight reflections about its centre, reaches its radius along
//! both axes, and keeps every cell within one cell of the ideal circle.

use vstd::prelude::*;
use crate::raster::{Raster, lemma_equal_by_pixels, lemma_with_pixel};

verus! {

/// The absolute value of an integer.
pub open spec fn magnitude(i: int) -> int {
    if i < 0 {
        -i
    } else {
        i
    }
}

/// The offsets from the centre that the walk of the first octant visits
/// from `(x, y)` on, with decision value `d` at `(x, y)`. The walk lasts as
/// long as `x <= y`.
pub open spec fn octant_walk(x: int, y: int, d: int) -> Seq<(int, int)>
    decreases y - x + 2,
{
    if x > y {
        Seq::empty()
    } else if d > 0 {
        seq![(x, y)] + octant_walk(x + 1, y - 1, d + 4 * (x - (y - 1)) + 10)
    } else {
        seq![(x, y)] + octant_walk(x + 1, y, d + 4 * x + 6)
    }
}

/// The offsets of the first octant of a circle of the given radius. A
/// circle of radius zero is its centre alone.
pub open spec fn octant_points(radius: nat) -> Seq<(int, int)> {
    if radius == 0 {
        seq![(0, 0)]
    } else {
        octant_walk(0, radius as int, 3 - 2 * radius)
    }
}

/// Whether the offset `(u, v)` is one of the eight mirror images of the
/// offset `(a, b)`: the same two distances, in either order and with any
/// signs.
pub open spec fn mirrors(a: int, b: int, u: int, v: int) -> bool {
    (magnitude(u) == a && magnitude(v) == b) || (magnitude(u) == b && magnitude(v) == a)
}

/// Whether `(u, v)` is a mirror image of one of `offsets`.
pub open spec fn reflects(offsets: Seq<(int, int)>, u: int, v: int) -> bool {
    exists|k: int|
        0 <= k < offsets.len() && mirrors((#[trigger] offsets[k]).0, offsets[k].1, u, v)
}

/// The cells around `(cx, cy)` that are mirror images of one of `offsets`.
pub open spec fn mirrored(offsets: Seq<(int, int)>, cx: int, cy: int) -> Set<(int, int)> {
    Set::new(|p: (int, int)| reflects(offsets, p.0 - cx, p.1 - cy))
}

/// The cells of the circle of the given radius around `(cx, cy)`.
pub open spec fn circle_points(cx: int, cy: int, radius: nat) -> Set<(int, int)> {
    mirrored(octant_points(radius), cx, cy)
}

/// No offsets, no cells.
pub proof fn lemma_mirrored_empty(cx: int, cy: int)
    ensures
        mirrored(Seq::empty(), cx, cy) == Set::<(int, int)>::empty(),
{
    assert(mirrored(Seq::empty(), cx, cy) =~= Set::<(int, int)>::empty());
}

/// One more offset adds its eight mirror images.
pub proof fn lemma_mirrored_push(offsets: Seq<(int, int)>, offset: (int, int), cx: int, cy: int)
    ensures
        mirrored(offsets.push(offset), cx, cy) == mirrored(offsets, cx, cy).union(
            mirrored(seq![offset], cx, cy),
        ),
{
    let more = offsets.push(offset);
    let one = seq![offset];
    assert forall|p: (int, int)|
        mirrored(more, cx, cy).contains(p) <==> mirrored(offsets, cx, cy).contains(p) || mirrored(
            one,
            cx,
            cy,
        ).contains(p) by {
        let u = p.0 - cx;
        let v = p.1 - cy;
        if reflects(more, u, v) {
            let k = choose|k: int|
                0 <= k < more.len() && mirrors((#[trigger] more[k]).0, more[k].1, u, v);
            if k < offsets.len() {
                assert(more[k] == offsets[k]);
                assert(reflects(offsets, u, v));
            } else {
                assert(more[k] == one[0]);
                assert(reflects(one, u, v));
            }
        }
        if reflects(offsets, u, v) {
            let k = choose|k: int|
                0 <= k < offsets.len() && mirrors((#[trigger] offsets[k]).0, offsets[k].1, u, v);
            assert(more[k] == offsets[k]);
            assert(reflects(more, u, v));
        }
        if reflects(one, u, v) {
            assert(more[offsets.len() as int] == offset);
            assert(reflects(more, u, v));
        }
    }
    assert(mirrored(more, cx, cy) =~= mirrored(offsets, cx, cy).union(mirrored(one, cx, cy)));
}

/// The image after a bounds-checked write at each of the eight mirror
/// images of the offset `(a, b)` around `(cx, cy)`.
pub open spec fn with_eight_pixels(
    r: Raster,
    cx: int,
    cy: int,
    a: int,
    b: int,
    color: u32,
) -> Raster {
    r.with_pixel(cx + a, cy + b, color).with_pixel(cx - a, cy - b, color).with_pixel(
        cx + a,
        cy - b,
        color,
    ).with_pixel(cx - a, cy + b, color).with_pixel(cx + b, cy + a, color).with_pixel(
        cx - b,
        cy - a,
        color,
    ).with_pixel(cx + b, cy - a, color).with_pixel(cx - b, cy + a, color)
}

/// Eight bounds-checked writes, one per mirror image of an offset, paint
/// exactly the mirror images of that offset.
pub proof fn lemma_eight_pixels(r: Raster, cx: int, cy: int, a: int, b: int, color: u32)
    requires
        r.wf(),
        0 <= a,
        0 <= b,
    ensures
        with_eight_pixels(r, cx, cy, a, b, color) == r.painted(
            mirrored(seq![(a, b)], cx, cy),
            color,
        ),
{
    let r1 = r.with_pixel(cx + a, cy + b, color);
    let r2 = r1.with_pixel(cx - a, cy - b, color);
    let r3 = r2.with_pixel(cx + a, cy - b, color);
    let r4 = r3.with_pixel(cx - a, cy + b, color);
    let r5 = r4.with_pixel(cx + b, cy + a, color);
    let r6 = r5.with_pixel(cx - b, cy - a, color);
    let r7 = r6.with_pixel(cx + b, cy - a, color);
    let r8 = r7.with_pixel(cx - b, cy + a, color);
    lemma_with_pixel(r, cx + a, cy + b, color);
    lemma_with_pixel(r1, cx - a, cy - b, color);
    lemma_with_pixel(r2, cx + a, cy - b, color);
    lemma_with_pixel(r3, cx - a, cy + b, color);
    lemma_with_pixel(r4, cx + b, cy + a, color);
    lemma_with_pixel(r5, cx - b, cy - a, color);
    lemma_with_pixel(r6, cx + b, cy - a, color);
    lemma_with_pixel(r7, cx - b, cy + a, color);
    let one = seq![(a, b)];
    let target = r.painted(mirrored(one, cx, cy), color);
    assert forall|x: int, y: int| r.in_bounds(x, y) implies r8.pixel(x, y) == target.pixel(
        x,
        y,
    ) by {
        let u = x - cx;
        let v = y - cy;
        if mirrors(a, b, u, v) {
            assert(one[0] == (a, b));
            assert(reflects(one, u, v));
        }
        if reflects(one, u, v) {
            let k = choose|k: int|
                0 <= k < one.len() && mirrors((#[trigger] one[k]).0, one[k].1, u, v);
            assert(one[k] == (a, b));
        }
        assert(mirrored(one, cx, cy).contains((x, y)) == mirrors(a, b, u, v));
    }
    lemma_equal_by_pixels(r8, target);
}

/// A circle of radius zero is its centre alone.
pub proof fn lemma_circle_of_radius_zero(cx: int, cy: int)
    ensures
        circle_points(cx, cy, 0) == set![(cx, cy)],
{
    let offsets = octant_points(0);
    assert forall|p: (int, int)| circle_points(cx, cy, 0).contains(p) <==> p == (cx, cy) by {
        if reflects(offsets, p.0 - cx, p.1 - cy) {
            let k = choose|k: int|
                0 <= k < offsets.len() && mirrors(
                    (#[trigger] offsets[k]).0,
                    offsets[k].1,
                    p.0 - cx,
                    p.1 - cy,
                );
            assert(offsets[k] == (0int, 0int));
        }
        if p == (cx, cy) {
            assert(offsets[0] == (0int, 0int));
            assert(mirrors(offsets[0].0, offsets[0].1, p.0 - cx, p.1 - cy));
        }
    }
    assert(circle_points(cx, cy, 0) =~= set![(cx, cy)]);
}

/// A circle is closed under the eight reflections about its centre: with
/// the cell at offset `(u, v)` it holds the cells at `(±u, ±v)` and
/// `(±v, ±u)`.
pub proof fn lemma_circle_symmetric(cx: int, cy: int, radius: nat, u: int, v: int)
    requires
        circle_points(cx, cy, radius).contains((cx + u, cy + v)),
    ensures
        circle_points(cx, cy, radius).contains((cx - u, cy + v)),
        circle_points(cx, cy, radius).contains((cx + u, cy - v)),
        circle_points(cx, cy, radius).contains((cx - u, cy - v)),
        circle_points(cx, cy, radius).contains((cx + v, cy + u)),
        circle_points(cx, cy, radius).contains((cx - v, cy + u)),
        circle_points(cx, cy, radius).contains((cx + v, cy - u)),
        circle_points(cx, cy, radius).contains((cx - v, cy - u)),
{
    let offsets = octant_points(radius);
    assert(reflects(offsets, (cx + u) - cx, (cy + v) - cy));
    let k = choose|k: int|
        0 <= k < offsets.len() && mirrors((#[trigger] offsets[k]).0, offsets[k].1, u, v);
    let (a, b) = offsets[k];
    assert(mirrors(a, b, -u, v) && mirrors(a, b, u, -v) && mirrors(a, b, -u, -v));
    assert(mirrors(a, b, v, u) && mirrors(a, b, -v, u) && mirrors(a, b, v, -u) && mirrors(
        a,
        b,
        -v,
        -u,
    ));
    assert(reflects(offsets, (cx - u) - cx, (cy + v) - cy));
    assert(reflects(offsets, (cx + u) - cx, (cy - v) - cy));
    assert(reflects(offsets, (cx - u) - cx, (cy - v) - cy));
    assert(reflects(offsets, (cx + v) - cx, (cy + u) - cy));
    assert(reflects(offsets, (cx - v) - cx, (cy + u) - cy));
    assert(reflects(offsets, (cx + v) - cx, (cy - u) - cy));
    assert(reflects(offsets, (cx - v) - cx, (cy - u) - cy));
}

/// The shape of the rest of an octant walk: one offset for each step along
/// x, none before the diagonal `x == y`, and `y` never growing.
proof fn lemma_octant_walk_shape(x: int, y: int, d: int)
    requires
        0 <= x,
    ensures
        ({
            let walk = octant_walk(x, y, d);
            &&& x <= y ==> walk.len() >= 1 && walk[0] == (x, y)
            &&& forall|k: int|
                0 <= k < walk.len() ==> (#[trigger] walk[k]).0 == x + k && walk[k].0 <= walk[k].1
                    <= y
            &&& forall|k: int|
                0 <= k < walk.len() - 1 ==> (#[trigger] walk[k]).1 - 1 <= walk[k + 1].1
                    <= walk[k].1
        }),
    decreases y - x + 2,
{
    let walk = octant_walk(x, y, d);
    if x <= y {
        let next_y = if d > 0 {
            y - 1
        } else {
            y
        };
        let next_d = if d > 0 {
            d + 4 * (x - (y - 1)) + 10
        } else {
            d + 4 * x + 6
        };
        let rest = octant_walk(x + 1, next_y, next_d);
        lemma_octant_walk_shape(x + 1, next_y, next_d);
        assert(walk == seq![(x, y)] + rest);
        assert forall|k: int| 0 < k < walk.len() implies walk[k] == rest[k - 1] by {}
        assert forall|k: int| 0 <= k < walk.len() - 1 implies (#[trigger] walk[k]).1 - 1 <= walk[k
            + 1].1 <= walk[k].1 by {
            if k > 0 {
                assert(walk[k] == rest[k - 1]);
                assert(walk[k + 1] == rest[k]);
            } else {
                assert(walk[1] == rest[0]);
            }
        }
    }
}

/// The first octant starts straight above the centre, at `(0, radius)`,
/// moves one cell along x at each step and at most one cell back along y,
/// and stays between the axis and the diagonal.
pub proof fn lemma_octant_shape(radius: nat)
    ensures
        ({
            let offsets = octant_points(radius);
            &&& offsets.len() >= 1
            &&& offsets[0] == (0int, radius as int)
            &&& forall|k: int|
                0 <= k < offsets.len() ==> (#[trigger] offsets[k]).0 == k && 0 <= offsets[k].0
                    <= offsets[k].1 <= radius
            &&& forall|k: int|
                0 <= k < offsets.len() - 1 ==> (#[trigger] offsets[k]).1 - 1 <= offsets[k + 1].1
                    <= offsets[k].1
        }),
{
    if radius > 0 {
        lemma_octant_walk_shape(0, radius as int, 3 - 2 * radius);
    }
}

/// A circle holds the four cells at distance `radius` from its centre
/// along the axes, and no cell farther than `radius` from the centre along
/// either axis.
pub proof fn lemma_circle_extent(cx: int, cy: int, radius: nat)
    ensures
        circle_points(cx, cy, radius).contains((cx + radius, cy)),
        circle_points(cx, cy, radius).contains((cx - radius, cy)),
        circle_points(cx, cy, radius).contains((cx, cy + radius)),
        circle_points(cx, cy, radius).contains((cx, cy - radius)),
        forall|p: (int, int)| #[trigger]
            circle_points(cx, cy, radius).contains(p) ==> magnitude(p.0 - cx) <= radius
                && magnitude(p.1 - cy) <= radius,
{
    let offsets = octant_points(radius);
    lemma_octant_shape(radius);
    assert(mirrors(offsets[0].0, offsets[0].1, 0, radius as int));
    assert(reflects(offsets, cx - cx, (cy + radius) - cy));
    lemma_circle_symmetric(cx, cy, radius, 0, radius as int);
    assert forall|p: (int, int)| #[trigger]
        circle_points(cx, cy, radius).contains(p) implies magnitude(p.0 - cx) <= radius
        && magnitude(p.1 - cy) <= radius by {
        let k = choose|k: int|
            0 <= k < offsets.len() && mirrors(
                (#[trigger] offsets[k]).0,
                offsets[k].1,
                p.0 - cx,
                p.1 - cy,
            );
        assert(0 <= offsets[k].0 <= offsets[k].1 <= radius);
    }
}

/// The decision value of the walk at the offset `(x, y)` of a circle of the
/// given radius, as a function of the offset alone.
pub open spec fn decision(radius: int, x: int, y: int) -> int {
    2 * (x * x) + 4 * x + 2 * (y * y) - 6 * y + 3 + 4 * radius - 2 * (radius * radius)
}

/// Whether the offset `(x, y)` is no more than one cell inside the ideal
/// circle of the given radius and less than half a cell outside it:
/// `(radius - 1)^2 <= x^2 + y^2 <= radius^2 + radius`.
pub open spec fn near_ideal(radius: int, x: int, y: int) -> bool {
    (radius - 1) * (radius - 1) <= x * x + y * y <= radius * radius + radius
}

/// From an offset whose decision value is the one that belongs to it, and
/// which is near the ideal circle, the walk stays near the ideal circle.
proof fn lemma_octant_walk_near(radius: int, x: int, y: int, d: int)
    requires
        0 <= x,
        y <= radius,
        d == decision(radius, x, y),
        x <= y ==> 4 * x - 6 * y + 5 <= d <= 6 * radius + 4 * x - 6 * y + 3,
    ensures
        forall|k: int|
            0 <= k < octant_walk(x, y, d).len() ==> near_ideal(
                radius,
                (#[trigger] octant_walk(x, y, d)[k]).0,
                octant_walk(x, y, d)[k].1,
            ),
    decreases y - x + 2,
{
    let walk = octant_walk(x, y, d);
    if x <= y {
        let next_y = if d > 0 {
            y - 1
        } else {
            y
        };
        let next_d = if d > 0 {
            d + 4 * (x - (y - 1)) + 10
        } else {
            d + 4 * x + 6
        };
        let rest = octant_walk(x + 1, next_y, next_d);
        assert(next_d == decision(radius, x + 1, next_y)) by (nonlinear_arith)
            requires
                d == decision(radius, x, y),
                next_y == y - 1 || next_y == y,
                next_y == y - 1 ==> next_d == d + 4 * (x - (y - 1)) + 10,
                next_y == y ==> next_d == d + 4 * x + 6,
        ;
        lemma_octant_walk_near(radius, x + 1, next_y, next_d);
        assert(near_ideal(radius, x, y)) by (nonlinear_arith)
            requires
                d == decision(radius, x, y),
                4 * x - 6 * y + 5 <= d <= 6 * radius + 4 * x - 6 * y + 3,
        ;
        assert(walk == seq![(x, y)] + rest);
        assert forall|k: int| 0 <= k < walk.len() implies near_ideal(
            radius,
            (#[trigger] walk[k]).0,
            walk[k].1,
        ) by {
            if k > 0 {
                assert(walk[k] == rest[k - 1]);
            }
        }
    }
}

/// Each cell of a circle of radius 1 or more is no more than one cell
/// inside the ideal circle and less than half a cell outside it: its
/// squared distance from the centre lies between `(radius - 1)^2` and
/// `radius^2 + radius`.
pub proof fn lemma_circle_near_ideal(cx: int, cy: int, radius: nat, p: (int, int))
    requires
        radius >= 1,
        circle_points(cx, cy, radius).contains(p),
    ensures
        near_ideal(radius as int, p.0 - cx, p.1 - cy),
{
    let r = radius as int;
    let offsets = octant_points(radius);
    let u = p.0 - cx;
    let v = p.1 - cy;
    assert(3 - 2 * r == decision(r, 0, r)) by (nonlinear_arith);
    lemma_octant_walk_near(r, 0, r, 3 - 2 * r);
    let k = choose|k: int|
        0 <= k < offsets.len() && mirrors((#[trigger] offsets[k]).0, offsets[k].1, u, v);
    let (a, b) = offsets[k];
    assert(near_ideal(r, a, b));
    assert(u * u + v * v == a * a + b * b) by (nonlinear_arith)
        requires
            mirrors(a, b, u, v),
    ;
}

} // verus!
