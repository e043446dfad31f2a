//! What boxes and balls enclose, but for rounding.
use vstd::prelude::*;

use crate::bounds;
use crate::bounds::{Aabb, Pose};
use crate::covering;
use crate::ideal;
use crate::ideal::Ideal;
use crate::loops;
use crate::polygon;
use crate::profile::ExtrudedProfile;
use crate::scalar::Scalar;
use crate::support;
use crate::vector::{Vector, Vector2};

verus! {

/// Is the vector one of real numbers?
pub open spec fn is_place(p: Vector<Ideal>) -> bool {
    p.x.side == 0 && p.y.side == 0 && p.z.side == 0
}

/// Is the box one of real numbers, its lower corner below its upper one?
pub open spec fn is_box(b: Aabb<Ideal>) -> bool {
    &&& is_place(b.mins) && is_place(b.maxs)
    &&& b.mins.x.v <= b.maxs.x.v && b.mins.y.v <= b.maxs.y.v && b.mins.z.v <= b.maxs.z.v
}

/// Does the point lie between the sides of the box?
pub open spec fn is_in(b: Aabb<Ideal>, p: Vector<Ideal>) -> bool {
    &&& is_place(p)
    &&& b.mins.x.v <= p.x.v <= b.maxs.x.v
    &&& b.mins.y.v <= p.y.v <= b.maxs.y.v
    &&& b.mins.z.v <= p.z.v <= b.maxs.z.v
}

/// Is the point a corner of the box?
pub open spec fn is_corner(b: Aabb<Ideal>, p: Vector<Ideal>) -> bool {
    &&& p.x == b.mins.x || p.x == b.maxs.x
    &&& p.y == b.mins.y || p.y == b.maxs.y
    &&& p.z == b.mins.z || p.z == b.maxs.z
}

/// Is the pose one of real numbers?
pub open spec fn is_pose(pose: Pose<Ideal>) -> bool {
    &&& is_place(pose.rotation.x_axis) && is_place(pose.rotation.y_axis)
    &&& is_place(pose.rotation.z_axis) && is_place(pose.translation)
}

/// Where the point `p` of a body ends up in a pose: turned, then moved.
pub open spec fn carried(pose: Pose<Ideal>, p: Vector<Ideal>) -> Vector<Ideal> {
    let (a, b, c) = (pose.rotation.x_axis, pose.rotation.y_axis, pose.rotation.z_axis);
    let t = pose.translation;
    Vector {
        x: ideal::number(a.x.v * p.x.v + b.x.v * p.y.v + c.x.v * p.z.v + t.x.v),
        y: ideal::number(a.y.v * p.x.v + b.y.v * p.y.v + c.y.v * p.z.v + t.y.v),
        z: ideal::number(a.z.v * p.x.v + b.z.v * p.y.v + c.z.v * p.z.v + t.z.v),
    }
}

/// The end of an interval that goes furthest with the factor `a`.
spec fn far_end(a: Ideal, lo: Ideal, hi: Ideal) -> Ideal {
    if a.v >= 0real {
        hi
    } else {
        lo
    }
}

/// A factor times a coordinate of a box against the factor times the middle: off by the size of the
/// factor times half the side at most, and by just that at the ends.
proof fn lemma_along_axis(a: real, lo: real, hi: real, p: real)
    requires
        lo <= p <= hi,
    ensures
        ({
            let h = 1real / 2real;
            let size = if a < 0real {
                -a
            } else {
                a
            };
            let (mid, half) = (a * ((lo + hi) * h), size * ((hi - lo) * h));
            let (far, near) = if a >= 0real {
                (hi, lo)
            } else {
                (lo, hi)
            };
            &&& mid - half <= a * p <= mid + half
            &&& a * far == mid + half
            &&& a * near == mid - half
        }),
{
    let h = 1real / 2real;
    let size = if a < 0real {
        -a
    } else {
        a
    };
    let (m, s) = ((lo + hi) * h, (hi - lo) * h);
    assert(m + s == hi && m - s == lo && s >= 0real);
    let e = p - m;
    assert(-s <= e <= s);
    ideal::lemma_dist(a, m, e);
    ideal::lemma_dist(a, m, s);
    ideal::lemma_dist(a, s, 0real);
    assert(-(size * s) <= a * e <= size * s) by (nonlinear_arith)
        requires
            -s <= e <= s,
            size == a || size == -a,
            size >= 0real,
    ;
    assert(a < 0real ==> size * s == -(a * s)) by (nonlinear_arith)
        requires
            a < 0real ==> size == -a,
    ;
}

/// The nine products of a pose and a box.
proof fn lemma_products(b: Aabb<Ideal>, pose: Pose<Ideal>, p: Vector<Ideal>)
    requires
        is_box(b),
        is_pose(pose),
        is_in(b, p),
    ensures
        ({
            let r = b.moved(pose);
            let q = carried(pose, p);
            &&& is_box(r)
            &&& is_in(r, q)
        }),
{
    let (u, v, w) = (pose.rotation.x_axis, pose.rotation.y_axis, pose.rotation.z_axis);
    assert(polygon::half_value::<Ideal>() == ideal::number(1real / 2real));
    lemma_along_axis(u.x.v, b.mins.x.v, b.maxs.x.v, p.x.v);
    lemma_along_axis(v.x.v, b.mins.y.v, b.maxs.y.v, p.y.v);
    lemma_along_axis(w.x.v, b.mins.z.v, b.maxs.z.v, p.z.v);
    lemma_along_axis(u.y.v, b.mins.x.v, b.maxs.x.v, p.x.v);
    lemma_along_axis(v.y.v, b.mins.y.v, b.maxs.y.v, p.y.v);
    lemma_along_axis(w.y.v, b.mins.z.v, b.maxs.z.v, p.z.v);
    lemma_along_axis(u.z.v, b.mins.x.v, b.maxs.x.v, p.x.v);
    lemma_along_axis(v.z.v, b.mins.y.v, b.maxs.y.v, p.y.v);
    lemma_along_axis(w.z.v, b.mins.z.v, b.maxs.z.v, p.z.v);
}

/// The corner of the box that goes furthest along a row of factors, or the opposite one.
spec fn far_corner(b: Aabb<Ideal>, f: Vector<Ideal>) -> Vector<Ideal> {
    Vector {
        x: far_end(f.x, b.mins.x, b.maxs.x),
        y: far_end(f.y, b.mins.y, b.maxs.y),
        z: far_end(f.z, b.mins.z, b.maxs.z),
    }
}

/// Where a pose puts a point of a box, the box moved along contains it. A body that is inside its
/// own box is inside that box in the world.
pub proof fn law_moved_box_contains_image(b: Aabb<Ideal>, pose: Pose<Ideal>, p: Vector<Ideal>)
    requires
        is_box(b),
        is_pose(pose),
        is_in(b, p),
    ensures
        is_box(b.moved(pose)),
        is_in(b.moved(pose), carried(pose, p)),
{
    lemma_products(b, pose, p);
}

/// The box moved along is no larger than need be: each of its sides goes through the image of some
/// corner.
pub proof fn law_moved_box_is_tight(b: Aabb<Ideal>, pose: Pose<Ideal>)
    requires
        is_box(b),
        is_pose(pose),
    ensures
        exists|p: Vector<Ideal>| #[trigger]
            is_corner(b, p) && carried(pose, p).x == b.moved(pose).maxs.x,
        exists|p: Vector<Ideal>| #[trigger]
            is_corner(b, p) && carried(pose, p).x == b.moved(pose).mins.x,
        exists|p: Vector<Ideal>| #[trigger]
            is_corner(b, p) && carried(pose, p).y == b.moved(pose).maxs.y,
        exists|p: Vector<Ideal>| #[trigger]
            is_corner(b, p) && carried(pose, p).y == b.moved(pose).mins.y,
        exists|p: Vector<Ideal>| #[trigger]
            is_corner(b, p) && carried(pose, p).z == b.moved(pose).maxs.z,
        exists|p: Vector<Ideal>| #[trigger]
            is_corner(b, p) && carried(pose, p).z == b.moved(pose).mins.z,
{
    let (u, v, w) = (pose.rotation.x_axis, pose.rotation.y_axis, pose.rotation.z_axis);
    assert(polygon::half_value::<Ideal>() == ideal::number(1real / 2real));
    let (lo, hi) = (b.mins, b.maxs);
    lemma_along_axis(u.x.v, lo.x.v, hi.x.v, lo.x.v);
    lemma_along_axis(v.x.v, lo.y.v, hi.y.v, lo.y.v);
    lemma_along_axis(w.x.v, lo.z.v, hi.z.v, lo.z.v);
    lemma_along_axis(u.y.v, lo.x.v, hi.x.v, lo.x.v);
    lemma_along_axis(v.y.v, lo.y.v, hi.y.v, lo.y.v);
    lemma_along_axis(w.y.v, lo.z.v, hi.z.v, lo.z.v);
    lemma_along_axis(u.z.v, lo.x.v, hi.x.v, lo.x.v);
    lemma_along_axis(v.z.v, lo.y.v, hi.y.v, lo.y.v);
    lemma_along_axis(w.z.v, lo.z.v, hi.z.v, lo.z.v);
    let swapped = Aabb { mins: b.maxs, maxs: b.mins };
    let x = Vector { x: u.x, y: v.x, z: w.x };
    let y = Vector { x: u.y, y: v.y, z: w.y };
    let z = Vector { x: u.z, y: v.z, z: w.z };
    assert(is_corner(b, far_corner(b, x)) && is_corner(b, far_corner(swapped, x)));
    assert(is_corner(b, far_corner(b, y)) && is_corner(b, far_corner(swapped, y)));
    assert(is_corner(b, far_corner(b, z)) && is_corner(b, far_corner(swapped, z)));
    let r = b.moved(pose);
    assert(carried(pose, far_corner(b, x)).x == r.maxs.x);
    assert(carried(pose, far_corner(swapped, x)).x == r.mins.x);
    assert(carried(pose, far_corner(b, y)).y == r.maxs.y);
    assert(carried(pose, far_corner(swapped, y)).y == r.mins.y);
    assert(carried(pose, far_corner(b, z)).z == r.maxs.z);
    assert(carried(pose, far_corner(swapped, z)).z == r.mins.z);
}

/// The squared distance of two points.
pub open spec fn apart(p: Vector<Ideal>, q: Vector<Ideal>) -> real {
    let (x, y, z) = (p.x.v - q.x.v, p.y.v - q.y.v, p.z.v - q.z.v);
    x * x + y * y + z * z
}

/// A coordinate of a box is off its middle by half a side at most, and by just that at the ends.
proof fn lemma_off_middle(lo: real, hi: real, p: real)
    requires
        lo <= p <= hi,
    ensures
        ({
            let m = (lo + hi) * (1real / 2real);
            let (d, s) = (p - m, hi - lo);
            &&& d * d <= (s * s) / 4real
            &&& p == lo || p == hi ==> d * d == (s * s) / 4real
        }),
{
    let m = (lo + hi) * (1real / 2real);
    let (d, s) = (p - m, hi - lo);
    assert(-(s / 2real) <= d <= s / 2real);
    assert(d * d <= (s * s) / 4real) by (nonlinear_arith)
        requires
            -(s / 2real) <= d <= s / 2real,
    ;
    if p == lo || p == hi {
        assert(d * d == (s * s) / 4real) by (nonlinear_arith)
            requires
                d == s / 2real || d == -(s / 2real),
        ;
    }
}

/// The ball of a box contains the box, and its surface goes through every corner.
pub proof fn law_ball_contains_box(b: Aabb<Ideal>, p: Vector<Ideal>)
    requires
        is_box(b),
        is_in(b, p),
        ({
            let (x, y, z) = (
                b.maxs.x.v - b.mins.x.v,
                b.maxs.y.v - b.mins.y.v,
                b.maxs.z.v - b.mins.z.v,
            );
            let square = x * x + y * y + z * z;
            ideal::is_root(ideal::root_of(square), square)
        }),
    ensures
        ({
            let ball = b.ball();
            let r = ball.radius.v;
            &&& is_place(ball.center) && ball.radius.side == 0
            &&& r >= 0real
            &&& apart(p, ball.center) <= r * r
            &&& is_corner(b, p) ==> apart(p, ball.center) == r * r
        }),
{
    let (x, y, z) = (b.maxs.x.v - b.mins.x.v, b.maxs.y.v - b.mins.y.v, b.maxs.z.v - b.mins.z.v);
    let square = x * x + y * y + z * z;
    let n = ideal::root_of(square);
    assert(polygon::half_value::<Ideal>() == ideal::number(1real / 2real));
    lemma_off_middle(b.mins.x.v, b.maxs.x.v, p.x.v);
    lemma_off_middle(b.mins.y.v, b.maxs.y.v, p.y.v);
    lemma_off_middle(b.mins.z.v, b.maxs.z.v, p.z.v);
    let ball = b.ball();
    assert(ball.radius.v == n * (1real / 2real));
    let r = ball.radius.v;
    assert(r * r == (n * n) / 4real) by (nonlinear_arith)
        requires
            r == n * (1real / 2real),
    ;
}

/// Has the shape straight edges only, or arcs that face what lies between their ends?
pub open spec fn is_solid(shape: ExtrudedProfile<Ideal>) -> bool {
    &&& shape.half_depth.side == 0 && shape.half_depth.v >= 0real
    &&& covering::has_anchored_arcs(shape)
    &&& shape.profile@.len() + shape.arcs@.len() > 0
}

/// Of a shape with straight edges, the box holds every vertex, and each side goes through one.
proof fn lemma_straight_box(shape: ExtrudedProfile<Ideal>, d: Vector2<Ideal>)
    requires
        is_solid(shape),
        shape.arcs@.len() == 0,
        loops::is_point(d),
    ensures
        is_box(shape.local_box()),
        ({
            let (b, s) = (shape.local_box(), shape.plane_support(d));
            &&& loops::is_point(s)
            &&& b.mins.x.v <= s.x.v <= b.maxs.x.v
            &&& b.mins.z.v <= s.y.v <= b.maxs.z.v
        }),
{
    let points = shape.profile@;
    assert(loops::is_point(points[0]));
    assert(points.contains(points[0]));
    support::law_support_is_offered(shape, d, points[0]);
    let s = shape.plane_support(d);
    let k = choose|k: int| 0 <= k < points.len() && points[k] == s;
    assert(loops::is_point(points[k]));
    bounds::lemma_corners_bound(points, k);
    bounds::law_box_is_tight(shape);
    let b = shape.local_box();
    assert(forall|i: int| 0 <= i < points.len() ==> loops::is_point(#[trigger] points[i]));
}

/// The box of a solid holds each of its support points.
pub proof fn law_box_holds_support(shape: ExtrudedProfile<Ideal>, dir: Vector<Ideal>)
    requires
        is_solid(shape),
        is_place(dir),
        shape.arcs@.len() == 0 || covering::is_unit(dir.in_plane()),
    ensures
        is_box(shape.local_box()),
        is_in(shape.local_box(), shape.support(dir)),
{
    let d = dir.in_plane();
    if shape.arcs@.len() == 0 {
        lemma_straight_box(shape, d);
    } else {
        covering::law_box_sides_are_supports(shape, d);
        covering::lemma_bounded(shape, d);
    }
}

/// A box in the world, around a body in a pose, holds each support point of the body where the
/// pose puts it; and the box around a motion holds those at either end of it.
pub proof fn law_world_box_holds_body(
    shape: ExtrudedProfile<Ideal>,
    start: Pose<Ideal>,
    end: Pose<Ideal>,
    dir: Vector<Ideal>,
)
    requires
        is_solid(shape),
        is_pose(start),
        is_pose(end),
        is_place(dir),
        shape.arcs@.len() == 0 || covering::is_unit(dir.in_plane()),
    ensures
        is_in(shape.world_box(start), carried(start, shape.support(dir))),
        ({
            let swept = shape.swept_box(start, end);
            &&& is_in(swept, carried(start, shape.support(dir)))
            &&& is_in(swept, carried(end, shape.support(dir)))
        }),
{
    law_box_holds_support(shape, dir);
    let b = shape.local_box();
    law_moved_box_contains_image(b, start, shape.support(dir));
    law_moved_box_contains_image(b, end, shape.support(dir));
}

/// The ball around a solid holds each of its support points.
pub proof fn law_ball_holds_support(shape: ExtrudedProfile<Ideal>, dir: Vector<Ideal>)
    requires
        is_solid(shape),
        is_place(dir),
        shape.arcs@.len() == 0 || covering::is_unit(dir.in_plane()),
        ({
            let b = shape.local_box();
            let (x, y, z) = (
                b.maxs.x.v - b.mins.x.v,
                b.maxs.y.v - b.mins.y.v,
                b.maxs.z.v - b.mins.z.v,
            );
            let square = x * x + y * y + z * z;
            ideal::is_root(ideal::root_of(square), square)
        }),
    ensures
        ({
            let ball = shape.local_ball();
            &&& ball.radius.v >= 0real
            &&& apart(shape.support(dir), ball.center) <= ball.radius.v * ball.radius.v
        }),
{
    law_box_holds_support(shape, dir);
    law_ball_contains_box(shape.local_box(), shape.support(dir));
}

/// The boxes in the world are no larger than need be: the sides of the box around a body in a pose
/// go through images of corners of its own box, and those of the box around a motion are sides of
/// the boxes at its ends. The ball goes through every corner of the body's own box.
pub proof fn law_world_boxes_are_tight(
    shape: ExtrudedProfile<Ideal>,
    start: Pose<Ideal>,
    end: Pose<Ideal>,
)
    requires
        is_solid(shape),
        is_pose(start),
        is_pose(end),
        is_box(shape.local_box()),
    ensures
        ({
            let (b, w) = (shape.local_box(), shape.world_box(start));
            &&& exists|p: Vector<Ideal>| #[trigger]
                is_corner(b, p) && carried(start, p).x == w.maxs.x
            &&& exists|p: Vector<Ideal>| #[trigger]
                is_corner(b, p) && carried(start, p).x == w.mins.x
            &&& exists|p: Vector<Ideal>| #[trigger]
                is_corner(b, p) && carried(start, p).y == w.maxs.y
            &&& exists|p: Vector<Ideal>| #[trigger]
                is_corner(b, p) && carried(start, p).y == w.mins.y
            &&& exists|p: Vector<Ideal>| #[trigger]
                is_corner(b, p) && carried(start, p).z == w.maxs.z
            &&& exists|p: Vector<Ideal>| #[trigger]
                is_corner(b, p) && carried(start, p).z == w.mins.z
        }),
        ({
            let (v, w) = (shape.world_box(start), shape.world_box(end));
            let s = shape.swept_box(start, end);
            &&& s.mins.x == v.mins.x || s.mins.x == w.mins.x
            &&& s.mins.y == v.mins.y || s.mins.y == w.mins.y
            &&& s.mins.z == v.mins.z || s.mins.z == w.mins.z
            &&& s.maxs.x == v.maxs.x || s.maxs.x == w.maxs.x
            &&& s.maxs.y == v.maxs.y || s.maxs.y == w.maxs.y
            &&& s.maxs.z == v.maxs.z || s.maxs.z == w.maxs.z
        }),
{
    let (b, w) = (shape.local_box(), shape.world_box(start));
    law_moved_box_is_tight(b, start);
    assert(w == b.moved(start));
    let p = choose|p: Vector<Ideal>| #[trigger]
        is_corner(b, p) && carried(start, p).x == b.moved(start).maxs.x;
    assert(is_corner(b, p) && carried(start, p).x == w.maxs.x);
    let p = choose|p: Vector<Ideal>| #[trigger]
        is_corner(b, p) && carried(start, p).x == b.moved(start).mins.x;
    assert(is_corner(b, p) && carried(start, p).x == w.mins.x);
    let p = choose|p: Vector<Ideal>| #[trigger]
        is_corner(b, p) && carried(start, p).y == b.moved(start).maxs.y;
    assert(is_corner(b, p) && carried(start, p).y == w.maxs.y);
    let p = choose|p: Vector<Ideal>| #[trigger]
        is_corner(b, p) && carried(start, p).y == b.moved(start).mins.y;
    assert(is_corner(b, p) && carried(start, p).y == w.mins.y);
    let p = choose|p: Vector<Ideal>| #[trigger]
        is_corner(b, p) && carried(start, p).z == b.moved(start).maxs.z;
    assert(is_corner(b, p) && carried(start, p).z == w.maxs.z);
    let p = choose|p: Vector<Ideal>| #[trigger]
        is_corner(b, p) && carried(start, p).z == b.moved(start).mins.z;
    assert(is_corner(b, p) && carried(start, p).z == w.mins.z);
}

/// Every corner of the box of a solid lies on the surface of the ball around the solid.
pub proof fn law_ball_is_tight(shape: ExtrudedProfile<Ideal>, p: Vector<Ideal>)
    requires
        is_box(shape.local_box()),
        is_corner(shape.local_box(), p),
        ({
            let b = shape.local_box();
            let (x, y, z) = (
                b.maxs.x.v - b.mins.x.v,
                b.maxs.y.v - b.mins.y.v,
                b.maxs.z.v - b.mins.z.v,
            );
            let square = x * x + y * y + z * z;
            ideal::is_root(ideal::root_of(square), square)
        }),
    ensures
        ({
            let ball = shape.local_ball();
            apart(p, ball.center) == ball.radius.v * ball.radius.v
        }),
{
    law_ball_contains_box(shape.local_box(), p);
}

} // verus!
