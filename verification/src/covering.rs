//! What support points cover, but for rounding: every point of an arc, and with it the box.
use vstd::prelude::*;

use crate::arc::ProfileArc;
use crate::bounds;
use crate::convex;
use crate::ideal;
use crate::ideal::Ideal;
use crate::loops;
use crate::moving;
use crate::profile::ExtrudedProfile;
use crate::reach;
use crate::scalar::{Lawful, Scalar};
use crate::support;
use crate::vector::Vector2;

verus! {

/// The unit vector at the angle `a`.
pub open spec fn direction(a: Ideal) -> Vector2<Ideal> {
    Vector2 { x: a.cosine(), y: a.sine() }
}

/// Is `v` a vector of length one?
pub open spec fn is_unit(v: Vector2<Ideal>) -> bool {
    loops::is_point(v) && v.inner(v).v == 1real
}

/// Does the direction `v` lie between the ends of the arc? Counter-clockwise from its start to its
/// end, a circle runs along the right of the chord.
pub open spec fn is_between(arc: ProfileArc<Ideal>, v: Vector2<Ideal>) -> bool {
    convex::turn(direction(arc.start), direction(arc.end), v) <= 0real
}

/// Does arc `j` face every direction, or just those between its ends, and the profile hold them?
pub open spec fn is_anchored(shape: ExtrudedProfile<Ideal>, j: int) -> bool {
    let arc = shape.arcs@[j];
    &&& moving::is_arc(arc)
    &&& arc.radius.v >= 0real
    &&& {
        ||| forall|v: Vector2<Ideal>| is_unit(v) ==> #[trigger] arc.faces(v.heading())
        ||| {
            &&& shape.profile@.contains(arc.point_at(arc.start))
            &&& shape.profile@.contains(arc.point_at(arc.end))
            &&& forall|v: Vector2<Ideal>|
                is_unit(v) ==> #[trigger] arc.faces(v.heading()) == is_between(arc, v)
        }
    }
}

/// Is every arc of the shape one that faces what lies between its ends?
pub open spec fn has_anchored_arcs(shape: ExtrudedProfile<Ideal>) -> bool {
    &&& loops::has_points(shape.profile@)
    &&& forall|j: int| 0 <= j < shape.arcs@.len() ==> #[trigger] is_anchored(shape, j)
}

/// What a mixture of two vectors does with a third.
proof fn lemma_mix(s: real, ax: real, ay: real, t: real, bx: real, bz: real, cx: real, cy: real)
    ensures
        (s * ax + t * bx) * cx + (s * ay + t * bz) * cy == s * (ax * cx + ay * cy) + t * (bx * cx
            + bz * cy),
        cx * (s * ay + t * bz) - (s * ax + t * bx) * cy == s * (cx * ay - ax * cy) + t * (cx * bz
            - bx * cy),
{
    ideal::lemma_dist(cx, s * ax, t * bx);
    ideal::lemma_dist(cy, s * ay, t * bz);
    ideal::lemma_dist(cx, s * ay, t * bz);
    ideal::lemma_dist(cy, s * ax, t * bx);
    ideal::lemma_assoc(s, ax, cx);
    ideal::lemma_assoc(s, ay, cy);
    ideal::lemma_assoc(t, bx, cx);
    ideal::lemma_assoc(t, bz, cy);
    ideal::lemma_assoc(s, ay, cx);
    ideal::lemma_assoc(s, ax, cy);
    ideal::lemma_assoc(t, bz, cx);
    ideal::lemma_assoc(t, bx, cy);
    ideal::lemma_dist(s, ax * cx, ay * cy);
    ideal::lemma_dist(t, bx * cx, bz * cy);
    ideal::lemma_dist(s, cx * ay, ax * cy);
    ideal::lemma_dist(t, cx * bz, bx * cy);
}

/// A vector along another is so many times that other.
proof fn lemma_along(ex: real, ey: real, fx: real, fy: real, s: real)
    requires
        ex * ex + ey * ey > 0real,
        ex * fy - fx * ey == 0real,
        s == (ex * fx + ey * fy) / (ex * ex + ey * ey),
    ensures
        fx == s * ex,
        fy == s * ey,
{
    let l = ex * ex + ey * ey;
    let g = ex * fx + ey * fy;
    assert(g == s * l) by (nonlinear_arith)
        requires
            l > 0real,
            s == g / l,
    ;
    ideal::lemma_dist(fx, ex * ex, ey * ey);
    ideal::lemma_dist(fy, ex * ex, ey * ey);
    ideal::lemma_dist(ex, ex * fx, ey * fy);
    ideal::lemma_dist(ey, ex * fx, ey * fy);
    ideal::lemma_assoc(ex, ex, fx);
    ideal::lemma_assoc(ey, ey, fx);
    ideal::lemma_assoc(ex, ey, fy);
    ideal::lemma_assoc(ex, ey, fx);
    ideal::lemma_assoc(ex, ex, fy);
    ideal::lemma_assoc(ey, ey, fy);
    ideal::lemma_assoc(ey, ex, fy);
    ideal::lemma_assoc(ey, fx, ey);
    ideal::lemma_assoc(ex, fx, ey);
    // Across the other vector there is nothing.
    let c = ex * fy - fx * ey;
    ideal::lemma_dist(ey, ex * fy, fx * ey);
    ideal::lemma_dist(ex, ex * fy, fx * ey);
    assert(ey * 0real == 0real && ex * 0real == 0real) by (nonlinear_arith);
    assert(l * fx == ex * g);
    assert(l * fy == ey * g);
    ideal::lemma_assoc(ex, s, l);
    ideal::lemma_assoc(ey, s, l);
    assert(l * fx == l * (s * ex));
    assert(l * fy == l * (s * ey));
    let (u, v) = (s * ex, s * ey);
    assert(fx == u) by (nonlinear_arith)
        requires
            l > 0real,
            l * fx == l * u,
    ;
    assert(fy == v) by (nonlinear_arith)
        requires
            l > 0real,
            l * fy == l * v,
    ;
}

/// Along a chord of the unit circle, from its start over `s` of its length: inside the circle only
/// between the ends.
proof fn lemma_chord_inside(px: real, py: real, ex: real, ey: real, s: real)
    requires
        px * px + py * py == 1real,
        (px + ex) * (px + ex) + (py + ey) * (py + ey) == 1real,
        (px + s * ex) * (px + s * ex) + (py + s * ey) * (py + s * ey) <= 1real,
        ex * ex + ey * ey > 0real,
    ensures
        0real <= s <= 1real,
{
    let l = ex * ex + ey * ey;
    let h = px * ex + py * ey;
    ideal::lemma_foil(px, ex, px, ex);
    ideal::lemma_foil(py, ey, py, ey);
    ideal::lemma_foil(px, s * ex, px, s * ex);
    ideal::lemma_foil(py, s * ey, py, s * ey);
    ideal::lemma_assoc(s, px, ex);
    ideal::lemma_assoc(s, py, ey);
    ideal::lemma_dist(s, px * ex, py * ey);
    ideal::lemma_pairs(s, ex, s, ex);
    ideal::lemma_pairs(s, ey, s, ey);
    ideal::lemma_dist(s * s, ex * ex, ey * ey);
    assert(2real * h + l == 0real);
    assert(2real * (s * h) + (s * s) * l <= 0real);
    assert(0real <= s <= 1real) by (nonlinear_arith)
        requires
            2real * h + l == 0real,
            2real * (s * h) + (s * s) * l <= 0real,
            l > 0real,
    ;
}

/// Of two points of the unit circle on either side of a chord, the one to the right of it reaches
/// towards the other no further than one of the chord's ends.
proof fn lemma_over_chord(
    px: real,
    py: real,
    qx: real,
    qy: real,
    vx: real,
    vy: real,
    dx: real,
    dy: real,
)
    requires
        px * px + py * py == 1real,
        qx * qx + qy * qy == 1real,
        vx * vx + vy * vy == 1real,
        dx * dx + dy * dy == 1real,
        (qx - px) * (vy - py) - (vx - px) * (qy - py) <= 0real,
        (qx - px) * (dy - py) - (dx - px) * (qy - py) > 0real,
    ensures
        vx * dx + vy * dy <= px * dx + py * dy || vx * dx + vy * dy <= qx * dx + qy * dy,
{
    let (ex, ey) = (qx - px, qy - py);
    let m = vx * dx + vy * dy;
    assert(1real * 1real == 1real) by (nonlinear_arith);
    reach::lemma_no_longer(vx, vy, dx, dy, 1real);
    // Where the way between the two crosses the chord's line.
    let alpha = ex * (dy - py) - (dx - px) * ey;
    let beta = -(ex * (vy - py) - (vx - px) * ey);
    let (a, b) = (alpha / (alpha + beta), beta / (alpha + beta));
    assert(a >= 0real && b >= 0real && a + b == 1real && beta * a == alpha * b) by (nonlinear_arith)
        requires
            alpha > 0real,
            beta >= 0real,
            a == alpha / (alpha + beta),
            b == beta / (alpha + beta),
    ;
    let (fx, fy) = (a * (vx - px) + b * (dx - px), a * (vy - py) + b * (dy - py));
    lemma_mix(a, vx - px, vy - py, b, dx - px, dy - py, ex, ey);
    ideal::lemma_dist(a, beta, 0real);
    ideal::lemma_dist(b, alpha, 0real);
    assert(ex * fy - fx * ey == 0real);
    // It lies on the chord, being inside the circle.
    let l = ex * ex + ey * ey;
    assert(ex != 0real || ey != 0real) by {
        if ex == 0real && ey == 0real {
            let (t, u) = (dy - py, dx - px);
            assert(0real * t - u * 0real == 0real) by (nonlinear_arith);
        }
    }
    assert(l > 0real) by (nonlinear_arith)
        requires
            l == ex * ex + ey * ey,
            ex != 0real || ey != 0real,
    ;
    let s = (ex * fx + ey * fy) / l;
    lemma_along(ex, ey, fx, fy, s);
    let (wx, wy) = (a * vx + b * dx, a * vy + b * dy);
    ideal::lemma_dist(a, vx, px);
    ideal::lemma_dist(a, vy, py);
    ideal::lemma_dist(b, dx, px);
    ideal::lemma_dist(b, dy, py);
    ideal::lemma_dist(px, a, b);
    ideal::lemma_dist(py, a, b);
    assert(px * 1real == px && py * 1real == py) by (nonlinear_arith);
    assert(wx == px + fx && wy == py + fy);
    lemma_mix(a, vx, vy, b, dx, dy, wx, wy);
    lemma_mix(a, vx, vy, b, dx, dy, vx, vy);
    lemma_mix(a, vx, vy, b, dx, dy, dx, dy);
    ideal::lemma_dist(vx, wx, 0real);
    ideal::lemma_dist(vy, wy, 0real);
    ideal::lemma_dist(dx, wx, vx);
    ideal::lemma_dist(dy, wy, vy);
    let (wv, wd) = (wx * vx + wy * vy, wx * dx + wy * dy);
    assert(a * 1real == a && b * 1real == b) by (nonlinear_arith);
    assert(wv == a + b * m && wd == a * m + b);
    assert(wx * wx + wy * wy == a * wv + b * wd);
    assert(a * (a + b * m) + b * (a * m + b) <= 1real) by (nonlinear_arith)
        requires
            a >= 0real,
            b >= 0real,
            a + b == 1real,
            m <= 1real,
    ;
    assert(px + ex == qx && py + ey == qy);
    lemma_chord_inside(px, py, ex, ey, s);
    // Towards `d` it reaches as far as the one point, and no further than the ends.
    assert(wd >= m) by (nonlinear_arith)
        requires
            wd == a * m + b,
            b >= 0real,
            a + b == 1real,
            m <= 1real,
    ;
    let (pd, qd) = (px * dx + py * dy, qx * dx + qy * dy);
    lemma_mix(1real, px, py, s, ex, ey, dx, dy);
    ideal::lemma_dist(dx, qx, px);
    ideal::lemma_dist(dy, qy, py);
    assert(1real * px == px && 1real * py == py && 1real * pd == pd) by (nonlinear_arith);
    assert(ex * dx + ey * dy == qd - pd);
    assert(wd == pd + s * (qd - pd));
    assert(wd <= pd || wd <= qd) by (nonlinear_arith)
        requires
            wd == pd + s * (qd - pd),
            0real <= s <= 1real,
    ;
}

/// A vector of length one is its own unit.
pub proof fn lemma_own_unit(d: Vector2<Ideal>)
    requires
        is_unit(d),
    ensures
        d.norm() == ideal::number(1real),
        ideal::is_root(d.norm().v, d.inner(d).v),
        d.unit() == Some(d),
{
    assert(1real * 1real == 1real) by (nonlinear_arith);
    assert(ideal::is_root(1real, 1real));
    let r = d.norm().v;
    assert(ideal::is_root(r, 1real));
    assert(r == 1real) by (nonlinear_arith)
        requires
            r >= 0real,
            r * r == 1real,
    ;
    let (x, y) = (d.x.v, d.y.v);
    assert(x * 1real == x && y * 1real == y) by (nonlinear_arith);
    assert(Ideal::of_count(1).v == 1real && Ideal::of_count(0).v == 0real);
    assert(1real / 1real == 1real);
}

/// The vector at an angle has length one.
proof fn lemma_direction(a: Ideal)
    ensures
        is_unit(direction(a)),
{
    ideal::lemma_circle(a.v, a.v);
}

/// Where an arc does not face a direction, each of its points lies behind the support point, which
/// one of its ends reaches at least.
pub proof fn law_arc_lies_behind_its_ends(
    shape: ExtrudedProfile<Ideal>,
    d: Vector2<Ideal>,
    j: int,
    v: Vector2<Ideal>,
)
    requires
        is_unit(d),
        0 <= j < shape.arcs@.len(),
        moving::is_arc(shape.arcs@[j]),
        shape.arcs@[j].radius.v >= 0real,
        shape.profile@.contains(shape.arcs@[j].point_at(shape.arcs@[j].start)),
        shape.profile@.contains(shape.arcs@[j].point_at(shape.arcs@[j].end)),
        !is_between(shape.arcs@[j], d),
        is_unit(v),
        is_between(shape.arcs@[j], v),
    ensures
        !shape.plane_support(d).inner(d).below(shape.arcs@[j].toward(v).inner(d)),
{
    let arc = shape.arcs@[j];
    let (p, q) = (direction(arc.start), direction(arc.end));
    lemma_direction(arc.start);
    lemma_direction(arc.end);
    lemma_over_chord(p.x.v, p.y.v, q.x.v, q.y.v, v.x.v, v.y.v, d.x.v, d.y.v);
    reach::lemma_from_centre(arc, v, d);
    reach::lemma_from_centre(arc, p, d);
    reach::lemma_from_centre(arc, q, d);
    let r = arc.radius.v;
    let (a, b, c) = (v.inner(d).v, p.inner(d).v, q.inner(d).v);
    assert(r * a <= r * b || r * a <= r * c) by (nonlinear_arith)
        requires
            r >= 0real,
            a <= b || a <= c,
    ;
    support::law_support_is_furthest(shape, d, arc.toward(p));
    support::law_support_is_furthest(shape, d, arc.toward(q));
    let (best, other) = (shape.plane_support(d).inner(d), arc.toward(v).inner(d));
    let end = if r * a <= r * b {
        arc.toward(p).inner(d)
    } else {
        arc.toward(q).inner(d)
    };
    Ideal::law_numbers(best, end);
    Ideal::law_numbers(best, other);
    Ideal::law_numbers(other, end);
    if best.below(other) {
        Ideal::law_transitive(best, other, end);
    }
}

/// No point of an arc reaches beyond the support point, in any direction: where the arc faces it,
/// its own point towards it takes over, and elsewhere its ends do.
pub proof fn law_support_covers_arc(
    shape: ExtrudedProfile<Ideal>,
    d: Vector2<Ideal>,
    j: int,
    v: Vector2<Ideal>,
)
    requires
        is_unit(d),
        0 <= j < shape.arcs@.len(),
        is_anchored(shape, j),
        is_unit(v),
        shape.arcs@[j].faces(v.heading()),
    ensures
        !shape.plane_support(d).inner(d).below(shape.arcs@[j].toward(v).inner(d)),
{
    lemma_own_unit(d);
    let arc = shape.arcs@[j];
    if arc.faces(d.heading()) {
        reach::law_facing_circle_is_covered(shape, d, d, j, v);
    } else {
        assert(!is_between(arc, d) && is_between(arc, v));
        law_arc_lies_behind_its_ends(shape, d, j, v);
    }
}

/// There is something that the shape offers in every direction, and the support point is one such.
proof fn lemma_support_offered(shape: ExtrudedProfile<Ideal>, d: Vector2<Ideal>)
    requires
        has_anchored_arcs(shape),
        shape.arcs@.len() > 0,
        is_unit(d),
    ensures
        support::is_offered(shape, d, shape.plane_support(d)),
        loops::is_point(shape.plane_support(d)),
{
    lemma_own_unit(d);
    let arc = shape.arcs@[0];
    assert(is_anchored(shape, 0));
    assert(moving::has_arcs(shape.arcs@)) by {
        assert forall|j: int| 0 <= j < shape.arcs@.len() implies moving::is_arc(
            #[trigger] shape.arcs@[j],
        ) by {
            assert(is_anchored(shape, j));
        }
    }
    let p = if arc.faces(d.heading()) {
        arc.toward(d)
    } else {
        arc.point_at(arc.start)
    };
    if arc.faces(d.heading()) {
        assert(support::arc_offers(shape.arcs@[0], d, p));
    }
    assert(support::is_offered(shape, d, p));
    reach::lemma_offered_is_point(shape, d, p);
    support::law_support_is_offered(shape, d, p);
    reach::lemma_offered_is_point(shape, d, shape.plane_support(d));
}

/// The support point in one direction reaches no further in another than the support point there.
pub proof fn law_supports_bound_each_other(
    shape: ExtrudedProfile<Ideal>,
    d: Vector2<Ideal>,
    e: Vector2<Ideal>,
)
    requires
        has_anchored_arcs(shape),
        shape.arcs@.len() > 0,
        is_unit(d),
        is_unit(e),
    ensures
        shape.plane_support(e).inner(d).v <= shape.plane_support(d).inner(d).v,
        loops::is_point(shape.plane_support(d)),
        loops::is_point(shape.plane_support(e)),
{
    lemma_support_offered(shape, d);
    lemma_support_offered(shape, e);
    lemma_own_unit(e);
    let p = shape.plane_support(e);
    if shape.profile@.contains(p) {
        support::law_support_is_furthest(shape, d, p);
    } else {
        let j = choose|j: int|
            0 <= j < shape.arcs@.len() && support::arc_offers(#[trigger] shape.arcs@[j], e, p);
        assert(is_anchored(shape, j));
        law_support_covers_arc(shape, d, j, e);
    }
}

/// The direction `x` and `y` as a unit vector along an axis.
pub open spec fn along(x: real, y: real) -> Vector2<Ideal> {
    Vector2 { x: ideal::number(x), y: ideal::number(y) }
}

proof fn lemma_axes(p: Vector2<Ideal>)
    requires
        loops::is_point(p),
    ensures
        is_unit(along(1real, 0real)),
        is_unit(along(-1real, 0real)),
        is_unit(along(0real, 1real)),
        is_unit(along(0real, -1real)),
        p.inner(along(1real, 0real)).v == p.x.v,
        p.inner(along(-1real, 0real)).v == -p.x.v,
        p.inner(along(0real, 1real)).v == p.y.v,
        p.inner(along(0real, -1real)).v == -p.y.v,
        ({
            let axes = ExtrudedProfile::<Ideal>::axes();
            &&& axes[0].in_plane() == along(1real, 0real)
            &&& axes[1].in_plane() == along(-1real, 0real)
            &&& axes[2].in_plane() == along(0real, 1real)
            &&& axes[3].in_plane() == along(0real, -1real)
        }),
{
    let (x, y) = (p.x.v, p.y.v);
    assert(x * 1real == x && y * 1real == y && x * 0real == 0real && y * 0real == 0real)
        by (nonlinear_arith);
    assert(x * (-1real) == -x && y * (-1real) == -y) by (nonlinear_arith);
    assert(1real * 1real == 1real && 0real * 0real == 0real && (-1real) * (-1real) == 1real)
        by (nonlinear_arith);
    assert(-0real == 0real);
}

/// Every side of the box is where the support point along its axis lies, and the support point in
/// every direction lies inside the box.
pub proof fn law_box_sides_are_supports(shape: ExtrudedProfile<Ideal>, d: Vector2<Ideal>)
    requires
        has_anchored_arcs(shape),
        shape.arcs@.len() > 0,
        is_unit(d),
    ensures
        ({
            let b = shape.local_box();
            let s = shape.plane_support(d);
            &&& b.maxs.x == shape.plane_support(along(1real, 0real)).x
            &&& b.mins.x == shape.plane_support(along(-1real, 0real)).x
            &&& b.maxs.z == shape.plane_support(along(0real, 1real)).y
            &&& b.mins.z == shape.plane_support(along(0real, -1real)).y
            &&& b.mins.x.at_most(s.x) && s.x.at_most(b.maxs.x)
            &&& b.mins.z.at_most(s.y) && s.y.at_most(b.maxs.z)
        }),
{
    let points = shape.extreme_points();
    let n = shape.profile@.len() as int;
    let (e0, e1) = (along(1real, 0real), along(-1real, 0real));
    let (e2, e3) = (along(0real, 1real), along(0real, -1real));
    let (s0, s1) = (shape.plane_support(e0), shape.plane_support(e1));
    let (s2, s3) = (shape.plane_support(e2), shape.plane_support(e3));
    lemma_axes(along(0real, 0real));
    lemma_bounded(shape, d);
    assert(points[n] == s0 && points[n + 1] == s1 && points[n + 2] == s2 && points[n + 3] == s3);
    assert forall|i: int| 0 <= i < points.len() implies (#[trigger] points[i]).is_number()
        && loops::is_point(points[i]) && s1.x.v <= points[i].x.v <= s0.x.v && s3.y.v
        <= points[i].y.v <= s2.y.v by {
        lemma_bounded(shape, e0);
        if i < n {
            let p = shape.profile@[i];
            assert(loops::is_point(shape.profile@[i]));
            assert(shape.profile@.contains(p));
            support::law_support_is_furthest(shape, e0, p);
            support::law_support_is_furthest(shape, e1, p);
            support::law_support_is_furthest(shape, e2, p);
            support::law_support_is_furthest(shape, e3, p);
            lemma_axes(p);
            lemma_axes(s0);
            lemma_axes(s1);
            lemma_axes(s2);
            lemma_axes(s3);
        } else if i == n {
            lemma_bounded(shape, e0);
        } else if i == n + 1 {
            lemma_bounded(shape, e1);
        } else if i == n + 2 {
            lemma_bounded(shape, e2);
        } else {
            lemma_bounded(shape, e3);
        }
    }
    bounds::lemma_corners_bound(points, n);
    bounds::lemma_corners_bound(points, n + 1);
    bounds::lemma_corners_bound(points, n + 2);
    bounds::lemma_corners_bound(points, n + 3);
    bounds::law_box_is_tight(shape);
}

/// The support points along the axes bound every other.
pub proof fn lemma_bounded(shape: ExtrudedProfile<Ideal>, d: Vector2<Ideal>)
    requires
        has_anchored_arcs(shape),
        shape.arcs@.len() > 0,
        is_unit(d),
    ensures
        ({
            let s = shape.plane_support(d);
            let (s0, s1) = (
                shape.plane_support(along(1real, 0real)),
                shape.plane_support(along(-1real, 0real)),
            );
            let (s2, s3) = (
                shape.plane_support(along(0real, 1real)),
                shape.plane_support(along(0real, -1real)),
            );
            &&& loops::is_point(s)
            &&& loops::is_point(s0) && loops::is_point(s1) && loops::is_point(s2)
            &&& loops::is_point(s3)
            &&& s1.x.v <= s.x.v <= s0.x.v
            &&& s3.y.v <= s.y.v <= s2.y.v
        }),
{
    lemma_axes(along(0real, 0real));
    law_supports_bound_each_other(shape, along(1real, 0real), d);
    law_supports_bound_each_other(shape, along(-1real, 0real), d);
    law_supports_bound_each_other(shape, along(0real, 1real), d);
    law_supports_bound_each_other(shape, along(0real, -1real), d);
    lemma_axes(shape.plane_support(d));
    lemma_axes(shape.plane_support(along(1real, 0real)));
    lemma_axes(shape.plane_support(along(-1real, 0real)));
    lemma_axes(shape.plane_support(along(0real, 1real)));
    lemma_axes(shape.plane_support(along(0real, -1real)));
}

} // verus!
