//! How far a shape reaches, but for rounding: all around its arcs, and once it is scaled.
use vstd::prelude::*;

use crate::angle;
use crate::arc::ProfileArc;
use crate::convex;
use crate::ideal;
use crate::ideal::Ideal;
use crate::loops;
use crate::moving;
use crate::profile::ExtrudedProfile;
use crate::scalar::{Lawful, Scalar};
use crate::support;
use crate::vector::{Vector, Vector2};

verus! {

/// The inner product with a direction that has a unit is at most the length of that direction, for
/// every vector that is no longer than one.
pub proof fn lemma_no_longer(vx: real, vy: real, dx: real, dy: real, l: real)
    requires
        l >= 0real,
        l * l == dx * dx + dy * dy,
        vx * vx + vy * vy <= 1real,
    ensures
        vx * dx + vy * dy <= l,
{
    let (s, x) = (vx * dx + vy * dy, vx * dy - vy * dx);
    let (v, d) = (vx * vx + vy * vy, dx * dx + dy * dy);
    // s s + x x == v d
    ideal::lemma_foil(vx * dx, vy * dy, vx * dx, vy * dy);
    ideal::lemma_foil(vx * dy, vy * dx, vx * dy, vy * dx);
    ideal::lemma_foil(vx * vx, vy * vy, dx * dx, dy * dy);
    ideal::lemma_pairs(vx, dx, vx, dx);
    ideal::lemma_pairs(vy, dy, vy, dy);
    ideal::lemma_pairs(vx, dx, vy, dy);
    ideal::lemma_pairs(vy, dy, vx, dx);
    ideal::lemma_pairs(vx, dy, vx, dy);
    ideal::lemma_pairs(vy, dx, vy, dx);
    ideal::lemma_pairs(vx, dy, vy, dx);
    ideal::lemma_pairs(vy, dx, vx, dy);
    assert(s * s + x * x == v * d);
    assert(x * x >= 0real) by (nonlinear_arith);
    assert(v * d <= d) by (nonlinear_arith)
        requires
            v <= 1real,
            d == l * l,
    ;
    if s > l {
        assert(s * s > l * l) by (nonlinear_arith)
            requires
                s > l,
                l >= 0real,
        ;
    }
}

/// Where an arc faces a direction, its whole circle lies behind the support point: no point of it
/// reaches further.
pub proof fn law_facing_circle_is_covered(
    shape: ExtrudedProfile<Ideal>,
    d: Vector2<Ideal>,
    unit: Vector2<Ideal>,
    j: int,
    v: Vector2<Ideal>,
)
    requires
        loops::is_point(d),
        ideal::is_root(d.norm().v, d.inner(d).v),
        d.unit() == Some(unit),
        0 <= j < shape.arcs@.len(),
        moving::is_arc(shape.arcs@[j]),
        shape.arcs@[j].radius.v >= 0real,
        shape.arcs@[j].faces(unit.heading()),
        loops::is_point(v),
        v.inner(v).v <= 1real,
    ensures
        !shape.plane_support(d).inner(d).below(shape.arcs@[j].toward(v).inner(d)),
{
    let arc = shape.arcs@[j];
    let p = arc.toward(unit);
    assert(support::arc_offers(arc, d, p));
    support::law_support_is_furthest(shape, d, p);
    let (l, r) = (d.norm().v, arc.radius.v);
    let (dx, dy) = (d.x.v, d.y.v);
    lemma_no_longer(v.x.v, v.y.v, dx, dy, l);
    // The unit reaches exactly as far as the direction is long.
    let k = 1real / l;
    assert(l > 0real);
    assert(k * l == 1real) by (nonlinear_arith)
        requires
            k == 1real / l,
            l > 0real,
    ;
    assert(unit.x.v == dx * k && unit.y.v == dy * k);
    ideal::lemma_assoc(k, dx, dx);
    ideal::lemma_assoc(k, dy, dy);
    ideal::lemma_dist(k, dx * dx, dy * dy);
    ideal::lemma_assoc(k, l, l);
    assert(1real * l == l) by (nonlinear_arith);
    assert(unit.inner(d).v == l);
    // From the centre, both are that many radii.
    lemma_from_centre(arc, unit, d);
    lemma_from_centre(arc, v, d);
    let t = v.inner(d).v;
    assert(r * t <= r * l) by (nonlinear_arith)
        requires
            r >= 0real,
            t <= l,
    ;
    let (best, other) = (shape.plane_support(d).inner(d), arc.toward(v).inner(d));
    Ideal::law_numbers(best, p.inner(d));
    Ideal::law_numbers(best, other);
    Ideal::law_numbers(other, p.inner(d));
    if best.below(other) {
        Ideal::law_transitive(best, other, p.inner(d));
    }
}

pub proof fn lemma_from_centre(arc: ProfileArc<Ideal>, v: Vector2<Ideal>, d: Vector2<Ideal>)
    requires
        moving::is_arc(arc),
        loops::is_point(v),
        loops::is_point(d),
    ensures
        arc.toward(v).inner(d) == ideal::number(
            arc.center.inner(d).v + arc.radius.v * v.inner(d).v,
        ),
{
    let r = arc.radius.v;
    let (dx, dy) = (d.x.v, d.y.v);
    ideal::lemma_dist(dx, arc.center.x.v, v.x.v * r);
    ideal::lemma_dist(dy, arc.center.y.v, v.y.v * r);
    ideal::lemma_assoc(r, v.x.v, dx);
    ideal::lemma_assoc(r, v.y.v, dy);
    ideal::lemma_dist(r, v.x.v * dx, v.y.v * dy);
}

/// The image of `p` under a scale.
pub open spec fn image(p: Vector2<Ideal>, scale: Vector<Ideal>) -> Vector2<Ideal> {
    Vector2 { x: p.x.times(scale.x), y: p.y.times(scale.z) }
}

/// A straight-edged shape, scaled, reaches in a direction as far as the shape itself does in the
/// direction scaled alike: the support of the scaled solid is that of the image of the solid.
pub proof fn law_scaled_support(
    shape: ExtrudedProfile<Ideal>,
    scaled: ExtrudedProfile<Ideal>,
    scale: Vector<Ideal>,
    d: Vector2<Ideal>,
)
    requires
        shape.arcs@.len() == 0,
        shape.profile@.len() > 0,
        loops::has_points(shape.profile@),
        scaled.is_scaled(shape, scale),
        scale.x.side == 0 && scale.z.side == 0,
        loops::is_point(d),
    ensures
        scaled.plane_support(d).inner(d) == shape.plane_support(image(d, scale)).inner(
            image(d, scale),
        ),
{
    let poly = shape.profile@;
    let other = scaled.profile@;
    let n = poly.len() as int;
    let e = image(d, scale);
    assert(scaled.arcs@.len() == 0);
    let mirrored = ExtrudedProfile::<Ideal>::mirrors(scale);
    let at = |i: int|
        if mirrored {
            n - 1 - i
        } else {
            i
        };
    assert forall|i: int| 0 <= i < n implies #[trigger] other[i] == image(poly[at(i)], scale) by {}
    assert(loops::is_point(poly[0]) && loops::is_point(poly[at(0)]));
    assert(poly.contains(poly[0]) && other.contains(other[0]));
    support::law_support_is_offered(shape, e, poly[0]);
    lemma_image_reach(poly[at(0)], d, scale);
    support::law_support_is_offered(scaled, d, other[0]);
    let (s, t) = (shape.plane_support(e), scaled.plane_support(d));
    let k = choose|k: int| 0 <= k < n && poly[k] == s;
    let m = choose|m: int| 0 <= m < n && other[m] == t;
    assert(loops::is_point(poly[k]) && loops::is_point(poly[at(m)]));
    assert(other[at(k)] == image(s, scale));
    assert(other.contains(other[at(k)]) && poly.contains(poly[at(m)]));
    support::law_support_is_furthest(scaled, d, other[at(k)]);
    support::law_support_is_furthest(shape, e, poly[at(m)]);
    lemma_image_reach(s, d, scale);
    lemma_image_reach(poly[at(m)], d, scale);
}

proof fn lemma_image_reach(p: Vector2<Ideal>, d: Vector2<Ideal>, scale: Vector<Ideal>)
    requires
        loops::is_point(p),
        loops::is_point(d),
        scale.x.side == 0 && scale.z.side == 0,
    ensures
        image(p, scale).inner(d) == p.inner(image(d, scale)),
        p.inner(image(d, scale)).side == 0,
{
    ideal::lemma_assoc(p.x.v, scale.x.v, d.x.v);
    ideal::lemma_assoc(p.y.v, scale.z.v, d.y.v);
}

/// A shape with arcs, scaled by a positive factor alike along both axes, reaches that many times as
/// far in every direction.
pub proof fn law_scaled_round_support(
    shape: ExtrudedProfile<Ideal>,
    scaled: ExtrudedProfile<Ideal>,
    scale: Vector<Ideal>,
    d: Vector2<Ideal>,
    p: Vector2<Ideal>,
)
    requires
        loops::has_points(shape.profile@),
        moving::has_arcs(shape.arcs@),
        scaled.is_scaled(shape, scale),
        scale.x == scale.z && scale.x.side == 0 && scale.x.v > 0real,
        loops::is_point(d),
        d.unit() matches Some(unit) ==> loops::is_point(unit),
        support::is_offered(shape, d, p),
    ensures
        scaled.plane_support(d).inner(d) == ideal::number(
            scale.x.v * shape.plane_support(d).inner(d).v,
        ),
{
    let k = scale.x;
    assert(k.v * k.v > 0real) by (nonlinear_arith)
        requires
            k.v > 0real,
    ;
    assert(!ExtrudedProfile::<Ideal>::mirrors(scale));
    lemma_offered_is_point(shape, d, p);
    support::law_support_is_offered(shape, d, p);
    let s = shape.plane_support(d);
    lemma_offered_is_point(shape, d, s);
    lemma_offered_image(shape, scaled, scale, d, s);
    support::law_support_is_furthest(scaled, d, s.times(k));
    support::law_support_is_offered(scaled, d, s.times(k));
    let t = scaled.plane_support(d);
    let q = lemma_offered_source(shape, scaled, scale, d, t);
    lemma_offered_is_point(shape, d, q);
    support::law_support_is_furthest(shape, d, q);
    lemma_scaled_reach(s, d, k);
    lemma_scaled_reach(q, d, k);
    let (a, b) = (s.inner(d).v, q.inner(d).v);
    assert(k.v * b <= k.v * a) by (nonlinear_arith)
        requires
            k.v > 0real,
            b <= a,
    ;
}

proof fn lemma_scaled_reach(p: Vector2<Ideal>, d: Vector2<Ideal>, k: Ideal)
    requires
        loops::is_point(p),
        loops::is_point(d),
        k.side == 0,
    ensures
        p.times(k).inner(d) == ideal::number(k.v * p.inner(d).v),
        p.inner(d).side == 0,
{
    ideal::lemma_assoc(k.v, p.x.v, d.x.v);
    ideal::lemma_assoc(k.v, p.y.v, d.y.v);
    ideal::lemma_dist(k.v, p.x.v * d.x.v, p.y.v * d.y.v);
}

pub proof fn lemma_offered_is_point(shape: ExtrudedProfile<Ideal>, d: Vector2<Ideal>, p: Vector2<Ideal>)
    requires
        loops::has_points(shape.profile@),
        moving::has_arcs(shape.arcs@),
        loops::is_point(d),
        d.unit() matches Some(unit) ==> loops::is_point(unit),
        support::is_offered(shape, d, p),
    ensures
        loops::is_point(p),
        p.inner(d).side == 0,
{
    if shape.profile@.contains(p) {
        let i = choose|i: int| 0 <= i < shape.profile@.len() && shape.profile@[i] == p;
        assert(loops::is_point(shape.profile@[i]));
    } else {
        let j = choose|j: int|
            0 <= j < shape.arcs@.len() && support::arc_offers(#[trigger] shape.arcs@[j], d, p);
        assert(moving::is_arc(shape.arcs@[j]));
    }
}

/// The point of a scaled arc towards a direction is the image of the arc's own.
proof fn lemma_scaled_toward(arc: ProfileArc<Ideal>, unit: Vector2<Ideal>, k: Ideal)
    requires
        moving::is_arc(arc),
        loops::is_point(unit),
        k.side == 0,
        k.v > 0real,
    ensures
        arc.scaled(k).toward(unit) == arc.toward(unit).times(k),
        forall|angle: Ideal| arc.scaled(k).faces(angle) == arc.faces(angle),
{
    let r = arc.radius.v;
    ideal::lemma_dist(k.v, arc.center.x.v, unit.x.v * r);
    ideal::lemma_dist(k.v, arc.center.y.v, unit.y.v * r);
    ideal::lemma_assoc(unit.x.v, r, k.v);
    ideal::lemma_assoc(unit.y.v, r, k.v);
    assert(k.magnitude() == k);
}

proof fn lemma_offered_image(
    shape: ExtrudedProfile<Ideal>,
    scaled: ExtrudedProfile<Ideal>,
    scale: Vector<Ideal>,
    d: Vector2<Ideal>,
    p: Vector2<Ideal>,
)
    requires
        loops::has_points(shape.profile@),
        moving::has_arcs(shape.arcs@),
        scaled.is_scaled(shape, scale),
        !ExtrudedProfile::<Ideal>::mirrors(scale),
        scale.x == scale.z && scale.x.side == 0 && scale.x.v > 0real,
        d.unit() matches Some(unit) ==> loops::is_point(unit),
        support::is_offered(shape, d, p),
    ensures
        support::is_offered(scaled, d, p.times(scale.x)),
{
    if shape.profile@.contains(p) {
        let i = choose|i: int| 0 <= i < shape.profile@.len() && shape.profile@[i] == p;
        assert(scaled.profile@[i] == p.times(scale.x));
    } else {
        let j = choose|j: int|
            0 <= j < shape.arcs@.len() && support::arc_offers(#[trigger] shape.arcs@[j], d, p);
        assert(moving::is_arc(shape.arcs@[j]));
        lemma_scaled_toward(shape.arcs@[j], d.unit().unwrap(), scale.x);
        assert(scaled.arcs@[j] == shape.arcs@[j].scaled(scale.x));
        assert(support::arc_offers(scaled.arcs@[j], d, p.times(scale.x)));
    }
}

proof fn lemma_offered_source(
    shape: ExtrudedProfile<Ideal>,
    scaled: ExtrudedProfile<Ideal>,
    scale: Vector<Ideal>,
    d: Vector2<Ideal>,
    t: Vector2<Ideal>,
) -> (q: Vector2<Ideal>)
    requires
        loops::has_points(shape.profile@),
        moving::has_arcs(shape.arcs@),
        scaled.is_scaled(shape, scale),
        !ExtrudedProfile::<Ideal>::mirrors(scale),
        scale.x == scale.z && scale.x.side == 0 && scale.x.v > 0real,
        d.unit() matches Some(unit) ==> loops::is_point(unit),
        support::is_offered(scaled, d, t),
    ensures
        support::is_offered(shape, d, q),
        t == q.times(scale.x),
{
    if scaled.profile@.contains(t) {
        let i = choose|i: int| 0 <= i < scaled.profile@.len() && scaled.profile@[i] == t;
        assert(shape.profile@.contains(shape.profile@[i]));
        shape.profile@[i]
    } else {
        let j = choose|j: int|
            0 <= j < scaled.arcs@.len() && support::arc_offers(#[trigger] scaled.arcs@[j], d, t);
        let unit = d.unit().unwrap();
        let arc = shape.arcs@[j];
        assert(moving::is_arc(arc));
        assert(scaled.arcs@[j] == arc.scaled(scale.x));
        lemma_scaled_toward(arc, unit, scale.x);
        assert(support::arc_offers(shape.arcs@[j], d, arc.toward(unit)));
        arc.toward(unit)
    }
}

/// The image of a direction of space under a scale.
pub open spec fn image_in_space(dir: Vector<Ideal>, scale: Vector<Ideal>) -> Vector<Ideal> {
    Vector { x: dir.x.times(scale.x), y: dir.y.times(scale.y), z: dir.z.times(scale.z) }
}

/// Along the sweep, a solid reaches as far as its half depth times the size of the direction.
proof fn lemma_cap_reach(h: real, y: real)
    ensures
        ({
            let top = if 0real <= y {
                h
            } else {
                -h
            };
            top * y == h * (if 0real <= y {
                y
            } else {
                -y
            })
        }),
{
    ideal::lemma_dist(h, y, 0real);
    ideal::lemma_dist(-h, y, 0real);
    assert((-h) * y == -(h * y)) by (nonlinear_arith);
}

proof fn lemma_scaled_cap(h: real, k: real, y: real)
    ensures
        ({
            let size = |x: real|
                if 0real <= x {
                    x
                } else {
                    -x
                };
            (h * size(k)) * size(y) == h * size(y * k)
        }),
{
    let size = |x: real|
        if 0real <= x {
            x
        } else {
            -x
        };
    assert(size(k) * size(y) == size(y * k)) by (nonlinear_arith)
        requires
            size(k) == if 0real <= k {
                k
            } else {
                -k
            },
            size(y) == if 0real <= y {
                y
            } else {
                -y
            },
            size(y * k) == if 0real <= y * k {
                y * k
            } else {
                -(y * k)
            },
    ;
    ideal::lemma_assoc(h, size(k), size(y));
}

/// A scaled straight-edged solid reaches in a direction of space as far as the solid itself does in
/// the direction scaled alike, whatever the factors and their signs: its support points are those
/// of the image of the solid.
pub proof fn law_scaled_solid_support(
    shape: ExtrudedProfile<Ideal>,
    scaled: ExtrudedProfile<Ideal>,
    scale: Vector<Ideal>,
    dir: Vector<Ideal>,
)
    requires
        shape.arcs@.len() == 0,
        shape.profile@.len() > 0,
        loops::has_points(shape.profile@),
        scaled.is_scaled(shape, scale),
        scale.x.side == 0 && scale.y.side == 0 && scale.z.side == 0,
        dir.x.side == 0 && dir.y.side == 0 && dir.z.side == 0,
        shape.half_depth.side == 0,
    ensures
        convex::extent(scaled.support(dir), dir) == convex::extent(
            shape.support(image_in_space(dir, scale)),
            image_in_space(dir, scale),
        ),
{
    let d = dir.in_plane();
    let e = image_in_space(dir, scale);
    law_scaled_support(shape, scaled, scale, d);
    assert(e.in_plane() == image(d, scale));
    lemma_solid_reach(shape, e);
    lemma_solid_reach(scaled, dir);
    lemma_scaled_cap(shape.half_depth.v, scale.y.v, dir.y.v);
}

/// How far a solid reaches: in its plane, and along its sweep.
proof fn lemma_solid_reach(shape: ExtrudedProfile<Ideal>, dir: Vector<Ideal>)
    requires
        dir.y.side == 0,
        shape.half_depth.side == 0,
    ensures
        convex::extent(shape.support(dir), dir) == shape.plane_support(dir.in_plane()).inner(
            dir.in_plane(),
        ).v + shape.half_depth.v * dir.y.magnitude().v,
{
    lemma_cap_reach(shape.half_depth.v, dir.y.v);
}

/// A direction and a positive multiple of it have the same unit.
proof fn lemma_same_unit(d: Vector2<Ideal>, k: real)
    requires
        loops::is_point(d),
        k > 0real,
        ideal::is_root(d.norm().v, d.inner(d).v),
    ensures
        d.times(ideal::number(k)).unit() == d.unit(),
{
    let e = d.times(ideal::number(k));
    let (l, x, y) = (d.norm().v, d.x.v, d.y.v);
    let kk = k * k;
    ideal::lemma_pairs(x, k, x, k);
    ideal::lemma_pairs(y, k, y, k);
    ideal::lemma_dist(kk, x * x, y * y);
    ideal::lemma_pairs(k, l, k, l);
    let m = k * l;
    assert(m >= 0real) by (nonlinear_arith)
        requires
            m == k * l,
            k > 0real,
            l >= 0real,
    ;
    assert(ideal::is_root(m, e.inner(e).v));
    let n = e.norm().v;
    assert(ideal::is_root(n, e.inner(e).v));
    assert(n == m) by (nonlinear_arith)
        requires
            n * n == m * m,
            n >= 0real,
            m >= 0real,
    ;
    assert(Ideal::of_count(1).v == 1real && Ideal::of_count(0).v == 0real);
    if l == 0real {
        assert(m == 0real) by (nonlinear_arith)
            requires
                m == k * l,
                l == 0real,
        ;
    } else {
        assert(m > 0real && 1real / l > 0real && 1real / m > 0real) by (nonlinear_arith)
            requires
                m == k * l,
                k > 0real,
                l > 0real,
        ;
        lemma_cancelled(x, k, l);
        lemma_cancelled(y, k, l);
    }
}

proof fn lemma_cancelled(x: real, k: real, l: real)
    requires
        k > 0real,
        l > 0real,
    ensures
        (x * k) * (1real / (k * l)) == x * (1real / l),
{
    let (m, a) = (k * l, 1real / l);
    assert(m > 0real && l * a == 1real) by (nonlinear_arith)
        requires
            m == k * l,
            a == 1real / l,
            k > 0real,
            l > 0real,
    ;
    let b = 1real / m;
    assert(m * b == 1real) by (nonlinear_arith)
        requires
            b == 1real / m,
            m > 0real,
    ;
    assert(k * b == a) by (nonlinear_arith)
        requires
            m == k * l,
            m * b == 1real,
            l * a == 1real,
            l > 0real,
    ;
    ideal::lemma_assoc(x, k, b);
}

/// In a positive multiple of a direction a shape reaches that many times as far.
pub proof fn law_support_of_multiple(
    shape: ExtrudedProfile<Ideal>,
    d: Vector2<Ideal>,
    p: Vector2<Ideal>,
    k: real,
)
    requires
        loops::has_points(shape.profile@),
        moving::has_arcs(shape.arcs@),
        loops::is_point(d),
        ideal::is_root(d.norm().v, d.inner(d).v),
        d.unit() matches Some(unit) ==> loops::is_point(unit),
        support::is_offered(shape, d, p),
        k > 0real,
    ensures
        shape.plane_support(d.times(ideal::number(k))).inner(d.times(ideal::number(k)))
            == ideal::number(k * shape.plane_support(d).inner(d).v),
{
    let e = d.times(ideal::number(k));
    lemma_same_unit(d, k);
    lemma_offered_is_point(shape, d, p);
    support::law_support_is_offered(shape, d, p);
    let s = shape.plane_support(d);
    lemma_offered_is_point(shape, d, s);
    lemma_offered_alike(shape, d, e, s);
    lemma_offered_is_point(shape, e, s);
    support::law_support_is_furthest(shape, e, s);
    support::law_support_is_offered(shape, e, s);
    let t = shape.plane_support(e);
    lemma_offered_alike(shape, e, d, t);
    lemma_offered_is_point(shape, d, t);
    lemma_offered_is_point(shape, e, t);
    support::law_support_is_furthest(shape, d, t);
    lemma_multiple(s, d, k);
    lemma_multiple(t, d, k);
    let (a, b) = (s.inner(d).v, t.inner(d).v);
    assert(k * b <= k * a) by (nonlinear_arith)
        requires
            k > 0real,
            b <= a,
    ;
}

proof fn lemma_multiple(p: Vector2<Ideal>, d: Vector2<Ideal>, k: real)
    requires
        loops::is_point(p),
        loops::is_point(d),
    ensures
        p.inner(d.times(ideal::number(k))) == ideal::number(k * p.inner(d).v),
        p.inner(d).side == 0,
{
    ideal::lemma_assoc(k, p.x.v, d.x.v);
    ideal::lemma_assoc(k, p.y.v, d.y.v);
    ideal::lemma_assoc(p.x.v, d.x.v, k);
    ideal::lemma_assoc(p.y.v, d.y.v, k);
    ideal::lemma_dist(k, p.x.v * d.x.v, p.y.v * d.y.v);
}

proof fn lemma_offered_alike(
    shape: ExtrudedProfile<Ideal>,
    d: Vector2<Ideal>,
    e: Vector2<Ideal>,
    p: Vector2<Ideal>,
)
    requires
        d.unit() == e.unit(),
        support::is_offered(shape, d, p),
    ensures
        support::is_offered(shape, e, p),
{
    if !shape.profile@.contains(p) {
        let j = choose|j: int|
            0 <= j < shape.arcs@.len() && support::arc_offers(#[trigger] shape.arcs@[j], d, p);
        assert(support::arc_offers(shape.arcs@[j], e, p));
    }
}

/// A solid with arcs, scaled by a positive factor alike along both axes of its plane and by any
/// along its sweep, reaches in a direction of space as far as the solid itself does in the
/// direction scaled alike.
pub proof fn law_scaled_round_solid_support(
    shape: ExtrudedProfile<Ideal>,
    scaled: ExtrudedProfile<Ideal>,
    scale: Vector<Ideal>,
    dir: Vector<Ideal>,
    p: Vector2<Ideal>,
)
    requires
        loops::has_points(shape.profile@),
        moving::has_arcs(shape.arcs@),
        scaled.is_scaled(shape, scale),
        scale.x == scale.z && scale.x.side == 0 && scale.x.v > 0real && scale.y.side == 0,
        dir.x.side == 0 && dir.y.side == 0 && dir.z.side == 0,
        shape.half_depth.side == 0,
        ideal::is_root(dir.in_plane().norm().v, dir.in_plane().inner(dir.in_plane()).v),
        dir.in_plane().unit() matches Some(unit) ==> loops::is_point(unit),
        support::is_offered(shape, dir.in_plane(), p),
    ensures
        convex::extent(scaled.support(dir), dir) == convex::extent(
            shape.support(image_in_space(dir, scale)),
            image_in_space(dir, scale),
        ),
{
    let d = dir.in_plane();
    let k = scale.x.v;
    let e = image_in_space(dir, scale);
    law_scaled_round_support(shape, scaled, scale, d, p);
    law_support_of_multiple(shape, d, p, k);
    assert(scale.x == ideal::number(k));
    assert(e.in_plane() == d.times(ideal::number(k)));
    lemma_solid_reach(shape, e);
    lemma_solid_reach(scaled, dir);
    lemma_scaled_cap(shape.half_depth.v, scale.y.v, dir.y.v);
}

/// Half a turn, where it is exactly the circle's own, takes every direction to the opposite one.
pub open spec fn is_half_turn(t: real) -> bool {
    ideal::circle().0(t) == 0real && ideal::circle().1(t) == -1real
}

proof fn lemma_opposite(a: real, t: real)
    requires
        is_half_turn(t),
    ensures
        ideal::circle().0(a + t) == -ideal::circle().0(a),
        ideal::circle().1(a + t) == -ideal::circle().1(a),
        ideal::circle().0(a - t) == -ideal::circle().0(a),
        ideal::circle().1(a - t) == -ideal::circle().1(a),
{
    let (s, c) = (ideal::circle().0(a), ideal::circle().1(a));
    ideal::lemma_circle(a, t);
    ideal::lemma_circle(a, -t);
    ideal::lemma_circle(t, t);
    assert(a + (-t) == a - t);
    assert(-0real == 0real);
    assert(s * (-1real) == -s && c * (-1real) == -c && s * 0real == 0real && c * 0real == 0real)
        by (nonlinear_arith);
}

/// Scaling an arc by any factor, whatever its sign, takes every point of it to its image: the
/// scaled arc runs through the images of the arc's points, and sweeps as much.
pub proof fn law_scaled_arc_is_image(arc: ProfileArc<Ideal>, k: Ideal, a: Ideal) -> (b: Ideal)
    requires
        moving::is_arc(arc),
        k.side == 0,
        a.side == 0,
        is_half_turn(angle::half_turn::<Ideal>().v),
        arc.start.v <= a.v <= arc.end.v,
    ensures
        arc.scaled(k).start.v <= b.v <= arc.scaled(k).end.v,
        arc.scaled(k).swept() == arc.swept(),
        arc.scaled(k).point_at(b) == (Vector2 {
            x: ideal::number(arc.point_at(a).x.v * k.v),
            y: ideal::number(arc.point_at(a).y.v * k.v),
        }),
        arc.radius.v >= 0real ==> arc.scaled(k).radius.v >= 0real,
{
    let (h, t) = (angle::half_turn::<Ideal>().v, angle::full_turn::<Ideal>().v);
    assert(Ideal::of_count(angle::TURN_NUMERATOR as nat).v == 13_176_795real);
    assert(Ideal::of_count(angle::TURN_DENOMINATOR as nat).v == 2_097_152real);
    assert(Ideal::of_count(angle::HALF_TURN_DENOMINATOR as nat).v == 4_194_304real);
    assert(t == h + h);
    let negative = k.v < 0real;
    let turned = negative && arc.swept().v < t;
    let b = if !negative {
        a
    } else if turned || a.v - h >= arc.start.v {
        ideal::number(a.v - h)
    } else {
        ideal::number(a.v + h)
    };
    lemma_opposite(a.v, h);
    let (s, c) = (ideal::circle().0(a.v), ideal::circle().1(a.v));
    let r = arc.radius.v;
    let m = k.magnitude().v;
    lemma_image_of(arc.center.x.v, c, r, k.v, m);
    lemma_image_of(arc.center.y.v, s, r, k.v, m);
    if arc.radius.v >= 0real {
        assert(r * m >= 0real) by (nonlinear_arith)
            requires
                r >= 0real,
                m >= 0real,
        ;
    }
    b
}

proof fn lemma_image_of(x: real, c: real, r: real, k: real, m: real)
    requires
        m == if k < 0real {
            -k
        } else {
            k
        },
    ensures
        k < 0real ==> x * k + (-c) * (r * m) == (x + c * r) * k,
        k >= 0real ==> x * k + c * (r * m) == (x + c * r) * k,
{
    ideal::lemma_dist(k, x, c * r);
    ideal::lemma_assoc(c, r, k);
    if k < 0real {
        ideal::lemma_dist(r, k, 0real);
        ideal::lemma_dist(c, r * k, 0real);
        assert(r * m == -(r * k));
        let y = r * k;
        assert((-c) * (-y) == c * y) by (nonlinear_arith);
    }
}

} // verus!
