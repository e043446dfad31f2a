//! Solids that profiles are exact models of, but for rounding: cuboids and cylinders.
use vstd::prelude::*;

use crate::angle;
use crate::arc;
use crate::arc::ProfileArc;
use crate::ideal;
use crate::ideal::Ideal;
use crate::loops;
use crate::polygon;
use crate::profile;
use crate::profile::ExtrudedProfile;
use crate::scalar::Scalar;
use crate::series;
use crate::support;
use crate::vector::{Vector, Vector2};

verus! {

/// The corners of a rectangle about the origin, counter-clockwise.
pub open spec fn rectangle(a: real, b: real) -> Seq<Vector2<Ideal>> {
    seq![
        Vector2 { x: ideal::number(-a), y: ideal::number(-b) },
        Vector2 { x: ideal::number(a), y: ideal::number(-b) },
        Vector2 { x: ideal::number(a), y: ideal::number(b) },
        Vector2 { x: ideal::number(-a), y: ideal::number(b) },
    ]
}

proof fn lemma_signs(a: real, b: real)
    ensures
        (-a) * b == -(a * b),
        a * (-b) == -(a * b),
        (-a) * (-b) == a * b,
{
    assert((-a) * b == -(a * b)) by (nonlinear_arith);
    assert(a * (-b) == -(a * b)) by (nonlinear_arith);
    assert((-a) * (-b) == a * b) by (nonlinear_arith);
}

proof fn lemma_four_edges(
    poly: Seq<Vector2<Ideal>>,
    term: spec_fn(Vector2<Ideal>, Vector2<Ideal>) -> Ideal,
)
    requires
        loops::has_points(poly),
        loops::is_directed(term),
        poly.len() == 4,
    ensures
        polygon::loop_sum(poly, term) == ideal::number(
            term(poly[0], poly[1]).v + term(poly[1], poly[2]).v + term(poly[2], poly[3]).v + term(
                poly[3],
                poly[0],
            ).v,
        ),
{
    loops::lemma_loop_sum(poly, term);
    reveal_with_fuel(series::sum, 5);
    polygon::lemma_next(0, 4);
    polygon::lemma_next(1, 4);
    polygon::lemma_next(2, 4);
    polygon::lemma_next(3, 4);
}

/// What a rectangle of half extents `a` and `b` sums up to.
proof fn lemma_rectangle_sums(a: real, b: real)
    ensures
        loops::has_points(rectangle(a, b)),
        polygon::loop_sum(rectangle(a, b), polygon::area_term()) == ideal::number(8real * (a * b)),
        polygon::loop_sum(rectangle(a, b), polygon::x_term()) == ideal::number(0real),
        polygon::loop_sum(rectangle(a, b), polygon::y_term()) == ideal::number(0real),
        polygon::loop_sum(rectangle(a, b), polygon::xx_term()) == ideal::number(
            16real * ((a * a) * (a * b)),
        ),
        polygon::loop_sum(rectangle(a, b), polygon::yy_term()) == ideal::number(
            16real * ((b * b) * (a * b)),
        ),
        polygon::loop_sum(rectangle(a, b), polygon::xy_term()) == ideal::number(0real),
{
    let poly = rectangle(a, b);
    let (p, q, r, s) = (poly[0], poly[1], poly[2], poly[3]);
    assert(loops::has_points(poly)) by {
        assert forall|i: int| 0 <= i < 4 implies loops::is_point(#[trigger] poly[i]) by {
            assert(i == 0 || i == 1 || i == 2 || i == 3);
        }
    }
    loops::lemma_terms();
    lemma_four_edges(poly, polygon::area_term());
    lemma_four_edges(poly, polygon::x_term());
    lemma_four_edges(poly, polygon::y_term());
    lemma_four_edges(poly, polygon::xx_term());
    lemma_four_edges(poly, polygon::yy_term());
    lemma_four_edges(poly, polygon::xy_term());
    lemma_signs(a, b);
    lemma_signs(b, a);
    lemma_signs(a, a);
    lemma_signs(b, b);
    let c = a * b;
    assert(b * a == c);
    let o = 2real * c;
    assert(p.outer(q).v == o && q.outer(r).v == o && r.outer(s).v == o && s.outer(p).v == o);
    lemma_signs(a + a, o);
    lemma_signs(b + b, o);
    assert(0real * o == 0real) by (nonlinear_arith);
    let (x, y) = (a * a, b * b);
    ideal::lemma_assoc(3real, x, o);
    ideal::lemma_assoc(3real, y, o);
    ideal::lemma_assoc(2real, x, c);
    ideal::lemma_assoc(2real, y, c);
    assert(polygon::x_term()(p, q).v == 0real * o);
    assert(polygon::x_term()(q, r).v == (a + a) * o);
    assert(polygon::x_term()(r, s).v == 0real * o);
    assert(polygon::x_term()(s, p).v == (-(a + a)) * o);
    assert(polygon::y_term()(p, q).v == (-(b + b)) * o);
    assert(polygon::y_term()(q, r).v == 0real * o);
    assert(polygon::y_term()(r, s).v == (b + b) * o);
    assert(polygon::y_term()(s, p).v == 0real * o);
    assert(polygon::xx_term()(p, q).v == x * o);
    assert(polygon::xx_term()(q, r).v == (3real * x) * o);
    assert(polygon::xx_term()(r, s).v == x * o);
    assert(polygon::xx_term()(s, p).v == (3real * x) * o);
    assert(polygon::yy_term()(p, q).v == (3real * y) * o);
    assert(polygon::yy_term()(q, r).v == y * o);
    assert(polygon::yy_term()(r, s).v == (3real * y) * o);
    assert(polygon::yy_term()(s, p).v == y * o);
    ideal::lemma_assoc(2real, a, b);
    ideal::lemma_assoc(2real, -a, b);
    ideal::lemma_assoc(2real, a, -b);
    ideal::lemma_assoc(2real, -a, -b);
    assert(polygon::xy_term()(p, q).v == 0real * o);
    assert(polygon::xy_term()(q, r).v == 0real * o);
    assert(polygon::xy_term()(r, s).v == 0real * o);
    assert(polygon::xy_term()(s, p).v == 0real * o);
}

/// The section of a rectangle: its area, its centre, and its second moments, four thirds of the
/// product of the half extents times the square of the one along the axis.
pub proof fn law_rectangle_section(shape: ExtrudedProfile<Ideal>, a: real, b: real)
    requires
        shape.profile@ == rectangle(a, b),
        shape.arcs@.len() == 0,
        !shape.is_degenerate(),
    ensures
        shape.section_spec() == (
            ideal::number(4real * (a * b)),
            Vector2::<Ideal>::origin(),
            ideal::number((4real / 3real) * ((a * a) * (a * b))),
            ideal::number((4real / 3real) * ((b * b) * (a * b))),
            ideal::number(0real),
        ),
{
    lemma_rectangle_sums(a, b);
    let poly = rectangle(a, b);
    let c = a * b;
    let h = polygon::half_value::<Ideal>().v;
    assert(h == 1real / 2real);
    let area = polygon::signed_area(poly);
    assert(area == ideal::number(4real * c));
    assert(area.v != 0real);
    let d = 3real * (8real * c);
    assert(0real / d == 0real) by (nonlinear_arith)
        requires
            d != 0real,
    ;
    assert(polygon::raw_centroid(poly) == Vector2::<Ideal>::origin());
    assert(polygon::centroid_of(poly) == Vector2::<Ideal>::origin());
    let x = area.v;
    assert(x / x == 1real) by (nonlinear_arith)
        requires
            x != 0real,
    ;
    assert(shape.area_lost() == ideal::number(1real));
    assert(x * 0real == 0real) by (nonlinear_arith);
    assert(0real * 0real == 0real) by (nonlinear_arith);
    lemma_one((4real / 3real) * ((a * a) * c));
    lemma_one((4real / 3real) * ((b * b) * c));
    lemma_one(0real);
    let zero = Ideal::of_count(0);
    assert(zero == ideal::number(0real));
    assert(area.times(zero).times(zero) == ideal::number(0real));
    assert(Ideal::of_count(12).v == 12real && Ideal::of_count(24).v == 24real);
    let (m, n) = ((a * a) * c, (b * b) * c);
    assert((16real * m) / 12real == (4real / 3real) * m);
    assert((16real * n) / 12real == (4real / 3real) * n);
    assert(0real / 24real == 0real);
    assert(polygon::central_xx(poly) == ideal::number((4real / 3real) * ((a * a) * c)));
    assert(polygon::central_yy(poly) == ideal::number((4real / 3real) * ((b * b) * c)));
    assert(polygon::central_xy(poly) == ideal::number(0real));
}

proof fn lemma_one(x: real)
    by (nonlinear_arith)
    ensures
        x * 1real == x,
{
}

/// An inertia across the sweep, from the slab and the moment that make it up.
proof fn lemma_axis(r: real, c: real, d: real, w: real)
    ensures
        ({
            let depth = d * 2real;
            let slab = ((((4real * c) * depth) * depth) * depth) / 12real;
            let moment = (4real / 3real) * (w * c);
            3real * (r * (slab + depth * moment)) == 8real * ((r * (c * d)) * (d * d + w))
        }),
{
    let depth = d * 2real;
    let e = c * d;
    let k = r * e;
    let (dd, m) = (d * d, w * c);
    // The slab is eight thirds of e d d.
    ideal::lemma_assoc(4real, c, depth);
    ideal::lemma_assoc(2real, c, d);
    assert((4real * c) * depth == 8real * e);
    ideal::lemma_assoc(8real, e, depth);
    ideal::lemma_assoc(2real, e, d);
    assert((8real * e) * depth == 16real * (e * d));
    ideal::lemma_assoc(16real, e * d, depth);
    ideal::lemma_assoc(2real, e * d, d);
    ideal::lemma_assoc(e, d, d);
    assert((16real * (e * d)) * depth == 32real * (e * dd));
    let slab = (32real * (e * dd)) / 12real;
    assert(slab == (8real / 3real) * (e * dd));
    // The depth times the moment is eight thirds of e w.
    let moment = (4real / 3real) * m;
    ideal::lemma_assoc(4real / 3real, depth, m);
    ideal::lemma_assoc(2real, d, m);
    ideal::lemma_assoc(w, c, d);
    ideal::lemma_assoc(d, w, c);
    assert(d * m == e * w);
    assert(depth * moment == (8real / 3real) * (e * w));
    ideal::lemma_dist(e, dd, w);
    let sum = slab + depth * moment;
    assert(3real * sum == 8real * (e * (dd + w)));
    ideal::lemma_assoc(3real, r, sum);
    ideal::lemma_assoc(r, 3real, sum);
    ideal::lemma_assoc(8real, r, e * (dd + w));
    ideal::lemma_assoc(r, 8real, e * (dd + w));
    ideal::lemma_assoc(r, e, dd + w);
}

/// A rectangle extruded is a cuboid: of half extents `a` along X, `d` along the sweep and `b` along
/// Z and of the density `r`, it has the mass of one, its centre of mass at the origin, no product
/// of inertia, and about each axis a third of the mass times the squared half extents across it.
pub proof fn law_rectangle_is_cuboid(
    shape: ExtrudedProfile<Ideal>,
    a: real,
    b: real,
    d: real,
    r: real,
)
    requires
        a > 0real,
        b > 0real,
        d > 0real,
        r > 0real,
        shape.profile@ == rectangle(a, b),
        shape.arcs@.len() == 0,
        shape.half_depth == ideal::number(d),
        !shape.is_degenerate(),
    ensures
        ({
            let m = shape.mass_spec(ideal::number(r));
            let k = r * ((a * b) * d);
            &&& m.mass == ideal::number(8real * k)
            &&& m.local_com == Vector::<Ideal>::origin()
            &&& m.inertia.x_axis.z == ideal::number(0real)
            &&& m.inertia.z_axis.x == ideal::number(0real)
            &&& 3real * m.inertia.x_axis.x.v == 8real * (k * (d * d + b * b))
            &&& 3real * m.inertia.z_axis.z.v == 8real * (k * (d * d + a * a))
            &&& 3real * m.inertia.y_axis.y.v == 8real * (k * (a * a + b * b))
        }),
{
    law_rectangle_section(shape, a, b);
    let c = a * b;
    let e = c * d;
    let k = r * e;
    lemma_positive(a, b);
    lemma_positive(c, d);
    lemma_positive(r, e);
    assert(shape.section_spec().0.magnitude() == ideal::number(4real * c));
    assert(Ideal::of_count(2).v == 2real && Ideal::of_count(12).v == 12real);
    let depth = d * 2real;
    assert(shape.depth() == ideal::number(depth));
    // The mass.
    ideal::lemma_assoc(4real, r, c);
    ideal::lemma_assoc(4real, r * c, depth);
    ideal::lemma_assoc(2real, r * c, d);
    ideal::lemma_assoc(r, c, d);
    assert((r * (4real * c)) * depth == 8real * k);
    assert(shape.mass_of(ideal::number(r)) == ideal::number(8real * k));
    // The inertia.
    lemma_axis(r, c, d, b * b);
    lemma_axis(r, c, d, a * a);
    let (m, n) = ((a * a) * c, (b * b) * c);
    let sum = (4real / 3real) * m + (4real / 3real) * n;
    ideal::lemma_dist(c, a * a, b * b);
    let w = a * a + b * b;
    assert(sum == (4real / 3real) * (c * w));
    ideal::lemma_assoc(4real / 3real, r * depth, c * w);
    ideal::lemma_assoc(2real, r, d);
    ideal::lemma_assoc(2real, r * d, c * w);
    ideal::lemma_assoc(r * d, c, w);
    ideal::lemma_assoc(r, d, c);
    assert((r * d) * c == k);
    assert((r * depth) * sum == (8real / 3real) * (k * w));
    let z = (ideal::number(r)).negated().times(shape.depth());
    assert(z.v * 0real == 0real) by (nonlinear_arith);
}

proof fn lemma_positive(a: real, b: real)
    by (nonlinear_arith)
    requires
        a > 0real,
        b > 0real,
    ensures
        a * b > 0real,
{
}

/// In every direction of the plane, a rectangle reaches as far as its half extents along the two
/// axes add up to.
pub proof fn law_rectangle_support(
    shape: ExtrudedProfile<Ideal>,
    a: real,
    b: real,
    d: Vector2<Ideal>,
)
    requires
        a >= 0real,
        b >= 0real,
        shape.profile@ == rectangle(a, b),
        shape.arcs@.len() == 0,
        loops::is_point(d),
    ensures
        shape.plane_support(d).inner(d).v == a * d.x.magnitude().v + b * d.y.magnitude().v,
        shape.profile@.contains(shape.plane_support(d)),
{
    let poly = rectangle(a, b);
    let (x, y) = (d.x.v, d.y.v);
    lemma_signs(a, x);
    lemma_signs(b, y);
    lemma_rises(a, x);
    lemma_rises(b, y);
    assert(poly[0].inner(d).v == -(a * x) - b * y);
    assert(poly[1].inner(d).v == a * x - b * y);
    assert(poly[2].inner(d).v == a * x + b * y);
    assert(poly[3].inner(d).v == -(a * x) + b * y);
    let s = shape.plane_support(d);
    assert forall|i: int| 0 <= i < 4 implies !s.inner(d).below(#[trigger] poly[i].inner(d)) by {
        assert(poly.contains(poly[i]));
        support::law_support_is_furthest(shape, d, poly[i]);
    }
    assert(poly.contains(poly[2]));
    support::law_support_is_offered(shape, d, poly[2]);
    assert(poly.contains(s));
    let k = choose|k: int| 0 <= k < 4 && poly[k] == s;
    assert(k == 0 || k == 1 || k == 2 || k == 3);
    assert(!s.inner(d).below(poly[0].inner(d)) && !s.inner(d).below(poly[1].inner(d))
        && !s.inner(d).below(poly[2].inner(d)) && !s.inner(d).below(poly[3].inner(d)));
}

proof fn lemma_rises(a: real, x: real)
    by (nonlinear_arith)
    requires
        a >= 0real,
    ensures
        x >= 0real ==> a * x >= 0real,
        x <= 0real ==> a * x <= 0real,
{
}

/// The area of a round shape: half of the squared radius times what is left of a turn without its
/// sine, which for a turn of exactly the circle's is all of it. The mass follows.
pub proof fn law_round_shape_is_cylinder(
    shape: ExtrudedProfile<Ideal>,
    center: Vector2<Ideal>,
    radius: real,
    density: Ideal,
)
    requires
        shape.profile@.len() == 0,
        shape.arcs@ == seq![ProfileArc::full(center, ideal::number(radius))],
        !shape.is_degenerate(),
    ensures
        ({
            let turn = angle::full_turn::<Ideal>().v;
            let left = turn - ideal::circle().0(turn);
            &&& shape.section_spec().0 == ideal::number(((radius * radius) * left) / 2real)
            &&& shape.mass_of(density) == density.times(shape.section_spec().0.magnitude()).times(
                shape.depth(),
            )
        }),
{
    let arc = ProfileArc::full(center, ideal::number(radius));
    arc::law_circle_is_valid(center, ideal::number(radius));
    profile::law_lone_arc_region(shape, arc);
    angle::lemma_full_turn::<Ideal>();
    let turn = angle::full_turn::<Ideal>().v;
    let left = turn - ideal::circle().0(turn);
    let h = polygon::half_value::<Ideal>().v;
    assert(h == 1real / 2real);
    ideal::lemma_assoc(h, radius, radius);
    ideal::lemma_assoc(h, radius * radius, left);
    assert(profile::segment_area(arc) == ideal::number(h * ((radius * radius) * left)));
}

/// The centroid of a round shape is the centre of its circle, wherever that lies, where half a turn
/// is exactly the circle's own.
pub proof fn law_round_centroid_is_centre(
    shape: ExtrudedProfile<Ideal>,
    center: Vector2<Ideal>,
    radius: real,
)
    requires
        loops::is_point(center),
        shape.profile@.len() == 0,
        shape.arcs@ == seq![ProfileArc::full(center, ideal::number(radius))],
        ideal::circle().0(angle::half_turn::<Ideal>().v) == 0real,
        !shape.is_degenerate(),
    ensures
        shape.raw_centroid() == center,
        shape.exact_centroid() == polygon::snapped(center, shape.exact_area()),
        shape.section_spec().1 == polygon::snapped(center, shape.exact_area()),
{
    let arc = ProfileArc::full(center, ideal::number(radius));
    profile::law_lone_arc_region(shape, arc);
    angle::lemma_full_turn::<Ideal>();
    let (turn, half) = (angle::full_turn::<Ideal>().v, angle::half_turn::<Ideal>().v);
    assert(Ideal::of_count(angle::TURN_NUMERATOR as nat).v == 13_176_795real);
    assert(Ideal::of_count(angle::TURN_DENOMINATOR as nat).v == 2_097_152real);
    assert(Ideal::of_count(angle::HALF_TURN_DENOMINATOR as nat).v == 4_194_304real);
    let h = polygon::half_value::<Ideal>();
    assert(h == ideal::number(1real / 2real));
    assert(arc.swept() == ideal::number(turn));
    assert(arc.swept().times(h) == ideal::number(half));
    lemma_nothing(0real);
    lemma_nothing(4real * radius);
    let excess = turn - ideal::circle().0(turn);
    let d = 3real * excess;
    assert(d != 0real ==> 0real / d == 0real) by (nonlinear_arith);
    assert(Ideal::of_count(3).v == 3real && Ideal::of_count(4).v == 4real);
    let distance = profile::segment_distance(arc);
    assert(distance == ideal::number(0real));
    let bisector = arc.start.plus(arc.swept().times(h));
    lemma_nothing(bisector.cosine().v);
    lemma_nothing(bisector.sine().v);
    assert(profile::segment_centroid(arc) == center);
    let a = profile::segment_area(arc);
    assert(!a.magnitude().below(Ideal::epsilon_value()));
    assert(a.v != 0real);
    lemma_back(center.x.v, a.v);
    lemma_back(center.y.v, a.v);
    assert(shape.region().area == a);
    assert(shape.region().moment == center.times(a));
}

proof fn lemma_nothing(x: real)
    ensures
        x * 0real == 0real,
        0real * x == 0real,
{
    assert(x * 0real == 0real) by (nonlinear_arith);
    assert(0real * x == 0real) by (nonlinear_arith);
}

proof fn lemma_back(x: real, a: real)
    requires
        a != 0real,
    ensures
        (x * a) / a == x,
{
    assert((x * a) / a == x) by (nonlinear_arith)
        requires
            a != 0real,
    ;
}

/// The corners of a regular profile all lie at the radius.
pub proof fn law_corners_lie_at_radius(radius: real, i: nat, n: nat)
    ensures
        ({
            let p = ExtrudedProfile::corner(ideal::number(radius), i, n);
            p.x.v * p.x.v + p.y.v * p.y.v == radius * radius
        }),
{
    let a = Ideal::of_count(i).over(Ideal::of_count(n)).times(Ideal::of_count(2)).times(
        angle::half_turn::<Ideal>(),
    ).v;
    ideal::lemma_circle(a, a);
    let (s, c) = (ideal::circle().0(a), ideal::circle().1(a));
    ideal::lemma_pairs(radius, c, radius, c);
    ideal::lemma_pairs(radius, s, radius, s);
    ideal::lemma_dist(radius * radius, s * s, c * c);
    lemma_one(radius * radius);
}

/// A direction too short to be one, asked of a shape without vertices, is answered by a point of the
/// circle of its first arc.
pub proof fn law_degenerate_support_is_on_circle(
    shape: ExtrudedProfile<Ideal>,
    d: Vector2<Ideal>,
)
    requires
        shape.profile@.len() == 0,
        shape.arcs@.len() > 0,
        loops::is_point(shape.arcs@[0].center),
        shape.arcs@[0].radius.side == 0,
        d.unit() is None,
    ensures
        ({
            let (p, arc) = (shape.plane_support(d), shape.arcs@[0]);
            let (x, y) = (p.x.v - arc.center.x.v, p.y.v - arc.center.y.v);
            &&& loops::is_point(p)
            &&& x * x + y * y == arc.radius.v * arc.radius.v
        }),
{
    let arc = shape.arcs@[0];
    law_arc_points_lie_on_circle(arc, arc.start);
}

/// Every point of an arc lies at the radius from the centre.
pub proof fn law_arc_points_lie_on_circle(arc: ProfileArc<Ideal>, a: Ideal)
    requires
        loops::is_point(arc.center),
        arc.radius.side == 0,
    ensures
        ({
            let p = arc.point_at(a);
            let (x, y) = (p.x.v - arc.center.x.v, p.y.v - arc.center.y.v);
            &&& loops::is_point(p)
            &&& x * x + y * y == arc.radius.v * arc.radius.v
            &&& x == arc.radius.v * ideal::circle().1(a.v)
            &&& y == arc.radius.v * ideal::circle().0(a.v)
        }),
{
    let r = arc.radius.v;
    ideal::lemma_circle(a.v, a.v);
    let (s, c) = (ideal::circle().0(a.v), ideal::circle().1(a.v));
    ideal::lemma_pairs(r, c, r, c);
    ideal::lemma_pairs(r, s, r, s);
    ideal::lemma_dist(r * r, s * s, c * c);
    ideal::lemma_dist(r, s, c);
    lemma_one(r * r);
    let p = arc.point_at(a);
    assert(p.x.v - arc.center.x.v == r * c);
    assert(p.y.v - arc.center.y.v == r * s);
}

/// A coordinate of a centroid counts as an offset from one ten-millionth of the root of the area on,
/// and as none below it.
pub proof fn law_snap_goes_by_size(c: Vector2<Ideal>, area: Ideal, side: real)
    requires
        loops::is_point(c),
        area.side == 0,
        ideal::is_root(side, area.magnitude().v),
        side >= 1real / 4_503_599_627_370_496real,
    ensures
        ({
            let s = polygon::snapped(c, area);
            let eps = side / 10_000_000real;
            &&& s.x == if -eps < c.x.v < eps {
                ideal::number(0real)
            } else {
                c.x
            }
            &&& s.y == if -eps < c.y.v < eps {
                ideal::number(0real)
            } else {
                c.y
            }
        }),
{
    let x = area.magnitude().v;
    let r = ideal::root_of(x);
    assert(ideal::is_root(r, x));
    assert(r == side) by (nonlinear_arith)
        requires
            r * r == side * side,
            r >= 0real,
            side >= 0real,
    ;
    assert(Ideal::of_count(polygon::CENTRE_RESOLUTION as nat).v == 10_000_000real);
    assert(Ideal::of_count(1).v == 1real && Ideal::of_count(0) == ideal::number(0real));
    let k = 1real / 10_000_000real;
    assert(side * k == side / 10_000_000real) by (nonlinear_arith)
        requires
            k == 1real / 10_000_000real,
    ;
    assert(polygon::resolution(area) == ideal::number(side / 10_000_000real));
}

} // verus!
