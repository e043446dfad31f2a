//! What the section of a profile measures, but for rounding, and what follows for the solid.
use vstd::prelude::*;

use crate::ideal;
use crate::ideal::Ideal;
use crate::loops;
use crate::mass::MassProperties;
use crate::models;
use crate::moving;
use crate::polygon;
use crate::profile::ExtrudedProfile;
use crate::scalar::Scalar;
use crate::series;
use crate::vector::Vector2;

verus! {

/// Twice the area of the triangle that the edge of the loop from its `i`-th vertex on makes with the
/// point `c`.
pub open spec fn wedge(poly: Seq<Vector2<Ideal>>, c: Vector2<Ideal>, i: int) -> real {
    let (p, q) = (poly[i], poly[(i + 1) % poly.len() as int]);
    (p.x.v - c.x.v) * (q.y.v - c.y.v) - (q.x.v - c.x.v) * (p.y.v - c.y.v)
}

/// The offsets of an edge from the point `c`: those of its two ends, along x and along y.
pub open spec fn offsets(poly: Seq<Vector2<Ideal>>, c: Vector2<Ideal>, i: int) -> (
    real,
    real,
    real,
    real,
) {
    let (p, q) = (poly[i], poly[(i + 1) % poly.len() as int]);
    (p.x.v - c.x.v, p.y.v - c.y.v, q.x.v - c.x.v, q.y.v - c.y.v)
}

/// Twice the area of the triangles that the edges make with the point `c`.
pub open spec fn areas(poly: Seq<Vector2<Ideal>>, c: Vector2<Ideal>) -> spec_fn(int) -> real {
    |i: int| wedge(poly, c, i)
}

/// Six times their first moments about that point.
pub open spec fn x_moments(poly: Seq<Vector2<Ideal>>, c: Vector2<Ideal>) -> spec_fn(int) -> real {
    |i: int|
        {
            let (a, b, d, e) = offsets(poly, c, i);
            (a + d) * wedge(poly, c, i)
        }
}

pub open spec fn y_moments(poly: Seq<Vector2<Ideal>>, c: Vector2<Ideal>) -> spec_fn(int) -> real {
    |i: int|
        {
            let (a, b, d, e) = offsets(poly, c, i);
            (b + e) * wedge(poly, c, i)
        }
}

/// Twelve times their second moments about that point.
pub open spec fn xx_moments(poly: Seq<Vector2<Ideal>>, c: Vector2<Ideal>) -> spec_fn(int) -> real {
    |i: int|
        {
            let (a, b, d, e) = offsets(poly, c, i);
            (a * a + a * d + d * d) * wedge(poly, c, i)
        }
}

pub open spec fn yy_moments(poly: Seq<Vector2<Ideal>>, c: Vector2<Ideal>) -> spec_fn(int) -> real {
    |i: int|
        {
            let (a, b, d, e) = offsets(poly, c, i);
            (b * b + b * e + e * e) * wedge(poly, c, i)
        }
}

/// Twenty-four times their product moments about that point.
pub open spec fn xy_moments(poly: Seq<Vector2<Ideal>>, c: Vector2<Ideal>) -> spec_fn(int) -> real {
    |i: int|
        {
            let (a, b, d, e) = offsets(poly, c, i);
            (a * e + 2real * (a * b) + 2real * (d * e) + d * b) * wedge(poly, c, i)
        }
}

/// The sums of a loop moved so that `c` comes to the origin are those about `c`.
proof fn lemma_sums_about(poly: Seq<Vector2<Ideal>>, c: Vector2<Ideal>)
    requires
        loops::has_points(poly),
        loops::is_point(c),
    ensures
        ({
            let t = Vector2::<Ideal> { x: ideal::number(-c.x.v), y: ideal::number(-c.y.v) };
            let other = moving::moved(poly, t);
            let n = poly.len();
            &&& polygon::loop_sum(other, polygon::area_term()) == ideal::number(
                series::sum(areas(poly, c), n),
            )
            &&& polygon::loop_sum(other, polygon::x_term()) == ideal::number(
                series::sum(x_moments(poly, c), n),
            )
            &&& polygon::loop_sum(other, polygon::y_term()) == ideal::number(
                series::sum(y_moments(poly, c), n),
            )
            &&& polygon::loop_sum(other, polygon::xx_term()) == ideal::number(
                series::sum(xx_moments(poly, c), n),
            )
            &&& polygon::loop_sum(other, polygon::yy_term()) == ideal::number(
                series::sum(yy_moments(poly, c), n),
            )
            &&& polygon::loop_sum(other, polygon::xy_term()) == ideal::number(
                series::sum(xy_moments(poly, c), n),
            )
        }),
{
    let t = Vector2::<Ideal> { x: ideal::number(-c.x.v), y: ideal::number(-c.y.v) };
    let other = moving::moved(poly, t);
    let n = poly.len();
    assert forall|i: int| 0 <= i < n implies loops::is_point(#[trigger] other[i]) by {
        assert(loops::is_point(poly[i]));
    }
    loops::lemma_terms();
    loops::lemma_loop_sum(other, polygon::area_term());
    loops::lemma_loop_sum(other, polygon::x_term());
    loops::lemma_loop_sum(other, polygon::y_term());
    loops::lemma_loop_sum(other, polygon::xx_term());
    loops::lemma_loop_sum(other, polygon::yy_term());
    loops::lemma_loop_sum(other, polygon::xy_term());
    let (e0, e1) = (
        loops::edge_values(other, polygon::area_term()),
        loops::edge_values(other, polygon::x_term()),
    );
    let (e2, e3) = (
        loops::edge_values(other, polygon::y_term()),
        loops::edge_values(other, polygon::xx_term()),
    );
    let (e4, e5) = (
        loops::edge_values(other, polygon::yy_term()),
        loops::edge_values(other, polygon::xy_term()),
    );
    assert forall|i: int| 0 <= i < n implies #[trigger] e0(i) == areas(poly, c)(i) by {
        lemma_edge_about(poly, c, i);
    }
    assert forall|i: int| 0 <= i < n implies #[trigger] e1(i) == x_moments(poly, c)(i) by {
        lemma_edge_about(poly, c, i);
    }
    assert forall|i: int| 0 <= i < n implies #[trigger] e2(i) == y_moments(poly, c)(i) by {
        lemma_edge_about(poly, c, i);
    }
    assert forall|i: int| 0 <= i < n implies #[trigger] e3(i) == xx_moments(poly, c)(i) by {
        lemma_edge_about(poly, c, i);
    }
    assert forall|i: int| 0 <= i < n implies #[trigger] e4(i) == yy_moments(poly, c)(i) by {
        lemma_edge_about(poly, c, i);
    }
    assert forall|i: int| 0 <= i < n implies #[trigger] e5(i) == xy_moments(poly, c)(i) by {
        lemma_edge_about(poly, c, i);
    }
    series::lemma_same(e0, areas(poly, c), n);
    series::lemma_same(e1, x_moments(poly, c), n);
    series::lemma_same(e2, y_moments(poly, c), n);
    series::lemma_same(e3, xx_moments(poly, c), n);
    series::lemma_same(e4, yy_moments(poly, c), n);
    series::lemma_same(e5, xy_moments(poly, c), n);
}

/// The terms of an edge of the moved loop.
proof fn lemma_edge_about(poly: Seq<Vector2<Ideal>>, c: Vector2<Ideal>, i: int)
    requires
        loops::has_points(poly),
        loops::is_point(c),
        0 <= i < poly.len(),
    ensures
        ({
            let t = Vector2::<Ideal> { x: ideal::number(-c.x.v), y: ideal::number(-c.y.v) };
            let other = moving::moved(poly, t);
            let (p, q) = (other[i], other[(i + 1) % poly.len() as int]);
            &&& polygon::area_term()(p, q).v == areas(poly, c)(i)
            &&& polygon::x_term()(p, q).v == x_moments(poly, c)(i)
            &&& polygon::y_term()(p, q).v == y_moments(poly, c)(i)
            &&& polygon::xx_term()(p, q).v == xx_moments(poly, c)(i)
            &&& polygon::yy_term()(p, q).v == yy_moments(poly, c)(i)
            &&& polygon::xy_term()(p, q).v == xy_moments(poly, c)(i)
        }),
{
    let t = Vector2::<Ideal> { x: ideal::number(-c.x.v), y: ideal::number(-c.y.v) };
    let other = moving::moved(poly, t);
    let j = (i + 1) % poly.len() as int;
    polygon::lemma_next(i, poly.len() as int);
    let (a, b, d, e) = offsets(poly, c, i);
    assert(other[i].x.v == a && other[i].y.v == b && other[j].x.v == d && other[j].y.v == e);
    assert(other[i].outer(other[j]).v == wedge(poly, c, i));
    assert(Ideal::of_count(2).v == 2real);
    ideal::lemma_assoc(2real, a, b);
    ideal::lemma_assoc(2real, d, e);
}

/// The least area that counts.
pub open spec fn least_area() -> real {
    1real / 4_503_599_627_370_496real
}

/// Is `c` the centroid of the loop: do the triangles that the edges make with it have no first
/// moment about it, taken together?
pub open spec fn is_balanced(poly: Seq<Vector2<Ideal>>, c: Vector2<Ideal>) -> bool {
    &&& loops::is_point(c)
    &&& series::sum(x_moments(poly, c), poly.len()) == 0real
    &&& series::sum(y_moments(poly, c), poly.len()) == 0real
}

/// Is every coordinate nothing, or no less than a ten-millionth of the length `side`?
pub open spec fn is_clear(c: Vector2<Ideal>, side: real) -> bool {
    let eps = side / 10_000_000real;
    &&& side >= least_area()
    &&& c.x.v == 0real || c.x.v <= -eps || eps <= c.x.v
    &&& c.y.v == 0real || c.y.v <= -eps || eps <= c.y.v
}

/// A number without its sign.
pub open spec fn size(x: real) -> real {
    if x < 0real {
        -x
    } else {
        x
    }
}

/// A loop that is balanced about a point has its centroid there.
proof fn lemma_balanced(poly: Seq<Vector2<Ideal>>, c: Vector2<Ideal>)
    requires
        loops::has_points(poly),
        is_balanced(poly, c),
        polygon::loop_sum(poly, polygon::area_term()).v != 0real,
    ensures
        polygon::raw_centroid(poly) == c,
        polygon::loop_sum(poly, polygon::area_term()) == ideal::number(
            series::sum(areas(poly, c), poly.len()),
        ),
        ({
            let t = Vector2::<Ideal> { x: ideal::number(-c.x.v), y: ideal::number(-c.y.v) };
            let other = moving::moved(poly, t);
            &&& moving::is_translate(poly, other, t)
            &&& polygon::raw_centroid(other) == Vector2::<Ideal>::origin()
        }),
{
    loops::lemma_terms();
    loops::lemma_loop_sum(poly, polygon::area_term());
    loops::lemma_loop_sum(poly, polygon::x_term());
    loops::lemma_loop_sum(poly, polygon::y_term());
    let t = Vector2::<Ideal> { x: ideal::number(-c.x.v), y: ideal::number(-c.y.v) };
    let other = moving::moved(poly, t);
    let a = polygon::loop_sum(poly, polygon::area_term()).v;
    moving::law_moved_polygon(poly, t);
    lemma_sums_about(poly, c);
    assert(Ideal::of_count(3).v == 3real && Ideal::of_count(0) == ideal::number(0real));
    let d = 3real * a;
    assert(d != 0real && 0real / d == 0real) by (nonlinear_arith)
        requires
            a != 0real,
            d == 3real * a,
    ;
    let r = polygon::raw_centroid(poly);
    assert(polygon::raw_centroid(other) == Vector2::<Ideal>::origin());
    assert(r.plus(t) == Vector2::<Ideal>::origin());
    assert(r.x.v == c.x.v && r.y.v == c.y.v);
}

/// What a polygon measures: half the sum of the triangles that its edges make with its centroid, and
/// that centroid, unless a coordinate of it is too small against the polygon to mean anything.
pub proof fn law_polygon_measures_triangles(
    poly: Seq<Vector2<Ideal>>,
    c: Vector2<Ideal>,
    side: real,
)
    requires
        loops::has_points(poly),
        poly.len() >= 3,
        is_balanced(poly, c),
        size(series::sum(areas(poly, c), poly.len())) >= least_area(),
        ideal::is_root(side, size(series::sum(areas(poly, c), poly.len())) / 2real),
        is_clear(c, side),
    ensures
        polygon::area_of(poly) == ideal::number(series::sum(areas(poly, c), poly.len()) / 2real),
        polygon::centroid_of(poly) == c,
{
    let t = Vector2::<Ideal> { x: ideal::number(-c.x.v), y: ideal::number(-c.y.v) };
    lemma_sums_about(poly, c);
    moving::lemma_moved_area(poly, t);
    lemma_balanced(poly, c);
    let a = polygon::loop_sum(poly, polygon::area_term()).v;
    assert(polygon::half_value::<Ideal>() == ideal::number(1real / 2real));
    assert(a * (1real / 2real) == a / 2real);
    let area = ideal::number(a / 2real);
    assert(polygon::signed_area(poly) == area);
    assert(area.magnitude().v == size(a) / 2real);
    models::law_snap_goes_by_size(c, area, side);
}

/// A polygon that encloses next to nothing has no area, and its centroid is the origin.
pub proof fn law_flat_polygon_is_nothing(poly: Seq<Vector2<Ideal>>)
    requires
        loops::has_points(poly),
        poly.len() < 3 || size(
            series::sum(areas(poly, Vector2::<Ideal>::origin()), poly.len()),
        ) < least_area(),
    ensures
        polygon::area_of(poly) == ideal::number(0real),
        polygon::centroid_of(poly) == Vector2::<Ideal>::origin(),
{
    let o = Vector2::<Ideal>::origin();
    assert(Ideal::of_count(0) == ideal::number(0real));
    lemma_sums_about(poly, o);
    let t = Vector2::<Ideal> { x: ideal::number(-o.x.v), y: ideal::number(-o.y.v) };
    assert(moving::moved(poly, t) =~= poly) by {
        assert forall|i: int| 0 <= i < poly.len() implies moving::moved(poly, t)[i] == poly[i] by {
            assert(loops::is_point(poly[i]));
        }
    }
}

/// What the section of a straight-edged profile measures: of the triangles that the edges make with
/// the centroid, half the sum as its area, a twelfth of either second moment and a twenty-fourth
/// of the product moment.
pub proof fn law_section_measures_triangles(
    shape: ExtrudedProfile<Ideal>,
    c: Vector2<Ideal>,
    side: real,
)
    requires
        loops::has_points(shape.profile@),
        shape.profile@.len() >= 3,
        shape.arcs@.len() == 0,
        is_balanced(shape.profile@, c),
        size(series::sum(areas(shape.profile@, c), shape.profile@.len())) >= 2real * least_area(),
        ideal::is_root(
            side,
            size(series::sum(areas(shape.profile@, c), shape.profile@.len())) / 2real,
        ),
        is_clear(c, side),
    ensures
        ({
            let (poly, n) = (shape.profile@, shape.profile@.len());
            shape.section_spec() == (
                ideal::number(series::sum(areas(poly, c), n) / 2real),
                c,
                ideal::number(series::sum(xx_moments(poly, c), n) / 12real),
                ideal::number(series::sum(yy_moments(poly, c), n) / 12real),
                ideal::number(series::sum(xy_moments(poly, c), n) / 24real),
            )
        }),
{
    let poly = shape.profile@;
    loops::lemma_terms();
    loops::lemma_loop_sum(poly, polygon::area_term());
    let t = Vector2::<Ideal> { x: ideal::number(-c.x.v), y: ideal::number(-c.y.v) };
    let other = moving::moved(poly, t);
    lemma_sums_about(poly, c);
    moving::lemma_moved_area(poly, t);
    let a = polygon::loop_sum(poly, polygon::area_term()).v;
    lemma_balanced(poly, c);
    law_polygon_measures_triangles(poly, c, side);
    let area = polygon::signed_area(poly).v;
    assert(polygon::half_value::<Ideal>() == ideal::number(1real / 2real));
    assert(area == a / 2real);
    moving::lemma_zero(area);
    moving::lemma_zero(0real);
    ideal::lemma_dist(area, 0real, 0real);
    assert(Ideal::of_count(12).v == 12real && Ideal::of_count(24).v == 24real);
    assert(shape.exact_area() == shape.sampled_area());
    assert(shape.area_lost() == ideal::number(1real)) by {
        assert(area / area == 1real) by (nonlinear_arith)
            requires
                area != 0real,
        ;
    }
    lemma_one(polygon::central_xx(poly).v);
    lemma_one(polygon::central_yy(poly).v);
    lemma_one(polygon::central_xy(poly).v);
    assert(polygon::central_xx(other).v == series::sum(xx_moments(poly, c), poly.len()) / 12real);
    assert(polygon::central_yy(other).v == series::sum(yy_moments(poly, c), poly.len()) / 12real);
    assert(polygon::central_xy(other).v == series::sum(xy_moments(poly, c), poly.len()) / 24real);
}

proof fn lemma_one(x: real)
    ensures
        x * 1real == x,
{
    assert(x * 1real == x) by (nonlinear_arith);
}

/// The section of a profile with arcs against that of the polygon that stands for it, taken as a
/// straight-edged profile: the second moments and the product moment go with the square of the
/// area.
pub proof fn law_section_of_samples(shape: ExtrudedProfile<Ideal>, flat: ExtrudedProfile<Ideal>)
    requires
        shape.arcs@.len() > 0,
        flat.arcs@.len() == 0,
        flat.profile@ == shape.boundary(),
        loops::has_points(flat.profile@),
        moving::is_unsnapped(flat.profile@),
        !shape.is_degenerate(),
        !flat.is_degenerate(),
    ensures
        ({
            let (area, c, xx, zz, xz) = shape.section_spec();
            let (area2, c2, xx2, zz2, xz2) = flat.section_spec();
            let k = area.v / area2.v;
            &&& xx.v == (xx2.v * k) * k
            &&& zz.v == (zz2.v * k) * k
            &&& xz.v == (xz2.v * k) * k
        }),
{
    let poly = flat.profile@;
    loops::lemma_terms();
    loops::lemma_loop_sum(poly, polygon::area_term());
    let area = polygon::signed_area(poly).v;
    assert(flat.exact_area() == flat.sampled_area());
    assert(flat.area_lost() == ideal::number(1real)) by {
        assert(area / area == 1real) by (nonlinear_arith)
            requires
                area != 0real,
        ;
    }
    lemma_one(polygon::central_xx(poly).v);
    lemma_one(polygon::central_yy(poly).v);
    lemma_one(polygon::central_xy(poly).v);
}

/// A solid is two of half its depth, one on top of the other: twice the mass and, about every axis,
/// twice the inertia that each half has about that axis, which is its own and that of its mass at
/// its distance.
pub proof fn law_solid_is_two_halves(
    shape: ExtrudedProfile<Ideal>,
    half: ExtrudedProfile<Ideal>,
    density: real,
)
    requires
        half.profile@ == shape.profile@,
        half.arcs@ == shape.arcs@,
        shape.half_depth.side == 0,
        half.half_depth == ideal::number(shape.half_depth.v / 2real),
        shape.section_spec().0.side == 0,
        shape.section_spec().2.side == 0,
        shape.section_spec().3.side == 0,
        shape.section_spec().4.side == 0,
        half.mass_spec(ideal::number(density)) != MassProperties::<Ideal>::nothing(),
    ensures
        ({
            let (m, n) = (
                shape.mass_spec(ideal::number(density)),
                half.mass_spec(ideal::number(density)),
            );
            let away = shape.half_depth.v / 2real;
            let steiner = n.mass.v * (away * away);
            &&& m.mass.v == 2real * n.mass.v
            &&& m.local_com == n.local_com
            &&& m.inertia.x_axis.x.v == 2real * (n.inertia.x_axis.x.v + steiner)
            &&& m.inertia.z_axis.z.v == 2real * (n.inertia.z_axis.z.v + steiner)
            &&& m.inertia.y_axis.y.v == 2real * n.inertia.y_axis.y.v
            &&& m.inertia.x_axis.z.v == 2real * n.inertia.x_axis.z.v
            &&& m.inertia.z_axis.x.v == 2real * n.inertia.z_axis.x.v
        }),
{
    assert(half.section_spec() == shape.section_spec()) by {
        lemma_same_section(half, shape);
    }
    let (area, c, xx, zz, xz) = shape.section_spec();
    let a = area.magnitude().v;
    let (h, r) = (shape.half_depth.v, density);
    let l = h;
    assert(Ideal::of_count(2).v == 2real && Ideal::of_count(12).v == 12real);
    assert((h / 2real) * 2real == h) by (nonlinear_arith);
    assert(half.depth().v == l);
    assert(shape.depth().v == h * 2real);
    let d = h * 2real;
    assert(d == 2real * l);
    let ra = r * a;
    ideal::lemma_assoc(2real, ra, l);
    ideal::lemma_dist(ra, l, l);
    assert(ra * d == 2real * (ra * l));
    // Along the sweep.
    let (s, t) = (((a * l) * l) * l, ((a * d) * d) * d);
    assert(t == 8real * s) by {
        lemma_doubled_cube(a, l);
    }
    let (u, v) = (l * zz.v, l * xx.v);
    assert(d * zz.v == 2real * u && d * xx.v == 2real * v) by {
        ideal::lemma_assoc(2real, l, zz.v);
        ideal::lemma_assoc(2real, l, xx.v);
    }
    lemma_rod(r, a, l, s, u);
    lemma_rod(r, a, l, s, v);
    let w = r * l;
    assert(r * d == 2real * w) by {
        ideal::lemma_assoc(2real, r, l);
        ideal::lemma_dist(r, l, l);
    }
    ideal::lemma_assoc(2real, w, xx.v + zz.v);
    let minus = (-r) * l;
    assert((-r) * d == 2real * minus) by {
        ideal::lemma_assoc(2real, -r, l);
        ideal::lemma_dist(-r, l, l);
    }
    ideal::lemma_assoc(2real, minus, xz.v);
}

proof fn lemma_same_section(a: ExtrudedProfile<Ideal>, b: ExtrudedProfile<Ideal>)
    requires
        a.profile@ == b.profile@,
        a.arcs@ == b.arcs@,
    ensures
        a.section_spec() == b.section_spec(),
{
}

proof fn lemma_doubled_cube(a: real, l: real)
    ensures
        ((a * (2real * l)) * (2real * l)) * (2real * l) == 8real * (((a * l) * l) * l),
{
    let d = 2real * l;
    let x = a * l;
    ideal::lemma_assoc(2real, a, l);
    ideal::lemma_dist(a, l, l);
    assert(a * d == 2real * x);
    let y = x * l;
    ideal::lemma_dist(2real * x, l, l);
    ideal::lemma_assoc(2real, x, l);
    assert((2real * x) * d == 4real * y);
    ideal::lemma_dist(4real * y, l, l);
    ideal::lemma_assoc(4real, y, l);
}

/// A rod of twice the length against two halves, each at half its length from the middle.
proof fn lemma_rod(r: real, a: real, l: real, s: real, u: real)
    requires
        s == ((a * l) * l) * l,
    ensures
        r * ((8real * s) / 12real + 2real * u) == 2real * (r * (s / 12real + u) + ((r * a) * l) * ((l
            / 2real) * (l / 2real))),
{
    let away = l / 2real;
    let x = ((r * a) * l) * (away * away);
    assert(x == (r * s) / 4real) by {
        ideal::lemma_assoc(r, a, l);
        ideal::lemma_assoc(r, a * l, away * away);
        assert(away * away == (l * l) / 4real) by (nonlinear_arith)
            requires
                away == l / 2real,
        ;
        let (al, ll) = (a * l, l * l);
        ideal::lemma_assoc(al, l, l);
        assert(s == al * ll);
        assert(al * (ll / 4real) == (al * ll) / 4real) by (nonlinear_arith);
        assert(r * (s / 4real) == (r * s) / 4real) by (nonlinear_arith);
    }
    ideal::lemma_dist(r, (8real * s) / 12real, 2real * u);
    ideal::lemma_dist(r, s / 12real, u);
    assert(r * ((8real * s) / 12real) == (8real * (r * s)) / 12real) by (nonlinear_arith);
    assert(r * (s / 12real) == (r * s) / 12real) by (nonlinear_arith);
    assert(r * (2real * u) == 2real * (r * u)) by (nonlinear_arith);
}

} // verus!
