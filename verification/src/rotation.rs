//! Profiles that are turned about the sweep, but for rounding: how their sections and their inertia
//! turn along.
use vstd::prelude::*;

use crate::ideal;
use crate::ideal::Ideal;
use crate::loops;
use crate::mass::MassProperties;
use crate::moments;
use crate::polygon;
use crate::profile::ExtrudedProfile;
use crate::scalar::Scalar;
use crate::series;
use crate::vector::Vector2;

verus! {

/// The point turned about the origin by the angle whose cosine is `c` and whose sine is `s`.
pub open spec fn turned(p: Vector2<Ideal>, c: real, s: real) -> Vector2<Ideal> {
    Vector2 {
        x: ideal::number(c * p.x.v - s * p.y.v),
        y: ideal::number(s * p.x.v + c * p.y.v),
    }
}

/// Every point of the loop turned.
pub open spec fn turned_loop(poly: Seq<Vector2<Ideal>>, c: real, s: real) -> Seq<Vector2<Ideal>> {
    Seq::new(poly.len(), |i: int| turned(poly[i], c, s))
}

/// A product of two turned coordinates.
proof fn lemma_turned_product(c: real, s: real, a: real, b: real, d: real, e: real)
    ensures
        (c * a - s * b) * (c * d - s * e) == (c * c) * (a * d) - (c * s) * (a * e) - (c * s) * (b
            * d) + (s * s) * (b * e),
        (s * a + c * b) * (s * d + c * e) == (s * s) * (a * d) + (c * s) * (a * e) + (c * s) * (b
            * d) + (c * c) * (b * e),
        (c * a - s * b) * (s * d + c * e) == (c * s) * (a * d) + (c * c) * (a * e) - (s * s) * (b
            * d) - (c * s) * (b * e),
{
    ideal::lemma_foil(c * a, s * b, c * d, s * e);
    ideal::lemma_foil(s * a, c * b, s * d, c * e);
    ideal::lemma_foil(c * a, s * b, s * d, c * e);
    ideal::lemma_pairs(c, a, c, d);
    ideal::lemma_pairs(c, a, s, e);
    ideal::lemma_pairs(s, b, c, d);
    ideal::lemma_pairs(s, b, s, e);
    ideal::lemma_pairs(s, a, s, d);
    ideal::lemma_pairs(s, a, c, e);
    ideal::lemma_pairs(c, b, s, d);
    ideal::lemma_pairs(c, b, c, e);
    ideal::lemma_pairs(c, a, s, d);
    ideal::lemma_pairs(c, a, c, e);
    ideal::lemma_pairs(s, b, s, d);
    ideal::lemma_pairs(s, b, c, e);
    assert(s * c == c * s);
}

/// What the offsets of an edge make up, once they are turned.
proof fn lemma_turned_offsets(c: real, s: real, a: real, b: real, d: real, e: real)
    requires
        c * c + s * s == 1real,
    ensures
        ({
            let (a2, b2) = (c * a - s * b, s * a + c * b);
            let (d2, e2) = (c * d - s * e, s * d + c * e);
            let (cc, cs, ss) = (c * c, c * s, s * s);
            let xx = a * a + a * d + d * d;
            let yy = b * b + b * e + e * e;
            let xy = a * e + 2real * (a * b) + 2real * (d * e) + d * b;
            &&& a2 * e2 - d2 * b2 == a * e - d * b
            &&& a2 * a2 + a2 * d2 + d2 * d2 == cc * xx - cs * xy + ss * yy
            &&& b2 * b2 + b2 * e2 + e2 * e2 == ss * xx + cs * xy + cc * yy
            &&& a2 * e2 + 2real * (a2 * b2) + 2real * (d2 * e2) + d2 * b2 == 2real * (cs * xx)
                - 2real * (cs * yy) + (cc - ss) * xy
        }),
{
    let (cc, cs, ss) = (c * c, c * s, s * s);
    lemma_turned_product(c, s, a, b, a, b);
    lemma_turned_product(c, s, a, b, d, e);
    lemma_turned_product(c, s, d, e, d, e);
    lemma_turned_product(c, s, d, e, a, b);
    let (aa, ad, dd) = (a * a, a * d, d * d);
    let (bb, be, ee) = (b * b, b * e, e * e);
    let (ab, ae, db, de) = (a * b, a * e, d * b, d * e);
    assert(b * a == ab && d * a == ad && e * b == be && b * d == db && e * a == ae && e * d == de);
    let xx = aa + ad + dd;
    let yy = bb + be + ee;
    let xy = ae + 2real * ab + 2real * de + db;
    lemma_spread(cc, aa, ad, dd);
    lemma_spread(cs, aa, ad, dd);
    lemma_spread(ss, aa, ad, dd);
    lemma_spread(cc, bb, be, ee);
    lemma_spread(cs, bb, be, ee);
    lemma_spread(ss, bb, be, ee);
    lemma_spread_four(cc, ae, ab, de, db);
    lemma_spread_four(cs, ae, ab, de, db);
    lemma_spread_four(ss, ae, ab, de, db);
    // What an edge spans.
    ideal::lemma_dist(ae - db, cc, ss);
    ideal::lemma_dist(cc, ae, db);
    ideal::lemma_dist(ss, ae, db);
    let w = ae - db;
    assert(w * 1real == w) by (nonlinear_arith);
    ideal::lemma_dist(xy, cc, ss);
}

proof fn lemma_spread(k: real, x: real, y: real, z: real)
    ensures
        k * (x + y + z) == k * x + k * y + k * z,
{
    ideal::lemma_dist(k, x + y, z);
    ideal::lemma_dist(k, x, y);
}

proof fn lemma_spread_four(k: real, x: real, y: real, z: real, w: real)
    ensures
        k * (x + 2real * y + 2real * z + w) == k * x + 2real * (k * y) + 2real * (k * z) + k * w,
{
    ideal::lemma_dist(k, x + 2real * y + 2real * z, w);
    ideal::lemma_dist(k, x + 2real * y, 2real * z);
    ideal::lemma_dist(k, x, 2real * y);
    ideal::lemma_assoc(2real, k, y);
    ideal::lemma_assoc(2real, k, z);
    ideal::lemma_assoc(k, 2real, y);
    ideal::lemma_assoc(k, 2real, z);
}

/// The moments of the triangle over one edge, turned.
proof fn lemma_turned_edge(
    poly: Seq<Vector2<Ideal>>,
    m: Vector2<Ideal>,
    c: real,
    s: real,
    i: int,
)
    requires
        c * c + s * s == 1real,
        0 <= i < poly.len(),
    ensures
        ({
            let (other, n) = (turned_loop(poly, c, s), turned(m, c, s));
            let (cc, cs, ss) = (c * c, c * s, s * s);
            let (xx, yy, xy) = (
                moments::xx_moments(poly, m)(i),
                moments::yy_moments(poly, m)(i),
                moments::xy_moments(poly, m)(i),
            );
            &&& moments::areas(other, n)(i) == moments::areas(poly, m)(i)
            &&& moments::x_moments(other, n)(i) == c * moments::x_moments(poly, m)(i) + (-s)
                * moments::y_moments(poly, m)(i) + 0real * moments::areas(poly, m)(i)
            &&& moments::y_moments(other, n)(i) == s * moments::x_moments(poly, m)(i) + c
                * moments::y_moments(poly, m)(i) + 0real * moments::areas(poly, m)(i)
            &&& moments::xx_moments(other, n)(i) == cc * xx + (-cs) * xy + ss * yy
            &&& moments::yy_moments(other, n)(i) == ss * xx + cs * xy + cc * yy
            &&& moments::xy_moments(other, n)(i) == (2real * cs) * xx + (cc - ss) * xy + (-(2real
                * cs)) * yy
        }),
{
    let (other, n) = (turned_loop(poly, c, s), turned(m, c, s));
    polygon::lemma_next(i, poly.len() as int);
    let (a, b, d, e) = moments::offsets(poly, m, i);
    let (a2, b2, d2, e2) = moments::offsets(other, n, i);
    let j = (i + 1) % poly.len() as int;
    lemma_turned_difference(c, s, poly[i].x.v, m.x.v, poly[i].y.v, m.y.v);
    lemma_turned_difference(c, s, poly[j].x.v, m.x.v, poly[j].y.v, m.y.v);
    assert(a2 == c * a - s * b && b2 == s * a + c * b);
    assert(d2 == c * d - s * e && e2 == s * d + c * e);
    lemma_turned_offsets(c, s, a, b, d, e);
    let w = moments::wedge(poly, m, i);
    assert(w == a * e - d * b);
    assert(moments::wedge(other, n, i) == w);
    let (cc, cs, ss) = (c * c, c * s, s * s);
    let x = a * a + a * d + d * d;
    let y = b * b + b * e + e * e;
    let z = a * e + 2real * (a * b) + 2real * (d * e) + d * b;
    // Each weighed with what the edge spans.
    lemma_weighed(cc, x, -cs, z, ss, y, w);
    lemma_weighed(ss, x, cs, z, cc, y, w);
    lemma_weighed(2real * cs, x, cc - ss, z, -(2real * cs), y, w);
    ideal::lemma_assoc(2real, cs, x);
    ideal::lemma_assoc(2real, cs, y);
    lemma_minus(cs, z);
    lemma_minus(2real * cs, y);
    lemma_weighed(c, a + d, -s, b + e, 0real, 1real, w);
    lemma_weighed(s, a + d, c, b + e, 0real, 1real, w);
    ideal::lemma_dist(c, a, d);
    ideal::lemma_dist(s, a, d);
    ideal::lemma_dist(c, b, e);
    ideal::lemma_dist(s, b, e);
    lemma_minus(s, b + e);
    assert(0real * 1real == 0real && 0real * (1real * w) == 0real && 0real * w == 0real)
        by (nonlinear_arith);
}

proof fn lemma_minus(k: real, x: real)
    ensures
        (-k) * x == -(k * x),
{
    assert((-k) * x == -(k * x)) by (nonlinear_arith);
}

proof fn lemma_turned_difference(c: real, s: real, x: real, u: real, y: real, v: real)
    ensures
        (c * x - s * y) - (c * u - s * v) == c * (x - u) - s * (y - v),
        (s * x + c * y) - (s * u + c * v) == s * (x - u) + c * (y - v),
{
    ideal::lemma_dist(c, x, u);
    ideal::lemma_dist(s, x, u);
    ideal::lemma_dist(c, y, v);
    ideal::lemma_dist(s, y, v);
}

proof fn lemma_weighed(f: real, x: real, g: real, y: real, h: real, z: real, w: real)
    ensures
        (f * x + g * y + h * z) * w == f * (x * w) + g * (y * w) + h * (z * w),
{
    ideal::lemma_dist(w, f * x + g * y, h * z);
    ideal::lemma_dist(w, f * x, g * y);
    ideal::lemma_assoc(f, x, w);
    ideal::lemma_assoc(g, y, w);
    ideal::lemma_assoc(h, z, w);
}

/// A sum of combinations is that combination of the sums.
proof fn lemma_combined(
    e: spec_fn(int) -> real,
    a: real,
    f: spec_fn(int) -> real,
    b: real,
    g: spec_fn(int) -> real,
    d: real,
    h: spec_fn(int) -> real,
    n: nat,
)
    requires
        forall|i: int| 0 <= i < n ==> #[trigger] e(i) == a * f(i) + b * g(i) + d * h(i),
    ensures
        series::sum(e, n) == a * series::sum(f, n) + b * series::sum(g, n) + d * series::sum(h, n),
{
    let (af, bg, dh) = (|i: int| a * f(i), |i: int| b * g(i), |i: int| d * h(i));
    let two = |i: int| af(i) + bg(i);
    let all = |i: int| two(i) + dh(i);
    series::lemma_scaled(a, f, n);
    series::lemma_scaled(b, g, n);
    series::lemma_scaled(d, h, n);
    series::lemma_plus(af, bg, n);
    series::lemma_plus(two, dh, n);
    assert forall|i: int| 0 <= i < n implies #[trigger] e(i) == all(i) by {}
    series::lemma_same(e, all, n);
}

/// The sums over a turned loop.
proof fn lemma_turned_sums(poly: Seq<Vector2<Ideal>>, m: Vector2<Ideal>, c: real, s: real)
    requires
        c * c + s * s == 1real,
    ensures
        ({
            let (other, n, k) = (turned_loop(poly, c, s), turned(m, c, s), poly.len());
            let (cc, cs, ss) = (c * c, c * s, s * s);
            let (x, y) = (
                series::sum(moments::x_moments(poly, m), k),
                series::sum(moments::y_moments(poly, m), k),
            );
            let (xx, yy, xy) = (
                series::sum(moments::xx_moments(poly, m), k),
                series::sum(moments::yy_moments(poly, m), k),
                series::sum(moments::xy_moments(poly, m), k),
            );
            let a = series::sum(moments::areas(poly, m), k);
            &&& series::sum(moments::areas(other, n), k) == a
            &&& series::sum(moments::x_moments(other, n), k) == c * x + (-s) * y + 0real * a
            &&& series::sum(moments::y_moments(other, n), k) == s * x + c * y + 0real * a
            &&& series::sum(moments::xx_moments(other, n), k) == cc * xx + (-cs) * xy + ss * yy
            &&& series::sum(moments::yy_moments(other, n), k) == ss * xx + cs * xy + cc * yy
            &&& series::sum(moments::xy_moments(other, n), k) == (2real * cs) * xx + (cc - ss) * xy
                + (-(2real * cs)) * yy
        }),
{
    let (other, n, k) = (turned_loop(poly, c, s), turned(m, c, s), poly.len());
    let (cc, cs, ss) = (c * c, c * s, s * s);
    let (f, x, y) = (
        moments::areas(poly, m),
        moments::x_moments(poly, m),
        moments::y_moments(poly, m),
    );
    let (xx, yy, xy) = (
        moments::xx_moments(poly, m),
        moments::yy_moments(poly, m),
        moments::xy_moments(poly, m),
    );
    let e = moments::areas(other, n);
    assert forall|i: int| 0 <= i < k implies #[trigger] e(i) == f(i) by {
        lemma_turned_edge(poly, m, c, s, i);
    }
    series::lemma_same(e, f, k);
    let e = moments::x_moments(other, n);
    assert forall|i: int| 0 <= i < k implies #[trigger] e(i) == c * x(i) + (-s) * y(i) + 0real * f(
        i,
    ) by {
        lemma_turned_edge(poly, m, c, s, i);
    }
    lemma_combined(e, c, x, -s, y, 0real, f, k);
    let e = moments::y_moments(other, n);
    assert forall|i: int| 0 <= i < k implies #[trigger] e(i) == s * x(i) + c * y(i) + 0real * f(
        i,
    ) by {
        lemma_turned_edge(poly, m, c, s, i);
    }
    lemma_combined(e, s, x, c, y, 0real, f, k);
    let e = moments::xx_moments(other, n);
    assert forall|i: int| 0 <= i < k implies #[trigger] e(i) == cc * xx(i) + (-cs) * xy(i) + ss
        * yy(i) by {
        lemma_turned_edge(poly, m, c, s, i);
    }
    lemma_combined(e, cc, xx, -cs, xy, ss, yy, k);
    let e = moments::yy_moments(other, n);
    assert forall|i: int| 0 <= i < k implies #[trigger] e(i) == ss * xx(i) + cs * xy(i) + cc * yy(
        i,
    ) by {
        lemma_turned_edge(poly, m, c, s, i);
    }
    lemma_combined(e, ss, xx, cs, xy, cc, yy, k);
    let e = moments::xy_moments(other, n);
    assert forall|i: int| 0 <= i < k implies #[trigger] e(i) == (2real * cs) * xx(i) + (cc - ss)
        * xy(i) + (-(2real * cs)) * yy(i) by {
        lemma_turned_edge(poly, m, c, s, i);
    }
    lemma_combined(e, 2real * cs, xx, cc - ss, xy, -(2real * cs), yy, k);
}

/// Is `m` the centroid of a straight-edged profile that has an area to speak of, and clear of the
/// axes, however it is turned by the angle?
pub open spec fn can_turn(
    shape: ExtrudedProfile<Ideal>,
    m: Vector2<Ideal>,
    side: real,
    c: real,
    s: real,
) -> bool {
    let (poly, k) = (shape.profile@, shape.profile@.len());
    let a = moments::size(series::sum(moments::areas(poly, m), k));
    &&& shape.arcs@.len() == 0
    &&& loops::has_points(poly)
    &&& k >= 3
    &&& moments::is_balanced(poly, m)
    &&& a >= 2real * moments::least_area()
    &&& ideal::is_root(side, a / 2real)
    &&& moments::is_clear(m, side)
    &&& moments::is_clear(turned(m, c, s), side)
    &&& c * c + s * s == 1real
}

/// Turning a straight-edged profile about the sweep turns its centroid along, leaves its area, and
/// mixes its second moments and its product moment as a turn does.
pub proof fn law_turned_section(
    shape: ExtrudedProfile<Ideal>,
    other: ExtrudedProfile<Ideal>,
    m: Vector2<Ideal>,
    side: real,
    c: real,
    s: real,
)
    requires
        can_turn(shape, m, side, c, s),
        other.arcs@.len() == 0,
        other.profile@ == turned_loop(shape.profile@, c, s),
    ensures
        ({
            let (area, g, xx, zz, xz) = shape.section_spec();
            let (area2, g2, xx2, zz2, xz2) = other.section_spec();
            let (cc, cs, ss) = (c * c, c * s, s * s);
            &&& area2 == area
            &&& g == m && g2 == turned(m, c, s)
            &&& xx2 == ideal::number(cc * xx.v - 2real * (cs * xz.v) + ss * zz.v)
            &&& zz2 == ideal::number(ss * xx.v + 2real * (cs * xz.v) + cc * zz.v)
            &&& xz2 == ideal::number(cs * xx.v - cs * zz.v + (cc - ss) * xz.v)
            &&& xx.side == 0 && zz.side == 0 && xz.side == 0
        }),
{
    let (poly, k) = (shape.profile@, shape.profile@.len());
    let (turn, n) = (other.profile@, turned(m, c, s));
    let (cc, cs, ss) = (c * c, c * s, s * s);
    lemma_turned_sums(poly, m, c, s);
    assert(c * 0real == 0real && s * 0real == 0real && (-s) * 0real == 0real) by (nonlinear_arith);
    let a = series::sum(moments::areas(poly, m), k);
    assert(0real * a == 0real) by (nonlinear_arith);
    assert(moments::is_balanced(turn, n));
    moments::law_section_measures_triangles(shape, m, side);
    moments::law_section_measures_triangles(other, n, side);
    let (xx, yy, xy) = (
        series::sum(moments::xx_moments(poly, m), k),
        series::sum(moments::yy_moments(poly, m), k),
        series::sum(moments::xy_moments(poly, m), k),
    );
    lemma_parts_of(cc, xx, 12real);
    lemma_parts_of(ss, xx, 12real);
    lemma_parts_of(cs, xx, 12real);
    lemma_parts_of(cc, yy, 12real);
    lemma_parts_of(ss, yy, 12real);
    lemma_parts_of(cs, yy, 12real);
    lemma_parts_of(cs, xy, 24real);
    lemma_parts_of(cc - ss, xy, 24real);
    lemma_minus(cs, xy);
    lemma_minus(2real * cs, yy);
    ideal::lemma_assoc(2real, cs, xx);
    ideal::lemma_assoc(2real, cs, yy);
}

proof fn lemma_parts_of(k: real, x: real, n: real)
    requires
        n > 0real,
    ensures
        k * (x / n) == (k * x) / n,
{
    assert(k * (x / n) == (k * x) / n) by (nonlinear_arith)
        requires
            n > 0real,
    ;
}

/// The inertia of a solid is that of a body: turning the solid about the sweep turns its tensor
/// along, off the diagonal and on it.
pub proof fn law_turned_inertia(
    shape: ExtrudedProfile<Ideal>,
    other: ExtrudedProfile<Ideal>,
    m: Vector2<Ideal>,
    side: real,
    c: real,
    s: real,
    density: real,
)
    requires
        can_turn(shape, m, side, c, s),
        other.arcs@.len() == 0,
        other.profile@ == turned_loop(shape.profile@, c, s),
        other.half_depth == shape.half_depth,
        shape.half_depth.side == 0,
        shape.mass_spec(ideal::number(density)) != MassProperties::<Ideal>::nothing(),
    ensures
        ({
            let a = shape.mass_spec(ideal::number(density));
            let b = other.mass_spec(ideal::number(density));
            let (xx, zz, xz) = (
                a.inertia.x_axis.x.v,
                a.inertia.z_axis.z.v,
                a.inertia.x_axis.z.v,
            );
            let (cc, cs, ss) = (c * c, c * s, s * s);
            &&& b.mass == a.mass
            &&& b.inertia.y_axis.y.v == a.inertia.y_axis.y.v
            &&& b.inertia.x_axis.x.v == cc * xx - 2real * (cs * xz) + ss * zz
            &&& b.inertia.z_axis.z.v == ss * xx + 2real * (cs * xz) + cc * zz
            &&& b.inertia.x_axis.z.v == cs * xx - cs * zz + (cc - ss) * xz
            &&& b.inertia.z_axis.x.v == b.inertia.x_axis.z.v
        }),
{
    law_turned_section(shape, other, m, side, c, s);
    let (area, g, x, z, p) = shape.section_spec();
    let (area2, g2, x2, z2, p2) = other.section_spec();
    let (cc, cs, ss) = (c * c, c * s, s * s);
    let l = shape.depth().v;
    let a = area.magnitude().v;
    let r = density;
    let rod = (((a * l) * l) * l) / 12real;
    assert(Ideal::of_count(12).v == 12real);
    // All per density and depth.
    let k = r * l;
    let q = r * rod;
    lemma_axis_of(r, rod, l, z.v);
    lemma_axis_of(r, rod, l, x.v);
    lemma_axis_of(r, rod, l, z2.v);
    lemma_axis_of(r, rod, l, x2.v);
    assert((-r) * l == -k) by {
        lemma_minus(r, l);
    }
    lemma_minus(k, p.v);
    lemma_minus(k, p2.v);
    lemma_mixed(k, cc, cs, ss, x.v, z.v, p.v);
    lemma_level(q, cc, ss);
    // Mixed with what is the same about every axis.
    let (ix, iz, ip) = (q + k * z.v, q + k * x.v, -(k * p.v));
    ideal::lemma_dist(cc, q, k * z.v);
    ideal::lemma_dist(ss, q, k * x.v);
    ideal::lemma_dist(ss, q, k * z.v);
    ideal::lemma_dist(cc, q, k * x.v);
    ideal::lemma_dist(cs, q, k * z.v);
    ideal::lemma_dist(cs, q, k * x.v);
    ideal::lemma_dist(cs, k * p.v, 0real);
    ideal::lemma_dist(cc - ss, k * p.v, 0real);
    assert(x2.v + z2.v == x.v + z.v) by {
        ideal::lemma_dist(x.v, cc, ss);
        ideal::lemma_dist(z.v, cc, ss);
        lemma_one(x.v);
        lemma_one(z.v);
    }
}

proof fn lemma_one(x: real)
    ensures
        x * 1real == x,
{
    assert(x * 1real == x) by (nonlinear_arith);
}

proof fn lemma_axis_of(r: real, rod: real, l: real, z: real)
    ensures
        r * (rod + l * z) == r * rod + (r * l) * z,
{
    ideal::lemma_dist(r, rod, l * z);
    ideal::lemma_assoc(r, l, z);
}

proof fn lemma_level(q: real, cc: real, ss: real)
    requires
        cc + ss == 1real,
    ensures
        cc * q + ss * q == q,
{
    ideal::lemma_dist(q, cc, ss);
    lemma_one(q);
}

proof fn lemma_mixed(k: real, cc: real, cs: real, ss: real, x: real, z: real, p: real)
    ensures
        k * (cc * x - 2real * (cs * p) + ss * z) == cc * (k * x) - 2real * (cs * (k * p)) + ss * (k
            * z),
        k * (ss * x + 2real * (cs * p) + cc * z) == ss * (k * x) + 2real * (cs * (k * p)) + cc * (k
            * z),
        k * (cs * x - cs * z + (cc - ss) * p) == cs * (k * x) - cs * (k * z) + (cc - ss) * (k * p),
{
    let d = cc - ss;
    ideal::lemma_assoc(k, cc, x);
    ideal::lemma_assoc(k, ss, x);
    ideal::lemma_assoc(k, cs, x);
    ideal::lemma_assoc(k, cc, z);
    ideal::lemma_assoc(k, ss, z);
    ideal::lemma_assoc(k, cs, z);
    ideal::lemma_assoc(k, cs, p);
    ideal::lemma_assoc(k, d, p);
    let e = 2real * (cs * p);
    assert(k * e == 2real * (k * (cs * p))) by (nonlinear_arith)
        requires
            e == 2real * (cs * p),
    ;
    ideal::lemma_dist(k, cc * x - e, ss * z);
    ideal::lemma_dist(k, cc * x, e);
    ideal::lemma_dist(k, ss * x + e, cc * z);
    ideal::lemma_dist(k, ss * x, e);
    ideal::lemma_dist(k, cs * x - cs * z, d * p);
    ideal::lemma_dist(k, cs * x, cs * z);
}

} // verus!
