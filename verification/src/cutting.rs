//! What cutting an arc in two does to the region of a profile, but for rounding.
use vstd::prelude::*;

use crate::arc::ProfileArc;
use crate::ideal;
use crate::ideal::Ideal;
use crate::loops;
use crate::moving;
use crate::polygon;
use crate::profile;
use crate::profile::{ExtrudedProfile, Region};
use crate::scalar::Scalar;
use crate::series;
use crate::vector::Vector2;

verus! {

/// The ends of an arc about the origin, of the radius `r`, that lies `h` to either side of the
/// angle `b`: what its chord spans with the origin, and what the part between the arc and its chord
/// weighs along the bisector.
proof fn lemma_chord(r: real, b: real, h: real)
    ensures
        ({
            let (sin, cos) = ideal::circle();
            let (px, py) = (r * cos(b - h), r * sin(b - h));
            let (ex, ey) = (r * cos(b + h), r * sin(b + h));
            let o = px * ey - ex * py;
            let (s, c) = (sin(h), cos(h));
            let sss = s * (s * s);
            let rrr = r * (r * r);
            &&& o == 2real * ((r * r) * (c * s))
            &&& sin(h + h) == 2real * (c * s)
            &&& 2real * ((r * r) * (ey - py)) - (px + ex) * o == 4real * (rrr * (cos(b) * sss))
            &&& 2real * ((r * r) * (px - ex)) - (py + ey) * o == 4real * (rrr * (sin(b) * sss))
        }),
{
    let (sin, cos) = ideal::circle();
    ideal::lemma_circle(b, h);
    ideal::lemma_circle(b, -h);
    ideal::lemma_circle(h, h);
    let (s, c) = (sin(h), cos(h));
    let (sb, cb) = (sin(b), cos(b));
    assert(b - h == b + (-h));
    ideal::lemma_dist(sb, s, 0real);
    ideal::lemma_dist(cb, s, 0real);
    let (x, y, z, w) = (cb * c, sb * s, sb * c, cb * s);
    assert(cos(b - h) == x + y);
    assert(sin(b - h) == z - w);
    assert(cos(b + h) == x - y);
    assert(sin(b + h) == z + w);
    let (px, py) = (r * cos(b - h), r * sin(b - h));
    let (ex, ey) = (r * cos(b + h), r * sin(b + h));
    let o = px * ey - ex * py;
    let rr = r * r;
    let cs = c * s;
    // What the chord spans.
    ideal::lemma_pairs(r, x + y, r, z + w);
    ideal::lemma_pairs(r, x - y, r, z - w);
    ideal::lemma_foil(x, y, z, w);
    ideal::lemma_dist(rr, (x + y) * (z + w), (x - y) * (z - w));
    assert(o == rr * ((x + y) * (z + w) - (x - y) * (z - w)));
    ideal::lemma_pairs(cb, c, cb, s);
    ideal::lemma_pairs(sb, s, sb, c);
    assert(s * c == c * s);
    ideal::lemma_dist(cs, cb * cb, sb * sb);
    assert(1real * cs == cs) by (nonlinear_arith);
    assert(x * w + y * z == cs);
    assert(o == rr * (cs + cs));
    ideal::lemma_dist(rr, cs, cs);
    // What it weighs.
    let rrr = r * rr;
    ideal::lemma_dist(r, x + y, x - y);
    ideal::lemma_dist(r, x, x);
    ideal::lemma_dist(r, z + w, z - w);
    ideal::lemma_dist(r, w, w);
    ideal::lemma_dist(r, z, z);
    ideal::lemma_dist(r, y, y);
    assert(px + ex == r * (x + x));
    assert(ey - py == r * (w + w));
    assert(py + ey == r * (z + z));
    assert(px - ex == r * (y + y));
    lemma_weight(r, cb, s, c, o);
    lemma_weight(r, sb, s, c, o);
    ideal::lemma_assoc(sb, c, s);
}

/// Along one axis, with `k` the cosine or the sine of the bisector.
proof fn lemma_weight(r: real, k: real, s: real, c: real, o: real)
    requires
        s * s + c * c == 1real,
        o == (r * r) * (c * s) + (r * r) * (c * s),
    ensures
        2real * ((r * r) * (r * (k * s + k * s))) - (r * (k * c + k * c)) * o == 4real * ((r * (r
            * r)) * (k * (s * (s * s)))),
{
    let rr = r * r;
    let cs = c * s;
    let (u, v) = (k * s, k * c);
    let rrr = r * rr;
    let q = rr * cs;
    ideal::lemma_dist(r, u, u);
    ideal::lemma_dist(r, v, v);
    ideal::lemma_dist(rr, r * u, r * u);
    ideal::lemma_assoc(rr, r, u);
    assert(rr * (r * u) == rrr * u);
    // (r v) q == rrr (k (c (c s)))
    ideal::lemma_pairs(r, v, rr, cs);
    assert((r * v) * q == rrr * (v * cs));
    ideal::lemma_assoc(k, c, cs);
    let t = c * cs;
    assert((r * v) * q == rrr * (k * t));
    ideal::lemma_foil(r * v, r * v, q, q);
    assert((r * (v + v)) * o == 4real * (rrr * (k * t)));
    // s - c (c s) == s (s s)
    assert(s - t == s * (s * s)) by {
        ideal::lemma_assoc(s, c, c);
        ideal::lemma_assoc(c, c, s);
        ideal::lemma_dist(s, s * s, c * c);
        assert(s * 1real == s) by (nonlinear_arith);
    }
    ideal::lemma_dist(k, s, t);
    ideal::lemma_dist(rrr, k * s, k * t);
}

/// What a circle about `(u, w)` of radius `r` has swept at the angle `t`: its differences are what a
/// sector of it measures, twice the area and six times the first moments.
pub open spec fn swept_area(u: real, w: real, r: real, t: real) -> real {
    let (x, y) = (r * ideal::circle().1(t), r * ideal::circle().0(t));
    (r * r) * t + (u * y - w * x)
}

spec fn swept_x(u: real, w: real, r: real, t: real) -> real {
    let (x, y) = (r * ideal::circle().1(t), r * ideal::circle().0(t));
    3real * (u * ((r * r) * t)) + 2real * ((r * r) * y) + (u * (x * y) + 2real * (u * (u * y))) - w
        * ((x + u) * (x + u))
}

spec fn swept_y(u: real, w: real, r: real, t: real) -> real {
    let (x, y) = (r * ideal::circle().1(t), r * ideal::circle().0(t));
    3real * (w * ((r * r) * t)) - 2real * ((r * r) * x) - (w * (y * x) + 2real * (w * (w * x))) + u
        * ((y + w) * (y + w))
}

/// Does the part between an arc and its chord count, rather than being too small to?
pub open spec fn is_counted(arc: ProfileArc<Ideal>) -> bool {
    &&& !profile::segment_area(arc).magnitude().below(Ideal::epsilon_value())
    &&& !arc.swept().minus(arc.swept().sine()).magnitude().below(Ideal::epsilon_value())
}

/// The distance of the centroid of a segment times its area.
proof fn lemma_segment_lever(r: real, x: real, s: real)
    requires
        x != 0real,
    ensures
        6real * ((((4real * r) * ((s * s) * s)) / (3real * x)) * ((((1real / 2real) * r) * r) * x))
            == 4real * ((r * (r * r)) * (s * (s * s))),
{
    let sss = s * (s * s);
    let h = 1real / 2real;
    let top = (4real * r) * ((s * s) * s);
    let d = top / (3real * x);
    let rr = r * r;
    assert((s * s) * s == sss);
    ideal::lemma_assoc(4real, r, sss);
    assert(top == 4real * (r * sss));
    ideal::lemma_assoc(h, r, r);
    assert((h * r) * r == h * rr);
    ideal::lemma_assoc(h, rr, x);
    assert(d * (3real * x) == top) by (nonlinear_arith)
        requires
            d == top / (3real * x),
            x != 0real,
    ;
    ideal::lemma_assoc(3real, d, x);
    assert(3real * (d * x) == top);
    // d (h (rr x)) == h (rr (d x))
    ideal::lemma_assoc(d, h, rr * x);
    ideal::lemma_assoc(h, d, rr * x);
    ideal::lemma_assoc(d, rr, x);
    ideal::lemma_assoc(rr, d, x);
    assert(d * (h * (rr * x)) == h * (rr * (d * x)));
    assert(6real * (h * (rr * (d * x))) == 3real * (rr * (d * x)));
    ideal::lemma_assoc(3real, rr, d * x);
    ideal::lemma_assoc(rr, 3real, d * x);
    assert(3real * (rr * (d * x)) == rr * top);
    ideal::lemma_assoc(4real, rr, r * sss);
    ideal::lemma_assoc(rr, 4real, r * sss);
    ideal::lemma_assoc(r, rr, sss);
    ideal::lemma_assoc(rr, r, sss);
}

/// A sector of a circle has the area that is swept between its two ends.
pub proof fn lemma_sector_area(arc: ProfileArc<Ideal>)
    requires
        moving::is_arc(arc),
    ensures
        ({
            let (u, w, r) = (arc.center.x.v, arc.center.y.v, arc.radius.v);
            let (p, q) = (arc.point_at(arc.start), arc.point_at(arc.end));
            2real * profile::segment_area(arc).v + p.outer(q).v == swept_area(u, w, r, arc.end.v)
                - swept_area(u, w, r, arc.start.v)
        }),
        2real * profile::segment_area(arc).v == (arc.radius.v * arc.radius.v) * (arc.swept().v
            - arc.swept().sine().v),
        arc.swept().v >= 0real ==> profile::segment_area(arc).v >= 0real,
{
    let (sin, cos) = ideal::circle();
    let (u, w, r) = (arc.center.x.v, arc.center.y.v, arc.radius.v);
    let (p, q) = (arc.point_at(arc.start), arc.point_at(arc.end));
    let theta = arc.swept().v;
    let h = theta * (1real / 2real);
    let b = arc.start.v + h;
    let rr = r * r;
    assert(arc.start.v == b - h && arc.end.v == b + h && theta == h + h);
    lemma_chord(r, b, h);
    let (px, py) = (r * cos(b - h), r * sin(b - h));
    let (ex, ey) = (r * cos(b + h), r * sin(b + h));
    ideal::lemma_dist(r, cos(b - h), sin(b - h));
    ideal::lemma_dist(r, cos(b + h), sin(b + h));
    assert(p.x.v == px + u && p.y.v == py + w);
    assert(q.x.v == ex + u && q.y.v == ey + w);
    let o = px * ey - ex * py;
    let x = theta - sin(theta);
    let area = profile::segment_area(arc).v;
    assert(polygon::half_value::<Ideal>().v == 1real / 2real);
    assert(area == ((1real / 2real * r) * r) * x);
    ideal::lemma_assoc(1real / 2real, r, r);
    ideal::lemma_assoc(1real / 2real, rr, x);
    assert(2real * area == rr * x);
    ideal::lemma_dist(rr, theta, sin(theta));
    ideal::lemma_assoc(2real, rr, cos(h) * sin(h));
    ideal::lemma_assoc(rr, 2real, cos(h) * sin(h));
    assert(rr * sin(theta) == o);
    assert(2real * area == rr * theta - o);
    ideal::lemma_dist(rr, arc.end.v, arc.start.v);
    lemma_moved_spans(px, py, ex, ey, u, w);
    if theta >= 0real {
        ideal::lemma_circle(theta, theta);
        assert(rr * x >= 0real) by (nonlinear_arith)
            requires
                rr == r * r,
                x >= 0real,
        ;
    }
}

/// A sector of a circle, the part between the arc and its chord together with what the chord spans
/// with the origin, measures the difference of what is swept at its two ends.
proof fn lemma_sector(arc: ProfileArc<Ideal>)
    requires
        moving::is_arc(arc),
        is_counted(arc),
    ensures
        ({
            let (u, w, r) = (arc.center.x.v, arc.center.y.v, arc.radius.v);
            let (p, q) = (arc.point_at(arc.start), arc.point_at(arc.end));
            let m = profile::segment_centroid(arc).times(profile::segment_area(arc));
            let (s, e) = (arc.start.v, arc.end.v);
            &&& 2real * profile::segment_area(arc).v + p.outer(q).v == swept_area(u, w, r, e)
                - swept_area(u, w, r, s)
            &&& 6real * m.x.v + polygon::x_term()(p, q).v == swept_x(u, w, r, e) - swept_x(
                u,
                w,
                r,
                s,
            )
            &&& 6real * m.y.v + polygon::y_term()(p, q).v == swept_y(u, w, r, e) - swept_y(
                u,
                w,
                r,
                s,
            )
        }),
{
    let (sin, cos) = ideal::circle();
    let (u, w, r) = (arc.center.x.v, arc.center.y.v, arc.radius.v);
    let (p, q) = (arc.point_at(arc.start), arc.point_at(arc.end));
    let theta = arc.swept().v;
    let h = theta * (1real / 2real);
    let b = arc.start.v + h;
    let rr = r * r;
    assert(arc.start.v == b - h && arc.end.v == b + h && theta == h + h);
    lemma_chord(r, b, h);
    let (px, py) = (r * cos(b - h), r * sin(b - h));
    let (ex, ey) = (r * cos(b + h), r * sin(b + h));
    ideal::lemma_dist(r, cos(b - h), sin(b - h));
    ideal::lemma_dist(r, cos(b + h), sin(b + h));
    assert(p.x.v == px + u && p.y.v == py + w);
    assert(q.x.v == ex + u && q.y.v == ey + w);
    let o = px * ey - ex * py;
    let x = theta - sin(theta);
    let area = profile::segment_area(arc).v;
    // The area.
    assert(area == ((1real / 2real * r) * r) * x);
    ideal::lemma_assoc(1real / 2real, r, r);
    ideal::lemma_assoc(1real / 2real, rr, x);
    assert(2real * area == rr * x);
    ideal::lemma_dist(rr, theta, sin(theta));
    ideal::lemma_assoc(2real, rr, cos(h) * sin(h));
    ideal::lemma_assoc(rr, 2real, cos(h) * sin(h));
    assert(rr * sin(theta) == o);
    assert(2real * area == rr * theta - o);
    ideal::lemma_dist(rr, arc.end.v, arc.start.v);
    lemma_moved_spans(px, py, ex, ey, u, w);
    // The moments.
    assert(x != 0real);
    let s = sin(h);
    let sss = s * (s * s);
    let d = profile::segment_distance(arc).v;
    assert(d == ((4real * r) * ((s * s) * s)) / (3real * x));
    lemma_segment_lever(r, x, s);
    let lever = d * area;
    let rrr = r * rr;
    assert(6real * lever == 4real * (rrr * sss));
    lemma_leverage(u, cos(b), d, area, rrr, sss);
    lemma_leverage(w, sin(b), d, area, rrr, sss);
    ideal::lemma_dist(rr, ey, py);
    ideal::lemma_dist(rr, px, ex);
    ideal::lemma_dist(u, rr * theta, o);
    ideal::lemma_dist(w, rr * theta, o);
    ideal::lemma_dist(u, rr * arc.end.v, rr * arc.start.v);
    ideal::lemma_dist(w, rr * arc.end.v, rr * arc.start.v);
    let m = profile::segment_centroid(arc).times(profile::segment_area(arc));
    assert(m.x.v == (u + cos(b) * d) * area);
    assert(m.y.v == (w + sin(b) * d) * area);
    assert(6real * m.x.v == 3real * (u * (rr * theta - o)) + 4real * (rrr * (cos(b) * sss)));
    assert(6real * m.y.v == 3real * (w * (rr * theta - o)) + 4real * (rrr * (sin(b) * sss)));
}

/// What the arm of a segment adds to its moment.
proof fn lemma_leverage(u: real, k: real, d: real, area: real, rrr: real, sss: real)
    requires
        6real * (d * area) == 4real * (rrr * sss),
    ensures
        6real * ((u + k * d) * area) == 3real * (u * (2real * area)) + 4real * (rrr * (k * sss)),
{
    ideal::lemma_dist(area, u, k * d);
    ideal::lemma_assoc(k, d, area);
    ideal::lemma_assoc(6real, k, d * area);
    ideal::lemma_assoc(k, 6real, d * area);
    ideal::lemma_assoc(4real, k, rrr * sss);
    ideal::lemma_assoc(k, 4real, rrr * sss);
    ideal::lemma_assoc(k, rrr, sss);
    ideal::lemma_assoc(rrr, k, sss);
    ideal::lemma_assoc(2real, u, area);
    ideal::lemma_assoc(u, 2real, area);
}

/// What a chord spans with the origin, and the terms of its first moments, once its circle is moved
/// by `u` and `w`.
proof fn lemma_moved_spans(a: real, b: real, c: real, d: real, u: real, w: real)
    ensures
        ({
            let o = a * d - c * b;
            let moved = (a + u) * (d + w) - (c + u) * (b + w);
            &&& moved == o + ((u * d - w * c) - (u * b - w * a))
            &&& ((a + u) + (c + u)) * moved == (a + c) * o + 3real * (u * o) + ((u * (c * d) + 2real
                * (u * (u * d))) - (u * (a * b) + 2real * (u * (u * b)))) - (w * ((c + u) * (c + u))
                - w * ((a + u) * (a + u)))
            &&& ((b + w) + (d + w)) * moved == (b + d) * o + 3real * (w * o) - ((w * (d * c) + 2real
                * (w * (w * c))) - (w * (b * a) + 2real * (w * (w * a)))) + (u * ((d + w) * (d + w))
                - u * ((b + w) * (b + w)))
        }),
{
    let o = a * d - c * b;
    let (a1, c1, b1, d1) = (a + u, c + u, b + w, d + w);
    let moved = a1 * d1 - c1 * b1;
    ideal::lemma_foil(a, u, d, w);
    ideal::lemma_foil(c, u, b, w);
    assert(moved == o + ((u * d - w * c) - (u * b - w * a))) by {
        ideal::lemma_dist(w, a, c);
        ideal::lemma_dist(u, b, d);
    }
    // Along x first, and then along y, which only adds a step of the square of x.
    moving::lemma_moved_x(a, b, c, d, u);
    let o1 = a1 * d - c1 * b;
    ideal::lemma_dist(a1, d, w);
    ideal::lemma_dist(c1, b, w);
    ideal::lemma_dist(w, c1, a1);
    assert(moved == o1 - w * (c1 - a1));
    let s = a1 + c1;
    ideal::lemma_dist(s, o1, w * (c1 - a1));
    ideal::lemma_assoc(w, s, c1 - a1);
    lemma_squares(a1, c1);
    ideal::lemma_dist(w, c1 * c1, a1 * a1);
    assert((a1 + c1) * moved == (a + c) * o + 3real * (u * o) + ((u * (c * d) + 2real * (u * (u
        * d))) - (u * (a * b) + 2real * (u * (u * b)))) - (w * (c1 * c1) - w * (a1 * a1)));
    // Along y first, and then along x, which only adds a step of the square of y.
    moving::lemma_moved_x(b, a, d, c, w);
    let o2 = a * d1 - c * b1;
    assert(b1 * c - d1 * a == -o2) by {
        ideal::lemma_dist(c, b1, d1);
        ideal::lemma_dist(a, b1, d1);
    }
    assert(b * c - d * a == -o) by {
        ideal::lemma_dist(c, b, d);
        ideal::lemma_dist(a, b, d);
    }
    ideal::lemma_dist(b1 + d1, o2, 0real);
    ideal::lemma_dist(b + d, o, 0real);
    ideal::lemma_dist(w, o, 0real);
    ideal::lemma_dist(d1, a, u);
    ideal::lemma_dist(b1, c, u);
    ideal::lemma_dist(u, d1, b1);
    assert(moved == o2 + u * (d1 - b1));
    let v = b1 + d1;
    ideal::lemma_dist(v, o2, u * (d1 - b1));
    ideal::lemma_assoc(u, v, d1 - b1);
    lemma_squares(b1, d1);
    ideal::lemma_dist(u, d1 * d1, b1 * b1);
    assert((b1 + d1) * moved == (b + d) * o + 3real * (w * o) - ((w * (d * c) + 2real * (w * (w
        * c))) - (w * (b * a) + 2real * (w * (w * a)))) + (u * (d1 * d1) - u * (b1 * b1)));
}

proof fn lemma_squares(a: real, c: real)
    ensures
        (a + c) * (c - a) == c * c - a * a,
{
    ideal::lemma_dist(c - a, a, c);
    ideal::lemma_dist(a, c, a);
    ideal::lemma_dist(c, c, a);
}

/// The inside of a polygon with nothing rounded off to zero.
pub open spec fn measured(poly: Seq<Vector2<Ideal>>) -> Region<Ideal> {
    Region {
        area: polygon::signed_area(poly),
        moment: Vector2 {
            x: polygon::loop_sum(poly, polygon::x_term()).over(Ideal::of_count(6)),
            y: polygon::loop_sum(poly, polygon::y_term()).over(Ideal::of_count(6)),
        },
    }
}

/// Is the polygon taken for what it measures, with neither its area nor its centroid rounded off to
/// zero?
pub open spec fn is_measured(poly: Seq<Vector2<Ideal>>) -> bool {
    Region::inside(poly) == measured(poly)
}

/// A polygon is taken for what it measures where it has an area to speak of and its centroid is not
/// snapped, and where it has no third vertex.
pub proof fn law_when_measured(poly: Seq<Vector2<Ideal>>)
    requires
        loops::has_points(poly),
        poly.len() < 3 || (!polygon::is_flat(poly) && moving::is_unsnapped(poly)),
    ensures
        is_measured(poly),
{
    loops::lemma_terms();
    loops::lemma_loop_sum(poly, polygon::area_term());
    loops::lemma_loop_sum(poly, polygon::x_term());
    loops::lemma_loop_sum(poly, polygon::y_term());
    let a = polygon::loop_sum(poly, polygon::area_term()).v;
    let x = polygon::loop_sum(poly, polygon::x_term()).v;
    let y = polygon::loop_sum(poly, polygon::y_term()).v;
    let h = polygon::half_value::<Ideal>().v;
    if poly.len() < 3 {
        lemma_two_vertices(poly, polygon::area_term());
        lemma_two_vertices(poly, polygon::x_term());
        lemma_two_vertices(poly, polygon::y_term());
        moving::lemma_zero(h);
        assert(0real / 6real == 0real);
        assert(Ideal::of_count(6).v == 6real);
        assert(measured(poly).moment == Vector2::<Ideal>::origin());
        assert(measured(poly).area == ideal::number(0real));
    } else {
        assert(h == 1real / 2real);
        assert(Ideal::of_count(6).v == 6real);
        lemma_sixth(x, a);
        lemma_sixth(y, a);
    }
}

proof fn lemma_sixth(x: real, a: real)
    requires
        a != 0real,
    ensures
        (x / (3real * a)) * (a * (1real / 2real)) == x / 6real,
{
    let c = x / (3real * a);
    assert(c * (3real * a) == x) by (nonlinear_arith)
        requires
            c == x / (3real * a),
            a != 0real,
    ;
    ideal::lemma_assoc(3real, c, a);
    ideal::lemma_assoc(1real / 2real, c, a);
}

/// There is nothing inside a loop of two vertices or fewer.
pub proof fn lemma_two_vertices(
    poly: Seq<Vector2<Ideal>>,
    term: spec_fn(Vector2<Ideal>, Vector2<Ideal>) -> Ideal,
)
    requires
        loops::has_points(poly),
        loops::is_directed(term),
        poly.len() < 3,
    ensures
        polygon::loop_sum(poly, term) == ideal::number(0real),
{
    loops::lemma_loop_sum(poly, term);
    let e = loops::edge_values(poly, term);
    reveal_with_fuel(series::sum, 3);
    if poly.len() == 1 {
        polygon::lemma_next(0, 1);
        assert(loops::is_point(poly[0]));
        assert(term(poly[0], poly[0]).v == -term(poly[0], poly[0]).v);
    } else if poly.len() == 2 {
        polygon::lemma_next(0, 2);
        polygon::lemma_next(1, 2);
        assert(loops::is_point(poly[0]) && loops::is_point(poly[1]));
        assert(term(poly[1], poly[0]).v == -term(poly[0], poly[1]).v);
    }
}

/// The part of the arc before the angle `m`.
pub open spec fn before(arc: ProfileArc<Ideal>, m: Ideal) -> ProfileArc<Ideal> {
    ProfileArc { end: m, ..arc }
}

/// The part of the arc behind the angle `m`.
pub open spec fn behind(arc: ProfileArc<Ideal>, m: Ideal) -> ProfileArc<Ideal> {
    ProfileArc { start: m, ..arc }
}

/// A straight-edged core, and the arcs over its chords.
pub struct Stage {
    pub core: Seq<Vector2<Ideal>>,
    pub arcs: Seq<ProfileArc<Ideal>>,
}

impl Stage {
    /// The region that it makes up.
    pub open spec fn region(self) -> Region<Ideal> {
        Region::inside(self.core).with_segments(self.arcs)
    }

    /// Is it one of real numbers, and taken for what it measures?
    pub open spec fn is_sound(self) -> bool {
        &&& loops::has_points(self.core)
        &&& moving::has_arcs(self.arcs)
        &&& is_measured(self.core)
        &&& forall|j: int| 0 <= j < self.arcs.len() ==> is_counted(#[trigger] self.arcs[j])
    }

    /// Is `other` the same with arc `j`, which stands over the edge of the core from its `i`-th
    /// vertex on, cut in two at the angle `m`?
    pub open spec fn is_cut(self, other: Stage, i: int, j: int, m: Ideal) -> bool {
        let arc = self.arcs[j];
        &&& 0 <= j < self.arcs.len()
        &&& 0 <= i < self.core.len()
        &&& m.side == 0
        &&& self.core[i] == arc.point_at(arc.start)
        &&& self.core[(i + 1) % self.core.len() as int] == arc.point_at(arc.end)
        &&& other.core == self.core.insert(i + 1, arc.point_at(m))
        &&& other.arcs == self.arcs.take(j) + seq![before(arc, m), behind(arc, m)] + self.arcs.skip(
            j + 1,
        )
    }
}

/// The region, with so much more area and so much more moment.
spec fn enlarged(r: Region<Ideal>, a: real, x: real, y: real) -> Region<Ideal> {
    Region {
        area: ideal::number(r.area.v + a),
        moment: Vector2 {
            x: ideal::number(r.moment.x.v + x),
            y: ideal::number(r.moment.y.v + y),
        },
    }
}

spec fn is_region(r: Region<Ideal>) -> bool {
    r.area.side == 0 && loops::is_point(r.moment)
}

proof fn lemma_enlarged(r: Region<Ideal>, arcs: Seq<ProfileArc<Ideal>>, a: real, x: real, y: real)
    requires
        is_region(r),
        moving::has_arcs(arcs),
    ensures
        enlarged(r, a, x, y).with_segments(arcs) == enlarged(r.with_segments(arcs), a, x, y),
        is_region(r.with_segments(arcs)),
    decreases arcs.len(),
{
    if arcs.len() > 0 {
        let rest = arcs.drop_last();
        assert(moving::has_arcs(rest)) by {
            assert forall|j: int| 0 <= j < rest.len() implies moving::is_arc(#[trigger] rest[j]) by {
                assert(rest[j] == arcs[j]);
            }
        }
        lemma_enlarged(r, rest, a, x, y);
        assert(moving::is_arc(arcs[arcs.len() - 1]));
    }
}

proof fn lemma_joined(r: Region<Ideal>, a: Seq<ProfileArc<Ideal>>, b: Seq<ProfileArc<Ideal>>)
    ensures
        r.with_segments(a + b) == r.with_segments(a).with_segments(b),
    decreases b.len(),
{
    if b.len() > 0 {
        lemma_joined(r, a, b.drop_last());
        assert((a + b).drop_last() =~= a + b.drop_last());
        assert((a + b).last() == b.last());
    } else {
        assert(a + b =~= a);
    }
}

/// The area and the centroid of a profile depend on its region, not on how its boundary is cut into
/// arcs: cutting an arc in two leaves the region as it is.
pub proof fn law_cut_keeps_region(stage: Stage, other: Stage, i: int, j: int, m: Ideal)
    requires
        stage.is_sound(),
        other.is_sound(),
        stage.is_cut(other, i, j, m),
    ensures
        other.region() == stage.region(),
{
    let arc = stage.arcs[j];
    let (first, second) = (before(arc, m), behind(arc, m));
    let (a, b) = (stage.arcs.take(j), stage.arcs.skip(j + 1));
    let n = stage.core.len() as int;
    assert(stage.arcs =~= a + seq![arc] + b);
    assert(other.arcs[j] == first);
    assert(other.arcs[j + 1] == second);
    assert(moving::is_arc(first) && moving::is_arc(second) && moving::is_arc(arc));
    assert(is_counted(first) && is_counted(second) && is_counted(arc));
    assert(moving::has_arcs(a)) by {
        assert forall|k: int| 0 <= k < a.len() implies moving::is_arc(#[trigger] a[k]) by {
            assert(a[k] == stage.arcs[k]);
        }
    }
    // The core gains a triangle.
    let (p, q, s) = (arc.point_at(arc.start), arc.point_at(m), arc.point_at(arc.end));
    loops::lemma_terms();
    loops::lemma_inserted_sum(stage.core, polygon::area_term(), i, q);
    loops::lemma_inserted_sum(stage.core, polygon::x_term(), i, q);
    loops::lemma_inserted_sum(stage.core, polygon::y_term(), i, q);
    loops::lemma_loop_sum(stage.core, polygon::area_term());
    loops::lemma_loop_sum(stage.core, polygon::x_term());
    loops::lemma_loop_sum(stage.core, polygon::y_term());
    let (r, r2) = (Region::inside(stage.core), Region::inside(other.core));
    let da = (p.outer(q).v + q.outer(s).v - p.outer(s).v) / 2real;
    let dx = (polygon::x_term()(p, q).v + polygon::x_term()(q, s).v - polygon::x_term()(p, s).v)
        / 6real;
    let dy = (polygon::y_term()(p, q).v + polygon::y_term()(q, s).v - polygon::y_term()(p, s).v)
        / 6real;
    assert(r2 == enlarged(r, da, dx, dy)) by {
        let h = polygon::half_value::<Ideal>().v;
        let a = polygon::loop_sum(stage.core, polygon::area_term()).v;
        assert(h == 1real / 2real);
        ideal::lemma_dist(h, a, 2real * da);
        assert((2real * da) * h == da);
        assert(Ideal::of_count(6).v == 6real);
        moving::lemma_over_sum(
            polygon::loop_sum(stage.core, polygon::x_term()).v,
            6real * dx,
            6real,
        );
        moving::lemma_over_sum(
            polygon::loop_sum(stage.core, polygon::y_term()).v,
            6real * dy,
            6real,
        );
        assert((6real * dx) / 6real == dx);
        assert((6real * dy) / 6real == dy);
        assert(r2.area.v == r.area.v + da);
        assert(r2.moment.x.v == r.moment.x.v + dx);
        assert(r2.moment.y.v == r.moment.y.v + dy);
    }
    // The segments lose it.
    lemma_sector(arc);
    lemma_sector(first);
    lemma_sector(second);
    lemma_enlarged(r, a, da, dx, dy);
    let base = r.with_segments(a);
    let base2 = r2.with_segments(a);
    reveal_with_fuel(Region::with_segments, 3);
    let pair = seq![first, second];
    assert(pair.drop_last() =~= seq![first]);
    assert(seq![first].drop_last() =~= Seq::empty());
    assert(seq![arc].drop_last() =~= Seq::empty());
    assert(base2.with_segments(pair) == base2.with_segment(first).with_segment(second));
    assert(base.with_segments(seq![arc]) == base.with_segment(arc));
    assert(base2.with_segments(pair) == base.with_segments(seq![arc]));
    lemma_joined(r, a + seq![arc], b);
    lemma_joined(r, a, seq![arc]);
    lemma_joined(r2, a + pair, b);
    lemma_joined(r2, a, pair);
}

/// A shape as its straight-edged core and the arcs over its chords.
pub open spec fn stage_of(shape: ExtrudedProfile<Ideal>) -> Stage {
    Stage { core: shape.straight_core(), arcs: shape.arcs@ }
}

/// Cutting an arc of a shape in two leaves its area and its centroid as they are.
pub proof fn law_cut_keeps_centroid(
    shape: ExtrudedProfile<Ideal>,
    other: ExtrudedProfile<Ideal>,
    i: int,
    j: int,
    m: Ideal,
)
    requires
        stage_of(shape).is_sound(),
        stage_of(other).is_sound(),
        stage_of(shape).is_cut(stage_of(other), i, j, m),
    ensures
        other.exact_area() == shape.exact_area(),
        other.exact_centroid() == shape.exact_centroid(),
{
    law_cut_keeps_region(stage_of(shape), stage_of(other), i, j, m);
}

/// The core counts with its area at its centroid, as that is reported.
pub proof fn law_core_counts_at_its_centroid(poly: Seq<Vector2<Ideal>>)
    requires
        poly.len() >= 3,
    ensures
        ({
            let r = Region::inside(poly);
            let c = polygon::centroid_of(poly);
            &&& r.area == polygon::area_of(poly)
            &&& r.moment.x.v == c.x.v * polygon::area_of(poly).v
            &&& r.moment.y.v == c.y.v * polygon::area_of(poly).v
        }),
{
}

} // verus!
