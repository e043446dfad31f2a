//! What moving a profile does to its section, but for rounding.
use vstd::prelude::*;

use crate::arc::ProfileArc;
use crate::ideal;
use crate::ideal::Ideal;
use crate::loops;
use crate::polygon;
use crate::profile;
use crate::profile::{ExtrudedProfile, Region};
use crate::scalar::Scalar;
use crate::series;
use crate::vector::Vector2;
use crate::winding;

verus! {

/// The loop, moved by `t`.
pub open spec fn moved(poly: Seq<Vector2<Ideal>>, t: Vector2<Ideal>) -> Seq<Vector2<Ideal>> {
    poly.map_values(|p: Vector2<Ideal>| p.plus(t))
}

/// Does moving an edge by `t` change its term by multiples of its lower moments and by a step
/// of `g`, which adds up to nothing around a loop?
spec fn is_shifted(
    term: spec_fn(Vector2<Ideal>, Vector2<Ideal>) -> Ideal,
    t: Vector2<Ideal>,
    alpha: real,
    beta: real,
    gamma: real,
    g: spec_fn(Vector2<Ideal>) -> real,
) -> bool {
    forall|p: Vector2<Ideal>, q: Vector2<Ideal>|
        loops::is_point(p) && loops::is_point(q) ==> (#[trigger] term(p.plus(t), q.plus(t))).v
            == term(p, q).v + alpha * polygon::x_term()(p, q).v + beta * polygon::y_term()(p, q).v
            + gamma * polygon::area_term()(p, q).v + (g(q) - g(p))
}

proof fn lemma_shifted_sum(
    poly: Seq<Vector2<Ideal>>,
    term: spec_fn(Vector2<Ideal>, Vector2<Ideal>) -> Ideal,
    t: Vector2<Ideal>,
    alpha: real,
    beta: real,
    gamma: real,
    g: spec_fn(Vector2<Ideal>) -> real,
)
    requires
        loops::has_points(poly),
        loops::is_point(t),
        loops::is_directed(term),
        is_shifted(term, t, alpha, beta, gamma, g),
    ensures
        polygon::loop_sum(moved(poly, t), term) == ideal::number(
            polygon::loop_sum(poly, term).v + alpha * polygon::loop_sum(poly, polygon::x_term()).v
                + beta * polygon::loop_sum(poly, polygon::y_term()).v + gamma * polygon::loop_sum(
                poly,
                polygon::area_term(),
            ).v,
        ),
{
    let n = poly.len();
    let image = moved(poly, t);
    loops::lemma_terms();
    assert(loops::has_points(image)) by {
        assert forall|i: int| 0 <= i < n implies loops::is_point(#[trigger] image[i]) by {
            assert(loops::is_point(poly[i]));
        }
    }
    loops::lemma_loop_sum(poly, term);
    loops::lemma_loop_sum(poly, polygon::x_term());
    loops::lemma_loop_sum(poly, polygon::y_term());
    loops::lemma_loop_sum(poly, polygon::area_term());
    loops::lemma_loop_sum(image, term);
    let e = loops::edge_values(poly, term);
    let ex = loops::edge_values(poly, polygon::x_term());
    let ey = loops::edge_values(poly, polygon::y_term());
    let ea = loops::edge_values(poly, polygon::area_term());
    let ax = |i: int| alpha * ex(i);
    let cy = |i: int| beta * ey(i);
    let ca = |i: int| gamma * ea(i);
    let at = |i: int| g(poly[i % n as int]);
    let step = |i: int| at(i + 1) - at(i);
    let s1 = |i: int| e(i) + ax(i);
    let s2 = |i: int| s1(i) + cy(i);
    let s3 = |i: int| s2(i) + ca(i);
    let s4 = |i: int| s3(i) + step(i);
    assert forall|i: int| 0 <= i < n implies #[trigger] loops::edge_values(image, term)(i) == s4(
        i,
    ) by {
        polygon::lemma_next(i, n as int);
        vstd::arithmetic::div_mod::lemma_small_mod(i as nat, n);
        let (p, q) = (poly[i], poly[(i + 1) % n as int]);
        assert(loops::is_point(p) && loops::is_point(q));
        assert(image[i] == p.plus(t) && image[(i + 1) % n as int] == q.plus(t));
        assert(term(p.plus(t), q.plus(t)).v == s4(i));
    }
    series::lemma_same(loops::edge_values(image, term), s4, n);
    series::lemma_plus(s3, step, n);
    series::lemma_plus(s2, ca, n);
    series::lemma_plus(s1, cy, n);
    series::lemma_plus(e, ax, n);
    series::lemma_scaled(alpha, ex, n);
    series::lemma_scaled(beta, ey, n);
    series::lemma_scaled(gamma, ea, n);
    series::lemma_telescopes(at, n);
    if n > 0 {
        vstd::arithmetic::div_mod::lemma_mod_self_0(n as int);
        vstd::arithmetic::div_mod::lemma_small_mod(0, n);
    }
}

/// The coordinates of an edge, what it spans with the origin, and what becomes of that when it is
/// moved by `u` along x.
pub open spec fn cross(a: real, b: real, c: real, d: real) -> real {
    a * d - c * b
}

proof fn lemma_moved_cross(a: real, b: real, c: real, d: real, u: real)
    ensures
        cross(a + u, b, c + u, d) == cross(a, b, c, d) + u * (d - b),
        u * (d - b) == u * d - u * b,
{
    ideal::lemma_dist(d, a, u);
    ideal::lemma_dist(b, c, u);
    ideal::lemma_dist(u, d, -b);
}

proof fn lemma_steps(a: real, b: real, c: real, d: real)
    ensures
        (a + c) * (d - b) == cross(a, b, c, d) + (c * d - a * b),
        (b + d) * (d - b) == d * d - b * b,
{
    ideal::lemma_dist(d - b, a, c);
    ideal::lemma_dist(a, d, -b);
    ideal::lemma_dist(c, d, -b);
    ideal::lemma_dist(d - b, b, d);
    ideal::lemma_dist(b, d, -b);
    ideal::lemma_dist(d, d, -b);
}

/// Third powers around an edge.
proof fn lemma_cubic_steps(a: real, b: real, c: real, d: real)
    ensures
        (a * a + a * c + c * c) * (d - b) == (a + c) * cross(a, b, c, d) + (c * (c * d) - a * (a
            * b)),
        (b * b + b * d + d * d) * (d - b) == d * (d * d) - b * (b * b),
{
    let e = d - b;
    let o = cross(a, b, c, d);
    ideal::lemma_dist(e, a * a + a * c, c * c);
    ideal::lemma_dist(e, a * a, a * c);
    ideal::lemma_dist(a * a, d, b);
    ideal::lemma_dist(a * c, d, b);
    ideal::lemma_dist(c * c, d, b);
    ideal::lemma_assoc(a, a, d);
    ideal::lemma_assoc(a, a, b);
    ideal::lemma_assoc(a, c, d);
    ideal::lemma_assoc(a, c, b);
    ideal::lemma_assoc(c, c, d);
    ideal::lemma_assoc(c, c, b);
    ideal::lemma_dist(o, a, c);
    ideal::lemma_dist(a, a * d, c * b);
    ideal::lemma_dist(c, a * d, c * b);
    ideal::lemma_assoc(c, a, d);
    ideal::lemma_dist(e, b * b + b * d, d * d);
    ideal::lemma_dist(e, b * b, b * d);
    ideal::lemma_dist(b * b, d, b);
    ideal::lemma_dist(b * d, d, b);
    ideal::lemma_dist(d * d, d, b);
    ideal::lemma_assoc(b, b, d);
    ideal::lemma_assoc(b, d, d);
    ideal::lemma_assoc(b, d, b);
    ideal::lemma_assoc(d, d, b);
}

/// Mixed third powers around an edge.
proof fn lemma_mixed_steps(a: real, b: real, c: real, d: real)
    ensures
        (a * d + 2real * (a * b) + 2real * (c * d) + c * b) * (d - b) == (b + d) * cross(a, b, c, d)
            + 2real * (c * (d * d) - a * (b * b)),
{
    let e = d - b;
    let o = cross(a, b, c, d);
    let (ad, ab, cd, cb) = (a * d, a * b, c * d, c * b);
    ideal::lemma_dist(e, ad + 2real * ab + 2real * cd, cb);
    ideal::lemma_dist(e, ad + 2real * ab, 2real * cd);
    ideal::lemma_dist(e, ad, 2real * ab);
    ideal::lemma_assoc(2real, ab, e);
    ideal::lemma_assoc(2real, cd, e);
    ideal::lemma_dist(ad, d, b);
    ideal::lemma_dist(ab, d, b);
    ideal::lemma_dist(cd, d, b);
    ideal::lemma_dist(cb, d, b);
    ideal::lemma_assoc(a, d, d);
    ideal::lemma_assoc(a, d, b);
    ideal::lemma_assoc(a, b, b);
    ideal::lemma_assoc(c, d, d);
    ideal::lemma_assoc(c, d, b);
    ideal::lemma_assoc(c, b, b);
    ideal::lemma_dist(o, b, d);
    ideal::lemma_dist(b, ad, cb);
    ideal::lemma_dist(d, ad, cb);
    ideal::lemma_assoc(b, a, d);
    ideal::lemma_assoc(b, c, b);
    ideal::lemma_assoc(d, a, d);
    ideal::lemma_assoc(d, c, b);
}

/// Any weight `w`, times what the moved edge spans with the origin.
proof fn lemma_weighted(w: real, o: real, u: real, e: real)
    ensures
        w * (o + u * e) == w * o + u * (w * e),
{
    ideal::lemma_dist(w, o, u * e);
    ideal::lemma_assoc(w, u, e);
}

/// The first moment along x of an edge that is moved along x.
pub proof fn lemma_moved_x(a: real, b: real, c: real, d: real, u: real)
    ensures
        ((a + u) + (c + u)) * cross(a + u, b, c + u, d) == (a + c) * cross(a, b, c, d) + 3real * (u
            * cross(a, b, c, d)) + ((u * (c * d) + 2real * (u * (u * d))) - (u * (a * b) + 2real * (u
            * (u * b)))),
{
    let o = cross(a, b, c, d);
    let e = d - b;
    let s = a + c;
    lemma_moved_cross(a, b, c, d, u);
    lemma_steps(a, b, c, d);
    let o1 = o + u * e;
    assert((a + u) + (c + u) == s + (u + u));
    ideal::lemma_dist(o1, s, u + u);
    ideal::lemma_dist(o1, u, u);
    lemma_weighted(s, o, u, e);
    ideal::lemma_dist(u, o, c * d - a * b);
    ideal::lemma_dist(u, c * d, a * b);
    ideal::lemma_dist(u, o, u * e);
    ideal::lemma_dist(u, u * d, u * b);
}

proof fn lemma_moved_y(a: real, b: real, c: real, d: real, u: real)
    ensures
        (b + d) * cross(a + u, b, c + u, d) == (b + d) * cross(a, b, c, d) + (u * (d * d) - u * (b
            * b)),
{
    lemma_moved_cross(a, b, c, d, u);
    lemma_steps(a, b, c, d);
    lemma_weighted(b + d, cross(a, b, c, d), u, d - b);
    ideal::lemma_dist(u, d * d, b * b);
}

proof fn lemma_moved_yy(a: real, b: real, c: real, d: real, u: real)
    ensures
        (b * b + b * d + d * d) * cross(a + u, b, c + u, d) == (b * b + b * d + d * d) * cross(
            a,
            b,
            c,
            d,
        ) + (u * (d * (d * d)) - u * (b * (b * b))),
{
    lemma_moved_cross(a, b, c, d, u);
    lemma_cubic_steps(a, b, c, d);
    lemma_weighted(b * b + b * d + d * d, cross(a, b, c, d), u, d - b);
    ideal::lemma_dist(u, d * (d * d), b * (b * b));
}

proof fn lemma_moved_xx(a: real, b: real, c: real, d: real, u: real)
    ensures
        ((a + u) * (a + u) + (a + u) * (c + u) + (c + u) * (c + u)) * cross(a + u, b, c + u, d) == (a
            * a + a * c + c * c) * cross(a, b, c, d) + 4real * (u * ((a + c) * cross(a, b, c, d)))
            + 6real * (u * (u * cross(a, b, c, d))) + ((u * (c * (c * d)) + 3real * (u * (u * (c * d)))
            + 3real * (u * (u * (u * d)))) - (u * (a * (a * b)) + 3real * (u * (u * (a * b))) + 3real
            * (u * (u * (u * b))))),
{
    let o = cross(a, b, c, d);
    let e = d - b;
    let s = a + c;
    let w = a * a + a * c + c * c;
    let (t, q) = (u * s, u * u);
    lemma_moved_cross(a, b, c, d, u);
    lemma_steps(a, b, c, d);
    lemma_cubic_steps(a, b, c, d);
    let o1 = o + u * e;
    // The weight.
    ideal::lemma_dist(a + u, a, u);
    ideal::lemma_dist(a + u, c, u);
    ideal::lemma_dist(c + u, c, u);
    ideal::lemma_dist(a, a, u);
    ideal::lemma_dist(u, a, u);
    ideal::lemma_dist(c, a, u);
    ideal::lemma_dist(c, c, u);
    ideal::lemma_dist(u, c, u);
    ideal::lemma_dist(u, a, c);
    let w1 = w + (t + t + t) + (q + q + q);
    assert((a + u) * (a + u) + (a + u) * (c + u) + (c + u) * (c + u) == w1);
    // The product.
    ideal::lemma_dist(o1, w + (t + t + t), q + q + q);
    ideal::lemma_dist(o1, w, t + t + t);
    ideal::lemma_dist(o1, t + t, t);
    ideal::lemma_dist(o1, t, t);
    ideal::lemma_dist(o1, q + q, q);
    ideal::lemma_dist(o1, q, q);
    lemma_weighted(w, o, u, e);
    lemma_weighted(s, o, u, e);
    let d3 = c * (c * d) - a * (a * b);
    let d2 = c * d - a * b;
    ideal::lemma_dist(u, s * o, d3);
    ideal::lemma_dist(u, c * (c * d), a * (a * b));
    ideal::lemma_assoc(u, s, o1);
    ideal::lemma_dist(u, s * o, u * (o + d2));
    ideal::lemma_dist(u, o, d2);
    ideal::lemma_dist(u, u * o, u * d2);
    ideal::lemma_dist(u, c * d, a * b);
    ideal::lemma_dist(u, u * (c * d), u * (a * b));
    ideal::lemma_assoc(u, u, o1);
    ideal::lemma_dist(u, o, u * e);
    ideal::lemma_dist(u, u * o, u * (u * e));
    ideal::lemma_dist(u, u * d, u * b);
    ideal::lemma_dist(u, u * (u * d), u * (u * b));
}

proof fn lemma_moved_xy(a: real, b: real, c: real, d: real, u: real)
    ensures
        ((a + u) * d + 2real * ((a + u) * b) + 2real * ((c + u) * d) + (c + u) * b) * cross(
            a + u,
            b,
            c + u,
            d,
        ) == (a * d + 2real * (a * b) + 2real * (c * d) + c * b) * cross(a, b, c, d) + 4real * (u * ((
        b + d) * cross(a, b, c, d))) + ((2real * (u * (c * (d * d))) + 3real * (u * (u * (d * d))))
            - (2real * (u * (a * (b * b))) + 3real * (u * (u * (b * b))))),
{
    let o = cross(a, b, c, d);
    let e = d - b;
    let s = b + d;
    let w = a * d + 2real * (a * b) + 2real * (c * d) + c * b;
    let t = u * s;
    lemma_moved_cross(a, b, c, d, u);
    lemma_steps(a, b, c, d);
    lemma_mixed_steps(a, b, c, d);
    let o1 = o + u * e;
    ideal::lemma_dist(d, a, u);
    ideal::lemma_dist(b, a, u);
    ideal::lemma_dist(d, c, u);
    ideal::lemma_dist(b, c, u);
    ideal::lemma_dist(u, b, d);
    let w1 = w + (t + t + t);
    assert((a + u) * d + 2real * ((a + u) * b) + 2real * ((c + u) * d) + (c + u) * b == w1);
    ideal::lemma_dist(o1, w, t + t + t);
    ideal::lemma_dist(o1, t + t, t);
    ideal::lemma_dist(o1, t, t);
    lemma_weighted(w, o, u, e);
    lemma_weighted(s, o, u, e);
    let d3 = c * (d * d) - a * (b * b);
    ideal::lemma_dist(u, s * o, 2real * d3);
    ideal::lemma_assoc(2real, u, d3);
    ideal::lemma_dist(u, c * (d * d), a * (b * b));
    ideal::lemma_assoc(u, s, o1);
    let d2 = d * d - b * b;
    ideal::lemma_dist(u, s * o, u * d2);
    ideal::lemma_dist(u, d * d, b * b);
    ideal::lemma_dist(u, u * (d * d), u * (b * b));
}

/// Nothing comes of multiplying by zero.
pub proof fn lemma_zero(x: real)
    by (nonlinear_arith)
    ensures
        0real * x == 0real,
{
}

/// What moving a loop along x does to the sums over its edges.
proof fn lemma_moved_sums(poly: Seq<Vector2<Ideal>>, u: real)
    requires
        loops::has_points(poly),
    ensures
        ({
            let other = moved(poly, Vector2 { x: ideal::number(u), y: ideal::number(0real) });
            let a = polygon::loop_sum(poly, polygon::area_term()).v;
            let x = polygon::loop_sum(poly, polygon::x_term()).v;
            let y = polygon::loop_sum(poly, polygon::y_term()).v;
            let xx = polygon::loop_sum(poly, polygon::xx_term()).v;
            let yy = polygon::loop_sum(poly, polygon::yy_term()).v;
            let xy = polygon::loop_sum(poly, polygon::xy_term()).v;
            &&& polygon::loop_sum(other, polygon::area_term()) == ideal::number(a)
            &&& polygon::loop_sum(other, polygon::x_term()) == ideal::number(x + (3real * u) * a)
            &&& polygon::loop_sum(other, polygon::y_term()) == ideal::number(y)
            &&& polygon::loop_sum(other, polygon::xx_term()) == ideal::number(
                xx + (4real * u) * x + (6real * (u * u)) * a,
            )
            &&& polygon::loop_sum(other, polygon::yy_term()) == ideal::number(yy)
            &&& polygon::loop_sum(other, polygon::xy_term()) == ideal::number(xy + (4real * u) * y)
        }),
{
    let t = Vector2 { x: ideal::number(u), y: ideal::number(0real) };
    let a = polygon::loop_sum(poly, polygon::area_term()).v;
    let x = polygon::loop_sum(poly, polygon::x_term()).v;
    let y = polygon::loop_sum(poly, polygon::y_term()).v;
    loops::lemma_terms();
    lemma_zero(a);
    lemma_zero(x);
    lemma_zero(y);
    let area_step = |p: Vector2<Ideal>| u * p.y.v;
    assert(is_shifted(polygon::area_term(), t, 0real, 0real, 0real, area_step)) by {
        assert forall|p: Vector2<Ideal>, q: Vector2<Ideal>|
            loops::is_point(p) && loops::is_point(q) implies (#[trigger] polygon::area_term()(
            p.plus(t),
            q.plus(t),
        )).v == polygon::area_term()(p, q).v + (0real) * polygon::x_term()(p, q).v + (0real)
            * polygon::y_term()(p, q).v + (0real) * polygon::area_term()(p, q).v + (area_step(q)
            - area_step(p)) by {
            let (a, b, c, d) = (p.x.v, p.y.v, q.x.v, q.y.v);
            let o = cross(a, b, c, d);
            lemma_zero(polygon::x_term()(p, q).v);
            lemma_zero(polygon::y_term()(p, q).v);
            lemma_zero(o);
            lemma_moved_cross(a, b, c, d, u);
        }
    }
    lemma_shifted_sum(poly, polygon::area_term(), t, 0real, 0real, 0real, area_step);
    let x_step = |p: Vector2<Ideal>| u * (p.x.v * p.y.v) + 2real * (u * (u * p.y.v));
    assert(is_shifted(polygon::x_term(), t, 0real, 0real, 3real * u, x_step)) by {
        assert forall|p: Vector2<Ideal>, q: Vector2<Ideal>|
            loops::is_point(p) && loops::is_point(q) implies (#[trigger] polygon::x_term()(
            p.plus(t),
            q.plus(t),
        )).v == polygon::x_term()(p, q).v + (0real) * polygon::x_term()(p, q).v + (0real)
            * polygon::y_term()(p, q).v + (3real * u) * polygon::area_term()(p, q).v + (x_step(q)
            - x_step(p)) by {
            let (a, b, c, d) = (p.x.v, p.y.v, q.x.v, q.y.v);
            let o = cross(a, b, c, d);
            lemma_zero(polygon::x_term()(p, q).v);
            lemma_zero(polygon::y_term()(p, q).v);
            lemma_zero(o);
            lemma_moved_x(a, b, c, d, u);
            ideal::lemma_assoc(3real, u, o);
        }
    }
    lemma_shifted_sum(poly, polygon::x_term(), t, 0real, 0real, 3real * u, x_step);
    let y_step = |p: Vector2<Ideal>| u * (p.y.v * p.y.v);
    assert(is_shifted(polygon::y_term(), t, 0real, 0real, 0real, y_step)) by {
        assert forall|p: Vector2<Ideal>, q: Vector2<Ideal>|
            loops::is_point(p) && loops::is_point(q) implies (#[trigger] polygon::y_term()(
            p.plus(t),
            q.plus(t),
        )).v == polygon::y_term()(p, q).v + (0real) * polygon::x_term()(p, q).v + (0real)
            * polygon::y_term()(p, q).v + (0real) * polygon::area_term()(p, q).v + (y_step(q)
            - y_step(p)) by {
            let (a, b, c, d) = (p.x.v, p.y.v, q.x.v, q.y.v);
            let o = cross(a, b, c, d);
            lemma_zero(polygon::x_term()(p, q).v);
            lemma_zero(polygon::y_term()(p, q).v);
            lemma_zero(o);
            lemma_moved_y(a, b, c, d, u);
        }
    }
    lemma_shifted_sum(poly, polygon::y_term(), t, 0real, 0real, 0real, y_step);
    let xx_step = |p: Vector2<Ideal>| u * (p.x.v * (p.x.v * p.y.v)) + 3real * (u * (u * (p.x.v * p.y.v))) + 3real * (u * (u * (u * p.y.v)));
    assert(is_shifted(polygon::xx_term(), t, 4real * u, 0real, 6real * (u * u), xx_step)) by {
        assert forall|p: Vector2<Ideal>, q: Vector2<Ideal>|
            loops::is_point(p) && loops::is_point(q) implies (#[trigger] polygon::xx_term()(
            p.plus(t),
            q.plus(t),
        )).v == polygon::xx_term()(p, q).v + (4real * u) * polygon::x_term()(p, q).v + (0real)
            * polygon::y_term()(p, q).v + (6real * (u * u)) * polygon::area_term()(p, q).v + (xx_step(q)
            - xx_step(p)) by {
            let (a, b, c, d) = (p.x.v, p.y.v, q.x.v, q.y.v);
            let o = cross(a, b, c, d);
            lemma_zero(polygon::x_term()(p, q).v);
            lemma_zero(polygon::y_term()(p, q).v);
            lemma_zero(o);
            lemma_moved_xx(a, b, c, d, u);
            ideal::lemma_assoc(4real, u, (a + c) * o);
            ideal::lemma_assoc(6real, u * u, o);
            ideal::lemma_assoc(u, u, o);
        }
    }
    lemma_shifted_sum(poly, polygon::xx_term(), t, 4real * u, 0real, 6real * (u * u), xx_step);
    let yy_step = |p: Vector2<Ideal>| u * (p.y.v * (p.y.v * p.y.v));
    assert(is_shifted(polygon::yy_term(), t, 0real, 0real, 0real, yy_step)) by {
        assert forall|p: Vector2<Ideal>, q: Vector2<Ideal>|
            loops::is_point(p) && loops::is_point(q) implies (#[trigger] polygon::yy_term()(
            p.plus(t),
            q.plus(t),
        )).v == polygon::yy_term()(p, q).v + (0real) * polygon::x_term()(p, q).v + (0real)
            * polygon::y_term()(p, q).v + (0real) * polygon::area_term()(p, q).v + (yy_step(q)
            - yy_step(p)) by {
            let (a, b, c, d) = (p.x.v, p.y.v, q.x.v, q.y.v);
            let o = cross(a, b, c, d);
            lemma_zero(polygon::x_term()(p, q).v);
            lemma_zero(polygon::y_term()(p, q).v);
            lemma_zero(o);
            lemma_moved_yy(a, b, c, d, u);
        }
    }
    lemma_shifted_sum(poly, polygon::yy_term(), t, 0real, 0real, 0real, yy_step);
    let xy_step = |p: Vector2<Ideal>| 2real * (u * (p.x.v * (p.y.v * p.y.v))) + 3real * (u * (u * (p.y.v * p.y.v)));
    assert(is_shifted(polygon::xy_term(), t, 0real, 4real * u, 0real, xy_step)) by {
        assert forall|p: Vector2<Ideal>, q: Vector2<Ideal>|
            loops::is_point(p) && loops::is_point(q) implies (#[trigger] polygon::xy_term()(
            p.plus(t),
            q.plus(t),
        )).v == polygon::xy_term()(p, q).v + (0real) * polygon::x_term()(p, q).v + (4real * u)
            * polygon::y_term()(p, q).v + (0real) * polygon::area_term()(p, q).v + (xy_step(q)
            - xy_step(p)) by {
            let (a, b, c, d) = (p.x.v, p.y.v, q.x.v, q.y.v);
            let o = cross(a, b, c, d);
            lemma_zero(polygon::x_term()(p, q).v);
            lemma_zero(polygon::y_term()(p, q).v);
            lemma_zero(o);
            lemma_moved_xy(a, b, c, d, u);
            ideal::lemma_assoc(4real, u, (b + d) * o);
            ideal::lemma_assoc(2real, a, b);
            ideal::lemma_assoc(2real, c, d);
            ideal::lemma_assoc(2real, a + u, b);
            ideal::lemma_assoc(2real, c + u, d);
        }
    }
    lemma_shifted_sum(poly, polygon::xy_term(), t, 0real, 4real * u, 0real, xy_step);
}

/// A quotient of a sum, term by term.
pub proof fn lemma_over_sum(x: real, y: real, d: real)
    by (nonlinear_arith)
    requires
        d != 0real,
    ensures
        (x + y) / d == x / d + y / d,
{
}

proof fn lemma_over_back(x: real, d: real)
    by (nonlinear_arith)
    requires
        d != 0real,
    ensures
        (x / d) * d == x,
        (x * d) / d == x,
        (d * x) / d == x,
{
}

/// The centroid of a moved loop, along the axis it is moved by.
proof fn lemma_moved_mean(x: real, a: real, u: real)
    requires
        a != 0real,
    ensures
        (x + (3real * u) * a) / (3real * a) == x / (3real * a) + u,
{
    ideal::lemma_assoc(3real, u, a);
    ideal::lemma_assoc(u, 3real, a);
    lemma_over_sum(x, (3real * u) * a, 3real * a);
    lemma_over_back(u, 3real * a);
}

/// The parallel-axis theorem: a second moment about the centroid does not change when the loop is
/// moved by `u`.
proof fn lemma_parallel_axis(a: real, x: real, xx: real, u: real)
    requires
        a != 0real,
    ensures
        ({
            let c = x / (3real * a);
            let area = a * (1real / 2real);
            (xx + (4real * u) * x + (6real * (u * u)) * a) / 12real - (area * (c + u)) * (c + u) == xx
                / 12real - (area * c) * c
        }),
{
    let c = x / (3real * a);
    let area = a * (1real / 2real);
    let m = a * c;
    lemma_over_back(x, 3real * a);
    ideal::lemma_assoc(3real, a, c);
    assert(x == 3real * m);
    lemma_over_sum(xx + (4real * u) * x, (6real * (u * u)) * a, 12real);
    lemma_over_sum(xx, (4real * u) * x, 12real);
    ideal::lemma_assoc(4real, u, x);
    ideal::lemma_assoc(3real, u, m);
    assert((4real * u) * x == (u * m) * 12real);
    lemma_over_back(u * m, 12real);
    let n = (u * u) * a;
    ideal::lemma_assoc(6real, u * u, a);
    assert((6real * (u * u)) * a == (n / 2real) * 12real);
    lemma_over_back(n / 2real, 12real);
    assert(area == a / 2real);
    ideal::lemma_dist(area, c, u);
    ideal::lemma_dist(area * c + area * u, c, u);
    ideal::lemma_dist(c, area * c, area * u);
    ideal::lemma_dist(u, area * c, area * u);
    let h = 1real / 2real;
    ideal::lemma_assoc(h, a, c);
    assert(area * c == h * m);
    ideal::lemma_assoc(h, m, u);
    ideal::lemma_assoc(h, a, u);
    ideal::lemma_assoc(h, a * u, c);
    ideal::lemma_assoc(h, a * u, u);
    ideal::lemma_assoc(a, u, c);
    ideal::lemma_assoc(u, a, c);
    ideal::lemma_assoc(a, u, u);
    ideal::lemma_dist(u * u, a, a);
}

/// The product moment about the centroid does not change either.
proof fn lemma_parallel_axes(a: real, x: real, y: real, xy: real, u: real)
    requires
        a != 0real,
    ensures
        ({
            let (c, e) = (x / (3real * a), y / (3real * a));
            let area = a * (1real / 2real);
            (xy + (4real * u) * y) / 24real - (area * (c + u)) * e == xy / 24real - (area * c) * e
        }),
{
    let (c, e) = (x / (3real * a), y / (3real * a));
    let area = a * (1real / 2real);
    let h = 1real / 2real;
    let m = a * e;
    lemma_over_back(y, 3real * a);
    ideal::lemma_assoc(3real, a, e);
    assert(y == 3real * m);
    lemma_over_sum(xy, (4real * u) * y, 24real);
    ideal::lemma_assoc(4real, u, y);
    ideal::lemma_assoc(3real, u, m);
    assert((4real * u) * y == ((u * m) / 2real) * 24real);
    lemma_over_back((u * m) / 2real, 24real);
    ideal::lemma_dist(area, c, u);
    ideal::lemma_dist(e, area * c, area * u);
    ideal::lemma_assoc(h, a, u);
    ideal::lemma_assoc(h, a * u, e);
    ideal::lemma_assoc(u, a, e);
    ideal::lemma_assoc(a, u, e);
}

/// Moving a polygon along x moves its centroid along, and changes neither its area nor its second
/// moments about the centroid.
proof fn lemma_moved_polygon(poly: Seq<Vector2<Ideal>>, u: real)
    requires
        loops::has_points(poly),
        polygon::loop_sum(poly, polygon::area_term()).v != 0real,
    ensures
        is_translate(
            poly,
            moved(poly, Vector2 { x: ideal::number(u), y: ideal::number(0real) }),
            Vector2 { x: ideal::number(u), y: ideal::number(0real) },
        ),
{
    let a = polygon::loop_sum(poly, polygon::area_term()).v;
    let x = polygon::loop_sum(poly, polygon::x_term()).v;
    let y = polygon::loop_sum(poly, polygon::y_term()).v;
    let xx = polygon::loop_sum(poly, polygon::xx_term()).v;
    let xy = polygon::loop_sum(poly, polygon::xy_term()).v;
    loops::lemma_terms();
    loops::lemma_loop_sum(poly, polygon::area_term());
    loops::lemma_loop_sum(poly, polygon::x_term());
    loops::lemma_loop_sum(poly, polygon::y_term());
    loops::lemma_loop_sum(poly, polygon::xx_term());
    loops::lemma_loop_sum(poly, polygon::yy_term());
    loops::lemma_loop_sum(poly, polygon::xy_term());
    lemma_moved_sums(poly, u);
    lemma_moved_mean(x, a, u);
    lemma_parallel_axis(a, x, xx, u);
    lemma_parallel_axes(a, x, y, xy, u);
}

/// Has `other` the area, the centroid and the second moments of `poly` moved by `t`?
pub open spec fn is_translate(
    poly: Seq<Vector2<Ideal>>,
    other: Seq<Vector2<Ideal>>,
    t: Vector2<Ideal>,
) -> bool {
    &&& polygon::loop_sum(other, polygon::area_term()) == polygon::loop_sum(
        poly,
        polygon::area_term(),
    )
    &&& polygon::raw_centroid(other) == polygon::raw_centroid(poly).plus(t)
    &&& polygon::central_xx(other) == polygon::central_xx(poly)
    &&& polygon::central_yy(other) == polygon::central_yy(poly)
    &&& polygon::central_xy(other) == polygon::central_xy(poly)
}

/// Moving a polygon moves its centroid along, and changes neither its area nor its second moments
/// about the centroid.
pub proof fn law_moved_polygon(poly: Seq<Vector2<Ideal>>, t: Vector2<Ideal>)
    requires
        loops::has_points(poly),
        loops::is_point(t),
        polygon::loop_sum(poly, polygon::area_term()).v != 0real,
    ensures
        is_translate(poly, moved(poly, t), t),
{
    let (u, w) = (t.x.v, t.y.v);
    let first = moved(poly, Vector2 { x: ideal::number(u), y: ideal::number(0real) });
    assert(loops::has_points(first)) by {
        assert forall|i: int| 0 <= i < first.len() implies loops::is_point(#[trigger] first[i]) by {
            assert(loops::is_point(poly[i]));
        }
    }
    let turned = loops::exchanged_loop(first);
    let second = moved(turned, Vector2 { x: ideal::number(w), y: ideal::number(0real) });
    lemma_moved_polygon(poly, u);
    loops::law_exchanged_polygon(first);
    lemma_moved_polygon(turned, w);
    assert(loops::has_points(second)) by {
        assert forall|i: int| 0 <= i < second.len() implies loops::is_point(
            #[trigger] second[i],
        ) by {
            assert(loops::is_point(turned[i]));
        }
    }
    loops::law_exchanged_polygon(second);
    assert(loops::exchanged_loop(second) =~= moved(poly, t)) by {
        assert forall|i: int| 0 <= i < poly.len() implies #[trigger] loops::exchanged_loop(
            second,
        )[i] == moved(poly, t)[i] by {
            assert(loops::is_point(poly[i]));
        }
    }
}

/// The arc, moved by `t`.
pub open spec fn moved_arc(arc: ProfileArc<Ideal>, t: Vector2<Ideal>) -> ProfileArc<Ideal> {
    ProfileArc { center: arc.center.plus(t), ..arc }
}

/// The arcs, moved by `t`.
pub open spec fn moved_arcs(
    arcs: Seq<ProfileArc<Ideal>>,
    t: Vector2<Ideal>,
) -> Seq<ProfileArc<Ideal>> {
    arcs.map_values(|a: ProfileArc<Ideal>| moved_arc(a, t))
}

/// Is the arc one of real numbers?
pub open spec fn is_arc(arc: ProfileArc<Ideal>) -> bool {
    loops::is_point(arc.center) && arc.radius.side == 0 && arc.start.side == 0 && arc.end.side == 0
}

/// Are all arcs of real numbers?
pub open spec fn has_arcs(arcs: Seq<ProfileArc<Ideal>>) -> bool {
    forall|j: int| 0 <= j < arcs.len() ==> is_arc(#[trigger] arcs[j])
}

/// Is the centroid of the polygon left as it is, not snapped?
pub open spec fn is_unsnapped(poly: Seq<Vector2<Ideal>>) -> bool {
    !polygon::is_flat(poly) ==> polygon::centroid_of(poly) == polygon::raw_centroid(poly)
}

proof fn lemma_moved_point(arc: ProfileArc<Ideal>, t: Vector2<Ideal>, angle: Ideal)
    requires
        is_arc(arc),
        loops::is_point(t),
    ensures
        loops::is_point(arc.point_at(angle)),
        moved_arc(arc, t).point_at(angle) == arc.point_at(angle).plus(t),
{
}

proof fn lemma_moved_points(
    vertices: Seq<Vector2<Ideal>>,
    arcs: Seq<ProfileArc<Ideal>>,
    t: Vector2<Ideal>,
)
    requires
        loops::has_points(vertices),
        has_arcs(arcs),
        loops::is_point(t),
    ensures
        profile::sampled_points(moved(vertices, t), moved_arcs(arcs, t)) == moved(
            profile::sampled_points(vertices, arcs),
            t,
        ),
        profile::chord_points(moved(vertices, t), moved_arcs(arcs, t)) == moved(
            profile::chord_points(vertices, arcs),
            t,
        ),
        loops::has_points(profile::sampled_points(vertices, arcs)),
        loops::has_points(profile::chord_points(vertices, arcs)),
        arcs.len() > 0 ==> profile::sampled_points(vertices, arcs).len() >= 2,
        arcs.len() > 0 ==> profile::chord_points(vertices, arcs).len() >= 2,
    decreases arcs.len(),
{
    if arcs.len() > 0 {
        let rest = arcs.drop_last();
        let arc = arcs[arcs.len() - 1];
        assert(has_arcs(rest)) by {
            assert forall|j: int| 0 <= j < rest.len() implies is_arc(#[trigger] rest[j]) by {
                assert(rest[j] == arcs[j]);
            }
        }
        lemma_moved_points(vertices, rest, t);
        assert(moved_arcs(arcs, t).drop_last() =~= moved_arcs(rest, t));
        assert(moved_arcs(arcs, t).last() == moved_arc(arc, t));
        assert(is_arc(arc));
        profile::law_two_samples(arc);
        let n = profile::sample_count(arc) as nat;
        let points = profile::samples(arc);
        let images = profile::samples(moved_arc(arc, t));
        assert(images =~= moved(points, t)) by {
            assert forall|k: int| 0 <= k < n implies #[trigger] images[k] == moved(points, t)[k] by {
                lemma_moved_point(
                    arc,
                    t,
                    arc.start.plus(
                        arc.swept().times(Ideal::of_count(k as nat).over(Ideal::of_count(n))),
                    ),
                );
            }
        }
        assert(loops::has_points(points)) by {
            assert forall|k: int| 0 <= k < n implies loops::is_point(#[trigger] points[k]) by {
                lemma_moved_point(
                    arc,
                    t,
                    arc.start.plus(
                        arc.swept().times(Ideal::of_count(k as nat).over(Ideal::of_count(n))),
                    ),
                );
            }
        }
        let sampled = profile::sampled_points(vertices, rest);
        assert(moved(sampled + points, t) =~= moved(sampled, t) + moved(points, t));
        lemma_moved_point(arc, t, arc.start);
        lemma_moved_point(arc, t, arc.end);
        let chords = profile::chord_points(vertices, rest);
        let (p, q) = (arc.point_at(arc.start), arc.point_at(arc.end));
        assert(moved(chords.push(p).push(q), t) =~= moved(chords, t).push(p.plus(t)).push(
            q.plus(t),
        ));
    }
}

proof fn lemma_moved_middle(points: Seq<Vector2<Ideal>>, t: Vector2<Ideal>)
    requires
        loops::has_points(points),
        loops::is_point(t),
    ensures
        loops::is_point(winding::middle(points)),
        points.len() > 0 ==> winding::middle(moved(points, t)) == winding::middle(points).plus(t),
{
    lemma_moved_total(points, t);
    let n = points.len() as real;
    if points.len() > 0 {
        lemma_over_sum(winding::total(points).x.v, n * t.x.v, n);
        lemma_over_sum(winding::total(points).y.v, n * t.y.v, n);
        lemma_over_back(t.x.v, n);
        lemma_over_back(t.y.v, n);
    }
}

proof fn lemma_moved_total(points: Seq<Vector2<Ideal>>, t: Vector2<Ideal>)
    requires
        loops::has_points(points),
        loops::is_point(t),
    ensures
        loops::is_point(winding::total(points)),
        loops::is_point(winding::total(moved(points, t))),
        winding::total(moved(points, t)).x.v == winding::total(points).x.v + points.len() as real
            * t.x.v,
        winding::total(moved(points, t)).y.v == winding::total(points).y.v + points.len() as real
            * t.y.v,
    decreases points.len(),
{
    if points.len() > 0 {
        let rest = points.drop_last();
        assert(loops::has_points(rest)) by {
            assert forall|i: int| 0 <= i < rest.len() implies loops::is_point(
                #[trigger] rest[i],
            ) by {
                assert(rest[i] == points[i]);
            }
        }
        lemma_moved_total(rest, t);
        assert(moved(points, t).drop_last() =~= moved(rest, t));
        assert(loops::is_point(points[points.len() - 1]));
        let n = rest.len() as real;
        assert(points.len() as real == n + 1real);
        ideal::lemma_dist(t.x.v, n, 1real);
        ideal::lemma_dist(t.y.v, n, 1real);
        assert(1real * t.x.v == t.x.v) by (nonlinear_arith);
        assert(1real * t.y.v == t.y.v) by (nonlinear_arith);
    } else {
        lemma_zero(t.x.v);
        lemma_zero(t.y.v);
    }
}

/// Moved points are seen from a moved place as the points are from the place.
proof fn lemma_moved_bearing(p: Vector2<Ideal>, c: Vector2<Ideal>, t: Vector2<Ideal>)
    requires
        loops::is_point(p),
        loops::is_point(c),
        loops::is_point(t),
    ensures
        winding::bearing(p.plus(t), c.plus(t)) == winding::bearing(p, c),
        winding::coincide(p.plus(t), c.plus(t)) == winding::coincide(p, c),
{
    assert(p.plus(t).minus(c.plus(t)) == p.minus(c));
}

proof fn lemma_moved_slot(
    sorted: Seq<Vector2<Ideal>>,
    b: Ideal,
    c: Vector2<Ideal>,
    t: Vector2<Ideal>,
)
    requires
        loops::has_points(sorted),
        loops::is_point(c),
        loops::is_point(t),
    ensures
        winding::slot(moved(sorted, t), b, c.plus(t)) == winding::slot(sorted, b, c),
        winding::slot(sorted, b, c) <= sorted.len(),
    decreases sorted.len(),
{
    if sorted.len() > 0 {
        let rest = sorted.drop_last();
        assert(loops::has_points(rest)) by {
            assert forall|i: int| 0 <= i < rest.len() implies loops::is_point(
                #[trigger] rest[i],
            ) by {
                assert(rest[i] == sorted[i]);
            }
        }
        lemma_moved_slot(rest, b, c, t);
        assert(moved(sorted, t).drop_last() =~= moved(rest, t));
        assert(loops::is_point(sorted[sorted.len() - 1]));
        lemma_moved_bearing(sorted.last(), c, t);
    }
}

/// Moved points are wound into the moved loop.
proof fn lemma_moved_wound(points: Seq<Vector2<Ideal>>, c: Vector2<Ideal>, t: Vector2<Ideal>)
    requires
        loops::has_points(points),
        loops::is_point(c),
        loops::is_point(t),
    ensures
        winding::wound(moved(points, t), c.plus(t)) == moved(winding::wound(points, c), t),
        loops::has_points(winding::wound(points, c)),
    decreases points.len(),
{
    if points.len() > 0 {
        let rest = points.drop_last();
        let p = points[points.len() - 1];
        assert(loops::has_points(rest)) by {
            assert forall|i: int| 0 <= i < rest.len() implies loops::is_point(
                #[trigger] rest[i],
            ) by {
                assert(rest[i] == points[i]);
            }
        }
        lemma_moved_wound(rest, c, t);
        assert(moved(points, t).drop_last() =~= moved(rest, t));
        assert(moved(points, t).last() == p.plus(t));
        assert(loops::is_point(p));
        let sorted = winding::wound(rest, c);
        lemma_moved_bearing(p, c, t);
        lemma_moved_slot(sorted, winding::bearing(p, c), c, t);
        let k = winding::slot(sorted, winding::bearing(p, c), c) as int;
        assert(moved(sorted.insert(k, p), t) =~= moved(sorted, t).insert(k, p.plus(t)));
        let w = sorted.insert(k, p);
        assert forall|i: int| 0 <= i < w.len() implies loops::is_point(#[trigger] w[i]) by {
            if i < k {
                assert(w[i] == sorted[i]);
            } else if i > k {
                assert(w[i] == sorted[i - 1]);
            }
        }
    } else {
        assert(moved(points, t) =~= points);
    }
}

proof fn lemma_moved_distinct(points: Seq<Vector2<Ideal>>, t: Vector2<Ideal>)
    requires
        loops::has_points(points),
        loops::is_point(t),
    ensures
        winding::distinct(moved(points, t)) == moved(winding::distinct(points), t),
        loops::has_points(winding::distinct(points)),
    decreases points.len(),
{
    if points.len() > 0 {
        let rest = points.drop_last();
        let p = points[points.len() - 1];
        assert(loops::has_points(rest)) by {
            assert forall|i: int| 0 <= i < rest.len() implies loops::is_point(
                #[trigger] rest[i],
            ) by {
                assert(rest[i] == points[i]);
            }
        }
        lemma_moved_distinct(rest, t);
        assert(moved(points, t).drop_last() =~= moved(rest, t));
        assert(loops::is_point(p));
        let kept = winding::distinct(rest);
        if kept.len() > 0 {
            assert(loops::is_point(kept[kept.len() - 1]));
            lemma_moved_bearing(p, kept.last(), t);
        }
        assert(moved(kept.push(p), t) =~= moved(kept, t).push(p.plus(t)));
    } else {
        assert(moved(points, t) =~= points);
    }
}

/// Is the region one of real numbers?
spec fn is_region(r: Region<Ideal>) -> bool {
    r.area.side == 0 && loops::is_point(r.moment)
}

/// The region, moved by `t`: each part of its area counts that much further off.
spec fn moved_region(r: Region<Ideal>, t: Vector2<Ideal>) -> Region<Ideal> {
    Region {
        area: r.area,
        moment: Vector2 {
            x: ideal::number(r.moment.x.v + t.x.v * r.area.v),
            y: ideal::number(r.moment.y.v + t.y.v * r.area.v),
        },
    }
}

proof fn lemma_moved_segment(r: Region<Ideal>, arc: ProfileArc<Ideal>, t: Vector2<Ideal>)
    requires
        is_region(r),
        is_arc(arc),
        loops::is_point(t),
    ensures
        moved_region(r, t).with_segment(moved_arc(arc, t)) == moved_region(r.with_segment(arc), t),
        is_region(r.with_segment(arc)),
{
    let a = profile::segment_area(arc).v;
    let c = profile::segment_centroid(arc);
    assert(profile::segment_centroid(moved_arc(arc, t)) == c.plus(t));
    ideal::lemma_dist(a, c.x.v, t.x.v);
    ideal::lemma_dist(a, c.y.v, t.y.v);
    ideal::lemma_dist(t.x.v, r.area.v, a);
    ideal::lemma_dist(t.y.v, r.area.v, a);
}

proof fn lemma_moved_segments(r: Region<Ideal>, arcs: Seq<ProfileArc<Ideal>>, t: Vector2<Ideal>)
    requires
        is_region(r),
        has_arcs(arcs),
        loops::is_point(t),
    ensures
        moved_region(r, t).with_segments(moved_arcs(arcs, t)) == moved_region(
            r.with_segments(arcs),
            t,
        ),
        is_region(r.with_segments(arcs)),
    decreases arcs.len(),
{
    if arcs.len() > 0 {
        let rest = arcs.drop_last();
        assert(has_arcs(rest)) by {
            assert forall|j: int| 0 <= j < rest.len() implies is_arc(#[trigger] rest[j]) by {
                assert(rest[j] == arcs[j]);
            }
        }
        lemma_moved_segments(r, rest, t);
        assert(moved_arcs(arcs, t).drop_last() =~= moved_arcs(rest, t));
        assert(is_arc(arcs[arcs.len() - 1]));
        lemma_moved_segment(r.with_segments(rest), arcs.last(), t);
    }
}

proof fn lemma_moved_inside(poly: Seq<Vector2<Ideal>>, t: Vector2<Ideal>)
    requires
        loops::has_points(poly),
        loops::is_point(t),
        is_unsnapped(poly),
        is_unsnapped(moved(poly, t)),
    ensures
        Region::inside(moved(poly, t)) == moved_region(Region::inside(poly), t),
        is_region(Region::inside(poly)),
        polygon::area_of(moved(poly, t)) == polygon::area_of(poly),
        !polygon::is_flat(poly) ==> polygon::centroid_of(moved(poly, t)) == polygon::centroid_of(
            poly,
        ).plus(t),
        polygon::is_flat(moved(poly, t)) == polygon::is_flat(poly),
{
    loops::lemma_terms();
    loops::lemma_loop_sum(poly, polygon::area_term());
    loops::lemma_loop_sum(poly, polygon::x_term());
    loops::lemma_loop_sum(poly, polygon::y_term());
    let a = polygon::area_of(poly).v;
    lemma_zero(t.x.v);
    lemma_zero(t.y.v);
    assert(t.x.v * 0real == 0real * t.x.v);
    assert(t.y.v * 0real == 0real * t.y.v);
    lemma_zero(0real);
    if polygon::loop_sum(poly, polygon::area_term()).v != 0real {
        law_moved_polygon(poly, t);
        let c = polygon::raw_centroid(poly);
        ideal::lemma_dist(a, c.x.v, t.x.v);
        ideal::lemma_dist(a, c.y.v, t.y.v);
    } else {
        lemma_moved_area(poly, t);
    }
}

/// Moving a loop does not change what it sums up to as its area, even if that is nothing.
pub proof fn lemma_moved_area(poly: Seq<Vector2<Ideal>>, t: Vector2<Ideal>)
    requires
        loops::has_points(poly),
        loops::is_point(t),
    ensures
        polygon::loop_sum(moved(poly, t), polygon::area_term()) == polygon::loop_sum(
            poly,
            polygon::area_term(),
        ),
{
    let a = polygon::loop_sum(poly, polygon::area_term()).v;
    let (u, w) = (t.x.v, t.y.v);
    let step = |p: Vector2<Ideal>| u * p.y.v - w * p.x.v;
    loops::lemma_terms();
    loops::lemma_loop_sum(poly, polygon::area_term());
    lemma_zero(a);
    lemma_zero(polygon::loop_sum(poly, polygon::x_term()).v);
    lemma_zero(polygon::loop_sum(poly, polygon::y_term()).v);
    assert(is_shifted(polygon::area_term(), t, 0real, 0real, 0real, step)) by {
        assert forall|p: Vector2<Ideal>, q: Vector2<Ideal>|
            loops::is_point(p) && loops::is_point(q) implies (#[trigger] polygon::area_term()(
            p.plus(t),
            q.plus(t),
        )).v == polygon::area_term()(p, q).v + (0real) * polygon::x_term()(p, q).v + (0real)
            * polygon::y_term()(p, q).v + (0real) * polygon::area_term()(p, q).v + (step(q) - step(
            p,
        )) by {
            let (a, b, c, d) = (p.x.v, p.y.v, q.x.v, q.y.v);
            lemma_zero(polygon::x_term()(p, q).v);
            lemma_zero(polygon::y_term()(p, q).v);
            lemma_zero(polygon::area_term()(p, q).v);
            ideal::lemma_dist(a + u, d, w);
            ideal::lemma_dist(c + u, b, w);
            ideal::lemma_dist(d, a, u);
            ideal::lemma_dist(w, a, u);
            ideal::lemma_dist(b, c, u);
            ideal::lemma_dist(w, c, u);
        }
    }
    lemma_shifted_sum(poly, polygon::area_term(), t, 0real, 0real, 0real, step);
}

/// A profile moved by `t` has its centroid moved along, and the same area and the same second
/// moments about the centroid, arcs and all. Only where a centroid is snapped to the origin does
/// it not follow.
pub proof fn law_moved_section(
    shape: ExtrudedProfile<Ideal>,
    other: ExtrudedProfile<Ideal>,
    t: Vector2<Ideal>,
)
    requires
        loops::has_points(shape.profile@),
        has_arcs(shape.arcs@),
        loops::is_point(t),
        other.profile@ == moved(shape.profile@, t),
        other.arcs@ == moved_arcs(shape.arcs@, t),
        !shape.is_degenerate(),
        shape.exact_centroid() == shape.raw_centroid(),
        other.exact_centroid() == other.raw_centroid(),
        shape.arcs@.len() > 0 ==> is_unsnapped(shape.straight_core()) && is_unsnapped(
            moved(shape.straight_core(), t),
        ),
    ensures
        ({
            let (area, c, ixx, izz, ixz) = shape.section_spec();
            other.section_spec() == (area, c.plus(t), ixx, izz, ixz)
        }),
{
    let b = shape.boundary();
    if shape.arcs@.len() == 0 {
        assert(other.boundary() == moved(b, t));
        assert(is_unsnapped(b));
        assert(!polygon::is_flat(b));
        assert(polygon::loop_sum(b, polygon::area_term()).v != 0real) by {
            loops::lemma_terms();
            loops::lemma_loop_sum(b, polygon::area_term());
        }
        lemma_moved_area(b, t);
        assert(is_unsnapped(moved(b, t)));
        lemma_moved_inside(b, t);
        law_moved_polygon(b, t);
    } else {
        lemma_moved_points(shape.profile@, shape.arcs@, t);
        let sampled = profile::sampled_points(shape.profile@, shape.arcs@);
        lemma_moved_middle(sampled, t);
        lemma_moved_wound(sampled, winding::middle(sampled), t);
        assert(other.boundary() == moved(b, t));
        let chords = profile::chord_points(shape.profile@, shape.arcs@);
        lemma_moved_middle(chords, t);
        lemma_moved_wound(chords, winding::middle(chords), t);
        lemma_moved_distinct(winding::wound(chords, winding::middle(chords)), t);
        assert(other.straight_core() == moved(shape.straight_core(), t));
        lemma_moved_inside(shape.straight_core(), t);
        lemma_moved_segments(Region::inside(shape.straight_core()), shape.arcs@, t);
        let r = shape.region();
        assert(other.region() == moved_region(r, t));
        let a = r.area.v;
        assert(a != 0real);
        lemma_over_sum(r.moment.x.v, t.x.v * a, a);
        lemma_over_sum(r.moment.y.v, t.y.v * a, a);
        lemma_over_back(t.x.v, a);
        lemma_over_back(t.y.v, a);
        assert(other.raw_centroid() == shape.raw_centroid().plus(t));
        assert(polygon::loop_sum(b, polygon::area_term()).v != 0real) by {
            loops::lemma_terms();
            loops::lemma_loop_sum(b, polygon::area_term());
            lemma_zero(polygon::half_value::<Ideal>().v);
        }
        law_moved_polygon(b, t);
    }
}

} // verus!
