//! The moments of a disc, but for rounding: how far off those of its samples are.
use vstd::prelude::*;

use crate::angle;
use crate::arc::ProfileArc;
use crate::circuit;
use crate::ideal;
use crate::ideal::Ideal;
use crate::loops;
use crate::models;
use crate::polygon;
use crate::profile;
use crate::profile::{ExtrudedProfile, PER_TURN};
use crate::regular;
use crate::scalar::Scalar;
use crate::series;
use crate::vector::Vector2;

verus! {

/// The sines and the cosines at equal steps, from the angle `a` on.
pub open spec fn sines(a: real, b: real) -> spec_fn(int) -> real {
    |k: int| ideal::circle().0(a + (k as real) * b)
}

pub open spec fn cosines(a: real, b: real) -> spec_fn(int) -> real {
    |k: int| ideal::circle().1(a + (k as real) * b)
}

/// Does the angle `t` lead back to where it started?
pub open spec fn is_period(t: real) -> bool {
    ideal::circle().0(t) == 0real && ideal::circle().1(t) == 1real
}

/// After a period sine and cosine are what they were.
proof fn lemma_period(a: real, t: real)
    requires
        is_period(t),
    ensures
        ideal::circle().0(a + t) == ideal::circle().0(a),
        ideal::circle().1(a + t) == ideal::circle().1(a),
{
    let (s, c) = (ideal::circle().0(a), ideal::circle().1(a));
    ideal::lemma_circle(a, t);
    assert(s * 1real == s && c * 1real == c && s * 0real == 0real && c * 0real == 0real)
        by (nonlinear_arith);
}

/// What sine and cosine gain from `h` before an angle to `h` behind it.
proof fn lemma_gain(x: real, h: real)
    ensures
        ({
            let (sine, cosine) = ideal::circle();
            &&& sine(x + h) - sine(x - h) == (2real * sine(h)) * cosine(x)
            &&& cosine(x + h) - cosine(x - h) == -((2real * sine(h)) * sine(x))
        }),
{
    let (sine, cosine) = ideal::circle();
    ideal::lemma_circle(x, h);
    ideal::lemma_circle(x, -h);
    ideal::lemma_circle(h, h);
    assert(x + (-h) == x - h);
    let (sx, cx, sh, ch) = (sine(x), cosine(x), sine(h), cosine(h));
    ideal::lemma_dist(cx, sh, 0real);
    ideal::lemma_dist(sx, sh, 0real);
    ideal::lemma_assoc(2real, sh, cx);
    ideal::lemma_assoc(2real, sh, sx);
}

/// Over equal steps that come to a period, sines and cosines add up to nothing.
proof fn lemma_round_sums(a: real, b: real, n: nat)
    requires
        is_period((n as real) * b),
        ideal::circle().0(b / 2real) != 0real,
    ensures
        series::sum(sines(a, b), n) == 0real,
        series::sum(cosines(a, b), n) == 0real,
{
    let (sine, cosine) = ideal::circle();
    let h = b / 2real;
    let w = 2real * sine(h);
    let g = |k: int| sine((a + (k as real) * b) - h);
    let f = |k: int| -cosine((a + (k as real) * b) - h);
    let dg = |k: int| g(k + 1) - g(k);
    let df = |k: int| f(k + 1) - f(k);
    let ws = |k: int| w * sines(a, b)(k);
    let wc = |k: int| w * cosines(a, b)(k);
    assert forall|k: int| 0 <= k < n implies #[trigger] wc(k) == dg(k) by {
        lemma_gain(a + (k as real) * b, h);
        lemma_one_step(a, b, k);
    }
    assert forall|k: int| 0 <= k < n implies #[trigger] ws(k) == df(k) by {
        lemma_gain(a + (k as real) * b, h);
        lemma_one_step(a, b, k);
    }
    series::lemma_same(wc, dg, n);
    series::lemma_same(ws, df, n);
    series::lemma_telescopes(g, n);
    series::lemma_telescopes(f, n);
    series::lemma_scaled(w, sines(a, b), n);
    series::lemma_scaled(w, cosines(a, b), n);
    assert(0real * b == 0real) by (nonlinear_arith);
    lemma_period(a - h, (n as real) * b);
    assert((a + (n as real) * b) - h == (a - h) + (n as real) * b);
    assert((a + 0real) - h == a - h);
    let (x, y) = (series::sum(sines(a, b), n), series::sum(cosines(a, b), n));
    assert(w * x == 0real && w * y == 0real);
    assert(x == 0real && y == 0real) by (nonlinear_arith)
        requires
            w != 0real,
            w * x == 0real,
            w * y == 0real,
    ;
}

proof fn lemma_one_step(a: real, b: real, k: int)
    ensures
        (a + ((k + 1) as real) * b) - b / 2real == (a + (k as real) * b) + b / 2real,
{
    let m = k as real;
    assert((k + 1) as real == m + 1real);
    assert((m + 1real) * b == m * b + b) by (nonlinear_arith);
}

/// Products of sines and cosines as sums.
proof fn lemma_products(a: real, b: real)
    ensures
        ({
            let (sine, cosine) = ideal::circle();
            &&& cosine(a) * cosine(b) == (cosine(b - a) + cosine(a + b)) / 2real
            &&& sine(a) * sine(b) == (cosine(b - a) - cosine(a + b)) / 2real
            &&& cosine(a) * sine(b) + cosine(b) * sine(a) == sine(a + b)
        }),
{
    let (sine, cosine) = ideal::circle();
    ideal::lemma_circle(a, b);
    ideal::lemma_circle(b, -a);
    ideal::lemma_circle(a, a);
    assert(b + (-a) == b - a);
    ideal::lemma_dist(sine(b), sine(a), cosine(a));
    ideal::lemma_dist(cosine(b), sine(a), cosine(a));
}

/// The terms of the edge from one point of a ring to the next.
proof fn lemma_ring_terms(r: real, a: real, d: real)
    ensures
        ({
            let (sine, cosine) = ideal::circle();
            let (p, q) = (regular::ring(r, a), regular::ring(r, a + d));
            let b = a + d;
            let w = (r * r) * sine(d);
            let (e, f) = (
                cosine(a + a) + cosine(a + b) + cosine(b + b),
                sine(a + a) + sine(a + b) + sine(b + b),
            );
            &&& polygon::area_term()(p, q) == ideal::number(w)
            &&& polygon::x_term()(p, q).v == (w * r) * (cosine(a) + cosine(b))
            &&& polygon::y_term()(p, q).v == (w * r) * (sine(a) + sine(b))
            &&& polygon::xx_term()(p, q).v == (w * ((r * r) / 2real)) * ((2real + cosine(d)) + e)
            &&& polygon::yy_term()(p, q).v == (w * ((r * r) / 2real)) * ((2real + cosine(d)) - e)
            &&& polygon::xy_term()(p, q).v == (w * (r * r)) * f
        }),
{
    let (sine, cosine) = ideal::circle();
    let (p, q) = (regular::ring(r, a), regular::ring(r, a + d));
    let b = a + d;
    let rr = r * r;
    let w = rr * sine(d);
    let (sa, ca, sb, cb) = (sine(a), cosine(a), sine(b), cosine(b));
    regular::lemma_ring(r, a, d);
    regular::lemma_at_zero();
    lemma_products(a, b);
    lemma_products(a, a);
    lemma_products(b, b);
    assert(b - a == d && a - a == 0real && b - b == 0real);
    ideal::lemma_pairs(r, ca, r, ca);
    ideal::lemma_pairs(r, ca, r, cb);
    ideal::lemma_pairs(r, cb, r, cb);
    ideal::lemma_pairs(r, sa, r, sa);
    ideal::lemma_pairs(r, sa, r, sb);
    ideal::lemma_pairs(r, sb, r, sb);
    ideal::lemma_pairs(r, ca, r, sb);
    ideal::lemma_pairs(r, ca, r, sa);
    ideal::lemma_pairs(r, cb, r, sb);
    ideal::lemma_pairs(r, cb, r, sa);
    // First moments.
    ideal::lemma_dist(r, ca, cb);
    ideal::lemma_dist(r, sa, sb);
    ideal::lemma_assoc(w, r, ca + cb);
    ideal::lemma_assoc(w, r, sa + sb);
    // Second moments.
    let (e, f) = (
        cosine(a + a) + cosine(a + b) + cosine(b + b),
        sine(a + a) + sine(a + b) + sine(b + b),
    );
    let g = 2real + cosine(d);
    ideal::lemma_dist(rr, ca * ca + ca * cb, cb * cb);
    ideal::lemma_dist(rr, ca * ca, ca * cb);
    ideal::lemma_dist(rr, sa * sa + sa * sb, sb * sb);
    ideal::lemma_dist(rr, sa * sa, sa * sb);
    assert(ca * ca + ca * cb + cb * cb == (g + e) / 2real);
    assert(sa * sa + sa * sb + sb * sb == (g - e) / 2real);
    lemma_halves(w, rr, g + e);
    lemma_halves(w, rr, g - e);
    // The product moment.
    ideal::lemma_assoc(2real, r * ca, r * sa);
    ideal::lemma_assoc(2real, r * cb, r * sb);
    assert(Ideal::of_count(2).v == 2real);
    let (m, n, o, z) = (ca * sb, ca * sa, cb * sb, cb * sa);
    ideal::lemma_dist(rr, m, z);
    ideal::lemma_dist(rr, m + z, 2real * n);
    ideal::lemma_dist(rr, (m + z) + 2real * n, 2real * o);
    ideal::lemma_assoc(2real, rr, n);
    ideal::lemma_assoc(2real, rr, o);
    assert(2real * n == sine(a + a) && 2real * o == sine(b + b));
    assert(rr * (2real * n) == 2real * (rr * n) && rr * (2real * o) == 2real * (rr * o));
    assert(rr * m + 2real * (rr * n) + 2real * (rr * o) + rr * z == rr * f);
    ideal::lemma_assoc(w, rr, f);
    let (u, v) = (r * (ca + cb), r * (sa + sb));
    assert(p.x.plus(q.x).v == u && p.y.plus(q.y).v == v);
    ideal::lemma_dist(w, u, v);
    assert(polygon::x_term()(p, q).v == u * w);
    assert(polygon::y_term()(p, q).v == v * w);
    assert(polygon::xx_term()(p, q).v == (rr * ((g + e) / 2real)) * w);
    assert(polygon::yy_term()(p, q).v == (rr * ((g - e) / 2real)) * w);
    assert(polygon::xy_term()(p, q).v == (rr * f) * w);
}

proof fn lemma_halves(w: real, rr: real, x: real)
    ensures
        (rr * (x / 2real)) * w == (w * (rr / 2real)) * x,
{
    assert((rr * (x / 2real)) * w == (w * (rr / 2real)) * x) by (nonlinear_arith);
}

/// A factor times a constant and three things that add up to nothing.
proof fn lemma_three_sums(
    e: spec_fn(int) -> real,
    c: real,
    g: real,
    sign: real,
    a: spec_fn(int) -> real,
    b: spec_fn(int) -> real,
    d: spec_fn(int) -> real,
    n: nat,
)
    requires
        forall|i: int| 0 <= i < n ==> #[trigger] e(i) == c * (g + sign * (a(i) + b(i) + d(i))),
        series::sum(a, n) == 0real,
        series::sum(b, n) == 0real,
        series::sum(d, n) == 0real,
    ensures
        series::sum(e, n) == c * ((n as real) * g),
{
    let ab = |i: int| a(i) + b(i);
    let all = |i: int| ab(i) + d(i);
    let signed = |i: int| sign * all(i);
    let level = |i: int| g;
    let sum = |i: int| level(i) + signed(i);
    let scaled = |i: int| c * sum(i);
    series::lemma_plus(a, b, n);
    series::lemma_plus(ab, d, n);
    series::lemma_scaled(sign, all, n);
    series::lemma_plus(level, signed, n);
    series::lemma_scaled(c, sum, n);
    regular::lemma_equal_sum(level, g, n);
    assert(sign * 0real == 0real) by (nonlinear_arith);
    assert forall|i: int| 0 <= i < n implies #[trigger] e(i) == scaled(i) by {}
    series::lemma_same(e, scaled, n);
}

/// The sums over the edges of a regular polygon.
pub proof fn lemma_corner_sums(r: real, n: nat)
    requires
        0 < n,
        regular::closes(),
        ideal::circle().0(regular::step(n)) != 0real,
    ensures
        ({
            let poly = regular::corners(r, n);
            let d = regular::step(n);
            let w = (r * r) * ideal::circle().0(d);
            let m = (w * ((r * r) / 2real)) * ((n as real) * (2real + ideal::circle().1(d)));
            &&& loops::has_points(poly)
            &&& polygon::loop_sum(poly, polygon::x_term()) == ideal::number(0real)
            &&& polygon::loop_sum(poly, polygon::y_term()) == ideal::number(0real)
            &&& polygon::loop_sum(poly, polygon::xx_term()) == ideal::number(m)
            &&& polygon::loop_sum(poly, polygon::yy_term()) == ideal::number(m)
            &&& polygon::loop_sum(poly, polygon::xy_term()) == ideal::number(0real)
        }),
{
    let (sine, cosine) = ideal::circle();
    let poly = regular::corners(r, n);
    let d = regular::step(n);
    let w = (r * r) * sine(d);
    let t = angle::full_turn::<Ideal>().v;
    // The sums of sines and cosines.
    regular::lemma_corner(r, 0, n);
    let h = d / 2real;
    assert(sine(h) != 0real) by {
        ideal::lemma_circle(h, h);
        assert(h + h == d);
        let c = cosine(h);
        assert(0real * c == 0real && c * 0real == 0real) by (nonlinear_arith);
    }
    assert(is_period((n as real) * d));
    assert(is_period((n as real) * (d + d))) by {
        ideal::lemma_circle(t, t);
        ideal::lemma_dist(n as real, d, d);
        assert(0real * 1real == 0real && 1real * 0real == 0real && 1real * 1real == 1real && 0real
            * 0real == 0real) by (nonlinear_arith);
    }
    assert((d + d) / 2real == d);
    lemma_round_sums(0real, d, n);
    lemma_round_sums(d, d, n);
    lemma_round_sums(0real, d + d, n);
    lemma_round_sums(d, d + d, n);
    lemma_round_sums(d + d, d + d, n);
    let zero = |i: int| 0real;
    regular::lemma_equal_sum(zero, 0real, n);
    assert((n as real) * 0real == 0real) by (nonlinear_arith)
        requires
            n > 0,
    ;
    // The terms of each edge.
    loops::lemma_terms();
    assert forall|i: int| 0 <= i < n implies loops::is_point(#[trigger] poly[i]) by {
        regular::lemma_next_corner(r, i, n);
    }
    loops::lemma_loop_sum(poly, polygon::x_term());
    loops::lemma_loop_sum(poly, polygon::y_term());
    loops::lemma_loop_sum(poly, polygon::xx_term());
    loops::lemma_loop_sum(poly, polygon::yy_term());
    loops::lemma_loop_sum(poly, polygon::xy_term());
    let g = 2real + cosine(d);
    let half = w * ((r * r) / 2real);
    let (a1, b1) = (cosines(0real, d), cosines(d, d));
    let (a2, b2) = (sines(0real, d), sines(d, d));
    let (a3, b3, c3) = (cosines(0real, d + d), cosines(d, d + d), cosines(d + d, d + d));
    let (a4, b4, c4) = (sines(0real, d + d), sines(d, d + d), sines(d + d, d + d));
    let (wr, wrr) = (w * r, w * (r * r));
    let e = loops::edge_values(poly, polygon::x_term());
    assert forall|i: int| 0 <= i < n implies #[trigger] e(i) == wr * (0real + 1real * (
    a1(i) + b1(i) + zero(i))) by {
        lemma_edge_terms(r, n, i);
    }
    lemma_three_sums(e, wr, 0real, 1real, a1, b1, zero, n);
    let e = loops::edge_values(poly, polygon::y_term());
    assert forall|i: int| 0 <= i < n implies #[trigger] e(i) == wr * (0real + 1real * (
    a2(i) + b2(i) + zero(i))) by {
        lemma_edge_terms(r, n, i);
    }
    lemma_three_sums(e, wr, 0real, 1real, a2, b2, zero, n);
    let e = loops::edge_values(poly, polygon::xx_term());
    assert forall|i: int| 0 <= i < n implies #[trigger] e(i) == half * (g + 1real * (
    a3(i) + b3(i) + c3(i))) by {
        lemma_edge_terms(r, n, i);
    }
    lemma_three_sums(e, half, g, 1real, a3, b3, c3, n);
    let e = loops::edge_values(poly, polygon::yy_term());
    assert forall|i: int| 0 <= i < n implies #[trigger] e(i) == half * (g + (-1real) * (
    a3(i) + b3(i) + c3(i))) by {
        lemma_edge_terms(r, n, i);
    }
    lemma_three_sums(e, half, g, (-1real), a3, b3, c3, n);
    let e = loops::edge_values(poly, polygon::xy_term());
    assert forall|i: int| 0 <= i < n implies #[trigger] e(i) == wrr * (0real + 1real * (
    a4(i) + b4(i) + c4(i))) by {
        lemma_edge_terms(r, n, i);
    }
    lemma_three_sums(e, wrr, 0real, 1real, a4, b4, c4, n);
    assert(wr * 0real == 0real && wrr * 0real == 0real) by (nonlinear_arith);
}

/// The terms of the edge from the `i`-th corner of a regular polygon on, by sines and cosines at
/// equal steps.
proof fn lemma_edge_terms(r: real, n: nat, i: int)
    requires
        0 <= i < n,
        regular::closes(),
    ensures
        ({
            let poly = regular::corners(r, n);
            let d = regular::step(n);
            let w = (r * r) * ideal::circle().0(d);
            let g = 2real + ideal::circle().1(d);
            let half = w * ((r * r) / 2real);
            let (a3, b3, c3) = (cosines(0real, d + d), cosines(d, d + d), cosines(d + d, d + d));
            let (a4, b4, c4) = (sines(0real, d + d), sines(d, d + d), sines(d + d, d + d));
            &&& loops::edge_values(poly, polygon::x_term())(i) == (w * r) * (0real + 1real * (
            cosines(0real, d)(i) + cosines(d, d)(i) + 0real))
            &&& loops::edge_values(poly, polygon::y_term())(i) == (w * r) * (0real + 1real * (
            sines(0real, d)(i) + sines(d, d)(i) + 0real))
            &&& loops::edge_values(poly, polygon::xx_term())(i) == half * (g + 1real * (a3(i) + b3(
                i,
            ) + c3(i)))
            &&& loops::edge_values(poly, polygon::yy_term())(i) == half * (g + (-1real) * (a3(i)
                + b3(i) + c3(i)))
            &&& loops::edge_values(poly, polygon::xy_term())(i) == (w * (r * r)) * (0real + 1real
                * (a4(i) + b4(i) + c4(i)))
        }),
{
    let d = regular::step(n);
    let m = i as real;
    let a = m * d;
    let b = a + d;
    regular::lemma_next_corner(r, i, n);
    lemma_ring_terms(r, a, d);
    ideal::lemma_dist(m, d, d);
    assert(0real + m * d == a && d + m * d == b);
    assert(0real + m * (d + d) == a + a);
    assert(d + m * (d + d) == a + b);
    assert((d + d) + m * (d + d) == b + b);
    let (sine, cosine) = ideal::circle();
    let (u, v) = (
        cosine(a + a) + cosine(a + b) + cosine(b + b),
        sine(a + a) + sine(a + b) + sine(b + b),
    );
    assert(1real * u == u && (-1real) * u == -u && 1real * v == v) by (nonlinear_arith);
    let (x, y) = (cosine(a) + cosine(b) + 0real, sine(a) + sine(b) + 0real);
    assert(1real * x == x && 1real * y == y) by (nonlinear_arith);
}

/// What a step between two samples of a full circle is.
pub open spec fn sample_step() -> real {
    regular::step(PER_TURN as nat)
}

/// By how much the moments of a disc differ from those that are reckoned from its samples, as a
/// factor.
pub open spec fn moment_factor() -> real {
    let d = sample_step();
    (d * (2real + ideal::circle().1(d))) / (3real * ideal::circle().0(d))
}

/// The second moment of a disc along any axis through its centre.
pub open spec fn disc_moment(r: real) -> real {
    (((r * r) * (r * r)) * angle::full_turn::<Ideal>().v) / 8real
}

/// The points that stand for a circle about the origin are the corners of a regular polygon.
proof fn lemma_circle_samples(r: real)
    ensures
        profile::samples(ProfileArc::full(Vector2::<Ideal>::origin(), ideal::number(r)))
            == regular::corners(r, PER_TURN as nat),
{
    let arc = ProfileArc::full(Vector2::<Ideal>::origin(), ideal::number(r));
    let t = angle::full_turn::<Ideal>();
    angle::lemma_full_turn::<Ideal>();
    let n = PER_TURN as nat;
    let x = t.v;
    assert(x / x == 1real) by (nonlinear_arith)
        requires
            x > 0real,
    ;
    assert(1real * 256real == 256real) by (nonlinear_arith);
    assert(arc.swept() == t);
    let count = arc.swept().over(t).times(Ideal::of_count(n));
    assert(count == ideal::number(256real));
    assert((-256real).floor() == -256);
    assert(count.ceiling() == ideal::number(256real));
    assert((256real).floor() == 256);
    assert(Ideal::of_count(2).v == 2real);
    assert(profile::sample_count(arc) == PER_TURN);
    let (a, b) = (profile::samples(arc), regular::corners(r, n));
    assert forall|k: int| 0 <= k < n implies a[k] == b[k] by {
        regular::lemma_corner(r, k as nat, n);
        let (y, m) = (k as real, n as real);
        assert(x * (y / m) == y * (x / m)) by (nonlinear_arith)
            requires
                m > 0real,
        ;
        let angle = arc.start.plus(arc.swept().times(Ideal::of_count(k as nat).over(Ideal::of_count(n))));
        assert(angle == ideal::number(y * (x / m)));
        let (s, c) = (angle.sine().v, angle.cosine().v);
        ideal::lemma_dist(r, s, c);
        assert(a[k] == arc.point_at(angle));
    }
    assert(a =~= b);
}

/// The sums over the boundary of a disc are those over its samples in their order.
proof fn lemma_disc_sum(
    shape: ExtrudedProfile<Ideal>,
    r: real,
    term: spec_fn(Vector2<Ideal>, Vector2<Ideal>) -> Ideal,
)
    requires
        shape.profile@.len() == 0,
        shape.arcs@ == seq![ProfileArc::full(Vector2::<Ideal>::origin(), ideal::number(r))],
        regular::has_positive_sines(PER_TURN as nat),
        r != 0real,
        loops::is_directed(term),
    ensures
        polygon::loop_sum(shape.boundary(), term) == polygon::loop_sum(
            regular::corners(r, PER_TURN as nat),
            term,
        ),
{
    let poly = regular::corners(r, PER_TURN as nat);
    let points = profile::sampled_points(shape.profile@, shape.arcs@);
    lemma_circle_samples(r);
    reveal_with_fuel(profile::sampled_points, 2);
    assert(shape.arcs@.drop_last().len() == 0);
    assert(shape.arcs@.last() == ProfileArc::full(Vector2::<Ideal>::origin(), ideal::number(r)));
    assert(points =~= poly);
    regular::law_regular_is_convex(r, PER_TURN as nat);
    let k = circuit::law_convex_loop_is_found(points, poly);
    loops::lemma_repeated_sum(shape.boundary(), term);
    loops::lemma_rotated_sum(poly, term, k as nat);
}

/// The moments of a disc, taken from its samples, are those of the circle but for a factor that
/// depends on the step between samples alone, and its product moment is nothing.
pub proof fn law_disc_moments(shape: ExtrudedProfile<Ideal>, r: real)
    requires
        shape.profile@.len() == 0,
        shape.arcs@ == seq![ProfileArc::full(Vector2::<Ideal>::origin(), ideal::number(r))],
        regular::closes(),
        regular::has_positive_sines(PER_TURN as nat),
        r != 0real,
        !shape.is_degenerate(),
    ensures
        shape.section_spec().2 == ideal::number(disc_moment(r) * moment_factor()),
        shape.section_spec().3 == ideal::number(disc_moment(r) * moment_factor()),
        shape.section_spec().4 == ideal::number(0real),
{
    let n = PER_TURN as nat;
    let m = n as real;
    let (d, turn) = (sample_step(), angle::full_turn::<Ideal>().v);
    let (s, c) = (ideal::circle().0(d), ideal::circle().1(d));
    let rr = r * r;
    let poly = regular::corners(r, n);
    assert(s > 0real) by {
        assert(regular::sine_at(n, 2) > 0real);
        assert(2real * (d / 2real) == d);
    }
    loops::lemma_terms();
    lemma_disc_sum(shape, r, polygon::area_term());
    lemma_disc_sum(shape, r, polygon::x_term());
    lemma_disc_sum(shape, r, polygon::y_term());
    lemma_disc_sum(shape, r, polygon::xx_term());
    lemma_disc_sum(shape, r, polygon::yy_term());
    lemma_disc_sum(shape, r, polygon::xy_term());
    lemma_corner_sums(r, n);
    regular::law_regular_area(r, n);
    regular::lemma_corner(r, 0, n);
    // About the origin.
    let b = shape.boundary();
    let a2 = polygon::loop_sum(b, polygon::area_term()).v;
    assert(a2 == m * (rr * s));
    let z = 3real * a2;
    assert(z != 0real ==> 0real / z == 0real) by (nonlinear_arith);
    assert(Ideal::of_count(3).v == 3real);
    assert(polygon::raw_centroid(b) == Vector2::<Ideal>::origin());
    let area = polygon::signed_area(b);
    let x = area.v;
    assert(x * 0real == 0real && 0real * 0real == 0real) by (nonlinear_arith);
    let g = 2real + c;
    let w = rr * s;
    let xx = (w * (rr / 2real)) * (m * g);
    assert(Ideal::of_count(12).v == 12real && Ideal::of_count(24).v == 24real);
    let origin = Vector2::<Ideal>::origin();
    assert(polygon::about_xx(b, origin) == ideal::number(xx / 12real));
    assert(polygon::about_yy(b, origin) == ideal::number(xx / 12real));
    assert(polygon::about_xy(b, origin) == ideal::number(0real));
    // What sampling lost.
    let exact = shape.exact_area().v;
    assert(exact == (rr * turn) / 2real && shape.exact_area().side == 0) by {
        models::law_round_shape_is_cylinder(shape, origin, r, ideal::number(0real));
        assert(turn - 0real == turn);
    }
    let q = d / s;
    assert(s * q == d) by (nonlinear_arith)
        requires
            q == d / s,
            s > 0real,
    ;
    assert(rr > 0real) by (nonlinear_arith)
        requires
            rr == r * r,
            r != 0real,
    ;
    assert(exact == x * q) by {
        assert(turn == m * d);
        ideal::lemma_assoc(rr, m, d);
        ideal::lemma_assoc(m, rr, d);
        ideal::lemma_assoc(rr, s, q);
        ideal::lemma_assoc(m, rr * s, q);
        ideal::lemma_assoc(m, rr, s);
        assert(x == (m * (rr * s)) / 2real);
        let y = m * (rr * s);
        assert((y / 2real) * q == (y * q) / 2real) by (nonlinear_arith);
        assert(y * q == m * (rr * d));
    }
    assert(x != 0real);
    assert(shape.area_lost() == ideal::number(q)) by {
        assert((x * q) / x == q) by (nonlinear_arith)
            requires
                x != 0real,
        ;
    }
    // All together.
    let r4 = rr * rr;
    let y = r4 * (m * g);
    assert(xx == (y * s) / 2real) by {
        lemma_regroup(rr, s, m * g);
    }
    assert(((xx / 12real) * q) * q == (y * (d * q)) / 24real) by {
        lemma_scaled_twice(y, s, q, d);
    }
    let rho = moment_factor();
    assert(rho == (g * q) / 3real) by {
        lemma_factor(d, g, s, q);
    }
    assert(disc_moment(r) * rho == (y * (d * q)) / 24real) by {
        ideal::lemma_assoc(r4, m * g, d * q);
        ideal::lemma_assoc(r4, m * d, g * q);
        ideal::lemma_pairs(m, g, d, q);
        ideal::lemma_pairs(m, d, g, q);
        let (u, v) = (r4 * (m * d), g * q);
        assert((u / 8real) * (v / 3real) == (u * v) / 24real) by (nonlinear_arith);
    }
    assert(0real * q == 0real) by (nonlinear_arith);
    assert(shape.moment_centre() == origin);
}

proof fn lemma_regroup(rr: real, s: real, t: real)
    ensures
        ((rr * s) * (rr / 2real)) * t == (((rr * rr) * t) * s) / 2real,
{
    let h = rr / 2real;
    ideal::lemma_assoc(rr, s, h);
    ideal::lemma_assoc(rr, h, s);
    assert(rr * h == (rr * rr) / 2real) by (nonlinear_arith)
        requires
            h == rr / 2real,
    ;
    let e = rr * rr;
    assert((rr * s) * h == (rr * h) * s);
    assert(((e / 2real) * s) * t == ((e * t) * s) / 2real) by (nonlinear_arith);
}

proof fn lemma_scaled_twice(y: real, s: real, q: real, d: real)
    requires
        s * q == d,
    ensures
        (((((y * s) / 2real) / 12real) * q) * q) == (y * (d * q)) / 24real,
{
    let u = y * s;
    assert(((u / 2real) / 12real) * q == (u * q) / 24real) by (nonlinear_arith);
    ideal::lemma_assoc(y, s, q);
    let v = y * d;
    assert(u * q == v);
    assert((v / 24real) * q == (v * q) / 24real) by (nonlinear_arith);
    ideal::lemma_assoc(y, d, q);
}

proof fn lemma_factor(d: real, g: real, s: real, q: real)
    requires
        s > 0real,
        q == d / s,
    ensures
        (d * g) / (3real * s) == (g * q) / 3real,
{
    assert(s * q == d) by (nonlinear_arith)
        requires
            q == d / s,
            s > 0real,
    ;
    let t = g * q;
    ideal::lemma_assoc(g, s, q);
    assert(d * g == s * t) by {
        ideal::lemma_assoc(s, g, q);
        ideal::lemma_dist(d, g, 0real);
    }
    assert((s * t) / (3real * s) == t / 3real) by (nonlinear_arith)
        requires
            s > 0real,
    ;
}

/// Do sine and cosine lie between the first terms of their series at `d`?
pub open spec fn is_near_series(d: real) -> bool {
    let (s, c) = (ideal::circle().0(d), ideal::circle().1(d));
    let dd = d * d;
    &&& d * (1real - dd / 6real) <= s <= d * (1real - dd / 6real + (dd * dd) / 120real)
    &&& 1real - dd / 2real <= c <= 1real - dd / 2real + (dd * dd) / 24real
}

/// The factor is off by less than one part in a hundred thousand.
proof fn lemma_factor_is_close()
    requires
        is_near_series(sample_step()),
    ensures
        99_999real / 100_000real <= moment_factor() <= 100_001real / 100_000real,
{
    let d = sample_step();
    let (s, c) = (ideal::circle().0(d), ideal::circle().1(d));
    let t = d * d;
    assert(Ideal::of_count(angle::TURN_NUMERATOR as nat).v == 13_176_795real);
    assert(Ideal::of_count(angle::TURN_DENOMINATOR as nat).v == 2_097_152real);
    assert(d == 13_176_795real / 2_097_152real / 256real);
    assert(0real < d < 1real / 40real);
    assert(0real < t < 1real / 1600real) by (nonlinear_arith)
        requires
            t == d * d,
            0real < d < 1real / 40real,
    ;
    let tt = t * t;
    assert(0real < tt < 1real / 2_560_000real) by (nonlinear_arith)
        requires
            tt == t * t,
            0real < t < 1real / 1600real,
    ;
    // Per step, the sine is this much.
    let q = s / d;
    assert(s == d * q) by (nonlinear_arith)
        requires
            q == s / d,
            d > 0real,
    ;
    let (lo, hi) = (1real - t / 6real, 1real - t / 6real + tt / 120real);
    assert(lo <= q <= hi) by (nonlinear_arith)
        requires
            s == d * q,
            d * lo <= s <= d * hi,
            d > 0real,
    ;
    let g = 2real + c;
    let rho = moment_factor();
    assert(q > 0real);
    assert(rho == g / (3real * q)) by {
        let y = 3real * q;
        assert(3real * s == d * y) by {
            ideal::lemma_assoc(3real, d, q);
            ideal::lemma_assoc(d, 3real, q);
        }
        assert((d * g) / (d * y) == g / y) by (nonlinear_arith)
            requires
                d > 0real,
                y > 0real,
        ;
    }
    let y = 3real * q;
    let (a, b) = (99_999real / 100_000real, 100_001real / 100_000real);
    assert(a * y <= g <= b * y);
    assert(a <= g / y <= b) by (nonlinear_arith)
        requires
            a * y <= g <= b * y,
            y > 0real,
    ;
}

/// The moments of a disc are off by one part in a hundred thousand at most.
pub proof fn law_disc_moments_are_close(shape: ExtrudedProfile<Ideal>, r: real)
    requires
        shape.profile@.len() == 0,
        shape.arcs@ == seq![ProfileArc::full(Vector2::<Ideal>::origin(), ideal::number(r))],
        regular::closes(),
        regular::has_positive_sines(PER_TURN as nat),
        is_near_series(sample_step()),
        r != 0real,
        !shape.is_degenerate(),
    ensures
        ({
            let (area, c, ixx, izz, ixz) = shape.section_spec();
            let exact = disc_moment(r);
            let off = exact / 100_000real;
            &&& exact - off <= ixx.v <= exact + off
            &&& exact - off <= izz.v <= exact + off
            &&& ixz.v == 0real
        }),
{
    law_disc_moments(shape, r);
    lemma_factor_is_close();
    angle::lemma_full_turn::<Ideal>();
    let (rr, turn) = (r * r, angle::full_turn::<Ideal>().v);
    assert(rr >= 0real) by (nonlinear_arith)
        requires
            rr == r * r,
    ;
    let r4 = rr * rr;
    assert(r4 >= 0real) by (nonlinear_arith)
        requires
            r4 == rr * rr,
            rr >= 0real,
    ;
    assert(r4 * turn >= 0real) by (nonlinear_arith)
        requires
            r4 >= 0real,
            turn > 0real,
    ;
    let (e, f) = (disc_moment(r), moment_factor());
    assert(e >= 0real);
    assert(e * (99_999real / 100_000real) <= e * f <= e * (100_001real / 100_000real))
        by (nonlinear_arith)
        requires
            e >= 0real,
            99_999real / 100_000real <= f <= 100_001real / 100_000real,
    ;
}

} // verus!
