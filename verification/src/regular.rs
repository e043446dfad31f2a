//! Regular polygons, but for rounding: corners at equal steps around a circle.
use vstd::prelude::*;

use crate::angle;
use crate::convex;
use crate::ideal;
use crate::ideal::Ideal;
use crate::loops;
use crate::polygon;
use crate::profile::ExtrudedProfile;
use crate::scalar::Scalar;
use crate::series;
use crate::vector::Vector2;

verus! {

/// The point at the angle `a` and the distance `r` from the origin.
pub open spec fn ring(r: real, a: real) -> Vector2<Ideal> {
    Vector2 { x: ideal::number(r * ideal::circle().1(a)), y: ideal::number(r * ideal::circle().0(a)) }
}

/// Does a full turn lead back to where it started? The turn is a fraction near the circle's own, so
/// it does but for rounding.
pub open spec fn closes() -> bool {
    let turn = angle::full_turn::<Ideal>().v;
    ideal::circle().0(turn) == 0real && ideal::circle().1(turn) == 1real
}

/// The angle from one corner of a regular polygon of `n` sides to the next.
pub open spec fn step(n: nat) -> real {
    angle::full_turn::<Ideal>().v / n as real
}

/// The corners of a regular polygon of `n` sides.
pub open spec fn corners(radius: real, n: nat) -> Seq<Vector2<Ideal>> {
    Seq::new(n, |i: int| ExtrudedProfile::corner(ideal::number(radius), i as nat, n))
}

/// At the angle zero the sine is nothing and the cosine all.
pub proof fn lemma_at_zero()
    ensures
        ideal::circle().0(0real) == 0real,
        ideal::circle().1(0real) == 1real,
{
    let (s, c) = (ideal::circle().0(0real), ideal::circle().1(0real));
    ideal::lemma_circle(0real, 0real);
    assert(-0real == 0real);
    assert(s == 0real);
    assert(0real * 0real == 0real) by (nonlinear_arith);
    assert(c * c == 1real);
    assert(0real + 0real == 0real);
}

/// What two points of a ring span goes with the sine of the angle between them, and how far they go
/// the same way with its cosine.
pub proof fn lemma_ring(r: real, a: real, d: real)
    ensures
        ring(r, a).outer(ring(r, a + d)).v == (r * r) * ideal::circle().0(d),
        ring(r, a).inner(ring(r, a + d)).v == (r * r) * ideal::circle().1(d),
        ring(r, a).inner(ring(r, a)).v == r * r,
{
    let (sine, cosine) = ideal::circle();
    let (sa, ca, sb, cb) = (sine(a), cosine(a), sine(a + d), cosine(a + d));
    ideal::lemma_circle(a, d);
    ideal::lemma_circle(-a, a + d);
    ideal::lemma_circle(a, a);
    assert(-a + (a + d) == d);
    ideal::lemma_dist(cb, sa, 0real);
    ideal::lemma_dist(sb, sa, ca);
    ideal::lemma_dist(-sa, sb, cb);
    ideal::lemma_dist(ca, sb, cb);
    assert(sine(d) == ca * sb - cb * sa);
    assert(cosine(d) == ca * cb + sa * sb);
    ideal::lemma_pairs(r, ca, r, sb);
    ideal::lemma_pairs(r, cb, r, sa);
    ideal::lemma_pairs(r, ca, r, cb);
    ideal::lemma_pairs(r, sa, r, sb);
    ideal::lemma_pairs(r, ca, r, ca);
    ideal::lemma_pairs(r, sa, r, sa);
    ideal::lemma_dist(r * r, ca * sb, cb * sa);
    ideal::lemma_dist(r * r, ca * cb, sa * sb);
    ideal::lemma_dist(r * r, ca * ca, sa * sa);
    assert((r * r) * 1real == r * r) by (nonlinear_arith);
}

/// Three points of a ring at equal steps turn to the left if the step's sine is positive.
pub proof fn lemma_ring_turns(r: real, a: real, d: real)
    ensures
        convex::turn(ring(r, a), ring(r, a + d), ring(r, (a + d) + d)) == (r * r) * (2real
            * (ideal::circle().0(d) * (1real - ideal::circle().1(d)))),
        r != 0real && ideal::circle().0(d) > 0real ==> convex::turn(
            ring(r, a),
            ring(r, a + d),
            ring(r, (a + d) + d),
        ) > 0real,
{
    let (s, c) = (ideal::circle().0(d), ideal::circle().1(d));
    let (p, q, w) = (ring(r, a), ring(r, a + d), ring(r, (a + d) + d));
    lemma_ring(r, a, d);
    lemma_ring(r, a + d, d);
    lemma_ring(r, (a + d) + d, -(d + d));
    assert((a + d) + d + (-(d + d)) == a);
    ideal::lemma_circle(d, d);
    ideal::lemma_circle(d + d, 0real);
    convex::lemma_turn(p, q, w);
    ideal::lemma_dist(s, 1real, c);
    ideal::lemma_dist(r * r, s, s * c);
    assert(ideal::circle().0(-(d + d)) == -(2real * (s * c)));
    ideal::lemma_dist(r * r, 2real * (s * c), 0real);
    ideal::lemma_assoc(r * r, 2real, s * c);
    ideal::lemma_assoc(r * r, 2real, s * (1real - c));
    assert((r * r) * (2real * (s * c)) == 2real * ((r * r) * (s * c)));
    assert((r * r) * (2real * (s * (1real - c))) == 2real * ((r * r) * (s * (1real - c))));
    assert(s * 1real == s) by (nonlinear_arith);
    if r != 0real && s > 0real {
        ideal::lemma_circle(d, d);
        assert(c < 1real) by (nonlinear_arith)
            requires
                s * s + c * c == 1real,
                s > 0real,
        ;
        assert(r * r > 0real) by (nonlinear_arith)
            requires
                r != 0real,
        ;
        assert(s * (1real - c) > 0real) by (nonlinear_arith)
            requires
                s > 0real,
                c < 1real,
        ;
        let t = s * (1real - c);
        assert((r * r) * t > 0real) by (nonlinear_arith)
            requires
                r * r > 0real,
                t > 0real,
        ;
    }
}

/// The corners are points of a ring, a step apart.
pub proof fn lemma_corner(radius: real, i: nat, n: nat)
    requires
        0 < n,
    ensures
        ExtrudedProfile::corner(ideal::number(radius), i, n) == ring(radius, (i as real) * step(n)),
        ((i + 1) as real) * step(n) == (i as real) * step(n) + step(n),
        (n as real) * step(n) == angle::full_turn::<Ideal>().v,
{
    let (turn, half) = (angle::full_turn::<Ideal>().v, angle::half_turn::<Ideal>().v);
    angle::lemma_full_turn::<Ideal>();
    assert(Ideal::of_count(angle::TURN_NUMERATOR as nat).v == 13_176_795real);
    assert(Ideal::of_count(angle::TURN_DENOMINATOR as nat).v == 2_097_152real);
    assert(Ideal::of_count(angle::HALF_TURN_DENOMINATOR as nat).v == 4_194_304real);
    assert(turn == 2real * half);
    let (x, m) = (i as real, n as real);
    assert(((x / m) * 2real) * half == x * (turn / m)) by (nonlinear_arith)
        requires
            m > 0real,
            turn == 2real * half,
    ;
    let d = turn / m;
    assert((x + 1real) * d == x * d + d) by (nonlinear_arith);
    assert(m * (turn / m) == turn) by (nonlinear_arith)
        requires
            m > 0real,
    ;
    assert(Ideal::of_count(2).v == 2real);
}

/// The corner after the last is the first.
pub proof fn lemma_next_corner(radius: real, i: int, n: nat)
    requires
        0 <= i < n,
        i + 1 < n || closes(),
    ensures
        corners(radius, n)[i] == ring(radius, (i as real) * step(n)),
        corners(radius, n)[(i + 1) % n as int] == ring(radius, (i as real) * step(n) + step(n)),
{
    lemma_corner(radius, i as nat, n);
    lemma_corner(radius, (i + 1) as nat, n);
    polygon::lemma_next(i, n as int);
    if i + 1 == n {
        lemma_corner(radius, 0, n);
        lemma_at_zero();
        let d = step(n);
        assert(0real * d == 0real) by (nonlinear_arith);
    }
}

/// The corners of a regular profile stand at equal steps around the circle of its radius, the first
/// on the first axis.
pub proof fn law_regular_stands_on_circle(radius: real, sides: nat, i: int)
    requires
        3 <= sides,
        0 <= i < sides,
    ensures
        ({
            let p = ExtrudedProfile::corners(ideal::number(radius), sides)[i];
            let a = (i as real) * (angle::full_turn::<Ideal>().v / (sides as real));
            &&& p.x == ideal::number(radius * ideal::circle().1(a))
            &&& p.y == ideal::number(radius * ideal::circle().0(a))
            &&& i == 0 ==> p.x.v == radius && p.y.v == 0real
        }),
        ExtrudedProfile::corners(ideal::number(radius), sides) == corners(radius, sides),
{
    lemma_corner(radius, i as nat, sides);
    lemma_at_zero();
    let d = step(sides);
    assert(0real * d == 0real) by (nonlinear_arith);
    assert(radius * 1real == radius && radius * 0real == 0real) by (nonlinear_arith);
    assert(ExtrudedProfile::corners(ideal::number(radius), sides) =~= corners(radius, sides));
}

/// Each corner of a regular profile turns to the left, where the step from corner to corner has a
/// positive sine: the profile is counter-clockwise.
pub proof fn law_regular_turns_left(radius: real, i: int, n: nat)
    requires
        3 <= n,
        0 <= i < n,
        i + 2 < n || closes(),
        radius != 0real,
        ideal::circle().0(step(n)) > 0real,
    ensures
        ({
            let c = corners(radius, n);
            convex::turn(c[i], c[(i + 1) % n as int], c[(i + 2) % n as int]) > 0real
        }),
{
    lemma_next_corner(radius, i, n);
    polygon::lemma_next(i, n as int);
    let j = (i + 1) % n as int;
    polygon::lemma_next(j, n as int);
    lemma_next_corner(radius, j, n);
    let d = step(n);
    let a = (i as real) * d;
    lemma_ring_turns(radius, a, d);
    if i + 1 < n {
        lemma_corner(radius, i as nat, n);
    } else {
        // The step after the last corner is the one after the first.
        lemma_at_zero();
        assert(0real * d == 0real) by (nonlinear_arith);
        lemma_corner(radius, i as nat, n);
        ideal::lemma_circle(angle::full_turn::<Ideal>().v, d);
        let (sd, cd) = (ideal::circle().0(d), ideal::circle().1(d));
        assert(0real * cd == 0real && 1real * sd == sd && 1real * cd == cd && 0real * sd == 0real)
            by (nonlinear_arith);
        assert(a + d == angle::full_turn::<Ideal>().v);
        assert(0real + d == d);
    }
    vstd::arithmetic::div_mod::lemma_add_mod_noop(i + 1, 1, n as int);
    vstd::arithmetic::div_mod::lemma_small_mod(1, n);
}

/// Has the sine a positive value at every multiple of half the step, up to half a turn?
pub open spec fn has_positive_sines(n: nat) -> bool {
    forall|m: int| 0 < m < n ==> #[trigger] sine_at(n, m) > 0real
}

/// The sine of `m` half steps.
pub open spec fn sine_at(n: nat, m: int) -> real {
    ideal::circle().0((m as real) * (step(n) / 2real))
}

/// What the three sides of a triangle on the unit circle span with its centre, by the half angles.
proof fn lemma_three_sines(x: real, y: real)
    ensures
        ({
            let sine = ideal::circle().0;
            sine(x + x) + sine(y + y) - sine((x + y) + (x + y)) == 4real * ((sine(x) * sine(y))
                * sine(x + y))
        }),
{
    let (sine, cosine) = ideal::circle();
    let (s1, c1, s2, c2) = (sine(x), cosine(x), sine(y), cosine(y));
    let (s, c) = (sine(x + y), cosine(x + y));
    ideal::lemma_circle(x, x);
    ideal::lemma_circle(y, y);
    ideal::lemma_circle(x, y);
    ideal::lemma_circle(x + y, x + y);
    let (a, b) = (s1 * c1, s2 * c2);
    // s c, term by term.
    ideal::lemma_foil(s1 * c2, c1 * s2, c1 * c2, s1 * s2);
    ideal::lemma_pairs(s1, c2, c1, c2);
    ideal::lemma_pairs(s1, c2, s1, s2);
    ideal::lemma_pairs(c1, s2, c1, c2);
    ideal::lemma_pairs(c1, s2, s1, s2);
    assert(c2 * s2 == b && c1 * s1 == a);
    assert(s * c == a * (c2 * c2) - (s1 * s1) * b + (c1 * c1) * b - a * (s2 * s2));
    // The right side.
    ideal::lemma_dist(s1 * s2, s1 * c2, c1 * s2);
    ideal::lemma_pairs(s1, s2, s1, c2);
    ideal::lemma_pairs(s1, s2, c1, s2);
    assert((s1 * s2) * s == (s1 * s1) * b + a * (s2 * s2));
    // One less a square.
    ideal::lemma_dist(a, s2 * s2, c2 * c2);
    ideal::lemma_dist(b, s1 * s1, c1 * c1);
    assert(a * 1real == a && b * 1real == b) by (nonlinear_arith);
    assert(s2 * s2 + c2 * c2 == 1real && s1 * s1 + c1 * c1 == 1real);
    assert(a == a * (s2 * s2) + a * (c2 * c2));
    assert(b == b * (s1 * s1) + b * (c1 * c1));
}

/// A regular profile is convex and counter-clockwise, where the sine is positive below half a turn.
pub proof fn law_regular_is_convex(radius: real, n: nat)
    requires
        has_positive_sines(n),
        radius != 0real,
    ensures
        convex::is_convex(corners(radius, n)),
{
    let poly = corners(radius, n);
    let h = step(n) / 2real;
    let sine = ideal::circle().0;
    assert forall|i: int| 0 <= i < n implies loops::is_point(#[trigger] poly[i]) by {
        lemma_corner(radius, i as nat, n);
    }
    assert forall|i: int, j: int, k: int| 0 <= i < j < k < n implies #[trigger] convex::turn(
        poly[i],
        poly[j],
        poly[k],
    ) > 0real by {
        lemma_corner(radius, i as nat, n);
        lemma_corner(radius, j as nat, n);
        lemma_corner(radius, k as nat, n);
        let d = step(n);
        let (a, b, c) = ((i as real) * d, (j as real) * d, (k as real) * d);
        let (x, y) = (((j - i) as real) * h, ((k - j) as real) * h);
        lemma_between_multiples(i as real, j as real, d);
        lemma_between_multiples(j as real, k as real, d);
        lemma_between_multiples(i as real, k as real, d);
        assert((j - i) as real == j as real - i as real);
        assert((k - j) as real == k as real - j as real);
        assert((k - i) as real == k as real - i as real);
        assert(x + x == b - a && y + y == c - b);
        assert(x + y == ((k - i) as real) * h);
        lemma_ring(radius, a, x + x);
        lemma_ring(radius, b, y + y);
        lemma_ring(radius, c, -((x + y) + (x + y)));
        assert(c + (-((x + y) + (x + y))) == a);
        assert(a + (x + x) == b && b + (y + y) == c);
        ideal::lemma_circle((x + y) + (x + y), 0real);
        convex::lemma_turn(poly[i], poly[j], poly[k]);
        lemma_three_sines(x, y);
        let rr = radius * radius;
        let (s, t, u) = (sine(x + x), sine(y + y), sine((x + y) + (x + y)));
        ideal::lemma_dist(rr, s + t, u);
        ideal::lemma_dist(rr, s, t);
        ideal::lemma_dist(rr, u, 0real);
        assert(convex::turn(poly[i], poly[j], poly[k]) == rr * (s + t - u));
        let (e, f, g) = (sine(x), sine(y), sine(x + y));
        assert(sine_at(n, j - i) == e && sine_at(n, k - j) == f && sine_at(n, k - i) == g);
        assert(e * f > 0real) by (nonlinear_arith)
            requires
                e > 0real,
                f > 0real,
        ;
        let ef = e * f;
        assert(ef * g > 0real) by (nonlinear_arith)
            requires
                ef > 0real,
                g > 0real,
        ;
        assert(rr > 0real) by (nonlinear_arith)
            requires
                rr == radius * radius,
                radius != 0real,
        ;
        let all = 4real * (ef * g);
        assert(rr * all > 0real) by (nonlinear_arith)
            requires
                rr > 0real,
                all > 0real,
        ;
    }
}

proof fn lemma_between_multiples(i: real, j: real, d: real)
    ensures
        (j - i) * (d / 2real) + (j - i) * (d / 2real) == j * d - i * d,
{
    ideal::lemma_dist(d, j, i);
    ideal::lemma_dist(j - i, d / 2real, d / 2real);
    assert(d / 2real + d / 2real == d);
}

/// The area of a regular profile: as many triangles as it has sides, all alike; and it is at most
/// that of the circle around it, which half the squared radius times a turn is.
pub proof fn law_regular_area(radius: real, n: nat)
    requires
        0 < n,
        closes(),
    ensures
        polygon::loop_sum(corners(radius, n), polygon::area_term()) == ideal::number(
            (n as real) * ((radius * radius) * ideal::circle().0(step(n))),
        ),
        polygon::signed_area(corners(radius, n)).v == ((n as real) * ((radius * radius)
            * ideal::circle().0(step(n)))) / 2real,
        polygon::signed_area(corners(radius, n)).v <= ((radius * radius)
            * angle::full_turn::<Ideal>().v) / 2real,
{
    let poly = corners(radius, n);
    let d = step(n);
    let w = (radius * radius) * ideal::circle().0(d);
    loops::lemma_terms();
    assert forall|i: int| 0 <= i < n implies loops::is_point(#[trigger] poly[i]) by {
        lemma_next_corner(radius, i, n);
    }
    loops::lemma_loop_sum(poly, polygon::area_term());
    let e = loops::edge_values(poly, polygon::area_term());
    assert forall|i: int| 0 <= i < n implies #[trigger] e(i) == w by {
        lemma_next_corner(radius, i, n);
        lemma_ring(radius, (i as real) * d, d);
    }
    lemma_equal_sum(e, w, n);
    let s = ideal::circle().0(d);
    let m = n as real;
    angle::lemma_full_turn::<Ideal>();
    lemma_corner(radius, 0, n);
    let turn = angle::full_turn::<Ideal>().v;
    assert(d >= 0real) by (nonlinear_arith)
        requires
            d == turn / m,
            turn > 0real,
            m > 0real,
    ;
    ideal::lemma_circle(d, d);
    let rr = radius * radius;
    assert(rr >= 0real) by (nonlinear_arith)
        requires
            rr == radius * radius,
    ;
    assert(rr * s <= rr * d) by (nonlinear_arith)
        requires
            rr >= 0real,
            s <= d,
    ;
    let (u, v) = (rr * s, rr * d);
    assert(m * u <= m * v) by (nonlinear_arith)
        requires
            m >= 0real,
            u <= v,
    ;
    ideal::lemma_assoc(m, rr, d);
    let h = polygon::half_value::<Ideal>().v;
    assert(h == 1real / 2real);
    let total = m * u;
    ideal::lemma_dist(total, h, 0real);
    assert(total * h == total / 2real);
}

/// A sum of equal terms.
pub proof fn lemma_equal_sum(f: spec_fn(int) -> real, w: real, n: nat)
    requires
        forall|i: int| 0 <= i < n ==> #[trigger] f(i) == w,
    ensures
        series::sum(f, n) == (n as real) * w,
    decreases n,
{
    if n > 0 {
        lemma_equal_sum(f, w, (n - 1) as nat);
        assert(f(n - 1) == w);
        let m = (n - 1) as real;
        assert((m + 1real) * w == m * w + w) by (nonlinear_arith);
    } else {
        assert(0real * w == 0real) by (nonlinear_arith);
    }
}

} // verus!
