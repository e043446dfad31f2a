//! How exact the fixed-point sine, cosine and arc tangent are: within a few steps of their series.
use vstd::prelude::*;

use crate::exact;
use crate::fixed;
use crate::fixed::Fixed;
use crate::fixed::{HALF_TURN_STEPS, ONE, QUARTER_TURN_STEPS, TURN_STEPS};
use crate::ideal;
use crate::scalar::Scalar;

verus! {

/// The real number that a fixed-point number stands for.
pub open spec fn value(x: Fixed) -> real {
    (x.raw as real) / 4_294_967_296real
}

/// One step, the difference between a fixed-point number and the next.
pub open spec fn one_step() -> real {
    1real / 4_294_967_296real
}

/// Are the two at most `n` steps apart?
pub open spec fn is_within(a: real, b: real, n: real) -> bool {
    -(n * one_step()) <= a - b <= n * one_step()
}

/// What is left of the sine series from its `k`-th term on, over its leading factor, where `x` is
/// the squared angle. It ends with the thirteenth power.
pub open spec fn series_tail(x: real, k: nat) -> real
    decreases 7 - k,
{
    if k > 6 {
        1real
    } else {
        1real - (x / ((2 * k * (2 * k + 1)) as real)) * series_tail(x, k + 1)
    }
}

/// The sine series up to the thirteenth power.
pub open spec fn sine_series(t: real) -> real {
    t * series_tail(t * t, 1)
}

/// The angle within a quarter turn of zero that has the same sine.
pub open spec fn folded(x: Fixed) -> Fixed {
    let t = x.raw % TURN_STEPS;
    if t <= QUARTER_TURN_STEPS {
        fixed::pinned(t as int)
    } else if t <= HALF_TURN_STEPS + QUARTER_TURN_STEPS {
        fixed::pinned(HALF_TURN_STEPS - t)
    } else {
        fixed::pinned(t - TURN_STEPS)
    }
}

/// A quotient by one and what it leaves.
proof fn lemma_quotient(n: int) -> (q: int)
    ensures
        q == fixed::quotient(n, ONE as int),
        -ONE < n - q * ONE < ONE,
        n >= 0 ==> q >= 0 && n - q * ONE >= 0,
{
    let size = fixed::magnitude_of(n);
    let k = size / (ONE as int);
    assert(fixed::magnitude_of(ONE as int) == ONE);
    assert(0 <= size - k * ONE < ONE && 0 <= k);
    let q = fixed::quotient(n, ONE as int);
    assert(q == if n >= 0 {
        k
    } else {
        -k
    });
    q
}

/// A product is off by less than a step.
proof fn lemma_times(a: Fixed, b: Fixed)
    requires
        -0x2_0000_0000 <= a.raw <= 0x2_0000_0000,
        -0x4_0000_0000 <= b.raw <= 0x4_0000_0000,
    ensures
        is_within(value(a.times(b)), value(a) * value(b), 1real),
        a.raw >= 0 && b.raw >= 0 ==> a.times(b).raw >= 0 && value(a.times(b)) <= value(a) * value(b),
{
    let n = a.raw * b.raw;
    assert(-0x8_0000_0000_0000_0000 <= n <= 0x8_0000_0000_0000_0000) by (nonlinear_arith)
        requires
            n == a.raw * b.raw,
            -0x2_0000_0000 <= a.raw <= 0x2_0000_0000,
            -0x4_0000_0000 <= b.raw <= 0x4_0000_0000,
    ;
    let q = lemma_quotient(n);
    assert(a.times(b).raw == q);
    if a.raw >= 0 && b.raw >= 0 {
        assert(n >= 0) by (nonlinear_arith)
            requires
                n == a.raw * b.raw,
                a.raw >= 0,
                b.raw >= 0,
        ;
    }
    let (x, y, m, p) = (a.raw as real, b.raw as real, n as real, q as real);
    assert(m == x * y) by {
        lemma_real_product(a.raw as int, b.raw as int);
    }
    let o = 4_294_967_296real;
    assert((x / o) * (y / o) == (x * y) / (o * o)) by (nonlinear_arith)
        requires
            o > 0real,
    ;
    assert((n - q * ONE) as real == m - p * o);
    let d = m - p * o;
    assert(p / o - m / (o * o) == -(d / (o * o))) by (nonlinear_arith)
        requires
            d == m - p * o,
            o == 4_294_967_296real,
    ;
    assert(-o < d < o);
    assert(o * o == 18_446_744_073_709_551_616real);
}

pub proof fn lemma_real_product(a: int, b: int)
    ensures
        (a * b) as real == (a as real) * (b as real),
    decreases if a < 0 {
        -a
    } else {
        a
    },
{
    let y = b as real;
    if a == 0 {
        assert(0real * y == 0real) by (nonlinear_arith);
        assert(0 * b == 0);
    } else if a > 0 {
        lemma_real_product(a - 1, b);
        let x = (a - 1) as real;
        assert((x + 1real) * y == x * y + y) by (nonlinear_arith);
        assert(a * b == (a - 1) * b + b) by (nonlinear_arith);
    } else {
        lemma_real_product(a + 1, b);
        let x = (a + 1) as real;
        assert((x - 1real) * y == x * y - y) by (nonlinear_arith);
        assert(a * b == (a + 1) * b - b) by (nonlinear_arith);
    }
}

/// A quotient by a count is off by less than a step.
proof fn lemma_over(a: Fixed, c: nat)
    requires
        0 <= a.raw <= 0x4_0000_0000,
        1 <= c <= 200,
    ensures
        a.over(Fixed::of_count(c)).raw >= 0,
        value(a) / (c as real) - one_step() <= value(a.over(Fixed::of_count(c))),
        value(a.over(Fixed::of_count(c))) <= value(a) / (c as real),
{
    let b = Fixed::of_count(c);
    assert(b.raw == c * ONE);
    let n = a.raw as int;
    let q = n / (c as int);
    assert((n * ONE) / (c * ONE) == q) by {
        vstd::arithmetic::div_mod::lemma_truncate_middle(n, c as int, ONE as int);
        lemma_cancel(n, c as int);
    }
    assert(a.over(b).raw == q) by {
        assert(n * ONE >= 0);
        assert(0 <= q <= n) by (nonlinear_arith)
            requires
                q == n / (c as int),
                n >= 0,
                c >= 1,
        ;
    }
    let r = n % (c as int);
    assert(n == q * c + r && 0 <= r < c) by (nonlinear_arith)
        requires
            q == n / (c as int),
            r == n % (c as int),
            c >= 1,
    ;
    let (x, p, m, s) = (n as real, q as real, c as real, r as real);
    lemma_real_product(q, c as int);
    assert(x == p * m + s);
    let o = 4_294_967_296real;
    let (u, v) = (x / o, p / o);
    assert(u / m - 1real / o <= v <= u / m) by (nonlinear_arith)
        requires
            x == p * m + s,
            0real <= s <= m,
            m >= 1real,
            u == x / o,
            v == p / o,
            o > 0real,
    ;
}

proof fn lemma_cancel(n: int, c: int)
    requires
        c >= 1,
        n >= 0,
    ensures
        (n * ONE) / (c * ONE) == n / c,
{
    assert((n * ONE) / (c * ONE) == n / c) by (nonlinear_arith)
        requires
            c >= 1,
            n >= 0,
    ;
}

/// One stage of the series: off by a few steps where the next one is.
proof fn lemma_stage(x: real, s: real, c: real, q: real, f: real, g: real, p: real)
    requires
        0real <= s <= x <= 5real / 2real,
        x - s <= one_step(),
        c >= 6real,
        s / c - one_step() <= q <= s / c,
        0real <= q,
        0real <= f <= 1real,
        0real <= g <= 1real,
        is_within(f, g, 6real),
        q * f - one_step() <= p <= q * f,
    ensures
        is_within(1real - p, 1real - (x / c) * g, 6real),
        0real <= 1real - (x / c) * g <= 1real,
        1real - p >= 0real,
        q <= 5real / 12real,
{
    let u = one_step();
    let y = x / c;
    let z = s / c;
    assert(0real <= z <= y <= 5real / 12real && y - z <= u) by (nonlinear_arith)
        requires
            0real <= s <= x <= 5real / 2real,
            x - s <= u,
            u > 0real,
            c >= 6real,
            y == x / c,
            z == s / c,
    ;
    assert(0real <= y * g <= 5real / 12real) by (nonlinear_arith)
        requires
            0real <= y <= 5real / 12real,
            0real <= g <= 1real,
    ;
    // q f against y g: first the factor, then the rest.
    let e = f - g;
    assert(q * f <= y * f && q * f >= y * f - 2real * u) by (nonlinear_arith)
        requires
            y - 2real * u <= q <= y,
            0real <= f <= 1real,
            u > 0real,
    ;
    assert(y * f - y * g == y * e) by (nonlinear_arith)
        requires
            e == f - g,
    ;
    assert(-(3real * u) <= y * e <= 3real * u) by (nonlinear_arith)
        requires
            -(6real * u) <= e <= 6real * u,
            0real <= y <= 5real / 12real,
            u > 0real,
    ;
    assert(q * f <= 5real / 12real) by (nonlinear_arith)
        requires
            q <= 5real / 12real,
            0real <= f <= 1real,
            q >= 0real,
    ;
}

/// Every tail of the series is off by a few steps only.
proof fn lemma_tail(t: Fixed, k: nat)
    requires
        -QUARTER_TURN_STEPS <= t.raw <= QUARTER_TURN_STEPS,
        1 <= k <= 7,
    ensures
        0 <= fixed::sine_tail(t.times(t), k).raw <= ONE,
        0real <= series_tail(value(t) * value(t), k) <= 1real,
        is_within(
            value(fixed::sine_tail(t.times(t), k)),
            series_tail(value(t) * value(t), k),
            6real,
        ),
    decreases 7 - k,
{
    let square = t.times(t);
    let x = value(t) * value(t);
    let tail = fixed::sine_tail(square, k);
    if k > 6 {
        assert(tail.raw == ONE);
        assert(value(tail) == 1real);
    } else {
        lemma_tail(t, k + 1);
        lemma_square(t);
        let c = 2 * k * (2 * k + 1);
        assert(6 <= c <= 156) by (nonlinear_arith)
            requires
                c == 2 * k * (2 * k + 1),
                1 <= k <= 6,
        ;
        let q = square.over(Fixed::of_count(c));
        lemma_over(square, c);
        let next = fixed::sine_tail(square, k + 1);
        assert(0real <= value(next) <= 1real);
        assert(value(square) <= 5real / 2real);
        assert(0 <= q.raw <= ONE) by {
            let (y, m) = (value(square), c as real);
            assert(y / m <= 1real) by (nonlinear_arith)
                requires
                    0real <= y <= 5real / 2real,
                    m >= 6real,
            ;
            assert(q.raw as real <= 4_294_967_296real);
        }
        let p = q.times(next);
        lemma_times(q, next);
        assert(p.raw >= 0);
        lemma_stage(x, value(square), c as real, value(q), value(next), series_tail(x, k + 1), value(p));
        assert(value(p) <= 1real);
        assert(p.raw as real <= 4_294_967_296real);
        assert(tail == fixed::pinned(ONE as int).minus(p));
        assert(tail.raw == ONE - p.raw);
        assert((ONE - p.raw) as real == 4_294_967_296real - p.raw as real);
        assert(value(tail) == 1real - value(p));
    }
}

/// The squared angle, rounded down.
proof fn lemma_square(t: Fixed)
    requires
        -QUARTER_TURN_STEPS <= t.raw <= QUARTER_TURN_STEPS,
    ensures
        0 <= t.times(t).raw <= 0x4_0000_0000,
        0real <= value(t.times(t)) <= value(t) * value(t) <= 5real / 2real,
        value(t) * value(t) - value(t.times(t)) <= one_step(),
{
    let square = t.times(t);
    let x = value(t);
    lemma_times(t, t);
    assert(-(79real / 50real) <= x <= 79real / 50real);
    assert(0real <= x * x <= 5real / 2real) by (nonlinear_arith)
        requires
            -(79real / 50real) <= x <= 79real / 50real,
    ;
    let n = t.raw * t.raw;
    assert(0 <= n <= 0x4_0000_0000 * ONE) by (nonlinear_arith)
        requires
            n == t.raw * t.raw,
            -6_746_518_852 <= t.raw <= 6_746_518_852,
            ONE == 4_294_967_296,
    ;
    let q = lemma_quotient(n);
    assert(q * ONE <= n);
    assert(square.raw == q);
    // Rounded down, whatever the sign of the angle.
    let (m, p, y) = (n as real, q as real, t.raw as real);
    lemma_real_product(t.raw as int, t.raw as int);
    let o = 4_294_967_296real;
    assert((y / o) * (y / o) == (y * y) / (o * o)) by (nonlinear_arith)
        requires
            o > 0real,
    ;
    assert((q * ONE) as real == p * o);
    assert(p / o <= m / (o * o)) by (nonlinear_arith)
        requires
            p * o <= m,
            o == 4_294_967_296real,
    ;
}

/// The sine of an angle is within a few steps of its series at the angle that it is folded to, and
/// no larger than that angle.
pub proof fn law_sine_is_near_series(x: Fixed)
    ensures
        -QUARTER_TURN_STEPS <= folded(x).raw <= QUARTER_TURN_STEPS,
        is_within(value(x.sine()), sine_series(value(folded(x))), 11real),
        fixed::magnitude_of(x.sine().raw as int) <= fixed::magnitude_of(folded(x).raw as int),
{
    let t = folded(x);
    assert(x.sine() == fixed::sine_near_zero(t));
    let tail = fixed::sine_tail(t.times(t), 1);
    lemma_tail(t, 1);
    lemma_times(t, tail);
    let (a, f, g) = (value(t), value(tail), series_tail(value(t) * value(t), 1));
    let u = one_step();
    let e = f - g;
    assert(-(79real / 50real) <= a <= 79real / 50real);
    assert(a * f - a * g == a * e) by (nonlinear_arith)
        requires
            e == f - g,
    ;
    assert(-(10real * u) <= a * e <= 10real * u) by (nonlinear_arith)
        requires
            -(6real * u) <= e <= 6real * u,
            -(79real / 50real) <= a <= 79real / 50real,
            u > 0real,
    ;
    let n = t.raw * tail.raw;
    assert(fixed::magnitude_of(n) <= fixed::magnitude_of(t.raw as int) * ONE) by (nonlinear_arith)
        requires
            n == t.raw * tail.raw,
            0 <= tail.raw <= ONE,
            fixed::magnitude_of(n) == if n >= 0 {
                n
            } else {
                -n
            },
            fixed::magnitude_of(t.raw as int) == if t.raw >= 0 {
                t.raw as int
            } else {
                -t.raw
            },
    ;
    exact::lemma_quotient_bound(n, fixed::magnitude_of(t.raw as int));
}

/// The cosine of an angle is within a few steps of the sine series a quarter turn on.
pub proof fn law_cosine_is_near_series(x: Fixed)
    ensures
        ({
            let shifted = fixed::pinned(x.raw % TURN_STEPS + QUARTER_TURN_STEPS);
            is_within(value(x.cosine()), sine_series(value(folded(shifted))), 11real)
        }),
{
    law_sine_is_near_series(fixed::pinned(x.raw % TURN_STEPS + QUARTER_TURN_STEPS));
}

/// Every whole number has a root, rounded down.
proof fn lemma_root_exists(x: int) -> (r: int)
    requires
        x >= 0,
    ensures
        fixed::is_root(r, x),
    decreases x,
{
    if x == 0 {
        0
    } else {
        let r = lemma_root_exists(x - 1);
        if (r + 1) * (r + 1) <= x {
            let s = r + 1;
            assert(x < (s + 1) * (s + 1)) by (nonlinear_arith)
                requires
                    x - 1 < s * s,
                    s >= 1,
            ;
            s
        } else {
            r
        }
    }
}

/// The root of a number between one and two.
proof fn lemma_root(a: Fixed)
    requires
        ONE <= a.raw <= 2 * ONE,
    ensures
        ONE <= a.root().raw <= 2 * ONE,
        value(a.root()) * value(a.root()) <= value(a),
        value(a) - 3real * one_step() <= value(a.root()) * value(a.root()),
{
    let n = a.raw * ONE;
    let e = lemma_root_exists(n);
    assert(fixed::is_root(e, n));
    let r = fixed::root_of(n);
    assert(fixed::is_root(r, n));
    assert(ONE <= r < 6_100_000_000) by (nonlinear_arith)
        requires
            0 <= r,
            r * r <= n < (r + 1) * (r + 1),
            n == a.raw * ONE,
            ONE <= a.raw <= 2 * ONE,
            ONE == 4_294_967_296,
    ;
    assert(a.root().raw == r);
    let (x, m, o) = (r as real, n as real, 4_294_967_296real);
    lemma_real_product(r, r);
    lemma_real_product(r + 1, r + 1);
    assert((r + 1) as real == x + 1real);
    lemma_real_product(a.raw as int, ONE as int);
    let y = a.raw as real;
    assert(m == y * o);
    assert((r * r) as real <= m);
    assert(m < ((r + 1) * (r + 1)) as real);
    assert((x + 1real) * (x + 1real) == x * x + 2real * x + 1real) by (nonlinear_arith);
    let xx = x * x;
    assert((x / o) * (x / o) == xx / (o * o)) by (nonlinear_arith)
        requires
            o > 0real,
            xx == x * x,
    ;
    assert(y / o == m / (o * o)) by (nonlinear_arith)
        requires
            o > 0real,
            m == y * o,
    ;
    assert(o * o == 18_446_744_073_709_551_616real);
    assert(x < 6_100_000_000real);
    assert(m - xx <= 2real * x + 1real);
    assert(2real * x + 1real <= 3real * o);
}

/// Twice the tangent of half an angle against the tangent of the angle: by the double-angle formula
/// they differ by nothing.
pub open spec fn doubling_gap(t: real, h: real) -> real {
    2real * h - t * (1real - h * h)
}

/// Halving a tangent keeps to the double-angle formula within a few steps, and at least halves it.
pub proof fn law_tangents_are_halved(t: Fixed)
    requires
        0 <= t.raw <= ONE,
    ensures
        0 <= fixed::half_tangent(t).raw,
        2 * fixed::half_tangent(t).raw <= t.raw,
        -(3real * one_step()) <= doubling_gap(value(t), value(fixed::half_tangent(t))) <= 3real
            * one_step(),
{
    let u = one_step();
    let one = Fixed::of_count(1);
    assert(one.raw == ONE);
    let tt = t.times(t);
    lemma_times(t, t);
    let x = value(t);
    assert(0real <= x <= 1real);
    assert(0real <= x * x <= 1real) by (nonlinear_arith)
        requires
            0real <= x <= 1real,
    ;
    assert(tt.raw as real <= 4_294_967_296real);
    let a = one.plus(tt);
    assert(a.raw == ONE + tt.raw);
    assert((ONE + tt.raw) as real == 4_294_967_296real + tt.raw as real);
    assert(value(a) == 1real + value(tt));
    lemma_root(a);
    let root = a.root();
    let d = one.plus(root);
    assert(d.raw == ONE + root.raw);
    assert((ONE + root.raw) as real == 4_294_967_296real + root.raw as real);
    let r = value(root);
    assert(value(d) == 1real + r);
    let h = t.over(d);
    lemma_ratio(t, d);
    let z = value(h);
    let w = 1real + r;
    assert(2real <= w <= 3real);
    let g = x / w;
    assert(x == g * w) by (nonlinear_arith)
        requires
            g == x / w,
            w >= 2real,
    ;
    assert(0real <= g && 2real * g <= x) by (nonlinear_arith)
        requires
            x == g * w,
            w >= 2real,
            x >= 0real,
    ;
    assert(2 * h.raw <= t.raw) by {
        assert(2real * z <= x);
        assert((2 * h.raw) as real <= t.raw as real);
    }
    // The exact quotient first.
    let gap = 1real + x * x - r * r;
    assert(0real <= gap <= 4real * u);
    let q = doubling_gap(x, g);
    assert(w * (w * q) == x * gap) by {
        lemma_exact_gap(x, w, g, r);
    }
    assert(0real <= x * gap <= 4real * u) by (nonlinear_arith)
        requires
            0real <= x <= 1real,
            0real <= gap <= 4real * u,
    ;
    assert(0real <= q <= u) by (nonlinear_arith)
        requires
            0real <= w * (w * q) <= 4real * u,
            w >= 2real,
            u > 0real,
    ;
    // Then what rounding takes off it.
    let e = g - z;
    assert(0real <= e <= u);
    assert(doubling_gap(x, z) == q - 2real * e - x * (g * g - z * z)) by {
        let (gg, zz) = (g * g, z * z);
        assert(x * (1real - zz) == x * (1real - gg) + x * (gg - zz)) by (nonlinear_arith);
    }
    assert(0real <= g * g - z * z <= u) by (nonlinear_arith)
        requires
            e == g - z,
            0real <= e <= u,
            0real <= z,
            2real * g <= 1real,
            0real <= g,
    ;
    let f = g * g - z * z;
    assert(0real <= x * f <= u) by (nonlinear_arith)
        requires
            0real <= x <= 1real,
            0real <= f <= u,
    ;
}

proof fn lemma_exact_gap(x: real, w: real, g: real, r: real)
    requires
        x == g * w,
        w == 1real + r,
    ensures
        w * (w * doubling_gap(x, g)) == x * (1real + x * x - r * r),
{
    let gg = g * g;
    ideal::lemma_dist(w, 2real * g, x * (1real - gg));
    ideal::lemma_dist(w, w * (2real * g), w * (x * (1real - gg)));
    // w w 2 g == 2 x w
    ideal::lemma_assoc(w, 2real, g);
    ideal::lemma_assoc(2real, w, g);
    assert(w * (2real * g) == 2real * x);
    // w w g g == x x
    ideal::lemma_pairs(w, g, w, g);
    ideal::lemma_assoc(w, w, x * (1real - gg));
    ideal::lemma_assoc(w * w, x, 1real - gg);
    ideal::lemma_assoc(x, w * w, 1real - gg);
    let ww = w * w;
    ideal::lemma_dist(ww, 1real, gg);
    assert(ww * 1real == ww) by (nonlinear_arith);
    assert(ww * gg == x * x);
    assert(w * (w * (x * (1real - gg))) == x * (ww - x * x));
    assert(w * (2real * x) == x * (2real * w)) by (nonlinear_arith);
    ideal::lemma_dist(x, 2real * w, ww - x * x);
    assert(ww == 1real + 2real * r + r * r) by (nonlinear_arith)
        requires
            ww == w * w,
            w == 1real + r,
    ;
    assert(2real * w - (ww - x * x) == 1real + x * x - r * r);
}

/// A quotient by a number between two and three is off by less than a step.
proof fn lemma_ratio(a: Fixed, b: Fixed)
    requires
        0 <= a.raw <= ONE,
        2 * ONE <= b.raw <= 3 * ONE,
    ensures
        a.over(b).raw >= 0,
        value(a) / value(b) - one_step() <= value(a.over(b)) <= value(a) / value(b),
{
    let (n, c) = (a.raw * ONE, b.raw as int);
    let q = n / c;
    let r = n % c;
    assert(n == q * c + r && 0 <= r < c && 0 <= q <= ONE) by (nonlinear_arith)
        requires
            q == n / c,
            r == n % c,
            0 <= n <= ONE * ONE,
            ONE <= c,
            ONE == 4_294_967_296,
    ;
    assert(a.over(b).raw == q);
    let (x, y, p, s, o) = (a.raw as real, c as real, q as real, r as real, 4_294_967_296real);
    lemma_real_product(a.raw as int, ONE as int);
    lemma_real_product(q, c);
    assert(x * o == p * y + s);
    let (u, v, w) = (x / o, y / o, p / o);
    assert(u / v == x / y) by (nonlinear_arith)
        requires
            u == x / o,
            v == y / o,
            o > 0real,
            y > 0real,
    ;
    assert(x / y - 1real / o <= w <= x / y) by (nonlinear_arith)
        requires
            x * o == p * y + s,
            0real <= s <= y,
            w == p / o,
            y > 0real,
            o > 0real,
    ;
}

/// What is left of the arc tangent series from its `k`-th term on, over its leading factor, where
/// `x` is the squared tangent. It ends with the thirteenth power.
pub open spec fn arc_series_tail(x: real, k: nat) -> real
    decreases 6 - k,
{
    let term = 1real / ((2 * k + 1) as real);
    if k >= 6 {
        term
    } else {
        term - x * arc_series_tail(x, k + 1)
    }
}

/// The arc tangent series up to the thirteenth power.
pub open spec fn arc_series(t: real) -> real {
    t * arc_series_tail(t * t, 0)
}

/// Every tail of the arc tangent series is off by a few steps only.
proof fn lemma_arc_tail(h: Fixed, k: nat)
    requires
        0 <= 4 * h.raw <= ONE,
        k <= 6,
    ensures
        0 <= fixed::arc_tail(h.times(h), k).raw <= ONE,
        0real <= arc_series_tail(value(h) * value(h), k) <= 1real,
        is_within(
            value(fixed::arc_tail(h.times(h), k)),
            arc_series_tail(value(h) * value(h), k),
            4real,
        ),
    decreases 6 - k,
{
    let u = one_step();
    let square = h.times(h);
    let y = value(h);
    let x = y * y;
    lemma_times(h, h);
    assert(0real <= y <= 1real / 4real);
    assert(0real <= x <= 1real / 16real) by (nonlinear_arith)
        requires
            x == y * y,
            0real <= y <= 1real / 4real,
    ;
    let s = value(square);
    assert(0real <= s <= x && x - s <= u);
    assert(square.raw <= ONE) by {
        assert(square.raw as real <= 4_294_967_296real);
    }
    let one = Fixed::of_count(1);
    assert(one.raw == ONE);
    let c = 2 * k + 1;
    lemma_over(one, c);
    let term = one.over(Fixed::of_count(c));
    let m = c as real;
    let t = 1real / m;
    assert(1real / 13real <= t <= 1real) by (nonlinear_arith)
        requires
            t == 1real / m,
            1real <= m <= 13real,
    ;
    assert(value(one) == 1real);
    assert(t - u <= value(term) <= t);
    let tail = fixed::arc_tail(square, k);
    let exact = arc_series_tail(x, k);
    if k >= 6 {
        assert(tail == term);
        assert(exact == t);
        assert(term.raw as real <= 4_294_967_296real);
    } else {
        lemma_arc_tail(h, k + 1);
        let next = fixed::arc_tail(square, k + 1);
        let (f, g) = (value(next), arc_series_tail(x, k + 1));
        let p = square.times(next);
        lemma_times(square, next);
        assert(0real <= f <= 1real);
        assert(s * f <= x * f && x * f - s * f <= u) by (nonlinear_arith)
            requires
                0real <= s <= x,
                x - s <= u,
                0real <= f <= 1real,
        ;
        let e = f - g;
        assert(x * f - x * g == x * e) by (nonlinear_arith)
            requires
                e == f - g,
        ;
        assert(-u <= x * e <= u) by (nonlinear_arith)
            requires
                -(4real * u) <= e <= 4real * u,
                0real <= x <= 1real / 16real,
                u > 0real,
        ;
        assert(tail == term.minus(p));
        assert(0real <= x * g) by (nonlinear_arith)
            requires
                0real <= x,
                0real <= g,
        ;
        assert(x * g <= 1real / 16real && x * f <= 1real / 16real) by (nonlinear_arith)
            requires
                0real <= x <= 1real / 16real,
                0real <= g <= 1real,
                0real <= f <= 1real,
        ;
        assert(t >= 1real / 11real) by (nonlinear_arith)
            requires
                t == 1real / m,
                1real <= m <= 11real,
        ;
        assert(value(p) <= value(term));
        assert(p.raw as real <= term.raw as real);
        assert(term.raw as real <= 4_294_967_296real);
        assert(tail.raw == term.raw - p.raw);
        assert((term.raw - p.raw) as real == term.raw as real - p.raw as real);
        assert(value(tail) == value(term) - value(p));
    }
}

/// The angle of a tangent between zero and one is within a few steps of four times the series at
/// the tangent that halving it twice gives.
pub proof fn law_arc_is_near_series(t: Fixed)
    requires
        0 <= t.raw <= ONE,
    ensures
        ({
            let h = fixed::half_tangent(fixed::half_tangent(t));
            &&& 0 <= 4 * h.raw <= t.raw
            &&& is_within(value(fixed::arc_of(t)), 4real * arc_series(value(h)), 8real)
        }),
{
    law_tangents_are_halved(t);
    law_tangents_are_halved(fixed::half_tangent(t));
    let h = fixed::half_tangent(fixed::half_tangent(t));
    let tail = fixed::arc_tail(h.times(h), 0);
    lemma_arc_tail(h, 0);
    lemma_times(h, tail);
    let u = one_step();
    let (a, f, g) = (value(h), value(tail), arc_series_tail(value(h) * value(h), 0));
    let e = f - g;
    assert(0real <= a <= 1real / 4real);
    assert(a * f - a * g == a * e) by (nonlinear_arith)
        requires
            e == f - g,
    ;
    assert(-u <= a * e <= u) by (nonlinear_arith)
        requires
            -(4real * u) <= e <= 4real * u,
            0real <= a <= 1real / 4real,
            u > 0real,
    ;
    let p = h.times(tail);
    assert(is_within(value(p), arc_series(a), 2real));
    // Four times that, exactly.
    assert(0 <= p.raw <= ONE) by {
        assert(a * f <= 1real) by (nonlinear_arith)
            requires
                0real <= a <= 1real / 4real,
                0real <= f <= 1real,
        ;
        assert(p.raw as real <= 4_294_967_296real);
    }
    let four = Fixed::of_count(4);
    assert(four.raw == 4 * ONE);
    let (x, y) = (four.raw as int, p.raw as int);
    assert(x * y == (4 * y) * ONE) by (nonlinear_arith)
        requires
            x == 4 * ONE,
    ;
    let q = lemma_quotient((4 * y) * ONE);
    assert(q == 4 * y);
    assert(four.times(p).raw == 4 * p.raw);
    assert((4 * p.raw) as real == 4real * (p.raw as real));
    assert(fixed::arc_of(t) == four.times(p));
}

/// The root of a number is exact but for what is left below a step.
pub proof fn law_root_is_exact(a: Fixed)
    requires
        a.raw > 0,
    ensures
        ({
            let r = a.root().raw;
            r >= 0 && r * r <= a.raw * ONE < (r + 1) * (r + 1)
        }),
{
    let n = a.raw * ONE;
    let e = lemma_root_exists(n);
    assert(fixed::is_root(e, n));
    let r = fixed::root_of(n);
    assert(fixed::is_root(r, n));
    assert(r <= i64::MAX) by (nonlinear_arith)
        requires
            r * r <= n,
            n == a.raw * ONE,
            0 < a.raw <= i64::MAX,
            ONE == 4_294_967_296,
            0 <= r,
    ;
}

/// The angle of a direction goes by symmetry: below the first axis it is that above it negated, on
/// the far side of the second axis it is half a turn less that on the near side, and past the
/// diagonal it is a quarter turn less that before it.
pub proof fn law_angles_are_symmetric(y: Fixed, x: Fixed)
    requires
        0 < y.raw < i64::MAX,
        0 <= x.raw < i64::MAX,
        0 <= y.arctangent(x).raw <= HALF_TURN_STEPS,
    ensures
        y.negated().arctangent(x).raw == -y.arctangent(x).raw,
        x.raw > 0 ==> y.arctangent(x.negated()).raw == HALF_TURN_STEPS - y.arctangent(x).raw,
        y.raw <= x.raw ==> y.arctangent(x) == fixed::arc_of(y.over(x)),
        x.raw < y.raw ==> y.arctangent(x) == fixed::pinned(QUARTER_TURN_STEPS as int).minus(
            fixed::arc_of(x.over(y)),
        ),
{
}

} // verus!
