//! A fixed-point scalar, for simulations that must run alike on every machine.
use vstd::prelude::*;

use crate::scalar::{Lawful, Real, Scalar};

verus! {

/// How many steps of a [`Fixed`] make one.
pub const ONE: i64 = 4_294_967_296;

/// A full turn in steps.
pub const TURN_STEPS: i64 = 26_986_075_409;

/// Half a turn in steps.
pub const HALF_TURN_STEPS: i64 = 13_493_037_705;

/// A quarter turn in steps.
pub const QUARTER_TURN_STEPS: i64 = 6_746_518_852;

/// The multiple `raw / ONE` of one. Results that do not fit are pinned to the ends of the range,
/// which double as the infinities.
#[derive(Copy, Clone, Debug, PartialEq, Eq, Structural)]
pub struct Fixed {
    pub raw: i64,
}

/// The whole number nearest to `x` that fits.
pub open spec fn pinned(x: int) -> Fixed {
    Fixed {
        raw: if x > i64::MAX {
            i64::MAX
        } else if x < i64::MIN {
            i64::MIN
        } else {
            x as i64
        },
    }
}

/// `n / d`, rounded towards zero.
pub open spec fn quotient(n: int, d: int) -> int {
    if (n >= 0) == (d > 0) {
        magnitude_of(n) / magnitude_of(d)
    } else {
        -(magnitude_of(n) / magnitude_of(d))
    }
}

/// `x` without its sign.
pub open spec fn magnitude_of(x: int) -> int {
    if x >= 0 {
        x
    } else {
        -x
    }
}

/// Is `r` the square root of `x`, rounded down?
pub open spec fn is_root(r: int, x: int) -> bool {
    0 <= r && r * r <= x < (r + 1) * (r + 1)
}

/// The square root of `x`, rounded down.
pub open spec fn root_of(x: int) -> int {
    choose|r: int| is_root(r, x)
}

/// One minus the tail of the sine series from its `k`-th term on, over its leading factor, where
/// `square` is the squared angle.
pub open spec fn sine_tail(square: Fixed, k: nat) -> Fixed
    decreases 7 - k,
{
    if k > 6 {
        pinned(ONE as int)
    } else {
        pinned(ONE as int).minus(
            square.over(Fixed::of_count(2 * k * (2 * k + 1))).times(sine_tail(square, k + 1)),
        )
    }
}

/// The sine of an angle of at most a quarter turn either way.
pub open spec fn sine_near_zero(t: Fixed) -> Fixed {
    t.times(sine_tail(t.times(t), 1))
}

/// The tail of the arc tangent series from its `k`-th term on, over its leading factor, where
/// `square` is the squared tangent.
pub open spec fn arc_tail(square: Fixed, k: nat) -> Fixed
    decreases 6 - k,
{
    let term = Fixed::of_count(1).over(Fixed::of_count(2 * k + 1));
    if k >= 6 {
        term
    } else {
        term.minus(square.times(arc_tail(square, k + 1)))
    }
}

/// The tangent of half the angle whose tangent is `t`.
pub open spec fn half_tangent(t: Fixed) -> Fixed {
    t.over(Fixed::of_count(1).plus(Fixed::of_count(1).plus(t.times(t)).root()))
}

/// The angle whose tangent is `t`, for `t` between zero and one.
pub open spec fn arc_of(t: Fixed) -> Fixed {
    let h = half_tangent(half_tangent(t));
    Fixed::of_count(4).times(h.times(arc_tail(h.times(h), 0)))
}

fn pin(x: i128) -> (r: Fixed)
    ensures
        r == pinned(x as int),
{
    if x > i64::MAX as i128 {
        Fixed { raw: i64::MAX }
    } else if x < i64::MIN as i128 {
        Fixed { raw: i64::MIN }
    } else {
        Fixed { raw: x as i64 }
    }
}

fn divide(n: i128, d: i128) -> (r: i128)
    requires
        d != 0,
        n > i128::MIN,
        d > i128::MIN,
    ensures
        r == quotient(n as int, d as int),
{
    let top: i128 = if n >= 0 {
        n
    } else {
        -n
    };
    let bottom: i128 = if d >= 0 {
        d
    } else {
        -d
    };
    let size: i128 = top / bottom;
    assert(0 <= size <= top) by (nonlinear_arith)
        requires
            size == top / bottom,
            top >= 0,
            bottom > 0,
    ;
    if (n >= 0) == (d > 0) {
        size
    } else {
        -size
    }
}

fn remainder(n: i64, d: i64) -> (r: i64)
    requires
        d > 0,
    ensures
        r == n % d,
        0 <= r < d,
{
    if n >= 0 {
        n % d
    } else {
        let m: i64 = -(n + 1);
        let q: i64 = m % d;
        assert(n as int % d as int == d - 1 - q) by (nonlinear_arith)
            requires
                n as int == -(m as int) - 1,
                m >= 0,
                d > 0,
                q as int == m as int % d as int,
        {
            vstd::arithmetic::div_mod::lemma_fundamental_div_mod(m as int, d as int);
            vstd::arithmetic::div_mod::lemma_fundamental_div_mod_converse(
                n as int,
                d as int,
                -(m as int / d as int) - 1,
                d - 1 - q,
            );
        }
        d - 1 - q
    }
}

proof fn lemma_root_unique(a: int, b: int, x: int)
    requires
        is_root(a, x),
        is_root(b, x),
    ensures
        a == b,
{
    assert(a <= b) by (nonlinear_arith)
        requires
            0 <= a,
            0 <= b,
            a * a <= x,
            x < (b + 1) * (b + 1),
    ;
    assert(b <= a) by (nonlinear_arith)
        requires
            0 <= a,
            0 <= b,
            b * b <= x,
            x < (a + 1) * (a + 1),
    ;
}

fn integer_root(x: i128) -> (r: i128)
    requires
        0 <= x < 0x1_0000_0000_0000_0000_0000_0000,
    ensures
        is_root(r as int, x as int),
        r <= 0x1_0000_0000_0000,
{
    let mut low: i128 = 0;
    let mut high: i128 = 0x1_0000_0000_0000;
    while high - low > 1
        invariant
            0 <= low < high <= 0x1_0000_0000_0000,
            low * low <= x < high * high,
        decreases high - low,
    {
        let mid: i128 = low + (high - low) / 2;
        assert(0 <= mid * mid <= 0x1_0000_0000_0000_0000_0000_0000) by (nonlinear_arith)
            requires
                0 <= mid <= 0x1_0000_0000_0000,
        ;
        if mid * mid <= x {
            low = mid;
        } else {
            high = mid;
        }
    }
    assert(high == low + 1);
    low
}

fn sine_tail_of(square: Fixed, k: usize) -> (r: Fixed)
    requires
        1 <= k <= 7,
    ensures
        r == sine_tail(square, k as nat),
    decreases 7 - k,
{
    if k > 6 {
        Fixed { raw: ONE }
    } else {
        let k2: usize = 2 * k;
        assert(k2 * (k2 + 1) <= 156 && k2 * (k2 + 1) == 2 * k * (2 * k + 1)) by (nonlinear_arith)
            requires
                k2 == 2 * k,
                k <= 6,
        ;
        Fixed { raw: ONE }.sub(
            square.div(Fixed::from_usize(k2 * (k2 + 1))).mul(sine_tail_of(square, k + 1)),
        )
    }
}

fn arc_tail_of(square: Fixed, k: usize) -> (r: Fixed)
    requires
        k <= 6,
    ensures
        r == arc_tail(square, k as nat),
    decreases 6 - k,
{
    let term = Fixed::from_usize(1).div(Fixed::from_usize(2 * k + 1));
    if k >= 6 {
        term
    } else {
        term.sub(square.mul(arc_tail_of(square, k + 1)))
    }
}

fn half_tangent_of(t: Fixed) -> (r: Fixed)
    ensures
        r == half_tangent(t),
{
    t.div(Fixed::from_usize(1).add(Fixed::from_usize(1).add(t.mul(t)).sqrt()))
}

fn arc_from(t: Fixed) -> (r: Fixed)
    ensures
        r == arc_of(t),
{
    let h = half_tangent_of(half_tangent_of(t));
    Fixed::from_usize(4).mul(h.mul(arc_tail_of(h.mul(h), 0)))
}

fn sine_of(t: Fixed) -> (r: Fixed)
    ensures
        r == sine_near_zero(t),
{
    t.mul(sine_tail_of(t.mul(t), 1))
}

impl Scalar for Fixed {
    open spec fn of_count(n: nat) -> Self {
        pinned(n * ONE)
    }

    open spec fn plus(self, other: Self) -> Self {
        pinned(self.raw + other.raw)
    }

    open spec fn minus(self, other: Self) -> Self {
        pinned(self.raw - other.raw)
    }

    open spec fn times(self, other: Self) -> Self {
        pinned(quotient(self.raw * other.raw, ONE as int))
    }

    open spec fn over(self, other: Self) -> Self {
        if other.raw != 0 {
            pinned(quotient(self.raw * ONE, other.raw as int))
        } else if self.raw > 0 {
            Self::infinity_value()
        } else if self.raw < 0 {
            Self::neg_infinity_value()
        } else {
            self
        }
    }

    open spec fn negated(self) -> Self {
        pinned(-self.raw)
    }

    open spec fn magnitude(self) -> Self {
        pinned(magnitude_of(self.raw as int))
    }

    open spec fn root(self) -> Self {
        if self.raw <= 0 {
            Fixed { raw: 0 }
        } else {
            pinned(root_of(self.raw * ONE))
        }
    }

    open spec fn cube(self) -> Self {
        self.times(self).times(self)
    }

    open spec fn sine(self) -> Self {
        let t = self.raw % TURN_STEPS;
        sine_near_zero(
            if t <= QUARTER_TURN_STEPS {
                pinned(t as int)
            } else if t <= HALF_TURN_STEPS + QUARTER_TURN_STEPS {
                pinned(HALF_TURN_STEPS - t)
            } else {
                pinned(t - TURN_STEPS)
            },
        )
    }

    open spec fn cosine(self) -> Self {
        pinned(self.raw % TURN_STEPS + QUARTER_TURN_STEPS).sine()
    }

    open spec fn arctangent(self, x: Self) -> Self {
        let across = x.magnitude();
        let along = self.magnitude();
        let steep = if along.raw <= across.raw {
            arc_of(along.over(across))
        } else {
            pinned(QUARTER_TURN_STEPS as int).minus(arc_of(across.over(along)))
        };
        let upper = if x.raw < 0 {
            pinned(HALF_TURN_STEPS as int).minus(steep)
        } else {
            steep
        };
        if self.raw < 0 {
            upper.negated()
        } else {
            upper
        }
    }

    open spec fn ceiling(self) -> Self {
        if self.raw % ONE == 0 {
            self
        } else {
            pinned(self.raw - self.raw % ONE + ONE)
        }
    }

    open spec fn lesser(self, other: Self) -> Self {
        if other.raw < self.raw {
            other
        } else {
            self
        }
    }

    open spec fn greater(self, other: Self) -> Self {
        if other.raw > self.raw {
            other
        } else {
            self
        }
    }

    open spec fn whole(self) -> usize {
        if self.raw < 0 {
            0
        } else {
            (self.raw / ONE) as usize
        }
    }

    open spec fn below(self, other: Self) -> bool {
        self.raw < other.raw
    }

    open spec fn at_most(self, other: Self) -> bool {
        self.raw <= other.raw
    }

    open spec fn same(self, other: Self) -> bool {
        self.raw == other.raw
    }

    open spec fn finite(self) -> bool {
        i64::MIN < self.raw < i64::MAX
    }

    open spec fn epsilon_value() -> Self {
        Fixed { raw: 1 }
    }

    open spec fn min_positive_value() -> Self {
        Fixed { raw: 1 }
    }

    open spec fn infinity_value() -> Self {
        Fixed { raw: i64::MAX }
    }

    open spec fn neg_infinity_value() -> Self {
        Fixed { raw: i64::MIN }
    }
}

impl Real for Fixed {
    fn from_usize(n: usize) -> (r: Self) {
        pin(n as i128 * ONE as i128)
    }

    fn add(self, other: Self) -> (r: Self) {
        pin(self.raw as i128 + other.raw as i128)
    }

    fn sub(self, other: Self) -> (r: Self) {
        pin(self.raw as i128 - other.raw as i128)
    }

    fn mul(self, other: Self) -> (r: Self) {
        let a: i128 = self.raw as i128;
        let b: i128 = other.raw as i128;
        assert(-0x4000_0000_0000_0000_0000_0000_0000_0000 <= a * b
            <= 0x4000_0000_0000_0000_0000_0000_0000_0000) by (nonlinear_arith)
            requires
                -0x8000_0000_0000_0000 <= a <= 0x8000_0000_0000_0000,
                -0x8000_0000_0000_0000 <= b <= 0x8000_0000_0000_0000,
        ;
        pin(divide(a * b, ONE as i128))
    }

    fn div(self, other: Self) -> (r: Self) {
        if other.raw != 0 {
            pin(divide(self.raw as i128 * ONE as i128, other.raw as i128))
        } else if self.raw > 0 {
            Self::infinity()
        } else if self.raw < 0 {
            Self::neg_infinity()
        } else {
            self
        }
    }

    fn neg(self) -> (r: Self) {
        pin(-(self.raw as i128))
    }

    fn abs(self) -> (r: Self) {
        if self.raw >= 0 {
            self
        } else {
            pin(-(self.raw as i128))
        }
    }

    fn sqrt(self) -> (r: Self) {
        if self.raw <= 0 {
            Fixed { raw: 0 }
        } else {
            let r: i128 = integer_root(self.raw as i128 * ONE as i128);
            proof {
                lemma_root_unique(r as int, root_of(self.raw * ONE), self.raw * ONE);
            }
            pin(r)
        }
    }

    fn cubed(self) -> (r: Self) {
        self.mul(self).mul(self)
    }

    fn sin(self) -> (r: Self) {
        let t: i64 = remainder(self.raw, TURN_STEPS);
        if t <= QUARTER_TURN_STEPS {
            sine_of(Fixed { raw: t })
        } else if t <= HALF_TURN_STEPS + QUARTER_TURN_STEPS {
            sine_of(Fixed { raw: HALF_TURN_STEPS - t })
        } else {
            sine_of(Fixed { raw: t - TURN_STEPS })
        }
    }

    fn cos(self) -> (r: Self) {
        let t: i64 = remainder(self.raw, TURN_STEPS);
        Fixed { raw: t + QUARTER_TURN_STEPS }.sin()
    }

    fn atan2(self, x: Self) -> (r: Self) {
        let across = x.abs();
        let along = self.abs();
        let steep = if along.raw <= across.raw {
            arc_from(along.div(across))
        } else {
            Fixed { raw: QUARTER_TURN_STEPS }.sub(arc_from(across.div(along)))
        };
        let upper = if x.raw < 0 {
            Fixed { raw: HALF_TURN_STEPS }.sub(steep)
        } else {
            steep
        };
        if self.raw < 0 {
            upper.neg()
        } else {
            upper
        }
    }

    fn ceil(self) -> (r: Self) {
        let t: i64 = remainder(self.raw, ONE);
        if t == 0 {
            self
        } else {
            pin(self.raw as i128 - t as i128 + ONE as i128)
        }
    }

    fn min(self, other: Self) -> (r: Self) {
        if other.raw < self.raw {
            other
        } else {
            self
        }
    }

    fn max(self, other: Self) -> (r: Self) {
        if other.raw > self.raw {
            other
        } else {
            self
        }
    }

    fn to_usize(self) -> (r: usize) {
        if self.raw < 0 {
            0
        } else {
            (self.raw / ONE) as usize
        }
    }

    fn is_below(self, other: Self) -> (r: bool) {
        self.raw < other.raw
    }

    fn is_at_most(self, other: Self) -> (r: bool) {
        self.raw <= other.raw
    }

    fn is_same(self, other: Self) -> (r: bool) {
        self.raw == other.raw
    }

    fn is_finite(self) -> (r: bool) {
        i64::MIN < self.raw && self.raw < i64::MAX
    }

    fn epsilon() -> (r: Self) {
        Fixed { raw: 1 }
    }

    fn min_positive() -> (r: Self) {
        Fixed { raw: 1 }
    }

    fn infinity() -> (r: Self) {
        Fixed { raw: i64::MAX }
    }

    fn neg_infinity() -> (r: Self) {
        Fixed { raw: i64::MIN }
    }

}

impl Lawful for Fixed {
    proof fn law_numbers(a: Self, b: Self) {
    }

    proof fn law_transitive(a: Self, b: Self, c: Self) {
    }

    proof fn law_extremes(a: Self, b: Self) {
    }

    proof fn law_infinities(a: Self) {
    }

    proof fn law_counts(m: nat, n: nat) {
        assert(m * ONE <= 0x100_0000_0000_0000);
        assert(n * ONE <= 0x100_0000_0000_0000);
        assert(Self::of_count(m).raw == m * ONE);
        assert((m * ONE) / (ONE as int) == m);
        if m > 0 && n > 0 {
            let top = (m * ONE) * ONE;
            let bottom = n * ONE;
            assert(0 < top / bottom < i64::MAX) by (nonlinear_arith)
                requires
                    0x1_0000_0000_0000_0000 <= top <= 0x100_0000_0000_0000_0000_0000,
                    0x1_0000_0000 <= bottom <= 0x100_0000_0000_0000,
            ;
        }
    }

    proof fn law_rounding(a: Self, b: Self, n: nat) {
        if n <= crate::scalar::EXACT_COUNT && a.at_most(Self::of_count(n)) {
            let top = n * ONE;
            assert(top <= 0x100_0000_0000_0000);
            assert(a.raw - a.raw % ONE + ONE <= top || a.raw % ONE == 0);
        }
    }

    proof fn law_fractions(a: Self, b: Self) {
        if 0 < b.raw && a.raw <= b.raw {
            assert(0 <= (a.raw * ONE) / (b.raw as int) <= ONE) by (nonlinear_arith)
                requires
                    0 <= a.raw <= b.raw,
                    0 < b.raw,
                    ONE > 0,
            ;
        }
        if 0 <= b.raw && a.raw <= ONE {
            assert(0 <= a.raw * b.raw) by (nonlinear_arith)
                requires
                    0 <= a.raw,
                    0 <= b.raw,
            ;
            assert(a.raw * b.raw <= ONE * b.raw) by (nonlinear_arith)
                requires
                    a.raw <= ONE,
                    0 <= b.raw,
            ;
            let product = a.raw * b.raw;
            assert(0 <= product / (ONE as int) <= b.raw);
        }
    }

    proof fn law_differences(a: Self, b: Self) {
    }

    proof fn law_neutral(a: Self) {
        assert(Fixed::of_count(1).raw == ONE);
        assert(a.raw * ONE == a.raw * Fixed::of_count(1).raw);
        assert((a.raw * ONE) / (ONE as int) == a.raw);
        assert((-a.raw * ONE) / (ONE as int) == -a.raw);
    }

    proof fn law_magnitudes(a: Self) {
    }
}

} // verus!
