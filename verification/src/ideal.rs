//! The real numbers themselves as a scalar: what the library computes but for rounding.
use vstd::prelude::*;

use crate::scalar::{Lawful, Scalar};

verus! {

/// A real number, or something above or below all of them. It exists in proofs only: a law of this
/// scalar is what the functions of the library obey up to rounding.
pub struct Ideal {
    pub v: real,
    /// Positive above all numbers, negative below them, zero among them.
    pub side: int,
}

/// A real number as a scalar.
pub open spec fn number(v: real) -> Ideal {
    Ideal { v, side: 0 }
}

/// Is `r` the square root of `x`?
pub open spec fn is_root(r: real, x: real) -> bool {
    r >= 0real && r * r == x
}

/// The square root of `x`.
pub open spec fn root_of(x: real) -> real {
    choose|r: real| is_root(r, x)
}

/// Do the two functions belong together as sine and cosine? The addition formulas, and that the
/// sine of an angle is no longer than its arc, are all that is made use of.
pub open spec fn are_circular(
    sine: spec_fn(real) -> real,
    cosine: spec_fn(real) -> real,
) -> bool {
    &&& forall|a: real, b: real| #[trigger]
        sine_adds(sine, cosine, a, b) && cosine_adds(sine, cosine, a, b)
    &&& forall|a: real| #[trigger] is_on_circle(sine, cosine, a)
}

/// The addition formula of the sine.
pub open spec fn sine_adds(
    sine: spec_fn(real) -> real,
    cosine: spec_fn(real) -> real,
    a: real,
    b: real,
) -> bool {
    sine(a + b) == sine(a) * cosine(b) + cosine(a) * sine(b)
}

/// The addition formula of the cosine.
pub open spec fn cosine_adds(
    sine: spec_fn(real) -> real,
    cosine: spec_fn(real) -> real,
    a: real,
    b: real,
) -> bool {
    cosine(a + b) == cosine(a) * cosine(b) - sine(a) * sine(b)
}

/// What holds at a single angle: the point at it has the distance one from the origin, the one at
/// its negation is the mirror image, and the sine is no longer than the arc.
pub open spec fn is_on_circle(
    sine: spec_fn(real) -> real,
    cosine: spec_fn(real) -> real,
    a: real,
) -> bool {
    &&& sine(a) * sine(a) + cosine(a) * cosine(a) == 1real
    &&& sine(-a) == -sine(a)
    &&& cosine(-a) == cosine(a)
    &&& a >= 0real ==> sine(a) <= a
}

/// Sine and cosine: a pair of functions that belong together. Which pair it is is left open, so
/// what is proved of it holds of every such pair, and of the functions that are meant among them.
pub open spec fn circle() -> (spec_fn(real) -> real, spec_fn(real) -> real) {
    choose|sine: spec_fn(real) -> real, cosine: spec_fn(real) -> real|
        are_circular(sine, cosine)
}

/// Going around counter-clockwise, from just behind the far side of the first axis to that side, is
/// the direction to `px` and `py` met before that to `qx` and `qy`?
pub open spec fn is_met_before(py: real, px: real, qy: real, qx: real) -> bool {
    let left = px * qy - qx * py;
    if py < 0real && qy >= 0real {
        true
    } else if py >= 0real && qy < 0real {
        false
    } else if py < 0real {
        left > 0real
    } else {
        left > 0real || (left == 0real && px > 0real && qx < 0real)
    }
}

/// Does `heading` put the directions in the order in which they are met?
pub open spec fn are_headings(heading: spec_fn(real, real) -> real) -> bool {
    forall|py: real, px: real, qy: real, qx: real|
        (px != 0real || py != 0real) && (qx != 0real || qy != 0real) ==> (#[trigger] is_met_before(
            py,
            px,
            qy,
            qx,
        ) == (heading(py, px) < heading(qy, qx)))
}

/// The angle of a direction: a function that puts the directions in their order. Which function it
/// is is left open, so what is proved of it holds of every such function, and of the one that is
/// meant among them.
pub open spec fn headings() -> spec_fn(real, real) -> real {
    choose|heading: spec_fn(real, real) -> real| are_headings(heading)
}

/// `side` by its sign alone.
pub open spec fn rank(side: int) -> int {
    if side > 0 {
        1
    } else if side < 0 {
        -1
    } else {
        0
    }
}

impl Scalar for Ideal {
    open spec fn of_count(n: nat) -> Self {
        number(n as real)
    }

    open spec fn plus(self, other: Self) -> Self {
        Ideal {
            v: self.v + other.v,
            side: if self.side != 0 {
                self.side
            } else {
                other.side
            },
        }
    }

    open spec fn minus(self, other: Self) -> Self {
        self.plus(other.negated())
    }

    open spec fn times(self, other: Self) -> Self {
        Ideal {
            v: self.v * other.v,
            side: if self.side != 0 {
                self.side
            } else {
                other.side
            },
        }
    }

    open spec fn over(self, other: Self) -> Self {
        Ideal {
            v: if other.v == 0real {
                0real
            } else {
                self.v / other.v
            },
            side: self.side,
        }
    }

    open spec fn negated(self) -> Self {
        Ideal { v: -self.v, side: -self.side }
    }

    open spec fn magnitude(self) -> Self {
        if self.side < 0 || (self.side == 0 && self.v < 0real) {
            self.negated()
        } else {
            self
        }
    }

    open spec fn root(self) -> Self {
        Ideal { v: root_of(self.v), side: self.side }
    }

    open spec fn cube(self) -> Self {
        self.times(self).times(self)
    }

    open spec fn sine(self) -> Self {
        number(circle().0(self.v))
    }

    open spec fn cosine(self) -> Self {
        number(circle().1(self.v))
    }

    open spec fn arctangent(self, x: Self) -> Self {
        number(headings()(self.v, x.v))
    }

    open spec fn ceiling(self) -> Self {
        Ideal { v: -((-self.v).floor() as real), side: self.side }
    }

    open spec fn lesser(self, other: Self) -> Self {
        if other.below(self) {
            other
        } else {
            self
        }
    }

    open spec fn greater(self, other: Self) -> Self {
        if self.below(other) {
            other
        } else {
            self
        }
    }

    open spec fn whole(self) -> usize {
        if self.side < 0 || (self.side == 0 && self.v < 0real) {
            0
        } else if self.side > 0 || self.v.floor() > usize::MAX {
            usize::MAX
        } else {
            self.v.floor() as usize
        }
    }

    open spec fn below(self, other: Self) -> bool {
        !other.at_most(self)
    }

    open spec fn at_most(self, other: Self) -> bool {
        rank(self.side) < rank(other.side) || (rank(self.side) == rank(other.side) && (self.side
            != 0 || self.v <= other.v))
    }

    open spec fn same(self, other: Self) -> bool {
        self.at_most(other) && other.at_most(self)
    }

    open spec fn finite(self) -> bool {
        self.side == 0
    }

    open spec fn epsilon_value() -> Self {
        number(1real / 4_503_599_627_370_496real)
    }

    open spec fn min_positive_value() -> Self {
        number(1real / 4_503_599_627_370_496real)
    }

    open spec fn infinity_value() -> Self {
        Ideal { v: 0real, side: 1 }
    }

    open spec fn neg_infinity_value() -> Self {
        Ideal { v: 0real, side: -1 }
    }
}

/// How a product parts over a sum, and how it takes a sign.
pub proof fn lemma_dist(x: real, y: real, z: real)
    ensures
        x * (y + z) == x * y + x * z,
        (y + z) * x == x * y + x * z,
        x * (y - z) == x * y - x * z,
        (y - z) * x == x * y - x * z,
        x * (-y) == -(x * y),
        x * (-z) == -(x * z),
        x * y == y * x,
        x * z == z * x,
{
    assert(x * (y + z) == x * y + x * z) by (nonlinear_arith);
    assert(x * (y - z) == x * y - x * z) by (nonlinear_arith);
    assert(x * (-y) == -(x * y)) by (nonlinear_arith);
    assert(x * (-z) == -(x * z)) by (nonlinear_arith);
}

/// How three factors can be put together.
pub proof fn lemma_assoc(x: real, y: real, z: real)
    ensures
        (x * y) * z == x * (y * z),
        (y * x) * z == x * (y * z),
        z * (x * y) == x * (y * z),
        y * (x * z) == x * (y * z),
        (x * z) * y == x * (y * z),
        z * (y * x) == x * (y * z),
        x * (z * y) == x * (y * z),
{
    assert((x * y) * z == x * (y * z)) by (nonlinear_arith);
    assert((y * x) * z == x * (y * z)) by (nonlinear_arith);
    assert(z * (x * y) == x * (y * z)) by (nonlinear_arith);
    assert(y * (x * z) == x * (y * z)) by (nonlinear_arith);
    assert((x * z) * y == x * (y * z)) by (nonlinear_arith);
    assert(z * (y * x) == x * (y * z)) by (nonlinear_arith);
    assert(x * (z * y) == x * (y * z)) by (nonlinear_arith);
}

/// Four factors can be paired otherwise.
pub proof fn lemma_pairs(a: real, b: real, c: real, d: real)
    ensures
        (a * b) * (c * d) == (a * c) * (b * d),
{
    lemma_assoc(a, b, c * d);
    lemma_assoc(b, c, d);
    lemma_assoc(a, c, b * d);
}

/// A product of two sums, term by term.
pub proof fn lemma_foil(p: real, q: real, r: real, s: real)
    ensures
        (p + q) * (r + s) == p * r + p * s + q * r + q * s,
        (p + q) * (r - s) == p * r - p * s + q * r - q * s,
        (p - q) * (r - s) == p * r - p * s - q * r + q * s,
        (p - q) * (r + s) == p * r + p * s - q * r - q * s,
{
    lemma_dist(r + s, p, q);
    lemma_dist(r - s, p, q);
    lemma_dist(p, r, s);
    lemma_dist(q, r, s);
}

/// Sine and cosine obey the addition formulas.
pub proof fn lemma_circle(a: real, b: real)
    ensures
        ({
            let (sine, cosine) = circle();
            &&& sine(a + b) == sine(a) * cosine(b) + cosine(a) * sine(b)
            &&& cosine(a + b) == cosine(a) * cosine(b) - sine(a) * sine(b)
            &&& sine(a) * sine(a) + cosine(a) * cosine(a) == 1real
            &&& sine(-a) == -sine(a)
            &&& cosine(-a) == cosine(a)
            &&& a >= 0real ==> sine(a) <= a
        }),
{
    let zero = |t: real| 0real;
    let one = |t: real| 1real;
    assert(are_circular(zero, one));
    let (sine, cosine) = circle();
    assert(are_circular(sine, cosine));
    assert(sine_adds(sine, cosine, a, b));
    assert(is_on_circle(sine, cosine, a));
}

/// How far along the square about the origin, whose corners lie on the axes, a direction leaves it.
spec fn along_square(y: real, x: real) -> real {
    let t = x / ((if x < 0real {
        -x
    } else {
        x
    }) + (if y < 0real {
        -y
    } else {
        y
    }));
    if y < 0real {
        t - 1real
    } else {
        1real - t
    }
}

proof fn lemma_ratio(a: real, b: real, c: real, d: real)
    requires
        b > 0real,
        d > 0real,
    ensures
        (a / b < c / d) == (a * d < c * b),
{
    let (s, t) = (a / b, c / d);
    assert(s * b == a) by (nonlinear_arith)
        requires
            s == a / b,
            b > 0real,
    ;
    assert(t * d == c) by (nonlinear_arith)
        requires
            t == c / d,
            d > 0real,
    ;
    lemma_assoc(s, b, d);
    lemma_assoc(t, d, b);
    let e = b * d;
    assert(e > 0real) by (nonlinear_arith)
        requires
            e == b * d,
            b > 0real,
            d > 0real,
    ;
    assert(d * b == e);
    assert((s < t) == (s * e < t * e)) by (nonlinear_arith)
        requires
            e > 0real,
    ;
}

/// Going around the square meets the directions in their order.
proof fn lemma_square_order(py: real, px: real, qy: real, qx: real)
    requires
        px != 0real || py != 0real,
        qx != 0real || qy != 0real,
    ensures
        is_met_before(py, px, qy, qx) == (along_square(py, px) < along_square(qy, qx)),
{
    let ax = if px < 0real {
        -px
    } else {
        px
    };
    let ay = if py < 0real {
        -py
    } else {
        py
    };
    let bx = if qx < 0real {
        -qx
    } else {
        qx
    };
    let bz = if qy < 0real {
        -qy
    } else {
        qy
    };
    let (m, n) = (ax + ay, bx + bz);
    lemma_ratio(px, m, qx, n);
    lemma_ratio(qx, n, px, m);
    lemma_ratio(px, m, 1real, 1real);
    lemma_ratio(qx, n, 1real, 1real);
    lemma_ratio(1real, 1real, px, m);
    lemma_ratio(1real, 1real, qx, n);
    assert(1real / 1real == 1real);
    assert(px * 1real == px && qx * 1real == qx && 1real * m == m && 1real * n == n)
        by (nonlinear_arith);
    // All in terms of three products.
    let (u, v, w) = (px * qx, px * qy, qx * py);
    lemma_dist(px, bx, bz);
    lemma_dist(qx, ax, ay);
    lemma_dist(px, qx, qy);
    lemma_dist(qx, px, py);
    assert(px * bx == if qx < 0real {
        -u
    } else {
        u
    });
    assert(qx * ax == if px < 0real {
        -u
    } else {
        u
    });
    assert(px * bz == if qy < 0real {
        -v
    } else {
        v
    });
    assert(qx * ay == if py < 0real {
        -w
    } else {
        w
    });
    lemma_signed_product(px, qx);
    lemma_signed_product(px, qy);
    lemma_signed_product(qx, py);
}

proof fn lemma_signed_product(x: real, y: real)
    ensures
        x > 0real && y > 0real ==> x * y > 0real,
        x > 0real && y < 0real ==> x * y < 0real,
        x < 0real && y > 0real ==> x * y < 0real,
        x < 0real && y < 0real ==> x * y > 0real,
        x == 0real || y == 0real ==> x * y == 0real,
{
    assert(x > 0real && y > 0real ==> x * y > 0real) by (nonlinear_arith);
    assert(x > 0real && y < 0real ==> x * y < 0real) by (nonlinear_arith);
    assert(x < 0real && y > 0real ==> x * y < 0real) by (nonlinear_arith);
    assert(x < 0real && y < 0real ==> x * y > 0real) by (nonlinear_arith);
    assert(x == 0real || y == 0real ==> x * y == 0real) by (nonlinear_arith);
}

/// Headings rise in the order in which directions are met.
pub proof fn lemma_headings(py: real, px: real, qy: real, qx: real)
    requires
        px != 0real || py != 0real,
        qx != 0real || qy != 0real,
    ensures
        is_met_before(py, px, qy, qx) == (headings()(py, px) < headings()(qy, qx)),
{
    let square = |y: real, x: real| along_square(y, x);
    assert(are_headings(square)) by {
        assert forall|ay: real, ax: real, bz: real, bx: real|
            (ax != 0real || ay != 0real) && (bx != 0real || bz != 0real) implies (
        #[trigger] is_met_before(ay, ax, bz, bx) == (square(ay, ax) < square(bz, bx))) by {
            lemma_square_order(ay, ax, bz, bx);
        }
    }
    assert(are_headings(headings()));
}

proof fn lemma_floor_rises(x: real, y: real)
    requires
        x <= y,
    ensures
        x.floor() <= y.floor(),
{
    let (m, n) = (x.floor(), y.floor());
    assert(m as real <= x && y < n as real + 1real);
    assert((m as real) < (n + 1) as real);
}

proof fn lemma_floor_of_count(x: real, n: int)
    requires
        n as real <= x,
    ensures
        n <= x.floor(),
        n as real <= x.floor() as real,
{
    let m = x.floor();
    assert((n as real) < (m + 1) as real);
}

impl Lawful for Ideal {
    proof fn law_numbers(a: Self, b: Self) {
    }

    proof fn law_transitive(a: Self, b: Self, c: Self) {
    }

    proof fn law_extremes(a: Self, b: Self) {
    }

    proof fn law_infinities(a: Self) {
    }

    proof fn law_counts(m: nat, n: nat) {
        if m > 0 && n > 0 {
            let (x, y) = (m as real, n as real);
            assert(x / y > 0real) by (nonlinear_arith)
                requires
                    x > 0real,
                    y > 0real,
            ;
        }
    }

    proof fn law_rounding(a: Self, b: Self, n: nat) {
        if a.side == 0 {
            if b.side == 0 && a.v <= b.v {
                lemma_floor_rises(a.v, b.v);
            }
            if a.v <= n as real {
                lemma_floor_of_count(-a.v, -(n as int));
            }
        }
    }

    proof fn law_fractions(a: Self, b: Self) {
        let (x, y) = (a.v, b.v);
        if a.side == 0 && 0real < y && x <= y {
            assert(0real <= x / y <= 1real) by (nonlinear_arith)
                requires
                    0real <= x <= y,
                    0real < y,
            ;
        }
        if a.side == 0 && 0real <= y && x <= 1real {
            assert(0real <= x * y <= y) by (nonlinear_arith)
                requires
                    0real <= x <= 1real,
                    0real <= y,
            ;
        }
    }

    proof fn law_differences(a: Self, b: Self) {
    }

    proof fn law_neutral(a: Self) {
        assert(a.v * 1real == a.v) by (nonlinear_arith);
    }

    proof fn law_magnitudes(a: Self) {
    }
}

} // verus!
