//! The scalars that coordinates, lengths and angles are made of.
use vstd::prelude::*;

verus! {

/// Counts up to this one are held exactly by every scalar.
pub const EXACT_COUNT: usize = 16_777_216;

/// What the operations of a scalar mean.
///
/// Contracts speak of the results of operations by these names. Every one is total: overflow,
/// division by zero and the like yield some value of the type. Nothing is presumed of rounding; see
/// [`Lawful`] for what can be known of it.
///
/// The default bodies stand for an unknown value, the same for all operands. They serve scalars
/// that are implemented outside of verified code, where these functions are not looked at. A
/// scalar whose [`Real`] is to be verified has to define each function that it uses.
pub trait Scalar: Sized {
    /// The scalar nearest to the count `n`.
    open spec fn of_count(n: nat) -> Self {
        arbitrary()
    }

    /// The sum.
    open spec fn plus(self, other: Self) -> Self {
        arbitrary()
    }

    /// The difference.
    open spec fn minus(self, other: Self) -> Self {
        arbitrary()
    }

    /// The product.
    open spec fn times(self, other: Self) -> Self {
        arbitrary()
    }

    /// The quotient.
    open spec fn over(self, other: Self) -> Self {
        arbitrary()
    }

    /// The negation.
    open spec fn negated(self) -> Self {
        arbitrary()
    }

    /// The absolute value.
    open spec fn magnitude(self) -> Self {
        arbitrary()
    }

    /// The square root.
    open spec fn root(self) -> Self {
        arbitrary()
    }

    /// The third power.
    open spec fn cube(self) -> Self {
        arbitrary()
    }

    /// The sine of an angle in radians.
    open spec fn sine(self) -> Self {
        arbitrary()
    }

    /// The cosine of an angle in radians.
    open spec fn cosine(self) -> Self {
        arbitrary()
    }

    /// The angle, in radians, of the direction with `self` along y and `x` along x.
    open spec fn arctangent(self, x: Self) -> Self {
        arbitrary()
    }

    /// The least integer not below.
    open spec fn ceiling(self) -> Self {
        arbitrary()
    }

    /// The smaller of two.
    open spec fn lesser(self, other: Self) -> Self {
        arbitrary()
    }

    /// The larger of two.
    open spec fn greater(self, other: Self) -> Self {
        arbitrary()
    }

    /// The integer part as a count, pinned to the range of counts.
    open spec fn whole(self) -> usize {
        arbitrary()
    }

    /// Strictly less.
    open spec fn below(self, other: Self) -> bool {
        arbitrary()
    }

    /// Less or equal.
    open spec fn at_most(self, other: Self) -> bool {
        arbitrary()
    }

    /// Numerically equal.
    open spec fn same(self, other: Self) -> bool {
        arbitrary()
    }

    /// Neither infinite nor something that is not a number.
    open spec fn finite(self) -> bool {
        arbitrary()
    }

    /// The gap between one and the next larger scalar.
    open spec fn epsilon_value() -> Self {
        arbitrary()
    }

    /// The smallest positive scalar of full precision.
    open spec fn min_positive_value() -> Self {
        arbitrary()
    }

    /// What lies above every number.
    open spec fn infinity_value() -> Self {
        arbitrary()
    }

    /// What lies below every number.
    open spec fn neg_infinity_value() -> Self {
        arbitrary()
    }
}

/// A machine approximation of the real numbers.
///
/// Every operation is total and deterministic: each method returns what the function of [`Scalar`]
/// with the like meaning names.
pub trait Real: Scalar + Copy {
    fn from_usize(n: usize) -> (r: Self)
        ensures
            r == Self::of_count(n as nat),
    ;

    fn add(self, other: Self) -> (r: Self)
        ensures
            r == self.plus(other),
    ;

    fn sub(self, other: Self) -> (r: Self)
        ensures
            r == self.minus(other),
    ;

    fn mul(self, other: Self) -> (r: Self)
        ensures
            r == self.times(other),
    ;

    fn div(self, other: Self) -> (r: Self)
        ensures
            r == self.over(other),
    ;

    fn neg(self) -> (r: Self)
        ensures
            r == self.negated(),
    ;

    fn abs(self) -> (r: Self)
        ensures
            r == self.magnitude(),
    ;

    fn sqrt(self) -> (r: Self)
        ensures
            r == self.root(),
    ;

    fn cubed(self) -> (r: Self)
        ensures
            r == self.cube(),
    ;

    fn sin(self) -> (r: Self)
        ensures
            r == self.sine(),
    ;

    fn cos(self) -> (r: Self)
        ensures
            r == self.cosine(),
    ;

    fn atan2(self, x: Self) -> (r: Self)
        ensures
            r == self.arctangent(x),
    ;

    fn ceil(self) -> (r: Self)
        ensures
            r == self.ceiling(),
    ;

    fn min(self, other: Self) -> (r: Self)
        ensures
            r == self.lesser(other),
    ;

    fn max(self, other: Self) -> (r: Self)
        ensures
            r == self.greater(other),
    ;

    fn to_usize(self) -> (r: usize)
        ensures
            r == self.whole(),
    ;

    fn is_below(self, other: Self) -> (r: bool)
        ensures
            r == self.below(other),
    ;

    fn is_at_most(self, other: Self) -> (r: bool)
        ensures
            r == self.at_most(other),
    ;

    fn is_same(self, other: Self) -> (r: bool)
        ensures
            r == self.same(other),
    ;

    fn is_finite(self) -> (r: bool)
        ensures
            r == self.finite(),
    ;

    fn epsilon() -> (r: Self)
        ensures
            r == Self::epsilon_value(),
    ;

    fn min_positive() -> (r: Self)
        ensures
            r == Self::min_positive_value(),
    ;

    fn infinity() -> (r: Self)
        ensures
            r == Self::infinity_value(),
    ;

    fn neg_infinity() -> (r: Self)
        ensures
            r == Self::neg_infinity_value(),
    ;
}

/// A scalar that orders and rounds as one would expect.
///
/// A value `a` that is not even `a.at_most(a)` is not a number, and nothing is promised of it but
/// that it does not compare. The laws are those of a total order and of rounding that keeps the
/// order and leaves exact results as they are, as IEEE 754 asks of floating point; of [`Fixed`]
/// and [`Ideal`] they are proved.
///
/// [`Fixed`]: crate::fixed::Fixed
/// [`Ideal`]: crate::ideal::Ideal
pub trait Lawful: Scalar {
    /// Only numbers compare, and any two of them do.
    proof fn law_numbers(a: Self, b: Self)
        ensures
            a.at_most(b) ==> a.at_most(a) && b.at_most(b),
            a.at_most(a) && b.at_most(b) ==> a.at_most(b) || b.at_most(a),
            a.below(b) == (a.at_most(b) && !b.at_most(a)),
            a.same(b) == (a.at_most(b) && b.at_most(a)),
    ;

    /// The order is transitive.
    proof fn law_transitive(a: Self, b: Self, c: Self)
        requires
            a.at_most(b),
            b.at_most(c),
        ensures
            a.at_most(c),
    ;

    /// The smaller and the larger of two are one of them, and bound each that is a number.
    proof fn law_extremes(a: Self, b: Self)
        ensures
            a.at_most(a) || b.at_most(b) ==> a.lesser(b) == a || a.lesser(b) == b,
            a.at_most(a) || b.at_most(b) ==> a.greater(b) == a || a.greater(b) == b,
            a.at_most(a) ==> a.lesser(b).at_most(a) && a.at_most(a.greater(b)),
            b.at_most(b) ==> a.lesser(b).at_most(b) && b.at_most(a.greater(b)),
    ;

    /// Every number lies between the infinities.
    proof fn law_infinities(a: Self)
        requires
            a.at_most(a),
        ensures
            a.at_most(Self::infinity_value()),
            Self::neg_infinity_value().at_most(a),
    ;

    /// Small counts are held exactly.
    proof fn law_counts(m: nat, n: nat)
        requires
            m <= EXACT_COUNT,
            n <= EXACT_COUNT,
        ensures
            Self::of_count(m).whole() == m,
            Self::of_count(m).finite(),
            Self::of_count(m).at_most(Self::of_count(n)) == (m <= n),
            m > 0 && n > 0 ==> Self::of_count(m).over(Self::of_count(n)).finite(),
            m > 0 && n > 0 ==> Self::of_count(0).below(Self::of_count(m).over(Self::of_count(n))),
    ;

    /// Taking the integer part, or rounding up to an integer, keeps the order.
    proof fn law_rounding(a: Self, b: Self, n: nat)
        ensures
            a.at_most(b) ==> a.whole() <= b.whole(),
            n <= EXACT_COUNT && a.at_most(Self::of_count(n)) ==> a.ceiling().at_most(
                Self::of_count(n),
            ),
    ;

    /// Rounding never carries a proper fraction past one, nor a part past the whole.
    proof fn law_fractions(a: Self, b: Self)
        requires
            Self::of_count(0).at_most(a),
            b.finite(),
        ensures
            Self::of_count(0).below(b) && a.at_most(b) ==> a.over(b).at_most(Self::of_count(1))
                && Self::of_count(0).at_most(a.over(b)),
            Self::of_count(0).at_most(b) && a.at_most(Self::of_count(1)) ==> a.times(b).at_most(b)
                && Self::of_count(0).at_most(a.times(b)),
    ;

    /// Taking a finite scalar from one that is no smaller leaves nothing negative.
    proof fn law_differences(a: Self, b: Self)
        requires
            b.finite(),
            b.at_most(a),
        ensures
            Self::of_count(0).at_most(a.minus(b)),
    ;

    /// Zero and one are neutral, and a finite scalar cancels itself.
    proof fn law_neutral(a: Self)
        ensures
            a.at_most(a) ==> a.minus(Self::of_count(0)) == a,
            a.at_most(a) ==> a.times(Self::of_count(1)) == a,
            a.finite() ==> a.minus(a) == Self::of_count(0) && a.at_most(a),
            Self::of_count(0).magnitude() == Self::of_count(0),
            Self::of_count(1).magnitude() == Self::of_count(1),
            Self::of_count(0).below(Self::epsilon_value()),
    ;

    /// The magnitude of a positive scalar is that scalar, and so is that of its negation.
    proof fn law_magnitudes(a: Self)
        requires
            a.finite(),
        ensures
            Self::of_count(0).below(a) ==> a.magnitude() == a,
            a.negated().magnitude() == a.magnitude(),
    ;
}

} // verus!
