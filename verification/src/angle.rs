//! Angles, in radians, and how they wrap around.
use vstd::prelude::*;

use crate::scalar::{Lawful, Real, Scalar};

verus! {

/// The circle constant, to the 24 significant bits that every scalar holds, is this count over a
/// power of two.
pub const TURN_NUMERATOR: usize = 13_176_795;

/// [`TURN_NUMERATOR`] over this is a full turn.
pub const TURN_DENOMINATOR: usize = 2_097_152;

/// [`TURN_NUMERATOR`] over this is half a turn.
pub const HALF_TURN_DENOMINATOR: usize = 4_194_304;

/// [`TURN_NUMERATOR`] over this is a quarter turn.
pub const QUARTER_TURN_DENOMINATOR: usize = 8_388_608;

/// A full turn.
pub open spec fn full_turn<R: Scalar>() -> R {
    R::of_count(TURN_NUMERATOR as nat).over(R::of_count(TURN_DENOMINATOR as nat))
}

/// Half a turn.
pub open spec fn half_turn<R: Scalar>() -> R {
    R::of_count(TURN_NUMERATOR as nat).over(R::of_count(HALF_TURN_DENOMINATOR as nat))
}

/// A quarter turn.
pub open spec fn quarter_turn<R: Scalar>() -> R {
    R::of_count(TURN_NUMERATOR as nat).over(R::of_count(QUARTER_TURN_DENOMINATOR as nat))
}

/// `a` with full turns added while it is negative, `turns` of them at most.
pub open spec fn raised<R: Scalar>(a: R, turns: nat) -> R
    decreases turns,
{
    if turns == 0 || !a.below(R::of_count(0)) {
        a
    } else {
        raised(a.plus(full_turn::<R>()), (turns - 1) as nat)
    }
}

/// `a` with full turns taken off while one is left in it, `turns` of them at most.
pub open spec fn lowered<R: Scalar>(a: R, turns: nat) -> R
    decreases turns,
{
    if turns == 0 || !full_turn::<R>().at_most(a) {
        a
    } else {
        lowered(a.minus(full_turn::<R>()), (turns - 1) as nat)
    }
}

/// `a` brought into the turn that starts at zero, by at most `u64::MAX` turns each way.
pub open spec fn wrapped<R: Scalar>(a: R) -> R {
    lowered(raised(a, u64::MAX as nat), u64::MAX as nat)
}

/// Does `a` come to lie in the turn that starts at zero? Every angle does whose turns the scalar
/// can still tell apart.
pub open spec fn settles<R: Scalar>(a: R) -> bool {
    R::of_count(0).at_most(wrapped(a)) && wrapped(a).below(full_turn::<R>())
}

pub fn tau<R: Real>() -> (r: R)
    ensures
        r == full_turn::<R>(),
{
    R::from_usize(TURN_NUMERATOR).div(R::from_usize(TURN_DENOMINATOR))
}

pub fn pi<R: Real>() -> (r: R)
    ensures
        r == half_turn::<R>(),
{
    R::from_usize(TURN_NUMERATOR).div(R::from_usize(HALF_TURN_DENOMINATOR))
}

pub fn frac_pi_2<R: Real>() -> (r: R)
    ensures
        r == quarter_turn::<R>(),
{
    R::from_usize(TURN_NUMERATOR).div(R::from_usize(QUARTER_TURN_DENOMINATOR))
}

/// Brings `angle` into the turn that starts at zero. An infinite angle, or one so large that a
/// turn is lost in rounding, never gets there: it is given up after `u64::MAX` turns.
pub fn wrap<R: Real>(angle: R) -> (r: R)
    ensures
        r == wrapped(angle),
{
    let tau = tau::<R>();
    let zero = R::from_usize(0);
    let mut a = angle;
    let mut left: u64 = u64::MAX;
    while left > 0 && a.is_below(zero)
        invariant
            tau == full_turn::<R>(),
            zero == R::of_count(0),
            raised(a, left as nat) == raised(angle, u64::MAX as nat),
        decreases left,
    {
        a = a.add(tau);
        left = left - 1;
    }
    let ghost upper = a;
    left = u64::MAX;
    while left > 0 && tau.is_at_most(a)
        invariant
            tau == full_turn::<R>(),
            lowered(a, left as nat) == lowered(upper, u64::MAX as nat),
        decreases left,
    {
        a = a.sub(tau);
        left = left - 1;
    }
    a
}

/// A full turn is a finite positive number.
pub proof fn lemma_full_turn<R: Lawful>()
    ensures
        full_turn::<R>().finite(),
        R::of_count(0).below(full_turn::<R>()),
        full_turn::<R>().at_most(full_turn::<R>()),
        R::of_count(0).at_most(full_turn::<R>()),
{
    R::law_counts(TURN_NUMERATOR as nat, TURN_DENOMINATOR as nat);
    R::law_numbers(R::of_count(0), full_turn::<R>());
}

/// An angle within the turn stays as it is.
pub proof fn law_wrap_keeps<R: Lawful>(a: R)
    requires
        R::of_count(0).at_most(a),
        a.below(full_turn::<R>()),
    ensures
        wrapped(a) == a,
        settles(a),
{
    R::law_numbers(a, R::of_count(0));
    R::law_numbers(a, full_turn::<R>());
}

/// Wrapping never leaves a negative angle once it could raise the angle to zero.
pub proof fn law_wrap_not_negative<R: Lawful>(a: R)
    requires
        R::of_count(0).at_most(raised(a, u64::MAX as nat)),
    ensures
        R::of_count(0).at_most(wrapped(a)),
{
    lemma_lowered_not_negative(raised(a, u64::MAX as nat), u64::MAX as nat);
}

proof fn lemma_lowered_not_negative<R: Lawful>(a: R, turns: nat)
    requires
        R::of_count(0).at_most(a),
    ensures
        R::of_count(0).at_most(lowered(a, turns)),
    decreases turns,
{
    if turns != 0 && full_turn::<R>().at_most(a) {
        lemma_full_turn::<R>();
        R::law_differences(a, full_turn::<R>());
        lemma_lowered_not_negative(a.minus(full_turn::<R>()), (turns - 1) as nat);
    }
}

} // verus!
