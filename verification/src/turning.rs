//! Full turns do not matter, but for rounding: an arc faces a direction wherever some number of
//! turns brings it between the arc's ends.
use vstd::prelude::*;

use crate::angle;
use crate::arc::ProfileArc;
use crate::ideal::Ideal;
use crate::scalar::Scalar;

verus! {

/// A full turn, as a real number.
pub open spec fn turn() -> real {
    angle::full_turn::<Ideal>().v
}

/// `angle` and `m` full turns.
pub open spec fn turned(angle: real, m: int) -> real {
    angle + (m as real) * turn()
}

/// Do `m` full turns bring the angle between the ends of the arc?
pub open spec fn lies_between(arc: ProfileArc<Ideal>, angle: Ideal, m: int) -> bool {
    arc.start.v <= turned(angle.v, m) <= arc.end.v
}

proof fn lemma_turned(a: real, m: int)
    ensures
        turned(a, m + 1) == turned(a, m) + turn(),
        turned(a + turn(), m) == turned(a, m + 1),
        turned(a - turn(), m) == turned(a, m - 1),
        turned(a, 0) == a,
        turn() > 0real,
{
    angle::lemma_full_turn::<Ideal>();
    let (x, t) = (m as real, turn());
    assert((m + 1) as real == x + 1real && (m - 1) as real == x - 1real);
    assert((x + 1real) * t == x * t + t) by (nonlinear_arith);
    assert((x - 1real) * t == x * t - t) by (nonlinear_arith);
    assert(0real * t == 0real) by (nonlinear_arith);
}

/// Raising an angle adds full turns to it, until it is not negative.
proof fn lemma_raised(a: Ideal, n: nat) -> (m: int)
    requires
        a.side == 0,
        turned(a.v, n as int) >= 0real,
    ensures
        0 <= m,
        angle::raised(a, n).side == 0,
        angle::raised(a, n).v == turned(a.v, m),
        angle::raised(a, n).v >= 0real,
        a.v >= 0real ==> angle::raised(a, n) == a,
        a.v < 0real ==> angle::raised(a, n).v < turn(),
    decreases n,
{
    lemma_turned(a.v, 0);
    if n == 0 || !a.below(Ideal::of_count(0)) {
        0
    } else {
        let b = a.plus(angle::full_turn::<Ideal>());
        lemma_turned(a.v, n - 1);
        let m = lemma_raised(b, (n - 1) as nat);
        lemma_turned(a.v, m);
        m + 1
    }
}

/// Lowering an angle takes full turns off it, until none is left in it.
proof fn lemma_lowered(a: Ideal, n: nat) -> (m: int)
    requires
        a.side == 0,
        0real <= a.v,
        turned(a.v, -(n as int)) < turn(),
    ensures
        m <= 0,
        angle::lowered(a, n).side == 0,
        angle::lowered(a, n).v == turned(a.v, m),
        0real <= angle::lowered(a, n).v < turn(),
    decreases n,
{
    lemma_turned(a.v, 0);
    if n == 0 || !angle::full_turn::<Ideal>().at_most(a) {
        0
    } else {
        let b = a.minus(angle::full_turn::<Ideal>());
        lemma_turned(a.v, -(n - 1));
        let m = lemma_lowered(b, (n - 1) as nat);
        lemma_turned(a.v, m);
        m - 1
    }
}

/// Is the angle within as many turns of zero as are counted?
pub open spec fn is_countable(a: real) -> bool {
    turned(a, u64::MAX as int) >= 0real && turned(a, -(u64::MAX as int)) < turn()
}

/// Wrapping an angle brings it into the first turn by full turns.
pub proof fn lemma_wrapped(a: Ideal) -> (m: int)
    requires
        a.side == 0,
        is_countable(a.v),
    ensures
        angle::wrapped(a).side == 0,
        angle::wrapped(a).v == turned(a.v, m),
        0real <= angle::wrapped(a).v < turn(),
{
    let n = u64::MAX as nat;
    let k = lemma_raised(a, n);
    let b = angle::raised(a, n);
    lemma_turned(b.v, 0);
    if a.v < 0real {
        let t = turn();
        let x = (-(n as int)) as real;
        assert(x * t <= 0real) by (nonlinear_arith)
            requires
                x <= 0real,
                t > 0real,
        ;
    }
    let l = lemma_lowered(b, n);
    lemma_added(a.v, k, l);
    k + l
}

proof fn lemma_added(a: real, k: int, l: int)
    ensures
        turned(turned(a, k), l) == turned(a, k + l),
{
    let (x, y, t) = (k as real, l as real, turn());
    assert((k + l) as real == x + y);
    assert((x + y) * t == x * t + y * t) by (nonlinear_arith);
}

/// An arc faces a direction exactly if some number of full turns brings it between the arc's ends.
pub proof fn law_arc_faces_between_its_ends(arc: ProfileArc<Ideal>, angle: Ideal)
    requires
        arc.start.side == 0 && arc.end.side == 0 && angle.side == 0,
        arc.is_valid(),
        is_countable(angle.v - arc.start.v),
    ensures
        arc.faces(angle) == exists|m: int| lies_between(arc, angle, m),
{
    let a = angle.minus(arc.start);
    let k = lemma_wrapped(a);
    let w = angle::wrapped(a);
    let (s, t) = (arc.start.v, turn());
    assert(turned(a.v, k) == turned(angle.v, k) - s);
    if arc.faces(angle) {
        assert(lies_between(arc, angle, k));
    }
    if exists|m: int| lies_between(arc, angle, m) {
        let m = choose|m: int| lies_between(arc, angle, m);
        let d = m - k;
        lemma_added(a.v, k, d);
        assert(turned(a.v, m) == turned(angle.v, m) - s);
        let x = d as real;
        assert(turned(a.v, m) == w.v + x * t);
        if d < 0 {
            assert(x <= -1real);
            assert(x * t <= -t) by (nonlinear_arith)
                requires
                    x <= -1real,
                    t > 0real,
            ;
        } else {
            assert(x * t >= 0real) by (nonlinear_arith)
                requires
                    x >= 0real,
                    t > 0real,
            ;
        }
    }
}

/// One full turn more changes nothing.
pub proof fn law_full_turns_do_not_matter(arc: ProfileArc<Ideal>, angle: Ideal)
    requires
        arc.start.side == 0 && arc.end.side == 0 && angle.side == 0,
        arc.is_valid(),
        is_countable(angle.v - arc.start.v),
        is_countable(angle.v + turn() - arc.start.v),
    ensures
        arc.faces(angle.plus(angle::full_turn::<Ideal>())) == arc.faces(angle),
{
    let other = angle.plus(angle::full_turn::<Ideal>());
    law_arc_faces_between_its_ends(arc, angle);
    law_arc_faces_between_its_ends(arc, other);
    if exists|m: int| lies_between(arc, angle, m) {
        let m = choose|m: int| lies_between(arc, angle, m);
        lemma_turned(angle.v, m - 1);
        assert(lies_between(arc, other, m - 1));
    }
    if exists|m: int| lies_between(arc, other, m) {
        let m = choose|m: int| lies_between(arc, other, m);
        lemma_turned(angle.v, m);
        assert(lies_between(arc, angle, m + 1));
    }
}

/// The turn is the circle's own to six digits behind the point, and half of it and a quarter are
/// what they say.
pub proof fn law_turn_is_close()
    ensures
        6_283_185real / 1_000_000real < turn() < 6_283_186real / 1_000_000real,
        angle::half_turn::<Ideal>().v + angle::half_turn::<Ideal>().v == turn(),
        angle::quarter_turn::<Ideal>().v + angle::quarter_turn::<Ideal>().v
            == angle::half_turn::<Ideal>().v,
{
    assert(Ideal::of_count(angle::TURN_NUMERATOR as nat).v == 13_176_795real);
    assert(Ideal::of_count(angle::TURN_DENOMINATOR as nat).v == 2_097_152real);
    assert(Ideal::of_count(angle::HALF_TURN_DENOMINATOR as nat).v == 4_194_304real);
    assert(Ideal::of_count(angle::QUARTER_TURN_DENOMINATOR as nat).v == 8_388_608real);
}

} // verus!
