//! What fixed point makes exact: laws that rounding would spoil elsewhere.
use vstd::prelude::*;

use crate::angle;
use crate::arc;
use crate::arc::ProfileArc;
use crate::bounds;
use crate::fixed;
use crate::fixed::Fixed;
use crate::fixed::ONE;
use crate::polygon;
use crate::profile;
use crate::profile::ExtrudedProfile;
use crate::scalar::Scalar;
use crate::support;
use crate::vector::{Vector, Vector2};

verus! {

/// The steps of a full turn, as profiles measure it.
pub const TURN_RAW: i64 = 26_986_076_160;

/// Coordinates up to this many steps leave room for the sums of a section.
pub const ROOM: i64 = 274_877_906_944;

/// So many vertices leave room for the sums of a section.
pub const ROOM_VERTICES: usize = 1024;

/// Are the coordinates small enough for the sums of a section?
pub open spec fn is_small(p: Vector2<Fixed>) -> bool {
    -ROOM <= p.x.raw <= ROOM && -ROOM <= p.y.raw <= ROOM
}

/// The point on the other side of the origin.
pub open spec fn opposite(p: Vector2<Fixed>) -> Vector2<Fixed> {
    Vector2 { x: p.x.negated(), y: p.y.negated() }
}

/// Does half a turn about the origin bring the loop onto itself?
pub open spec fn is_symmetric(poly: Seq<Vector2<Fixed>>) -> bool {
    &&& poly.len() % 2 == 0
    &&& forall|i: int|
        0 <= i < poly.len() / 2 ==> poly[i + poly.len() / 2] == opposite(#[trigger] poly[i])
}

/// Is the loop small enough for the sums of a section?
pub open spec fn has_room(poly: Seq<Vector2<Fixed>>) -> bool {
    &&& poly.len() <= ROOM_VERTICES
    &&& forall|i: int| 0 <= i < poly.len() ==> is_small(#[trigger] poly[i])
}

/// The corners of a rectangle about the origin, counter-clockwise.
pub open spec fn rectangle(hx: Fixed, hz: Fixed) -> Seq<Vector2<Fixed>> {
    seq![
        Vector2 { x: hx.negated(), y: hz.negated() },
        Vector2 { x: hx, y: hz.negated() },
        Vector2 { x: hx, y: hz },
        Vector2 { x: hx.negated(), y: hz },
    ]
}

proof fn lemma_turn_raw()
    ensures
        angle::full_turn::<Fixed>().raw == TURN_RAW,
{
    let top = Fixed::of_count(angle::TURN_NUMERATOR as nat);
    let bottom = Fixed::of_count(angle::TURN_DENOMINATOR as nat);
    assert(top.raw == 13_176_795 * ONE);
    assert(bottom.raw == 2_097_152 * ONE);
    let product = top.raw * ONE;
    assert(product == 13_176_795 * ONE * ONE);
    assert(product / (bottom.raw as int) == TURN_RAW);
}

/// Every fixed-point angle comes to lie in the turn that starts at zero, and wrapping takes off
/// nothing but full turns.
pub proof fn law_fixed_angles_settle(a: Fixed)
    ensures
        angle::settles(a),
        angle::wrapped(a).raw == a.raw % TURN_RAW,
{
    let turns = u64::MAX as nat;
    lemma_turn_raw();
    lemma_raised(a, turns);
    lemma_lowered(angle::raised(a, turns), turns);
    let w = angle::wrapped(a).raw as int;
    vstd::arithmetic::div_mod::lemma_small_mod(w as nat, TURN_RAW as nat);
}

/// An arc faces an angle whatever full turns are added to it, as long as they can be added.
pub proof fn law_full_turns_do_not_matter(arc: ProfileArc<Fixed>, angle: Fixed)
    requires
        i64::MIN <= angle.raw - arc.start.raw <= i64::MAX - TURN_RAW,
        angle.raw <= i64::MAX - TURN_RAW,
    ensures
        arc.faces(angle.plus(angle::full_turn::<Fixed>())) == arc.faces(angle),
{
    lemma_turn_raw();
    let turned = angle.plus(angle::full_turn::<Fixed>());
    let a = angle.minus(arc.start);
    let b = turned.minus(arc.start);
    law_fixed_angles_settle(a);
    law_fixed_angles_settle(b);
    assert(b.raw == a.raw + TURN_RAW);
    vstd::arithmetic::div_mod::lemma_mod_add_multiples_vanish(a.raw as int, TURN_RAW as int);
}

/// Scaling by a negative factor turns an arc by half a turn, unless it is a full circle. Either way
/// it sweeps as much as before, and faces a direction just where the arc faced the one across from
/// it.
pub proof fn law_negative_scale_turns_arc(arc: ProfileArc<Fixed>, k: Fixed, angle: Fixed)
    requires
        k.raw < 0,
        i64::MIN + TURN_RAW <= arc.start.raw <= i64::MAX,
        i64::MIN + TURN_RAW <= arc.end.raw <= i64::MAX,
        i64::MIN + TURN_RAW <= angle.raw <= i64::MAX,
    ensures
        arc.scaled(k).swept() == arc.swept(),
        arc.scaled(k).faces(angle.minus(angle::half_turn::<Fixed>())) == arc.faces(angle),
        arc.scaled(k).is_valid() == arc.is_valid(),
{
    lemma_half_turn_raw();
    lemma_turn_raw();
    let turned = angle.minus(angle::half_turn::<Fixed>());
    law_fixed_angles_settle(angle.minus(arc.start));
    law_fixed_angles_settle(turned.minus(arc.start));
}

proof fn lemma_half_turn_raw()
    ensures
        2 * angle::half_turn::<Fixed>().raw == TURN_RAW,
{
    let top = Fixed::of_count(angle::TURN_NUMERATOR as nat);
    let bottom = Fixed::of_count(angle::HALF_TURN_DENOMINATOR as nat);
    assert(top.raw == 13_176_795 * ONE);
    assert(bottom.raw == 4_194_304 * ONE);
    let product = top.raw * ONE;
    assert(product == 13_176_795 * ONE * ONE);
    assert(product / (bottom.raw as int) == 13_493_038_080);
}

proof fn lemma_raised(a: Fixed, turns: nat)
    requires
        a.raw + turns * TURN_RAW >= 0,
    ensures
        angle::raised(a, turns).raw >= 0,
        angle::raised(a, turns).raw % TURN_RAW == a.raw % TURN_RAW,
    decreases turns,
{
    lemma_turn_raw();
    if turns != 0 && a.raw < 0 {
        assert((turns - 1) * TURN_RAW == turns * TURN_RAW - TURN_RAW);
        lemma_raised(a.plus(angle::full_turn::<Fixed>()), (turns - 1) as nat);
        vstd::arithmetic::div_mod::lemma_mod_add_multiples_vanish(a.raw as int, TURN_RAW as int);
    }
}

proof fn lemma_lowered(a: Fixed, turns: nat)
    requires
        0 <= a.raw < (turns + 1) * TURN_RAW,
    ensures
        0 <= angle::lowered(a, turns).raw < TURN_RAW,
        angle::lowered(a, turns).raw % TURN_RAW == a.raw % TURN_RAW,
    decreases turns,
{
    lemma_turn_raw();
    if turns != 0 && TURN_RAW <= a.raw {
        assert((turns + 1) * TURN_RAW == turns * TURN_RAW + TURN_RAW);
        lemma_lowered(a.minus(angle::full_turn::<Fixed>()), (turns - 1) as nat);
        vstd::arithmetic::div_mod::lemma_mod_sub_multiples_vanish(a.raw as int, TURN_RAW as int);
    }
}

/// The sum of the terms of the first `count` edges, as a number that cannot overflow.
spec fn steps_sum(
    poly: Seq<Vector2<Fixed>>,
    term: spec_fn(Vector2<Fixed>, Vector2<Fixed>) -> Fixed,
    count: nat,
) -> int
    decreases count,
{
    if count == 0 {
        0
    } else {
        let i = count - 1;
        steps_sum(poly, term, i as nat) + term(poly[i], poly[(i + 1) % poly.len() as int]).raw
    }
}

/// Is the term of every edge of a small loop small enough to be summed up?
spec fn is_modest(term: spec_fn(Vector2<Fixed>, Vector2<Fixed>) -> Fixed) -> bool {
    forall|p: Vector2<Fixed>, q: Vector2<Fixed>|
        is_small(p) && is_small(q) ==> -0x10_0000_0000_0000 <= (#[trigger] term(p, q)).raw
            <= 0x10_0000_0000_0000
}

/// Does the term of an edge change its sign when the edge goes to the other side of the origin?
spec fn is_odd(term: spec_fn(Vector2<Fixed>, Vector2<Fixed>) -> Fixed) -> bool {
    forall|p: Vector2<Fixed>, q: Vector2<Fixed>|
        is_small(p) && is_small(q) ==> term(opposite(p), opposite(q)).raw == -(#[trigger] term(
            p,
            q,
        )).raw
}

proof fn lemma_sum_fits(
    poly: Seq<Vector2<Fixed>>,
    term: spec_fn(Vector2<Fixed>, Vector2<Fixed>) -> Fixed,
    count: nat,
)
    requires
        has_room(poly),
        is_modest(term),
        count <= poly.len(),
    ensures
        polygon::edge_sum(poly, term, count).raw == steps_sum(poly, term, count),
        -(count * 0x10_0000_0000_0000) <= steps_sum(poly, term, count) <= count
            * 0x10_0000_0000_0000,
    decreases count,
{
    if count > 0 {
        let i = count - 1;
        lemma_sum_fits(poly, term, i as nat);
        polygon::lemma_next(i, poly.len() as int);
        let p = poly[i];
        let q = poly[(i + 1) % poly.len() as int];
        assert(is_small(p) && is_small(q));
        assert(-0x10_0000_0000_0000 <= term(p, q).raw <= 0x10_0000_0000_0000);
    }
}

proof fn lemma_odd_sum_cancels(
    poly: Seq<Vector2<Fixed>>,
    term: spec_fn(Vector2<Fixed>, Vector2<Fixed>) -> Fixed,
    k: nat,
)
    requires
        has_room(poly),
        is_symmetric(poly),
        is_odd(term),
        k <= poly.len() / 2,
    ensures
        steps_sum(poly, term, poly.len() / 2 + k) == steps_sum(poly, term, poly.len() / 2)
            - steps_sum(poly, term, k),
    decreases k,
{
    if k > 0 {
        let n = poly.len() as int;
        let h = n / 2;
        let i = k - 1;
        lemma_odd_sum_cancels(poly, term, i as nat);
        polygon::lemma_next(i, n);
        polygon::lemma_next(h + i, n);
        let p = poly[i];
        let q = poly[(i + 1) % n];
        assert(poly[h + i] == opposite(p)) by {
            assert(poly[i + h] == opposite(poly[i]));
        }
        assert(poly[(h + i + 1) % n] == opposite(q)) by {
            if i + 1 < h {
                assert(poly[i + 1 + h] == opposite(poly[i + 1]));
            } else {
                assert(poly[0 + h] == opposite(poly[0]));
                assert(is_small(poly[0]));
            }
        }
        assert(is_small(p) && is_small(q));
        assert(term(opposite(p), opposite(q)).raw == -term(p, q).raw);
        assert(h + k - 1 == h + i);
    }
}

/// A product is no larger than the product of what bounds its factors.
pub proof fn lemma_product(a: int, b: int, bound_a: int, bound_b: int)
    by (nonlinear_arith)
    requires
        -bound_a <= a <= bound_a,
        -bound_b <= b <= bound_b,
    ensures
        -(bound_a * bound_b) <= a * b <= bound_a * bound_b,
{
}

/// A bound on a number of steps bounds its quotient by one.
pub proof fn lemma_quotient_bound(n: int, bound: int)
    requires
        -(bound * ONE) <= n <= bound * ONE,
        0 <= bound,
    ensures
        -bound <= fixed::quotient(n, ONE as int) <= bound,
{
    let size = fixed::magnitude_of(n);
    assert(0 <= size / (ONE as int) <= bound);
}

/// How a product takes its sign.
pub proof fn lemma_signs(a: int, b: int)
    by (nonlinear_arith)
    ensures
        (-a) * b == -(a * b),
        a * (-b) == -(a * b),
        (-a) * (-b) == a * b,
{
}

/// What an edge spans with the origin is small, and the same on the other side.
pub proof fn lemma_outer(p: Vector2<Fixed>, q: Vector2<Fixed>)
    requires
        is_small(p),
        is_small(q),
    ensures
        -0x2000_0000_0000 <= p.outer(q).raw <= 0x2000_0000_0000,
        opposite(p).outer(opposite(q)) == p.outer(q),
        p.outer(q).raw == fixed::quotient(p.x.raw * q.y.raw, ONE as int) - fixed::quotient(
            q.x.raw * p.y.raw,
            ONE as int,
        ),
{
    lemma_product(p.x.raw as int, q.y.raw as int, ROOM as int, ROOM as int);
    lemma_product(q.x.raw as int, p.y.raw as int, ROOM as int, ROOM as int);
    lemma_quotient_bound(p.x.raw * q.y.raw, 0x1000_0000_0000);
    lemma_quotient_bound(q.x.raw * p.y.raw, 0x1000_0000_0000);
    lemma_signs(p.x.raw as int, q.y.raw as int);
    lemma_signs(q.x.raw as int, p.y.raw as int);
}

/// The product of a small sum and what an edge spans is modest, and odd in the sum.
pub proof fn lemma_weighted(a: Fixed, b: Fixed, cross: Fixed)
    requires
        -ROOM <= a.raw <= ROOM,
        -ROOM <= b.raw <= ROOM,
        -0x2000_0000_0000 <= cross.raw <= 0x2000_0000_0000,
    ensures
        -0x10_0000_0000_0000 <= a.plus(b).times(cross).raw <= 0x10_0000_0000_0000,
        a.negated().plus(b.negated()).times(cross).raw == -a.plus(b).times(cross).raw,
{
    let sum = a.raw + b.raw;
    lemma_product(sum, cross.raw as int, 2 * ROOM, 0x2000_0000_0000);
    lemma_quotient_bound(sum * cross.raw, 0x10_0000_0000_0000);
    lemma_signs(sum, cross.raw as int);
    assert(a.plus(b).raw == sum);
    assert(a.negated().plus(b.negated()).raw == -sum);
}

proof fn lemma_terms()
    ensures
        is_modest(polygon::x_term()),
        is_modest(polygon::y_term()),
        is_odd(polygon::x_term()),
        is_odd(polygon::y_term()),
{
    let x_term = polygon::x_term::<Fixed>();
    let y_term = polygon::y_term::<Fixed>();
    assert forall|p: Vector2<Fixed>, q: Vector2<Fixed>|
        is_small(p) && is_small(q) implies -0x10_0000_0000_0000 <= (#[trigger] x_term(p, q)).raw
        <= 0x10_0000_0000_0000 && x_term(opposite(p), opposite(q)).raw == -x_term(p, q).raw by {
        lemma_outer(p, q);
        lemma_weighted(p.x, q.x, p.outer(q));
    }
    assert forall|p: Vector2<Fixed>, q: Vector2<Fixed>|
        is_small(p) && is_small(q) implies -0x10_0000_0000_0000 <= (#[trigger] y_term(p, q)).raw
        <= 0x10_0000_0000_0000 && y_term(opposite(p), opposite(q)).raw == -y_term(p, q).raw by {
        lemma_outer(p, q);
        lemma_weighted(p.y, q.y, p.outer(q));
    }
}

/// A profile that half a turn brings onto itself has its centroid exactly at the origin.
pub proof fn law_symmetric_polygon_is_centred(poly: Seq<Vector2<Fixed>>)
    requires
        is_symmetric(poly),
        has_room(poly),
    ensures
        polygon::centroid_of(poly) == Vector2::<Fixed>::origin(),
{
    let n = poly.len();
    let h = n / 2;
    lemma_terms();
    lemma_sum_fits(poly, polygon::x_term(), n);
    lemma_sum_fits(poly, polygon::y_term(), n);
    lemma_odd_sum_cancels(poly, polygon::x_term(), h);
    lemma_odd_sum_cancels(poly, polygon::y_term(), h);
    assert(h + h == n);
    assert(polygon::loop_sum(poly, polygon::x_term()).raw == 0);
    assert(polygon::loop_sum(poly, polygon::y_term()).raw == 0);
    assert(polygon::raw_centroid(poly) == Vector2::<Fixed>::origin()) by {
        let divisor = Fixed::of_count(3).times(polygon::loop_sum(poly, polygon::area_term()));
        assert(0 * ONE == 0);
        lemma_zero_over(divisor);
    }
}

/// Nothing comes of dividing zero.
pub proof fn lemma_zero_over(d: Fixed)
    ensures
        (Fixed { raw: 0 }).over(d) == Fixed::of_count(0),
{
    if d.raw != 0 {
        let size = fixed::magnitude_of(d.raw as int);
        assert(0int / size == 0) by (nonlinear_arith)
            requires
                size > 0,
        ;
    }
}

/// A straight-edged shape that half a turn about the sweep brings onto itself has its centre of
/// mass exactly at the origin.
pub proof fn law_symmetric_shape_is_centred(shape: ExtrudedProfile<Fixed>, density: Fixed)
    requires
        shape.arcs@.len() == 0,
        is_symmetric(shape.profile@),
        has_room(shape.profile@),
    ensures
        shape.section_spec().1 == Vector2::<Fixed>::origin(),
        shape.mass_spec(density).local_com == Vector::<Fixed>::origin(),
{
    law_symmetric_polygon_is_centred(shape.profile@);
}

/// Nothing comes of multiplying by zero.
pub proof fn lemma_times_zero(a: Fixed)
    ensures
        a.times(Fixed { raw: 0 }) == Fixed::of_count(0),
        (Fixed { raw: 0 }).times(a) == Fixed::of_count(0),
{
    let raw = a.raw as int;
    assert(raw * 0 == 0 && 0 * raw == 0) by (nonlinear_arith);
    assert(0int / (ONE as int) == 0);
}

/// One half, in steps.
pub proof fn lemma_half_raw()
    ensures
        polygon::half_value::<Fixed>().raw == 0x8000_0000,
{
    let one = Fixed::of_count(1);
    let two = Fixed::of_count(2);
    assert(one.raw == ONE);
    assert(two.raw == 2 * ONE);
    let product = one.raw * ONE;
    assert(product == ONE * ONE);
    assert(product / (two.raw as int) == 0x8000_0000);
}

/// The sine of half a turn, as profiles measure it, is too small to leave anything when cubed.
proof fn lemma_half_turn_sine(half_turn: Fixed)
    requires
        half_turn == angle::full_turn::<Fixed>().times(polygon::half_value::<Fixed>()),
    ensures
        half_turn.sine().cube() == Fixed::of_count(0),
{
    lemma_turn_raw();
    lemma_half_raw();
    let turn = angle::full_turn::<Fixed>();
    let half = polygon::half_value::<Fixed>();
    let product = turn.raw * half.raw;
    assert(product == 13_493_038_080 * ONE) by (nonlinear_arith)
        requires
            product == turn.raw * half.raw,
            turn.raw == 26_986_076_160,
            half.raw == 0x8000_0000,
            ONE == 0x1_0000_0000,
    ;
    assert(product / (ONE as int) == 13_493_038_080);
    assert(half_turn.raw == 13_493_038_080);
    let t = Fixed { raw: -375i64 };
    assert(half_turn.sine() == fixed::sine_near_zero(t));
    let square = t.raw * t.raw;
    assert(square == 140_625) by (nonlinear_arith)
        requires
            square == t.raw * t.raw,
            t.raw == -375,
    ;
    assert(square / (ONE as int) == 0);
    assert(t.times(t) == Fixed { raw: 0 });
    let nothing = Fixed { raw: 0 };
    lemma_zero_over(Fixed::of_count(6));
    lemma_times_zero(fixed::sine_tail(nothing, 2));
    lemma_times_zero(t);
    let tail = fixed::sine_tail(nothing, 1);
    assert(tail.raw == ONE);
    assert(t.times(tail) == t);
}

/// A round shape, one full circle about the origin, has its centre of mass exactly at the origin,
/// whatever its radius.
pub proof fn law_round_shape_is_centred(
    shape: ExtrudedProfile<Fixed>,
    radius: Fixed,
    density: Fixed,
)
    requires
        shape.profile@.len() == 0,
        shape.arcs@ == seq![ProfileArc::full(Vector2::<Fixed>::origin(), radius)],
    ensures
        shape.exact_centroid() == Vector2::<Fixed>::origin(),
        shape.section_spec().1 == Vector2::<Fixed>::origin(),
        shape.mass_spec(density).local_com == Vector::<Fixed>::origin(),
{
    let arc = ProfileArc::full(Vector2::<Fixed>::origin(), radius);
    let nothing = Fixed { raw: 0 };
    assert(Fixed::of_count(0) == nothing);
    arc::law_circle_is_valid(Vector2::<Fixed>::origin(), radius);
    profile::law_lone_arc_region(shape, arc);
    lemma_half_turn_sine(arc.swept().times(polygon::half_value::<Fixed>()));
    let distance = profile::segment_distance(arc);
    assert(distance == nothing) by {
        let excess = arc.swept().minus(arc.swept().sine());
        let reach = Fixed::of_count(4).times(radius);
        lemma_times_zero(reach);
        lemma_zero_over(Fixed::of_count(3).times(excess));
    }
    let bisector = arc.start.plus(arc.swept().times(polygon::half_value::<Fixed>()));
    assert(profile::segment_centroid(arc) == Vector2::<Fixed>::origin()) by {
        lemma_times_zero(bisector.cosine());
        lemma_times_zero(bisector.sine());
    }
    lemma_times_zero(profile::segment_area(arc));
    assert(shape.region().moment == Vector2::<Fixed>::origin());
    lemma_zero_over(shape.region().area);
}

/// A round shape is a cylinder, not an approximation of one: in every direction that has a unit,
/// its support in the plane is `centre + radius * direction`.
pub proof fn law_round_shape_is_cylinder(
    shape: ExtrudedProfile<Fixed>,
    center: Vector2<Fixed>,
    radius: Fixed,
    d: Vector2<Fixed>,
    unit: Vector2<Fixed>,
)
    requires
        shape.profile@.len() == 0,
        shape.arcs@ == seq![ProfileArc::full(center, radius)],
        d.unit() == Some(unit),
        center.plus(unit.times(radius)).inner(d).raw > i64::MIN,
    ensures
        shape.plane_support(d) == center.plus(unit.times(radius)),
{
    law_fixed_angles_settle(unit.heading());
    support::law_round_support(shape, center, radius, d, unit);
}

/// A rectangle about the origin has the area of a rectangle, and is centred.
pub proof fn law_rectangle_section(hx: Fixed, hz: Fixed)
    requires
        0 <= hx.raw <= ROOM,
        0 <= hz.raw <= ROOM,
    ensures
        polygon::area_of(rectangle(hx, hz)).raw == 4 * hx.times(hz).raw,
        polygon::centroid_of(rectangle(hx, hz)) == Vector2::<Fixed>::origin(),
{
    let poly = rectangle(hx, hz);
    let t = hx.times(hz).raw;
    lemma_product(hx.raw as int, hz.raw as int, ROOM as int, ROOM as int);
    lemma_signs(hx.raw as int, hz.raw as int);
    lemma_signs(hz.raw as int, hx.raw as int);
    assert(hx.raw * hz.raw == hz.raw * hx.raw) by (nonlinear_arith);
    assert(is_symmetric(poly)) by {
        assert forall|i: int| 0 <= i < poly.len() / 2 implies poly[i + poly.len() / 2] == opposite(
            #[trigger] poly[i],
        ) by {
            assert(i == 0 || i == 1);
        }
    }
    assert(has_room(poly));
    law_symmetric_polygon_is_centred(poly);
    reveal_with_fuel(polygon::edge_sum, 5);
    lemma_outer(poly[0], poly[1]);
    lemma_outer(poly[1], poly[2]);
    lemma_outer(poly[2], poly[3]);
    lemma_outer(poly[3], poly[0]);
    let sum = polygon::loop_sum(poly, polygon::area_term());
    assert(poly[0].outer(poly[1]).raw == 2 * t);
    assert(poly[1].outer(poly[2]).raw == 2 * t);
    assert(poly[2].outer(poly[3]).raw == 2 * t);
    assert(poly[3].outer(poly[0]).raw == 2 * t);
    assert(sum.raw == 8 * t);
    let half = polygon::half_value::<Fixed>();
    lemma_half_raw();
    assert(sum.times(half).raw == 4 * t) by {
        assert(sum.raw * half.raw == (4 * t) * ONE) by (nonlinear_arith)
            requires
                sum.raw == 8 * t,
                half.raw == 0x8000_0000,
                ONE == 0x1_0000_0000,
        ;
        assert(((4 * t) * ONE) / (ONE as int) == 4 * t);
    }
}

/// A rectangle extruded is a cuboid: in every direction of the plane, it reaches as far as the
/// rectangle's half extents along the two axes add up to.
pub proof fn law_rectangle_support(
    shape: ExtrudedProfile<Fixed>,
    hx: Fixed,
    hz: Fixed,
    d: Vector2<Fixed>,
)
    requires
        0 <= hx.raw <= ROOM,
        0 <= hz.raw <= ROOM,
        is_small(d),
        shape.profile@ == rectangle(hx, hz),
        shape.arcs@.len() == 0,
    ensures
        shape.plane_support(d).inner(d) == hx.times(d.x.magnitude()).plus(
            hz.times(d.y.magnitude()),
        ),
        shape.profile@.contains(shape.plane_support(d)),
{
    let poly = shape.profile@;
    let a = fixed::quotient(hx.raw * d.x.raw, ONE as int);
    let b = fixed::quotient(hz.raw * d.y.raw, ONE as int);
    lemma_product(hx.raw as int, d.x.raw as int, ROOM as int, ROOM as int);
    lemma_product(hz.raw as int, d.y.raw as int, ROOM as int, ROOM as int);
    lemma_signs(hx.raw as int, d.x.raw as int);
    lemma_signs(hz.raw as int, d.y.raw as int);
    assert(poly[0].inner(d).raw == -a - b);
    assert(poly[1].inner(d).raw == a - b);
    assert(poly[2].inner(d).raw == a + b);
    assert(poly[3].inner(d).raw == -a + b);
    assert forall|i: int| 0 <= i < 4 implies !shape.plane_support(d).inner(d).below(
        #[trigger] poly[i].inner(d),
    ) by {
        assert(poly.contains(poly[i]));
        support::law_support_is_furthest(shape, d, poly[i]);
    }
    support::law_support_is_offered(shape, d, poly[2]);
    let s = shape.plane_support(d);
    assert(poly.contains(s));
    let k = choose|k: int| 0 <= k < poly.len() && poly[k] == s;
    assert(k == 0 || k == 1 || k == 2 || k == 3);
    assert(!s.inner(d).below(poly[0].inner(d)));
    assert(!s.inner(d).below(poly[1].inner(d)));
    assert(!s.inner(d).below(poly[2].inner(d)));
    assert(!s.inner(d).below(poly[3].inner(d)));
    assert(hx.times(d.x.magnitude()).raw == fixed::magnitude_of(a)) by {
        lemma_quotient_sign(hx.raw as int, d.x.raw as int);
    }
    assert(hz.times(d.y.magnitude()).raw == fixed::magnitude_of(b)) by {
        lemma_quotient_sign(hz.raw as int, d.y.raw as int);
    }
}

/// Multiplying by a magnitude gives the magnitude of the product.
proof fn lemma_quotient_sign(h: int, x: int)
    requires
        0 <= h <= ROOM,
        -ROOM <= x <= ROOM,
    ensures
        fixed::quotient(h * fixed::magnitude_of(x), ONE as int) == fixed::magnitude_of(
            fixed::quotient(h * x, ONE as int),
        ),
{
    lemma_signs(h, x);
    assert(x >= 0 ==> h * x >= 0) by (nonlinear_arith)
        requires
            h >= 0,
    ;
    assert(x <= 0 ==> h * x <= 0) by (nonlinear_arith)
        requires
            h >= 0,
    ;
}

/// The box around an extruded rectangle is the cuboid itself.
pub proof fn law_rectangle_box(shape: ExtrudedProfile<Fixed>, hx: Fixed, hz: Fixed)
    requires
        0 <= hx.raw,
        0 <= hz.raw,
        shape.profile@ == rectangle(hx, hz),
        shape.arcs@.len() == 0,
    ensures
        shape.local_box() == (bounds::Aabb {
            mins: Vector {
                x: hx.negated(),
                y: shape.half_depth.negated(),
                z: hz.negated(),
            },
            maxs: Vector { x: hx, y: shape.half_depth, z: hz },
        }),
{
    let poly = shape.profile@;
    reveal_with_fuel(bounds::low_corner, 5);
    reveal_with_fuel(bounds::high_corner, 5);
    assert(poly.drop_last() =~= poly.take(3));
    assert(poly.take(3).drop_last() =~= poly.take(2));
    assert(poly.take(2).drop_last() =~= poly.take(1));
    assert(poly.take(1).drop_last() =~= poly.take(0));
}

} // verus!
