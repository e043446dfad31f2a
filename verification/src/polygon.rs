//! Integrals over a polygon, by Green's theorem: each is a sum over the edges of its boundary.
use vstd::prelude::*;

use crate::scalar::{Lawful, Real, Scalar};
use crate::vector::Vector2;

verus! {

/// One over this is the part of a profile's own size below which its centroid is taken to be on
/// the origin.
pub const CENTRE_RESOLUTION: usize = 10_000_000;

/// The sum of `term` over the first `count` edges of the loop `poly`, added up in order.
pub open spec fn edge_sum<R: Scalar>(
    poly: Seq<Vector2<R>>,
    term: spec_fn(Vector2<R>, Vector2<R>) -> R,
    count: nat,
) -> R
    decreases count,
{
    if count == 0 {
        R::of_count(0)
    } else {
        let i = count - 1;
        edge_sum(poly, term, i as nat).plus(term(poly[i], poly[(i + 1) % poly.len() as int]))
    }
}

/// The sum of `term` over all edges of the loop `poly`.
pub open spec fn loop_sum<R: Scalar>(
    poly: Seq<Vector2<R>>,
    term: spec_fn(Vector2<R>, Vector2<R>) -> R,
) -> R {
    edge_sum(poly, term, poly.len())
}

/// Of an edge, twice the area that it spans with the origin.
pub open spec fn area_term<R: Scalar>() -> spec_fn(Vector2<R>, Vector2<R>) -> R {
    |p: Vector2<R>, q: Vector2<R>| p.outer(q)
}

/// Of an edge, six times the integral of x.
pub open spec fn x_term<R: Scalar>() -> spec_fn(Vector2<R>, Vector2<R>) -> R {
    |p: Vector2<R>, q: Vector2<R>| p.x.plus(q.x).times(p.outer(q))
}

/// Of an edge, six times the integral of y.
pub open spec fn y_term<R: Scalar>() -> spec_fn(Vector2<R>, Vector2<R>) -> R {
    |p: Vector2<R>, q: Vector2<R>| p.y.plus(q.y).times(p.outer(q))
}

/// Of an edge, twelve times the integral of the squared x.
pub open spec fn xx_term<R: Scalar>() -> spec_fn(Vector2<R>, Vector2<R>) -> R {
    |p: Vector2<R>, q: Vector2<R>|
        p.x.times(p.x).plus(p.x.times(q.x)).plus(q.x.times(q.x)).times(p.outer(q))
}

/// Of an edge, twelve times the integral of the squared y.
pub open spec fn yy_term<R: Scalar>() -> spec_fn(Vector2<R>, Vector2<R>) -> R {
    |p: Vector2<R>, q: Vector2<R>|
        p.y.times(p.y).plus(p.y.times(q.y)).plus(q.y.times(q.y)).times(p.outer(q))
}

/// Of an edge, twenty-four times the integral of x times y.
pub open spec fn xy_term<R: Scalar>() -> spec_fn(Vector2<R>, Vector2<R>) -> R {
    |p: Vector2<R>, q: Vector2<R>|
        p.x.times(q.y).plus(R::of_count(2).times(p.x).times(p.y)).plus(
            R::of_count(2).times(q.x).times(q.y),
        ).plus(q.x.times(p.y)).times(p.outer(q))
}

/// One half.
pub open spec fn half_value<R: Scalar>() -> R {
    R::of_count(1).over(R::of_count(2))
}

/// The offset from the origin that a region of the given area cannot be told to have.
pub open spec fn resolution<R: Scalar>(area: R) -> R {
    area.magnitude().root().greater(R::min_positive_value()).times(
        R::of_count(1).over(R::of_count(CENTRE_RESOLUTION as nat)),
    )
}

/// `c`, or zero if it is within `eps` of zero.
pub open spec fn snapped_coordinate<R: Scalar>(c: R, eps: R) -> R {
    if c.magnitude().below(eps) {
        R::of_count(0)
    } else {
        c
    }
}

/// The centroid `c` of a region of the given area, with each coordinate that cannot be told from
/// zero put to zero.
pub open spec fn snapped<R: Scalar>(c: Vector2<R>, area: R) -> Vector2<R> {
    Vector2 {
        x: snapped_coordinate(c.x, resolution(area)),
        y: snapped_coordinate(c.y, resolution(area)),
    }
}

/// The centroid of the polygon as the edge sums give it, before it is snapped.
pub open spec fn raw_centroid<R: Scalar>(poly: Seq<Vector2<R>>) -> Vector2<R> {
    let divisor = R::of_count(3).times(loop_sum(poly, area_term()));
    Vector2 {
        x: loop_sum(poly, x_term()).over(divisor),
        y: loop_sum(poly, y_term()).over(divisor),
    }
}

/// The area of the polygon, however small: positive if it is counter-clockwise.
pub open spec fn signed_area<R: Scalar>(poly: Seq<Vector2<R>>) -> R {
    loop_sum(poly, area_term()).times(half_value())
}

/// The second moment of the polygon along x about `c`, by the parallel-axis theorem where `c` is its
/// centroid.
pub open spec fn about_xx<R: Scalar>(poly: Seq<Vector2<R>>, c: Vector2<R>) -> R {
    loop_sum(poly, xx_term()).over(R::of_count(12)).minus(
        signed_area(poly).times(c.x).times(c.x),
    )
}

/// The second moment of the polygon along x about its own centroid.
pub open spec fn central_xx<R: Scalar>(poly: Seq<Vector2<R>>) -> R {
    about_xx(poly, raw_centroid(poly))
}

/// The second moment of the polygon along y about `c`, by the parallel-axis theorem where `c` is its
/// centroid.
pub open spec fn about_yy<R: Scalar>(poly: Seq<Vector2<R>>, c: Vector2<R>) -> R {
    loop_sum(poly, yy_term()).over(R::of_count(12)).minus(
        signed_area(poly).times(c.y).times(c.y),
    )
}

/// The second moment of the polygon along y about its own centroid.
pub open spec fn central_yy<R: Scalar>(poly: Seq<Vector2<R>>) -> R {
    about_yy(poly, raw_centroid(poly))
}

/// The product moment of the polygon about `c`, by the parallel-axis theorem where `c` is its
/// centroid.
pub open spec fn about_xy<R: Scalar>(poly: Seq<Vector2<R>>, c: Vector2<R>) -> R {
    loop_sum(poly, xy_term()).over(R::of_count(24)).minus(
        signed_area(poly).times(c.x).times(c.y),
    )
}

/// The product moment of the polygon about its own centroid.
pub open spec fn central_xy<R: Scalar>(poly: Seq<Vector2<R>>) -> R {
    about_xy(poly, raw_centroid(poly))
}

/// Has the polygon no area to speak of?
pub open spec fn is_flat<R: Scalar>(poly: Seq<Vector2<R>>) -> bool {
    poly.len() < 3 || loop_sum(poly, area_term()).magnitude().below(R::epsilon_value())
}

/// The area of the polygon, zero if there is none to speak of.
pub open spec fn area_of<R: Scalar>(poly: Seq<Vector2<R>>) -> R {
    if is_flat(poly) {
        R::of_count(0)
    } else {
        signed_area(poly)
    }
}

/// The centroid of the polygon, the origin if it has no area to speak of.
pub open spec fn centroid_of<R: Scalar>(poly: Seq<Vector2<R>>) -> Vector2<R> {
    if is_flat(poly) {
        Vector2::origin()
    } else {
        snapped(raw_centroid(poly), area_of(poly))
    }
}

/// Loops with the same sums have the same area and the same centroid.
pub proof fn lemma_same_sums<R: Scalar>(a: Seq<Vector2<R>>, b: Seq<Vector2<R>>)
    requires
        a.len() == b.len(),
        loop_sum(a, area_term()) == loop_sum(b, area_term()),
        loop_sum(a, x_term()) == loop_sum(b, x_term()),
        loop_sum(a, y_term()) == loop_sum(b, y_term()),
    ensures
        area_of(a) == area_of(b),
        centroid_of(a) == centroid_of(b),
{
}

/// So have loops whose sums differ in their sign alone, but for the sign of the area, where the
/// scalar goes by the sign as it should.
pub proof fn lemma_negated_sums<R: Lawful>(a: Seq<Vector2<R>>, b: Seq<Vector2<R>>)
    requires
        a.len() == b.len(),
        is_flat(a) == is_flat(b),
        R::of_count(0).negated() == R::of_count(0),
        signed_area(b) == signed_area(a).negated(),
        !is_flat(a) ==> raw_centroid(b) == raw_centroid(a) && signed_area(a).finite(),
    ensures
        area_of(b) == area_of(a).negated(),
        centroid_of(b) == centroid_of(a),
{
    if !is_flat(a) {
        law_snap_ignores_sign(raw_centroid(a), area_of(a));
    }
}

pub fn half<R: Real>() -> (r: R)
    ensures
        r == half_value::<R>(),
{
    R::from_usize(1).div(R::from_usize(2))
}

/// Round a centroid that is indistinguishably off-centre to exactly on-centre.
///
/// Summing a symmetric profile's moments leaves a residue which is not an offset: it is the
/// arithmetic failing to cancel. Reporting it as an offset would be wrong on its own terms, and
/// rigid joints can diverge when a body's centre of mass is non-zero by any amount at all.
///
/// The threshold is relative to the profile's own size, so it means "below the resolution this
/// sum can resolve" rather than a fixed length. A genuinely off-centre profile is orders of
/// magnitude above it and passes through untouched.
pub fn snap_to_centre<R: Real>(c: Vector2<R>, area: R) -> (r: Vector2<R>)
    ensures
        r == snapped(c, area),
{
    let scale = area.abs().sqrt().max(R::min_positive());
    let eps = scale.mul(R::from_usize(1).div(R::from_usize(CENTRE_RESOLUTION)));
    Vector2::new(
        if c.x.abs().is_below(eps) {
            R::from_usize(0)
        } else {
            c.x
        },
        if c.y.abs().is_below(eps) {
            R::from_usize(0)
        } else {
            c.y
        },
    )
}

/// Area and centroid of a closed polygon, by Green's theorem over its boundary.
pub fn polygon_area_centroid<R: Real>(poly: &[Vector2<R>]) -> (r: (R, Vector2<R>))
    ensures
        r.0 == area_of(poly@),
        r.1 == centroid_of(poly@),
{
    let n: usize = poly.len();
    if n < 3 {
        return (R::from_usize(0), Vector2::zero());
    }
    let mut a2 = R::from_usize(0);
    let mut cx = R::from_usize(0);
    let mut cy = R::from_usize(0);
    for i in 0..n
        invariant
            n == poly@.len(),
            a2 == edge_sum(poly@, area_term(), i as nat),
            cx == edge_sum(poly@, x_term(), i as nat),
            cy == edge_sum(poly@, y_term(), i as nat),
    {
        let p = poly[i];
        let q = poly[if i + 1 == n {
            0
        } else {
            i + 1
        }];
        proof {
            lemma_next(i as int, n as int);
        }
        let cross = p.cross(q);
        a2 = a2.add(cross);
        cx = cx.add(p.x.add(q.x).mul(cross));
        cy = cy.add(p.y.add(q.y).mul(cross));
    }
    if a2.abs().is_below(R::epsilon()) {
        return (R::from_usize(0), Vector2::zero());
    }
    let area = a2.mul(half());
    let divisor = R::from_usize(3).mul(a2);
    (area, snap_to_centre(Vector2::new(cx.div(divisor), cy.div(divisor)), area))
}

/// The successor of `i` around a loop of `n`.
pub proof fn lemma_next(i: int, n: int)
    requires
        0 <= i < n,
    ensures
        (i + 1) % n == (if i + 1 == n {
            0
        } else {
            i + 1
        }),
{
    if i + 1 == n {
        vstd::arithmetic::div_mod::lemma_mod_self_0(n);
    } else {
        vstd::arithmetic::div_mod::lemma_small_mod((i + 1) as nat, n as nat);
    }
}

/// A reported centroid coordinate is either exactly zero or large enough to mean an offset: no
/// residue ever passes for one.
pub proof fn law_snap_leaves_no_residue<R: Lawful>(c: Vector2<R>, area: R)
    ensures
        snapped(c, area).x == R::of_count(0) || !snapped(c, area).x.magnitude().below(
            resolution(area),
        ),
        snapped(c, area).y == R::of_count(0) || !snapped(c, area).y.magnitude().below(
            resolution(area),
        ),
{
}

/// Which way round a region is taken does not matter to its centroid: the sign of the area changes
/// nothing.
pub proof fn law_snap_ignores_sign<R: Lawful>(c: Vector2<R>, area: R)
    requires
        area.finite(),
    ensures
        snapped(c, area.negated()) == snapped(c, area),
{
    R::law_magnitudes(area);
}

/// Snapping twice is snapping once, and a centroid above the resolution is left as it is.
pub proof fn law_snap_settles<R: Lawful>(c: Vector2<R>, area: R)
    ensures
        snapped(snapped(c, area), area) == snapped(c, area),
        !c.x.magnitude().below(resolution(area)) && !c.y.magnitude().below(resolution(area))
            ==> snapped(c, area) == c,
        c.x.magnitude().below(resolution(area)) && c.y.magnitude().below(resolution(area))
            ==> snapped(c, area) == Vector2::<R>::origin(),
{
}

} // verus!
