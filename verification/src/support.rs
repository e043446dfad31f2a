//! The support function: the point of the shape that reaches furthest in a direction.
use vstd::prelude::*;

use crate::angle;
use crate::arc::ProfileArc;
use crate::profile::ExtrudedProfile;
use crate::scalar::{Lawful, Real, Scalar};
use crate::vector::{Vector, Vector2};

verus! {

/// A point of the profile plane, and how far it reaches in the direction asked for.
pub struct Reach<R> {
    pub point: Vector2<R>,
    pub dot: R,
}

impl<R: Real> Copy for Reach<R> {

}

impl<R: Real> Clone for Reach<R> {
    fn clone(&self) -> (r: Self)
        ensures
            r == *self,
    {
        *self
    }
}

impl<R: Scalar> Reach<R> {
    /// What every point reaches beyond.
    pub open spec fn none() -> Self {
        Reach { point: Vector2::origin(), dot: R::neg_infinity_value() }
    }

    /// `p` if it reaches further in the direction `d`, else this.
    pub open spec fn or(self, p: Vector2<R>, d: Vector2<R>) -> Self {
        if self.dot.below(p.inner(d)) {
            Reach { point: p, dot: p.inner(d) }
        } else {
            self
        }
    }

    /// The first of `points` that reaches furthest in the direction `d`.
    pub open spec fn of_points(points: Seq<Vector2<R>>, d: Vector2<R>) -> Self
        decreases points.len(),
    {
        if points.len() == 0 {
            Self::none()
        } else {
            Self::of_points(points.drop_last(), d).or(points.last(), d)
        }
    }

    /// This, or the first point of an arc facing `unit` that reaches further in the direction `d`
    /// than it and all others.
    pub open spec fn or_arcs(
        self,
        arcs: Seq<ProfileArc<R>>,
        unit: Vector2<R>,
        d: Vector2<R>,
    ) -> Self
        decreases arcs.len(),
    {
        if arcs.len() == 0 {
            self
        } else {
            let best = self.or_arcs(arcs.drop_last(), unit, d);
            if arcs.last().faces(unit.heading()) {
                best.or(arcs.last().toward(unit), d)
            } else {
                best
            }
        }
    }
}

impl<R: Real> Reach<R> {
    fn consider(self, p: Vector2<R>, d: Vector2<R>) -> (r: Self)
        ensures
            r == self.or(p, d),
    {
        let dot = p.dot(d);
        if self.dot.is_below(dot) {
            Reach { point: p, dot }
        } else {
            self
        }
    }
}

impl<R: Scalar> ExtrudedProfile<R> {
    /// The height of the cap on the side of `y`.
    pub open spec fn cap_height(self, y: R) -> R {
        if R::of_count(0).at_most(y) {
            self.half_depth
        } else {
            self.half_depth.negated()
        }
    }

    /// The point of the profile that reaches furthest in the direction `d`: among the vertices
    /// and, for each arc that faces that way, the arc's own point towards it. A direction too
    /// short to be one leaves the vertices, or the start of the first arc if there are none.
    pub open spec fn plane_support(self, d: Vector2<R>) -> Vector2<R> {
        let best = Reach::of_points(self.profile@, d);
        match d.unit() {
            Some(unit) => best.or_arcs(self.arcs@, unit, d).point,
            None => if best.dot.same(R::neg_infinity_value()) && self.arcs@.len() > 0 {
                self.arcs@[0].point_at(self.arcs@[0].start)
            } else {
                best.point
            },
        }
    }

    /// The point of the shape that reaches furthest in the direction `dir`.
    pub open spec fn support(self, dir: Vector<R>) -> Vector<R> {
        Vector::over_plane(self.plane_support(dir.in_plane()), self.cap_height(dir.y))
    }
}

impl<R: Real> ExtrudedProfile<R> {
    pub fn local_support_point(&self, dir: Vector<R>) -> (r: Vector<R>)
        ensures
            r == self.support(dir),
    {
        // The sweep is exact: the support in Y is always an end cap, whatever the profile does.
        let y = if R::from_usize(0).is_at_most(dir.y) {
            self.half_depth
        } else {
            self.half_depth.neg()
        };
        let d2 = dir.xz();
        let mut best = Reach { point: Vector2::zero(), dot: R::neg_infinity() };
        assert(self.profile@.take(0) =~= Seq::empty());
        for i in 0..self.profile.len()
            invariant
                best == Reach::of_points(self.profile@.take(i as int), d2),
        {
            best = best.consider(self.profile[i], d2);
            assert(self.profile@.take(i + 1).drop_last() =~= self.profile@.take(i as int));
        }
        assert(self.profile@.take(self.profile@.len() as int) =~= self.profile@);
        // An arc supports every direction it spans, exactly: `centre + radius * dir`. This is the
        // whole point of carrying arcs: a drawn curve has a continuous normal instead of stepping
        // between facets. Outside its span the arc's endpoints, which are in `profile`, take over.
        if let Some(unit) = d2.try_normalize() {
            let angle = unit.angle();
            let ghost corner = best;
            assert(self.arcs@.take(0) =~= Seq::empty());
            for j in 0..self.arcs.len()
                invariant
                    angle == unit.heading(),
                    best == corner.or_arcs(self.arcs@.take(j as int), unit, d2),
            {
                let arc = self.arcs[j];
                if arc.spans(angle) {
                    best = best.consider(arc.center.add(unit.mul(arc.radius)), d2);
                }
                assert(self.arcs@.take(j + 1).drop_last() =~= self.arcs@.take(j as int));
            }
            assert(self.arcs@.take(self.arcs@.len() as int) =~= self.arcs@);
        } else if best.dot.is_same(R::neg_infinity()) && self.arcs.len() > 0 {
            // Degenerate direction and no vertices: any point of the shape will do.
            let arc = self.arcs[0];
            return Vector::new(arc.at(arc.start).x, y, arc.at(arc.start).y);
        }
        Vector::new(best.point.x, y, best.point.y)
    }
}

/// Does the shape have `p` to offer in the direction `d`: as a vertex, or as the point of an arc
/// towards a direction that it faces?
pub open spec fn is_offered<R: Scalar>(
    shape: ExtrudedProfile<R>,
    d: Vector2<R>,
    p: Vector2<R>,
) -> bool {
    ||| shape.profile@.contains(p)
    ||| exists|j: int|
        0 <= j < shape.arcs@.len() && arc_offers(#[trigger] shape.arcs@[j], d, p)
}

/// Does the arc face the direction `d`, with `p` as its point towards it?
pub open spec fn arc_offers<R: Scalar>(arc: ProfileArc<R>, d: Vector2<R>, p: Vector2<R>) -> bool {
    d.unit() matches Some(unit) && arc.faces(unit.heading()) && p == arc.toward(unit)
}

/// The sweep is exact: the support point always lies on an end cap, on the side that the
/// direction points to.
pub proof fn law_support_on_cap<R: Lawful>(shape: ExtrudedProfile<R>, dir: Vector<R>)
    ensures
        R::of_count(0).at_most(dir.y) ==> shape.support(dir).y == shape.half_depth,
        !R::of_count(0).at_most(dir.y) ==> shape.support(dir).y == shape.half_depth.negated(),
{
}

/// Nothing that the shape has to offer reaches beyond the support point.
pub proof fn law_support_is_furthest<R: Lawful>(
    shape: ExtrudedProfile<R>,
    d: Vector2<R>,
    p: Vector2<R>,
)
    requires
        is_offered(shape, d, p),
    ensures
        !shape.plane_support(d).inner(d).below(p.inner(d)),
{
    let best = Reach::of_points(shape.profile@, d);
    lemma_points(shape, shape.profile@, d);
    match d.unit() {
        Some(unit) => {
            let last = best.or_arcs(shape.arcs@, unit, d);
            lemma_arcs(shape, best, shape.arcs@, unit, d);
            if shape.profile@.contains(p) {
                assert(!best.dot.below(p.inner(d)));
            }
            assert(!last.dot.below(p.inner(d)));
            if last.dot != last.point.inner(d) {
                lemma_bottom(last.point.inner(d), last.dot, p.inner(d));
            }
        },
        None => {
            if best.dot.same(R::neg_infinity_value()) || best.dot != best.point.inner(d) {
                lemma_bottom(shape.plane_support(d).inner(d), best.dot, p.inner(d));
            }
        },
    }
}

/// Wherever anything that the shape has to offer reaches at all, the support point is itself one
/// of the things offered: it lies on the profile.
pub proof fn law_support_is_offered<R: Lawful>(
    shape: ExtrudedProfile<R>,
    d: Vector2<R>,
    p: Vector2<R>,
)
    requires
        is_offered(shape, d, p),
        R::neg_infinity_value().below(p.inner(d)),
    ensures
        is_offered(shape, d, shape.plane_support(d)),
{
    let best = Reach::of_points(shape.profile@, d);
    lemma_points(shape, shape.profile@, d);
    match d.unit() {
        Some(unit) => {
            lemma_arcs(shape, best, shape.arcs@, unit, d);
            if shape.profile@.contains(p) {
                assert(!best.dot.below(p.inner(d)));
            }
            assert(!best.or_arcs(shape.arcs@, unit, d).dot.below(p.inner(d)));
        },
        None => {
            R::law_numbers(best.dot, R::neg_infinity_value());
            R::law_numbers(R::neg_infinity_value(), p.inner(d));
            R::law_numbers(best.dot, p.inner(d));
            if best.dot.same(R::neg_infinity_value()) {
                R::law_transitive(best.dot, R::neg_infinity_value(), p.inner(d));
                if p.inner(d).at_most(best.dot) {
                    R::law_transitive(p.inner(d), best.dot, R::neg_infinity_value());
                }
            }
        },
    }
}

/// A shape of one full circle has no facets: in every direction, its support in the plane is
/// `centre + radius * direction`.
pub proof fn law_round_support<R: Lawful>(
    shape: ExtrudedProfile<R>,
    center: Vector2<R>,
    radius: R,
    d: Vector2<R>,
    unit: Vector2<R>,
)
    requires
        shape.profile@.len() == 0,
        shape.arcs@ == seq![ProfileArc::full(center, radius)],
        d.unit() == Some(unit),
        angle::settles(unit.heading()),
        R::neg_infinity_value().below(center.plus(unit.times(radius)).inner(d)),
    ensures
        shape.plane_support(d) == center.plus(unit.times(radius)),
{
    crate::arc::law_circle_faces_all(center, radius, unit.heading());
    let arcs = shape.arcs@;
    assert(arcs.last() == ProfileArc::full(center, radius));
    reveal_with_fuel(Reach::or_arcs, 2);
    assert(arcs.drop_last().len() == 0);
}

/// Is the reach that of the point it holds, or that of no point at all?
spec fn is_tracked<R: Scalar>(reach: Reach<R>, d: Vector2<R>) -> bool {
    reach == Reach::<R>::none() || reach.dot == reach.point.inner(d)
}

/// Nothing lies below what no number reaches beyond.
proof fn lemma_bottom<R: Lawful>(y: R, bottom: R, x: R)
    requires
        bottom == R::neg_infinity_value() || bottom.same(R::neg_infinity_value()),
        !bottom.below(x),
    ensures
        !y.below(x),
{
    let low = R::neg_infinity_value();
    if y.below(x) {
        R::law_numbers(y, x);
        R::law_infinities(x);
        R::law_infinities(y);
        R::law_numbers(low, x);
        R::law_numbers(bottom, low);
        R::law_transitive(bottom, low, x);
        R::law_numbers(bottom, x);
        R::law_transitive(x, bottom, low);
        R::law_transitive(x, low, y);
    }
}

/// Considering one more point loses nothing of what was reached, and covers that point.
proof fn lemma_or<R: Lawful>(best: Reach<R>, p: Vector2<R>, d: Vector2<R>)
    ensures
        forall|x: R| !best.dot.below(x) ==> !#[trigger] best.or(p, d).dot.below(x),
        !best.or(p, d).dot.below(p.inner(d)),
{
    let x = p.inner(d);
    R::law_numbers(x, x);
    assert forall|z: R| !best.dot.below(z) implies !#[trigger] best.or(p, d).dot.below(z) by {
        if best.dot.below(x) && x.below(z) {
            R::law_numbers(best.dot, x);
            R::law_numbers(x, z);
            R::law_numbers(best.dot, z);
            R::law_transitive(best.dot, x, z);
            if z.at_most(best.dot) {
                R::law_transitive(z, best.dot, x);
            }
        }
    }
}

proof fn lemma_points<R: Lawful>(
    shape: ExtrudedProfile<R>,
    points: Seq<Vector2<R>>,
    d: Vector2<R>,
)
    requires
        forall|i: int| 0 <= i < points.len() ==> shape.profile@.contains(#[trigger] points[i]),
    ensures
        is_tracked(Reach::of_points(points, d), d),
        Reach::of_points(points, d) == Reach::<R>::none() || is_offered(
            shape,
            d,
            Reach::of_points(points, d).point,
        ),
        forall|p: Vector2<R>| #[trigger]
            points.contains(p) ==> !Reach::of_points(points, d).dot.below(p.inner(d)),
    decreases points.len(),
{
    if points.len() > 0 {
        let rest = points.drop_last();
        assert forall|i: int| 0 <= i < rest.len() implies shape.profile@.contains(
            #[trigger] rest[i],
        ) by {
            assert(rest[i] == points[i]);
        }
        lemma_points(shape, rest, d);
        lemma_or(Reach::of_points(rest, d), points.last(), d);
        assert(shape.profile@.contains(points[points.len() - 1]));
        assert forall|p: Vector2<R>| #[trigger] points.contains(p) implies !Reach::of_points(
            points,
            d,
        ).dot.below(p.inner(d)) by {
            let i = choose|i: int| 0 <= i < points.len() && points[i] == p;
            if i < rest.len() {
                assert(rest[i] == p);
                assert(rest.contains(p));
            }
        }
    }
}

proof fn lemma_arcs<R: Lawful>(
    shape: ExtrudedProfile<R>,
    best: Reach<R>,
    arcs: Seq<ProfileArc<R>>,
    unit: Vector2<R>,
    d: Vector2<R>,
)
    requires
        d.unit() == Some(unit),
        is_tracked(best, d),
        best == Reach::<R>::none() || is_offered(shape, d, best.point),
        forall|j: int| 0 <= j < arcs.len() ==> shape.arcs@.contains(#[trigger] arcs[j]),
    ensures
        is_tracked(best.or_arcs(arcs, unit, d), d),
        best.or_arcs(arcs, unit, d) == Reach::<R>::none() || is_offered(
            shape,
            d,
            best.or_arcs(arcs, unit, d).point,
        ),
        forall|x: R|
            !best.dot.below(x) ==> !#[trigger] best.or_arcs(arcs, unit, d).dot.below(x),
        forall|j: int, p: Vector2<R>|
            0 <= j < arcs.len() && #[trigger] arc_offers(arcs[j], d, p) ==> !best.or_arcs(
                arcs,
                unit,
                d,
            ).dot.below(p.inner(d)),
    decreases arcs.len(),
{
    if arcs.len() > 0 {
        let rest = arcs.drop_last();
        let arc = arcs.last();
        assert forall|j: int| 0 <= j < rest.len() implies shape.arcs@.contains(
            #[trigger] rest[j],
        ) by {
            assert(rest[j] == arcs[j]);
        }
        lemma_arcs(shape, best, rest, unit, d);
        lemma_or(best.or_arcs(rest, unit, d), arc.toward(unit), d);
        assert(shape.arcs@.contains(arcs[arcs.len() - 1]));
        let k = choose|k: int| 0 <= k < shape.arcs@.len() && shape.arcs@[k] == arc;
        if arc.faces(unit.heading()) {
            assert(arc_offers(shape.arcs@[k], d, arc.toward(unit)));
        }
        assert forall|j: int, p: Vector2<R>|
            0 <= j < arcs.len() && #[trigger] arc_offers(arcs[j], d, p) implies !best.or_arcs(
            arcs,
            unit,
            d,
        ).dot.below(p.inner(d)) by {
            if j < rest.len() {
                assert(arc_offers(rest[j], d, p));
            }
        }
    }
}

/// Of points that reach equally far, the first is picked: each one before it falls short of it.
proof fn lemma_first<R: Lawful>(points: Seq<Vector2<R>>, d: Vector2<R>) -> (k: int)
    requires
        points.len() > 0,
        forall|i: int|
            0 <= i < points.len() ==> R::neg_infinity_value().below(
                (#[trigger] points[i]).inner(d),
            ),
    ensures
        0 <= k < points.len(),
        Reach::of_points(points, d).point == points[k],
        Reach::of_points(points, d).dot == points[k].inner(d),
        forall|i: int|
            0 <= i < k ==> (#[trigger] points[i]).inner(d).below(points[k].inner(d)),
        forall|i: int|
            0 <= i < points.len() ==> !points[k].inner(d).below((#[trigger] points[i]).inner(d)),
    decreases points.len(),
{
    let n = points.len() - 1;
    let (rest, last) = (points.drop_last(), points[n]);
    assert(R::neg_infinity_value().below(points[n].inner(d)));
    R::law_numbers(last.inner(d), last.inner(d));
    R::law_numbers(R::neg_infinity_value(), last.inner(d));
    assert(points.last() == last);
    if n == 0 {
        assert(rest.len() == 0);
        assert(Reach::of_points(rest, d) == Reach::<R>::none());
        assert(Reach::of_points(points, d) == Reach::<R>::none().or(last, d));
        0
    } else {
        assert forall|i: int| 0 <= i < rest.len() implies R::neg_infinity_value().below(
            (#[trigger] rest[i]).inner(d),
        ) by {
            assert(rest[i] == points[i]);
        }
        let k = lemma_first(rest, d);
        let best = rest[k].inner(d);
        assert(rest[k] == points[k]);
        R::law_numbers(best, last.inner(d));
        if best.below(last.inner(d)) {
            assert forall|i: int| 0 <= i < n implies (#[trigger] points[i]).inner(d).below(
                last.inner(d),
            ) by {
                assert(points[i] == rest[i]);
                assert(R::neg_infinity_value().below(points[i].inner(d)));
                let x = points[i].inner(d);
                R::law_numbers(R::neg_infinity_value(), x);
                R::law_numbers(best, x);
                R::law_numbers(x, last.inner(d));
                R::law_transitive(x, best, last.inner(d));
                if last.inner(d).at_most(x) {
                    R::law_transitive(last.inner(d), x, best);
                }
            }
            assert forall|i: int| 0 <= i < points.len() implies !last.inner(d).below(
                (#[trigger] points[i]).inner(d),
            ) by {
                if i < n {
                    R::law_numbers(points[i].inner(d), last.inner(d));
                    R::law_numbers(last.inner(d), points[i].inner(d));
                }
            }
            n
        } else {
            assert forall|i: int| 0 <= i < points.len() implies !best.below(
                (#[trigger] points[i]).inner(d),
            ) by {
                if i < n {
                    assert(points[i] == rest[i]);
                }
            }
            assert forall|i: int| 0 <= i < k implies (#[trigger] points[i]).inner(d).below(
                points[k].inner(d),
            ) by {
                assert(points[i] == rest[i]);
            }
            k
        }
    }
}

/// An arc takes over only where it reaches strictly further.
proof fn lemma_arcs_go_further<R: Lawful>(
    best: Reach<R>,
    arcs: Seq<ProfileArc<R>>,
    unit: Vector2<R>,
    d: Vector2<R>,
)
    ensures
        best.or_arcs(arcs, unit, d) == best || best.dot.below(best.or_arcs(arcs, unit, d).dot),
    decreases arcs.len(),
{
    if arcs.len() > 0 {
        lemma_arcs_go_further(best, arcs.drop_last(), unit, d);
        let rest = best.or_arcs(arcs.drop_last(), unit, d);
        let x = arcs.last().toward(unit).inner(d);
        if rest.dot.below(x) && best.dot.below(rest.dot) {
            R::law_numbers(rest.dot, x);
            R::law_numbers(best.dot, rest.dot);
            R::law_numbers(best.dot, x);
            R::law_transitive(best.dot, rest.dot, x);
            if x.at_most(best.dot) {
                R::law_transitive(x, best.dot, rest.dot);
            }
        }
    }
}

/// Of vertices that reach equally far the first is the support point, and no arc takes its place
/// that does not reach further.
pub proof fn law_first_vertex_is_support<R: Lawful>(
    shape: ExtrudedProfile<R>,
    d: Vector2<R>,
    k: int,
)
    requires
        0 <= k < shape.profile@.len(),
        forall|i: int|
            0 <= i < shape.profile@.len() ==> R::neg_infinity_value().below(
                (#[trigger] shape.profile@[i]).inner(d),
            ),
        forall|i: int|
            0 <= i < k ==> (#[trigger] shape.profile@[i]).inner(d).below(
                shape.profile@[k].inner(d),
            ),
        !shape.profile@[k].inner(d).below(shape.plane_support(d).inner(d)),
    ensures
        shape.plane_support(d) == shape.profile@[k],
{
    let points = shape.profile@;
    let l = lemma_first(points, d);
    let best = Reach::of_points(points, d);
    let (x, y) = (points[k].inner(d), points[l].inner(d));
    assert(R::neg_infinity_value().below(points[k].inner(d)));
    assert(R::neg_infinity_value().below(points[l].inner(d)));
    R::law_numbers(R::neg_infinity_value(), x);
    R::law_numbers(R::neg_infinity_value(), y);
    R::law_numbers(x, y);
    R::law_numbers(y, x);
    R::law_numbers(y, R::neg_infinity_value());
    law_support_is_furthest(shape, d, points[l]);
    if let Some(unit) = d.unit() {
        lemma_arcs_go_further(best, shape.arcs@, unit, d);
        lemma_points(shape, points, d);
        lemma_arcs(shape, best, shape.arcs@, unit, d);
        let last = best.or_arcs(shape.arcs@, unit, d);
        R::law_numbers(y, last.dot);
        R::law_numbers(x, last.dot);
        if y.below(last.dot) {
            R::law_transitive(x, y, last.dot);
            if last.dot.at_most(x) {
                R::law_transitive(last.dot, x, y);
            }
            assert(x.below(last.dot));
            assert(last.dot == last.point.inner(d));
        }
    }
    assert(shape.plane_support(d) == points[l]);
    if l < k {
        assert(points[l].inner(d).below(points[k].inner(d)));
    }
}

} // verus!
