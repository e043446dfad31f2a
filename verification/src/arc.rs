//! Circular arcs on a profile's boundary.
use vstd::prelude::*;

use crate::angle;
use crate::scalar::{Lawful, Real, Scalar};
use crate::vector::Vector2;

verus! {

/// A circular arc on a profile's boundary, swept counter-clockwise from `start` to `end`.
///
/// This is what makes a drawn curve stay curved. A profile of straight segments has a finite set
/// of surface normals, so a body rolling on it steps from facet to facet; an arc has a normal for
/// every direction it spans. The arc's own endpoints live in the profile's vertex list, so a
/// direction outside the span still finds them.
#[derive(Debug, PartialEq)]
pub struct ProfileArc<R> {
    /// Centre of the circle the arc lies on.
    pub center: Vector2<R>,
    pub radius: R,
    /// Start angle, radians.
    pub start: R,
    /// End angle, radians, counter-clockwise from `start`. The swept angle is above zero and at
    /// most a full turn; a full turn is a circle with no straight edges at all.
    pub end: R,
}

impl<R: Real> Copy for ProfileArc<R> {

}

impl<R: Real> Clone for ProfileArc<R> {
    fn clone(&self) -> (r: Self)
        ensures
            r == *self,
    {
        *self
    }
}

impl<R: Scalar> ProfileArc<R> {
    /// Does the arc sweep more than nothing, and a full turn at most?
    pub open spec fn is_valid(self) -> bool {
        R::of_count(0).below(self.swept()) && self.swept().at_most(angle::full_turn::<R>())
    }

    /// The angle that the arc covers.
    pub open spec fn swept(self) -> R {
        self.end.minus(self.start)
    }

    /// Does the arc cover the direction `angle`, reckoned from its start?
    pub open spec fn faces(self, angle: R) -> bool {
        angle::wrapped(angle.minus(self.start)).at_most(self.swept())
    }

    /// The point of the circle in the direction `unit`.
    pub open spec fn toward(self, unit: Vector2<R>) -> Vector2<R> {
        self.center.plus(unit.times(self.radius))
    }

    /// The point of the circle at `angle`.
    pub open spec fn point_at(self, angle: R) -> Vector2<R> {
        self.toward(Vector2 { x: angle.cosine(), y: angle.sine() })
    }

    /// A full circle.
    pub open spec fn full(center: Vector2<R>, radius: R) -> Self {
        ProfileArc { center, radius, start: R::of_count(0), end: angle::full_turn::<R>() }
    }
}

impl<R: Real> ProfileArc<R> {
    /// A full circle.
    pub fn circle(center: Vector2<R>, radius: R) -> (r: Self)
        ensures
            r == Self::full(center, radius),
    {
        ProfileArc { center, radius, start: R::from_usize(0), end: angle::tau::<R>() }
    }

    /// Swept angle, radians.
    pub fn sweep(&self) -> (r: R)
        ensures
            r == self.swept(),
    {
        self.end.sub(self.start)
    }

    /// Does this arc face `angle`? Convexity means it bulges outward, so the outward normal at a
    /// point is the radial direction, and the arc supports exactly the directions it spans.
    pub fn spans(&self, angle: R) -> (r: bool)
        ensures
            r == self.faces(angle),
    {
        angle::wrap(angle.sub(self.start)).is_at_most(self.sweep())
    }

    /// The point of the circle at `angle`.
    pub fn at(&self, angle: R) -> (r: Vector2<R>)
        ensures
            r == self.point_at(angle),
    {
        self.center.add(Vector2::new(angle.cos(), angle.sin()).mul(self.radius))
    }
}

/// A circle faces every direction.
pub proof fn law_circle_faces_all<R: Lawful>(center: Vector2<R>, radius: R, angle: R)
    requires
        angle::settles(angle),
    ensures
        ProfileArc::full(center, radius).faces(angle),
{
    angle::lemma_full_turn::<R>();
    R::law_numbers(angle, R::of_count(0));
    R::law_numbers(R::of_count(0), angle);
    R::law_numbers(angle::full_turn::<R>(), angle);
    R::law_neutral(angle);
    R::law_neutral(angle::full_turn::<R>());
    R::law_numbers(angle::wrapped(angle), angle::full_turn::<R>());
}

/// A circle is a valid arc: it sweeps exactly a full turn.
pub proof fn law_circle_is_valid<R: Lawful>(center: Vector2<R>, radius: R)
    ensures
        ProfileArc::full(center, radius).swept() == angle::full_turn::<R>(),
        ProfileArc::full(center, radius).is_valid(),
{
    R::law_neutral(angle::full_turn::<R>());
    angle::lemma_full_turn::<R>();
}

/// An arc faces exactly the directions it spans: of those within a turn from its start, the ones
/// that lie no further from it than the arc sweeps.
pub proof fn law_arc_faces_its_span<R: Lawful>(arc: ProfileArc<R>, angle: R)
    requires
        R::of_count(0).at_most(angle.minus(arc.start)),
        angle.minus(arc.start).below(angle::full_turn::<R>()),
    ensures
        arc.faces(angle) == angle.minus(arc.start).at_most(arc.swept()),
{
    angle::law_wrap_keeps(angle.minus(arc.start));
}

/// A valid arc of less than a turn faces the direction that it ends at.
pub proof fn law_arc_faces_end<R: Lawful>(arc: ProfileArc<R>)
    requires
        arc.is_valid(),
        arc.swept().below(angle::full_turn::<R>()),
    ensures
        arc.faces(arc.end),
{
    R::law_numbers(R::of_count(0), arc.swept());
    law_arc_faces_its_span(arc, arc.end);
}

/// A valid arc faces the direction that it starts at.
pub proof fn law_arc_faces_start<R: Lawful>(arc: ProfileArc<R>)
    requires
        arc.is_valid(),
        arc.start.finite(),
    ensures
        arc.faces(arc.start),
{
    R::law_neutral(arc.start);
    angle::lemma_full_turn::<R>();
    R::law_numbers(R::of_count(0), arc.swept());
    angle::law_wrap_keeps(R::of_count(0));
}

} // verus!
