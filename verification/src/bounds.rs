//! Boxes and balls around the shape.
use vstd::prelude::*;

use crate::angle;
use crate::polygon;
use crate::profile::ExtrudedProfile;
use crate::scalar::{Lawful, Real, Scalar};
use crate::support;
use crate::vector::{Matrix, Vector, Vector2};

verus! {

/// A box with its sides along the axes.
#[derive(Debug, PartialEq)]
pub struct Aabb<R> {
    pub mins: Vector<R>,
    pub maxs: Vector<R>,
}

impl<R: Real> Copy for Aabb<R> {

}

impl<R: Real> Clone for Aabb<R> {
    fn clone(&self) -> (r: Self)
        ensures
            r == *self,
    {
        *self
    }
}

/// A ball.
#[derive(Debug, PartialEq)]
pub struct BoundingSphere<R> {
    pub center: Vector<R>,
    pub radius: R,
}

/// Where a body is, and how it is turned.
#[derive(Debug, PartialEq)]
pub struct Pose<R> {
    /// The directions of the body's own axes.
    pub rotation: Matrix<R>,
    /// The place of the body's own origin.
    pub translation: Vector<R>,
}

impl<R: Scalar> Pose<R> {
    /// Where the body's own point `p` is.
    pub open spec fn place(self, p: Vector<R>) -> Vector<R> {
        self.rotation.image(p).plus(self.translation)
    }
}

impl<R: Scalar> Aabb<R> {
    /// Does the point lie in the box, its surface included?
    pub open spec fn contains(self, p: Vector<R>) -> bool {
        &&& self.mins.x.at_most(p.x) && p.x.at_most(self.maxs.x)
        &&& self.mins.y.at_most(p.y) && p.y.at_most(self.maxs.y)
        &&& self.mins.z.at_most(p.z) && p.z.at_most(self.maxs.z)
    }

    /// The length of each side.
    pub open spec fn size(self) -> Vector<R> {
        self.maxs.minus(self.mins)
    }

    /// The point midway.
    pub open spec fn middle(self) -> Vector<R> {
        self.mins.plus(self.maxs).times(polygon::half_value())
    }

    /// Are all sides of the box numbers?
    pub open spec fn is_number(self) -> bool {
        &&& self.mins.x.at_most(self.mins.x) && self.maxs.x.at_most(self.maxs.x)
        &&& self.mins.y.at_most(self.mins.y) && self.maxs.y.at_most(self.maxs.y)
        &&& self.mins.z.at_most(self.mins.z) && self.maxs.z.at_most(self.maxs.z)
    }

    /// The smallest box around both.
    pub open spec fn joined(self, other: Self) -> Self {
        Aabb { mins: self.mins.lesser(other.mins), maxs: self.maxs.greater(other.maxs) }
    }

    /// The ball through the corners.
    pub open spec fn ball(self) -> BoundingSphere<R> {
        BoundingSphere {
            center: self.middle(),
            radius: self.size().norm().times(polygon::half_value()),
        }
    }

    /// A box around this one, moved along with a body.
    pub open spec fn moved(self, pose: Pose<R>) -> Self {
        let center = pose.place(self.middle());
        let half = pose.rotation.magnitudes().image(self.size().times(polygon::half_value()));
        Aabb { mins: center.minus(half), maxs: center.plus(half) }
    }
}

impl<R: Real> Aabb<R> {
    pub fn new(mins: Vector<R>, maxs: Vector<R>) -> (r: Self)
        ensures
            r == (Aabb { mins, maxs }),
    {
        Aabb { mins, maxs }
    }

    pub fn extents(&self) -> (r: Vector<R>)
        ensures
            r == self.size(),
    {
        self.maxs.sub(self.mins)
    }

    pub fn center(&self) -> (r: Vector<R>)
        ensures
            r == self.middle(),
    {
        self.mins.add(self.maxs).mul(polygon::half())
    }

    pub fn merged(&self, other: &Self) -> (r: Self)
        ensures
            r == self.joined(*other),
    {
        Aabb { mins: self.mins.min(other.mins), maxs: self.maxs.max(other.maxs) }
    }

    pub fn bounding_sphere(&self) -> (r: BoundingSphere<R>)
        ensures
            r == self.ball(),
    {
        BoundingSphere {
            center: self.center(),
            radius: self.extents().length().mul(polygon::half()),
        }
    }

    pub fn transform_by(&self, pose: &Pose<R>) -> (r: Self)
        ensures
            r == self.moved(*pose),
    {
        let center = pose.rotation.mul_vector(self.center()).add(pose.translation);
        let half = pose.rotation.abs().mul_vector(self.extents().mul(polygon::half()));
        Aabb { mins: center.sub(half), maxs: center.add(half) }
    }
}

/// The smaller coordinates of all `points`.
pub open spec fn low_corner<R: Scalar>(points: Seq<Vector2<R>>) -> Vector2<R>
    decreases points.len(),
{
    if points.len() == 0 {
        Vector2 { x: R::infinity_value(), y: R::infinity_value() }
    } else {
        low_corner(points.drop_last()).lesser(points.last())
    }
}

/// The larger coordinates of all `points`.
pub open spec fn high_corner<R: Scalar>(points: Seq<Vector2<R>>) -> Vector2<R>
    decreases points.len(),
{
    if points.len() == 0 {
        Vector2 { x: R::neg_infinity_value(), y: R::neg_infinity_value() }
    } else {
        high_corner(points.drop_last()).greater(points.last())
    }
}

impl<R: Scalar> ExtrudedProfile<R> {
    /// The four directions along the axes of the profile plane.
    pub open spec fn axes() -> Seq<Vector<R>> {
        let zero = R::of_count(0);
        let one = R::of_count(1);
        seq![
            Vector { x: one, y: zero, z: zero },
            Vector { x: one.negated(), y: zero, z: zero },
            Vector { x: zero, y: zero, z: one },
            Vector { x: zero, y: zero, z: one.negated() },
        ]
    }

    /// The points that bound the profile: its vertices and, where there are arcs, what they reach
    /// along the axes.
    pub open spec fn extreme_points(self) -> Seq<Vector2<R>> {
        if self.arcs@.len() == 0 {
            self.profile@
        } else {
            self.profile@ + Seq::new(4, |k: int| self.support(Self::axes()[k]).in_plane())
        }
    }

    /// The box around the shape.
    pub open spec fn local_box(self) -> Aabb<R> {
        Aabb {
            mins: Vector::over_plane(
                low_corner(self.extreme_points()),
                self.half_depth.negated(),
            ),
            maxs: Vector::over_plane(high_corner(self.extreme_points()), self.half_depth),
        }
    }

    /// The box around the shape where `pose` puts it.
    pub open spec fn world_box(self, pose: Pose<R>) -> Aabb<R> {
        self.local_box().moved(pose)
    }

    /// The box around the shape at the start and at the end of a motion.
    pub open spec fn swept_box(self, start: Pose<R>, end: Pose<R>) -> Aabb<R> {
        self.world_box(start).joined(self.world_box(end))
    }

    /// The ball around the shape.
    pub open spec fn local_ball(self) -> BoundingSphere<R> {
        self.local_box().ball()
    }

    /// The thinnest the solid gets: the smallest side of its box.
    pub open spec fn thickness(self) -> R {
        let size = self.local_box().size();
        size.x.lesser(size.y).lesser(size.z)
    }
}

impl<R: Real> ExtrudedProfile<R> {
    pub fn compute_local_aabb(&self) -> (r: Aabb<R>)
        ensures
            r == self.local_box(),
    {
        let mut lo = Vector2::splat(R::infinity());
        let mut hi = Vector2::splat(R::neg_infinity());
        let ghost points = self.extreme_points();
        assert(points.take(0) =~= Seq::empty());
        for i in 0..self.profile.len()
            invariant
                points == self.extreme_points(),
                lo == low_corner(points.take(i as int)),
                hi == high_corner(points.take(i as int)),
        {
            lo = lo.min(self.profile[i]);
            hi = hi.max(self.profile[i]);
            assert(points.take(i + 1).drop_last() =~= points.take(i as int));
        }
        // An arc reaches its circle's extreme wherever it spans an axis direction, and only its
        // endpoints otherwise, so ask the support function rather than bounding the whole circle.
        if self.arcs.len() > 0 {
            let zero = R::from_usize(0);
            let one = R::from_usize(1);
            let dirs = [
                Vector::new(one, zero, zero),
                Vector::new(one.neg(), zero, zero),
                Vector::new(zero, zero, one),
                Vector::new(zero, zero, one.neg()),
            ];
            assert(dirs@ =~= Self::axes());
            for k in 0..4usize
                invariant
                    self.arcs@.len() > 0,
                    points == self.extreme_points(),
                    dirs@ == Self::axes(),
                    lo == low_corner(points.take(self.profile@.len() + k)),
                    hi == high_corner(points.take(self.profile@.len() + k)),
            {
                let p = self.local_support_point(dirs[k]).xz();
                lo = lo.min(p);
                hi = hi.max(p);
                let ghost m = self.profile@.len() + k;
                assert(points.take(m + 1).drop_last() =~= points.take(m));
                assert(points.take(m + 1).last() == p);
            }
        }
        assert(points.take(points.len() as int) =~= points);
        Aabb::new(
            Vector::new(lo.x, self.half_depth.neg(), lo.y),
            Vector::new(hi.x, self.half_depth, hi.y),
        )
    }

    pub fn compute_local_bounding_sphere(&self) -> (r: BoundingSphere<R>)
        ensures
            r == self.local_ball(),
    {
        self.compute_local_aabb().bounding_sphere()
    }

    /// The box around the shape where `pose` puts it.
    pub fn compute_aabb(&self, pose: &Pose<R>) -> (r: Aabb<R>)
        ensures
            r == self.world_box(*pose),
    {
        self.compute_local_aabb().transform_by(pose)
    }

    /// The box around the shape at the start and at the end of a motion.
    pub fn compute_swept_aabb(&self, start: &Pose<R>, end: &Pose<R>) -> (r: Aabb<R>)
        ensures
            r == self.swept_box(*start, *end),
    {
        let a = self.compute_aabb(start);
        let b = self.compute_aabb(end);
        a.merged(&b)
    }

    /// The thinnest the solid gets: the smaller of its in-plane extent and its depth.
    pub fn ccd_thickness(&self) -> (r: R)
        ensures
            r == self.thickness(),
    {
        let e = self.compute_local_aabb().extents();
        e.x.min(e.y).min(e.z)
    }

    pub fn ccd_angular_thickness(&self) -> (r: R)
        ensures
            r == angle::quarter_turn::<R>(),
    {
        angle::frac_pi_2()
    }
}

/// The corners of the box bound every point that is one of numbers.
pub proof fn lemma_corners_bound<R: Lawful>(points: Seq<Vector2<R>>, i: int)
    requires
        0 <= i < points.len(),
        points[i].is_number(),
    ensures
        low_corner(points).x.at_most(points[i].x),
        low_corner(points).y.at_most(points[i].y),
        points[i].x.at_most(high_corner(points).x),
        points[i].y.at_most(high_corner(points).y),
    decreases points.len(),
{
    let rest = points.drop_last();
    let p = points.last();
    let lo = low_corner(rest);
    let hi = high_corner(rest);
    R::law_extremes(lo.x, p.x);
    R::law_extremes(lo.y, p.y);
    R::law_extremes(hi.x, p.x);
    R::law_extremes(hi.y, p.y);
    if i < rest.len() {
        let q = points[i];
        assert(rest[i] == q);
        lemma_corners_bound(rest, i);
        R::law_numbers(lo.x, q.x);
        R::law_numbers(lo.y, q.y);
        R::law_numbers(q.x, hi.x);
        R::law_numbers(q.y, hi.y);
        R::law_transitive(lo.x.lesser(p.x), lo.x, q.x);
        R::law_transitive(lo.y.lesser(p.y), lo.y, q.y);
        R::law_transitive(q.x, hi.x, hi.x.greater(p.x));
        R::law_transitive(q.y, hi.y, hi.y.greater(p.y));
    }
}

/// The box contains the whole sweep of every vertex: any height between the caps.
pub proof fn law_box_contains_vertices<R: Lawful>(shape: ExtrudedProfile<R>, i: int, y: R)
    requires
        0 <= i < shape.profile@.len(),
        shape.profile@[i].is_number(),
        shape.half_depth.negated().at_most(y),
        y.at_most(shape.half_depth),
    ensures
        shape.local_box().contains(Vector::over_plane(shape.profile@[i], y)),
{
    assert(shape.extreme_points()[i] == shape.profile@[i]);
    lemma_corners_bound(shape.extreme_points(), i);
}

/// Where there are arcs, the box contains what the support function reaches along the axes of the
/// profile plane.
pub proof fn law_box_contains_supports<R: Lawful>(shape: ExtrudedProfile<R>, k: int, y: R)
    requires
        shape.arcs@.len() > 0,
        0 <= k < 4,
        shape.support(ExtrudedProfile::<R>::axes()[k]).in_plane().is_number(),
        shape.half_depth.negated().at_most(y),
        y.at_most(shape.half_depth),
    ensures
        shape.local_box().contains(
            Vector::over_plane(shape.support(ExtrudedProfile::<R>::axes()[k]).in_plane(), y),
        ),
{
    let i = shape.profile@.len() + k;
    assert(shape.extreme_points()[i] == shape.support(
        ExtrudedProfile::<R>::axes()[k],
    ).in_plane());
    lemma_corners_bound(shape.extreme_points(), i);
}

/// The box of a straight-edged shape contains its support point in every direction in which any
/// vertex reaches at all.
pub proof fn law_box_contains_every_support<R: Lawful>(
    shape: ExtrudedProfile<R>,
    dir: Vector<R>,
    i: int,
)
    requires
        shape.arcs@.len() == 0,
        forall|k: int| 0 <= k < shape.profile@.len() ==> (#[trigger] shape.profile@[k]).is_number(),
        shape.half_depth.negated().at_most(shape.half_depth),
        0 <= i < shape.profile@.len(),
        R::neg_infinity_value().below(shape.profile@[i].inner(dir.in_plane())),
    ensures
        shape.local_box().contains(shape.support(dir)),
{
    let d = dir.in_plane();
    assert(shape.profile@.contains(shape.profile@[i]));
    support::law_support_is_offered(shape, d, shape.profile@[i]);
    let p = shape.plane_support(d);
    assert(shape.profile@.contains(p));
    let k = choose|k: int| 0 <= k < shape.profile@.len() && shape.profile@[k] == p;
    R::law_numbers(shape.half_depth.negated(), shape.half_depth);
    law_box_contains_vertices(shape, k, shape.cap_height(dir.y));
}

/// The box is tight: each of its sides in the profile plane goes through a point that bounds the
/// profile, unless there is no such point that compares.
pub proof fn law_box_is_tight<R: Lawful>(shape: ExtrudedProfile<R>)
    ensures
        ({
            let b = shape.local_box();
            let points = shape.extreme_points();
            &&& b.mins.x == R::infinity_value() || exists|i: int|
                0 <= i < points.len() && (#[trigger] points[i]).x == b.mins.x
            &&& b.mins.z == R::infinity_value() || exists|i: int|
                0 <= i < points.len() && (#[trigger] points[i]).y == b.mins.z
            &&& b.maxs.x == R::neg_infinity_value() || exists|i: int|
                0 <= i < points.len() && (#[trigger] points[i]).x == b.maxs.x
            &&& b.maxs.z == R::neg_infinity_value() || exists|i: int|
                0 <= i < points.len() && (#[trigger] points[i]).y == b.maxs.z
            &&& b.mins.y == shape.half_depth.negated()
            &&& b.maxs.y == shape.half_depth
        }),
{
    lemma_corners_attained(shape.extreme_points());
}

proof fn lemma_corners_attained<R: Lawful>(points: Seq<Vector2<R>>)
    ensures
        low_corner(points).x == R::infinity_value() || exists|i: int|
            0 <= i < points.len() && (#[trigger] points[i]).x == low_corner(points).x,
        low_corner(points).y == R::infinity_value() || exists|i: int|
            0 <= i < points.len() && (#[trigger] points[i]).y == low_corner(points).y,
        high_corner(points).x == R::neg_infinity_value() || exists|i: int|
            0 <= i < points.len() && (#[trigger] points[i]).x == high_corner(points).x,
        high_corner(points).y == R::neg_infinity_value() || exists|i: int|
            0 <= i < points.len() && (#[trigger] points[i]).y == high_corner(points).y,
        low_corner(points).is_number(),
        high_corner(points).is_number(),
    decreases points.len(),
{
    R::law_counts(0, 0);
    R::law_infinities(R::of_count(0));
    R::law_numbers(R::of_count(0), R::infinity_value());
    R::law_numbers(R::neg_infinity_value(), R::of_count(0));
    if points.len() > 0 {
        let rest = points.drop_last();
        let p = points[points.len() - 1];
        let lo = low_corner(rest);
        let hi = high_corner(rest);
        lemma_corners_attained(rest);
        R::law_extremes(lo.x, p.x);
        R::law_extremes(lo.y, p.y);
        R::law_extremes(hi.x, p.x);
        R::law_extremes(hi.y, p.y);
        R::law_numbers(lo.x.lesser(p.x), lo.x);
        R::law_numbers(lo.y.lesser(p.y), lo.y);
        R::law_numbers(hi.x, hi.x.greater(p.x));
        R::law_numbers(hi.y, hi.y.greater(p.y));
        assert(forall|i: int| 0 <= i < rest.len() ==> #[trigger] rest[i] == points[i]);
    }
}

/// The thickness of a solid is one of the sides of its box, and no more than any of them.
pub proof fn law_thickness_is_least<R: Lawful>(shape: ExtrudedProfile<R>)
    requires
        ({
            let size = shape.local_box().size();
            size.x.at_most(size.x) && size.y.at_most(size.y) && size.z.at_most(size.z)
        }),
    ensures
        ({
            let size = shape.local_box().size();
            let t = shape.thickness();
            &&& t == size.x || t == size.y || t == size.z
            &&& t.at_most(size.x) && t.at_most(size.y) && t.at_most(size.z)
        }),
{
    let size = shape.local_box().size();
    let side = size.x.lesser(size.y);
    R::law_extremes(size.x, size.y);
    R::law_extremes(side, size.z);
    R::law_numbers(side, size.x);
    R::law_transitive(side.lesser(size.z), side, size.x);
    R::law_transitive(side.lesser(size.z), side, size.y);
}

/// Joining two boxes gives the same box in either order, number for number.
pub proof fn law_joined_either_way<R: Lawful>(a: Aabb<R>, b: Aabb<R>)
    requires
        a.is_number() && b.is_number(),
    ensures
        a.joined(b).mins.is_same(b.joined(a).mins),
        a.joined(b).maxs.is_same(b.joined(a).maxs),
{
    lemma_either_way(a.mins.x, b.mins.x);
    lemma_either_way(a.mins.y, b.mins.y);
    lemma_either_way(a.mins.z, b.mins.z);
    lemma_either_way(a.maxs.x, b.maxs.x);
    lemma_either_way(a.maxs.y, b.maxs.y);
    lemma_either_way(a.maxs.z, b.maxs.z);
}

proof fn lemma_either_way<R: Lawful>(a: R, b: R)
    requires
        a.at_most(a) && b.at_most(b),
    ensures
        a.lesser(b).at_most(b.lesser(a)) && b.lesser(a).at_most(a.lesser(b)),
        a.greater(b).at_most(b.greater(a)) && b.greater(a).at_most(a.greater(b)),
{
    R::law_extremes(a, b);
    R::law_extremes(b, a);
}

/// A box joined with itself is that box, so a body that stays where it is sweeps over its own box.
pub proof fn law_joined_with_itself<R: Lawful>(a: Aabb<R>)
    requires
        a.is_number(),
    ensures
        a.joined(a) == a,
{
    R::law_extremes(a.mins.x, a.mins.x);
    R::law_extremes(a.mins.y, a.mins.y);
    R::law_extremes(a.mins.z, a.mins.z);
    R::law_extremes(a.maxs.x, a.maxs.x);
    R::law_extremes(a.maxs.y, a.maxs.y);
    R::law_extremes(a.maxs.z, a.maxs.z);
}

/// The box that joins two is no larger than need be: every side of it is a side of one of them.
pub proof fn law_joined_is_tight<R: Lawful>(a: Aabb<R>, b: Aabb<R>)
    requires
        a.is_number() && b.is_number(),
    ensures
        ({
            let j = a.joined(b);
            &&& j.mins.x == a.mins.x || j.mins.x == b.mins.x
            &&& j.mins.y == a.mins.y || j.mins.y == b.mins.y
            &&& j.mins.z == a.mins.z || j.mins.z == b.mins.z
            &&& j.maxs.x == a.maxs.x || j.maxs.x == b.maxs.x
            &&& j.maxs.y == a.maxs.y || j.maxs.y == b.maxs.y
            &&& j.maxs.z == a.maxs.z || j.maxs.z == b.maxs.z
        }),
{
    R::law_extremes(a.mins.x, b.mins.x);
    R::law_extremes(a.mins.y, b.mins.y);
    R::law_extremes(a.mins.z, b.mins.z);
    R::law_extremes(a.maxs.x, b.maxs.x);
    R::law_extremes(a.maxs.y, b.maxs.y);
    R::law_extremes(a.maxs.z, b.maxs.z);
}

/// Two boxes are both inside the box that joins them.
pub proof fn law_joined_contains_both<R: Lawful>(a: Aabb<R>, b: Aabb<R>, p: Vector<R>)
    requires
        a.contains(p) || b.contains(p),
    ensures
        a.joined(b).contains(p),
{
    lemma_between(a.mins.x, b.mins.x, a.maxs.x, b.maxs.x, p.x);
    lemma_between(a.mins.y, b.mins.y, a.maxs.y, b.maxs.y, p.y);
    lemma_between(a.mins.z, b.mins.z, a.maxs.z, b.maxs.z, p.z);
}

proof fn lemma_between<R: Lawful>(lo1: R, lo2: R, hi1: R, hi2: R, x: R)
    requires
        (lo1.at_most(x) && x.at_most(hi1)) || (lo2.at_most(x) && x.at_most(hi2)),
    ensures
        lo1.lesser(lo2).at_most(x),
        x.at_most(hi1.greater(hi2)),
{
    R::law_extremes(lo1, lo2);
    R::law_extremes(hi1, hi2);
    R::law_numbers(lo1, x);
    R::law_numbers(lo2, x);
    R::law_numbers(x, hi1);
    R::law_numbers(x, hi2);
    if lo1.at_most(x) && x.at_most(hi1) {
        R::law_transitive(lo1.lesser(lo2), lo1, x);
        R::law_transitive(x, hi1, hi1.greater(hi2));
    } else {
        R::law_transitive(lo1.lesser(lo2), lo2, x);
        R::law_transitive(x, hi2, hi1.greater(hi2));
    }
}

} // verus!
