//! Vectors of the profile plane and of space.
use vstd::prelude::*;

use crate::scalar::{Real, Scalar};

verus! {

/// A vector of the profile plane, whose axes are the X and Z axes of space.
#[derive(Debug, PartialEq)]
pub struct Vector2<R> {
    pub x: R,
    pub y: R,
}

impl<R: Real> Copy for Vector2<R> {

}

impl<R: Real> Clone for Vector2<R> {
    fn clone(&self) -> (r: Self)
        ensures
            r == *self,
    {
        *self
    }
}

impl<R: Scalar> Vector2<R> {
    /// The origin.
    pub open spec fn origin() -> Self {
        Vector2 { x: R::of_count(0), y: R::of_count(0) }
    }

    /// The sum, coordinate by coordinate.
    pub open spec fn plus(self, other: Self) -> Self {
        Vector2 { x: self.x.plus(other.x), y: self.y.plus(other.y) }
    }

    /// The difference, coordinate by coordinate.
    pub open spec fn minus(self, other: Self) -> Self {
        Vector2 { x: self.x.minus(other.x), y: self.y.minus(other.y) }
    }

    /// Each coordinate times `k`.
    pub open spec fn times(self, k: R) -> Self {
        Vector2 { x: self.x.times(k), y: self.y.times(k) }
    }

    /// Each coordinate over `k`.
    pub open spec fn over(self, k: R) -> Self {
        Vector2 { x: self.x.over(k), y: self.y.over(k) }
    }

    /// The smaller coordinates of two vectors.
    pub open spec fn lesser(self, other: Self) -> Self {
        Vector2 { x: self.x.lesser(other.x), y: self.y.lesser(other.y) }
    }

    /// The larger coordinates of two vectors.
    pub open spec fn greater(self, other: Self) -> Self {
        Vector2 { x: self.x.greater(other.x), y: self.y.greater(other.y) }
    }

    /// The inner product.
    pub open spec fn inner(self, other: Self) -> R {
        self.x.times(other.x).plus(self.y.times(other.y))
    }

    /// The z coordinate of the cross product.
    pub open spec fn outer(self, other: Self) -> R {
        self.x.times(other.y).minus(other.x.times(self.y))
    }

    /// The Euclidean norm.
    pub open spec fn norm(self) -> R {
        self.inner(self).root()
    }

    /// The vector of unit length along this one, unless this one is too short or too long to
    /// have a usable reciprocal norm.
    pub open spec fn unit(self) -> Option<Self> {
        let reciprocal = R::of_count(1).over(self.norm());
        if reciprocal.finite() && R::of_count(0).below(reciprocal) {
            Some(self.times(reciprocal))
        } else {
            None
        }
    }

    /// The counter-clockwise angle from the first axis.
    pub open spec fn heading(self) -> R {
        self.y.arctangent(self.x)
    }

    /// Do both coordinates compare as numbers?
    pub open spec fn is_number(self) -> bool {
        self.x.at_most(self.x) && self.y.at_most(self.y)
    }
}

impl<R: Real> Vector2<R> {
    pub fn new(x: R, y: R) -> (r: Self)
        ensures
            r == (Vector2 { x, y }),
    {
        Vector2 { x, y }
    }

    pub fn zero() -> (r: Self)
        ensures
            r == Self::origin(),
    {
        Vector2 { x: R::from_usize(0), y: R::from_usize(0) }
    }

    /// Both coordinates `k`.
    pub fn splat(k: R) -> (r: Self)
        ensures
            r == (Vector2 { x: k, y: k }),
    {
        Vector2 { x: k, y: k }
    }

    pub fn add(self, other: Self) -> (r: Self)
        ensures
            r == self.plus(other),
    {
        Vector2 { x: self.x.add(other.x), y: self.y.add(other.y) }
    }

    pub fn sub(self, other: Self) -> (r: Self)
        ensures
            r == self.minus(other),
    {
        Vector2 { x: self.x.sub(other.x), y: self.y.sub(other.y) }
    }

    pub fn mul(self, k: R) -> (r: Self)
        ensures
            r == self.times(k),
    {
        Vector2 { x: self.x.mul(k), y: self.y.mul(k) }
    }

    pub fn div(self, k: R) -> (r: Self)
        ensures
            r == self.over(k),
    {
        Vector2 { x: self.x.div(k), y: self.y.div(k) }
    }

    pub fn min(self, other: Self) -> (r: Self)
        ensures
            r == self.lesser(other),
    {
        Vector2 { x: self.x.min(other.x), y: self.y.min(other.y) }
    }

    pub fn max(self, other: Self) -> (r: Self)
        ensures
            r == self.greater(other),
    {
        Vector2 { x: self.x.max(other.x), y: self.y.max(other.y) }
    }

    pub fn dot(self, other: Self) -> (r: R)
        ensures
            r == self.inner(other),
    {
        self.x.mul(other.x).add(self.y.mul(other.y))
    }

    pub fn cross(self, other: Self) -> (r: R)
        ensures
            r == self.outer(other),
    {
        self.x.mul(other.y).sub(other.x.mul(self.y))
    }

    pub fn length_squared(self) -> (r: R)
        ensures
            r == self.inner(self),
    {
        self.dot(self)
    }

    pub fn length(self) -> (r: R)
        ensures
            r == self.norm(),
    {
        self.dot(self).sqrt()
    }

    pub fn try_normalize(self) -> (r: Option<Self>)
        ensures
            r == self.unit(),
    {
        let reciprocal = R::from_usize(1).div(self.length());
        if reciprocal.is_finite() && R::from_usize(0).is_below(reciprocal) {
            Some(self.mul(reciprocal))
        } else {
            None
        }
    }

    /// The counter-clockwise angle from the first axis, radians.
    pub fn angle(self) -> (r: R)
        ensures
            r == self.heading(),
    {
        self.y.atan2(self.x)
    }
}

/// A vector of space.
#[derive(Debug, PartialEq)]
pub struct Vector<R> {
    pub x: R,
    pub y: R,
    pub z: R,
}

impl<R: Real> Copy for Vector<R> {

}

impl<R: Real> Clone for Vector<R> {
    fn clone(&self) -> (r: Self)
        ensures
            r == *self,
    {
        *self
    }
}

impl<R: Scalar> Vector<R> {
    /// Have the two the same coordinates, number for number?
    pub open spec fn is_same(self, other: Self) -> bool {
        &&& self.x.at_most(other.x) && other.x.at_most(self.x)
        &&& self.y.at_most(other.y) && other.y.at_most(self.y)
        &&& self.z.at_most(other.z) && other.z.at_most(self.z)
    }

    /// The origin.
    pub open spec fn origin() -> Self {
        Vector { x: R::of_count(0), y: R::of_count(0), z: R::of_count(0) }
    }

    /// The sum, coordinate by coordinate.
    pub open spec fn plus(self, other: Self) -> Self {
        Vector {
            x: self.x.plus(other.x),
            y: self.y.plus(other.y),
            z: self.z.plus(other.z),
        }
    }

    /// The difference, coordinate by coordinate.
    pub open spec fn minus(self, other: Self) -> Self {
        Vector {
            x: self.x.minus(other.x),
            y: self.y.minus(other.y),
            z: self.z.minus(other.z),
        }
    }

    /// Each coordinate times `k`.
    pub open spec fn times(self, k: R) -> Self {
        Vector { x: self.x.times(k), y: self.y.times(k), z: self.z.times(k) }
    }

    /// Each coordinate without its sign.
    pub open spec fn magnitudes(self) -> Self {
        Vector { x: self.x.magnitude(), y: self.y.magnitude(), z: self.z.magnitude() }
    }

    /// The smaller coordinates of two vectors.
    pub open spec fn lesser(self, other: Self) -> Self {
        Vector {
            x: self.x.lesser(other.x),
            y: self.y.lesser(other.y),
            z: self.z.lesser(other.z),
        }
    }

    /// The larger coordinates of two vectors.
    pub open spec fn greater(self, other: Self) -> Self {
        Vector {
            x: self.x.greater(other.x),
            y: self.y.greater(other.y),
            z: self.z.greater(other.z),
        }
    }

    /// The Euclidean norm.
    pub open spec fn norm(self) -> R {
        self.x.times(self.x).plus(self.y.times(self.y)).plus(self.z.times(self.z)).root()
    }

    /// The part in the profile plane.
    pub open spec fn in_plane(self) -> Vector2<R> {
        Vector2 { x: self.x, y: self.z }
    }

    /// The point over `p` of the profile plane, at height `y` along the sweep.
    pub open spec fn over_plane(p: Vector2<R>, y: R) -> Self {
        Vector { x: p.x, y, z: p.y }
    }
}

impl<R: Real> Vector<R> {
    pub fn new(x: R, y: R, z: R) -> (r: Self)
        ensures
            r == (Vector { x, y, z }),
    {
        Vector { x, y, z }
    }

    pub fn zero() -> (r: Self)
        ensures
            r == Self::origin(),
    {
        Vector { x: R::from_usize(0), y: R::from_usize(0), z: R::from_usize(0) }
    }

    pub fn add(self, other: Self) -> (r: Self)
        ensures
            r == self.plus(other),
    {
        Vector { x: self.x.add(other.x), y: self.y.add(other.y), z: self.z.add(other.z) }
    }

    pub fn sub(self, other: Self) -> (r: Self)
        ensures
            r == self.minus(other),
    {
        Vector { x: self.x.sub(other.x), y: self.y.sub(other.y), z: self.z.sub(other.z) }
    }

    pub fn mul(self, k: R) -> (r: Self)
        ensures
            r == self.times(k),
    {
        Vector { x: self.x.mul(k), y: self.y.mul(k), z: self.z.mul(k) }
    }

    pub fn abs(self) -> (r: Self)
        ensures
            r == self.magnitudes(),
    {
        Vector { x: self.x.abs(), y: self.y.abs(), z: self.z.abs() }
    }

    pub fn min(self, other: Self) -> (r: Self)
        ensures
            r == self.lesser(other),
    {
        Vector { x: self.x.min(other.x), y: self.y.min(other.y), z: self.z.min(other.z) }
    }

    pub fn max(self, other: Self) -> (r: Self)
        ensures
            r == self.greater(other),
    {
        Vector { x: self.x.max(other.x), y: self.y.max(other.y), z: self.z.max(other.z) }
    }

    pub fn length(self) -> (r: R)
        ensures
            r == self.norm(),
    {
        self.x.mul(self.x).add(self.y.mul(self.y)).add(self.z.mul(self.z)).sqrt()
    }

    /// The part in the profile plane.
    pub fn xz(self) -> (r: Vector2<R>)
        ensures
            r == self.in_plane(),
    {
        Vector2 { x: self.x, y: self.z }
    }
}

/// A matrix of space, column by column.
#[derive(Debug, PartialEq)]
pub struct Matrix<R> {
    pub x_axis: Vector<R>,
    pub y_axis: Vector<R>,
    pub z_axis: Vector<R>,
}

impl<R: Real> Copy for Matrix<R> {

}

impl<R: Real> Clone for Matrix<R> {
    fn clone(&self) -> (r: Self)
        ensures
            r == *self,
    {
        *self
    }
}

impl<R: Scalar> Matrix<R> {
    /// The image of `v`: the columns, weighted by its coordinates.
    pub open spec fn image(self, v: Vector<R>) -> Vector<R> {
        self.x_axis.times(v.x).plus(self.y_axis.times(v.y)).plus(self.z_axis.times(v.z))
    }

    /// Every entry without its sign.
    pub open spec fn magnitudes(self) -> Self {
        Matrix {
            x_axis: self.x_axis.magnitudes(),
            y_axis: self.y_axis.magnitudes(),
            z_axis: self.z_axis.magnitudes(),
        }
    }
}

impl<R: Real> Matrix<R> {
    pub fn from_cols(x_axis: Vector<R>, y_axis: Vector<R>, z_axis: Vector<R>) -> (r: Self)
        ensures
            r == (Matrix { x_axis, y_axis, z_axis }),
    {
        Matrix { x_axis, y_axis, z_axis }
    }

    pub fn mul_vector(self, v: Vector<R>) -> (r: Vector<R>)
        ensures
            r == self.image(v),
    {
        self.x_axis.mul(v.x).add(self.y_axis.mul(v.y)).add(self.z_axis.mul(v.z))
    }

    pub fn abs(self) -> (r: Self)
        ensures
            r == self.magnitudes(),
    {
        Matrix { x_axis: self.x_axis.abs(), y_axis: self.y_axis.abs(), z_axis: self.z_axis.abs() }
    }
}

} // verus!
