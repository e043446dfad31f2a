//! What every shape of a scene can be asked.
use vstd::prelude::*;

use crate::angle;
use crate::arc::ProfileArc;
use crate::fixed::Fixed;
use crate::ideal::Ideal;
use crate::profile::{self, ExtrudedProfile};
use crate::scalar::{Lawful, Real, Scalar};
use crate::vector::{Vector, Vector2};

verus! {

/// The kinds of shape.
#[derive(Copy, Clone, Debug, PartialEq, Eq, Structural)]
pub enum ShapeType {
    ExtrudedProfile,
}

/// A shape, by its kind.
pub enum TypedShape<'a, R> {
    Custom(&'a ExtrudedProfile<R>),
}

/// A feature of a shape: what it is, and which one.
#[derive(Copy, Clone, Debug, PartialEq, Eq, Structural)]
pub enum FeatureId {
    Vertex(u32),
    Edge(u32),
    Face(u32),
    Unknown,
}

impl<R: Scalar> ProfileArc<R> {
    /// The arc scaled by `k` about the origin. A negative factor takes every point to the other
    /// side of the centre, which is half a turn away; a full circle looks the same from there and
    /// stays as it is.
    pub open spec fn scaled(self, k: R) -> Self {
        let turned = k.below(R::of_count(0)) && self.swept().below(angle::full_turn());
        ProfileArc {
            center: self.center.times(k),
            radius: self.radius.times(k.magnitude()),
            start: if turned {
                self.start.minus(angle::half_turn())
            } else {
                self.start
            },
            end: if turned {
                self.end.minus(angle::half_turn())
            } else {
                self.end
            },
        }
    }
}

impl<R: Real> Clone for ExtrudedProfile<R> {
    fn clone(&self) -> (r: Self)
        ensures
            r.profile@ == self.profile@,
            r.arcs@ == self.arcs@,
            r.half_depth == self.half_depth,
    {
        let profile = profile::copied(&self.profile);
        let arcs = profile::copied(&self.arcs);
        ExtrudedProfile { profile, arcs, half_depth: self.half_depth }
    }
}

impl<R: Scalar> ExtrudedProfile<R> {
    /// Can the shape be scaled by `scale`? A non-uniform scale in the profile plane turns a circle
    /// into an ellipse, which an arc cannot represent; straight edges scale under any scale at
    /// all.
    pub open spec fn can_scale(self, scale: Vector<R>) -> bool {
        self.arcs@.len() == 0 || !R::epsilon_value().below(scale.x.minus(scale.z).magnitude())
    }

    /// Does `scale` turn the profile plane over?
    pub open spec fn mirrors(scale: Vector<R>) -> bool {
        let zero = R::of_count(0);
        (scale.x.below(zero) && zero.below(scale.z)) || (zero.below(scale.x) && scale.z.below(zero))
    }

    /// The vertices, scaled by `scale`.
    pub open spec fn scaled_vertices(self, scale: Vector<R>) -> Seq<Vector2<R>> {
        self.profile@.map_values(
            |p: Vector2<R>| Vector2 { x: p.x.times(scale.x), y: p.y.times(scale.z) },
        )
    }

    /// Is `self` the shape `other`, scaled by `scale`? A mirror image takes its vertices the other
    /// way round, so that they run counter-clockwise again.
    pub open spec fn is_scaled(self, other: Self, scale: Vector<R>) -> bool {
        &&& self.profile@ == if Self::mirrors(scale) {
            other.scaled_vertices(scale).reverse()
        } else {
            other.scaled_vertices(scale)
        }
        &&& self.arcs@ == other.arcs@.map_values(|a: ProfileArc<R>| a.scaled(scale.x))
        &&& self.half_depth == other.half_depth.times(scale.y.magnitude())
    }
}

impl<R: Real> ExtrudedProfile<R> {
    pub fn clone_dyn(&self) -> (r: Box<Self>)
        ensures
            r.profile@ == self.profile@,
            r.arcs@ == self.arcs@,
            r.half_depth == self.half_depth,
    {
        Box::new(self.clone())
    }

    pub fn scale_dyn(&self, scale: Vector<R>, num_subdivisions: u32) -> (r: Option<Box<Self>>)
        ensures
            r is Some <==> self.can_scale(scale),
            r matches Some(scaled) ==> scaled.is_scaled(*self, scale),
    {
        // A non-uniform scale in the profile plane turns a circle into an ellipse, so say no
        // rather than silently returning a different solid.
        if self.arcs.len() > 0 && R::epsilon().is_below(scale.x.sub(scale.z).abs()) {
            return None;
        }
        let zero = R::from_usize(0);
        let k = scale.x;
        let mirrored = (scale.x.is_below(zero) && zero.is_below(scale.z)) || (zero.is_below(scale.x)
            && scale.z.is_below(zero));
        let n: usize = self.profile.len();
        let mut profile: Vec<Vector2<R>> = Vec::new();
        let ghost vertices = if mirrored {
            self.scaled_vertices(scale).reverse()
        } else {
            self.scaled_vertices(scale)
        };
        for i in 0..n
            invariant
                n == self.profile@.len(),
                vertices == if mirrored {
                    self.scaled_vertices(scale).reverse()
                } else {
                    self.scaled_vertices(scale)
                },
                profile@ =~= vertices.take(i as int),
        {
            // A mirror turns the loop clockwise; going through it backwards turns it back.
            let p = self.profile[if mirrored {
                n - 1 - i
            } else {
                i
            }];
            profile.push(Vector2::new(p.x.mul(scale.x), p.y.mul(scale.z)));
        }
        // A negative factor takes an arc to the other side of its centre, half a turn away. A full
        // circle is left alone: shifting its two ends by a rounded half turn might leave them less
        // than a turn apart.
        let negative = k.is_below(zero);
        let pi = angle::pi::<R>();
        let turn = angle::tau::<R>();
        let mut arcs: Vec<ProfileArc<R>> = Vec::new();
        for j in 0..self.arcs.len()
            invariant
                k == scale.x,
                negative == k.below(R::of_count(0)),
                turn == angle::full_turn::<R>(),
                pi == angle::half_turn::<R>(),
                arcs@ =~= self.arcs@.map_values(|a: ProfileArc<R>| a.scaled(scale.x)).take(
                    j as int,
                ),
        {
            let a = self.arcs[j];
            let turned = negative && a.sweep().is_below(turn);
            arcs.push(
                ProfileArc {
                    center: a.center.mul(k),
                    radius: a.radius.mul(k.abs()),
                    start: if turned {
                        a.start.sub(pi)
                    } else {
                        a.start
                    },
                    end: if turned {
                        a.end.sub(pi)
                    } else {
                        a.end
                    },
                },
            );
        }
        let scaled = ExtrudedProfile {
            profile,
            arcs,
            half_depth: self.half_depth.mul(scale.y.abs()),
        };
        assert(scaled.profile@ =~= vertices);
        assert(scaled.arcs@ =~= self.arcs@.map_values(|a: ProfileArc<R>| a.scaled(scale.x)));
        Some(Box::new(scaled))
    }

    pub fn shape_type(&self) -> (r: ShapeType)
        ensures
            r == ShapeType::ExtrudedProfile,
    {
        ShapeType::ExtrudedProfile
    }

    pub fn as_typed_shape(&self) -> (r: TypedShape<'_, R>)
        ensures
            r == TypedShape::Custom(self),
    {
        TypedShape::Custom(self)
    }

    pub fn is_convex(&self) -> (r: bool)
        ensures
            r,
    {
        true
    }

    /// The shape as something with a support function.
    pub fn as_support_map(&self) -> (r: Option<&Self>)
        ensures
            r == Some(self),
    {
        Some(self)
    }

    /// The shape as something with support features, and the radius that rounds them: none.
    pub fn as_polygonal_feature_map(&self) -> (r: Option<(&Self, R)>)
        ensures
            r == Some((self, R::of_count(0))),
    {
        Some((self, R::from_usize(0)))
    }

    pub fn feature_normal_at_point(&self, feature: FeatureId, point: Vector<R>) -> (r: Option<
        Vector<R>,
    >)
        ensures
            r is None,
    {
        None
    }
}

/// Scaling by one changes nothing of a shape made of numbers, and is always possible.
pub proof fn law_unit_scale<R: Lawful>(shape: ExtrudedProfile<R>, scaled: ExtrudedProfile<R>)
    requires
        forall|i: int| 0 <= i < shape.profile@.len() ==> (#[trigger] shape.profile@[i]).is_number(),
        forall|j: int|
            0 <= j < shape.arcs@.len() ==> (#[trigger] shape.arcs@[j]).center.is_number()
                && shape.arcs@[j].radius.at_most(shape.arcs@[j].radius),
        shape.half_depth.at_most(shape.half_depth),
        ({
            let one = R::of_count(1);
            scaled.is_scaled(shape, Vector { x: one, y: one, z: one })
        }),
    ensures
        ({
            let one = R::of_count(1);
            shape.can_scale(Vector { x: one, y: one, z: one })
        }),
        scaled.profile@ == shape.profile@,
        scaled.arcs@ == shape.arcs@,
        scaled.half_depth == shape.half_depth,
{
    let one = R::of_count(1);
    R::law_counts(1, 1);
    R::law_counts(0, 1);
    R::law_numbers(one, R::of_count(0));
    R::law_neutral(one);
    R::law_neutral(shape.half_depth);
    R::law_numbers(R::of_count(0), R::epsilon_value());
    R::law_numbers(R::epsilon_value(), R::of_count(0));
    assert forall|i: int| 0 <= i < shape.profile@.len() implies scaled.profile@[i]
        == shape.profile@[i] by {
        R::law_neutral(shape.profile@[i].x);
        R::law_neutral(shape.profile@[i].y);
    }
    assert forall|j: int| 0 <= j < shape.arcs@.len() implies scaled.arcs@[j] == shape.arcs@[j] by {
        R::law_neutral(shape.arcs@[j].center.x);
        R::law_neutral(shape.arcs@[j].center.y);
        R::law_neutral(shape.arcs@[j].radius);
    }
    assert(scaled.profile@ =~= shape.profile@);
    assert(scaled.arcs@ =~= shape.arcs@);
}

/// A straight-edged profile scales under any scale at all, and one with arcs under every scale
/// that treats both axes of the profile plane alike.
pub proof fn law_when_scale_is_possible<R: Lawful>(shape: ExtrudedProfile<R>, scale: Vector<R>)
    requires
        shape.arcs@.len() == 0 || (scale.x == scale.z && scale.x.finite()),
    ensures
        shape.can_scale(scale),
{
    R::law_neutral(scale.x);
    R::law_numbers(R::of_count(0), R::epsilon_value());
    R::law_numbers(R::epsilon_value(), R::of_count(0));
}

/// Scaling by a factor that is not negative keeps what an arc sweeps and which directions it faces,
/// and so does scaling a full circle by any factor.
pub proof fn law_scale_keeps_span<R: Lawful>(arc: ProfileArc<R>, k: R, angle: R)
    requires
        !k.below(R::of_count(0)) || !arc.swept().below(angle::full_turn()),
    ensures
        arc.scaled(k).swept() == arc.swept(),
        arc.scaled(k).faces(angle) == arc.faces(angle),
        arc.scaled(k).is_valid() == arc.is_valid(),
{
}

/// A shape with an arc cannot be scaled by factors of the profile plane that differ by more than
/// epsilon, whichever of them is the larger.
pub proof fn law_uneven_scale_is_refused<R: Lawful>(shape: ExtrudedProfile<R>, scale: Vector<R>)
    requires
        shape.arcs@.len() > 0,
        ({
            let gap = scale.x.minus(scale.z);
            &&& gap.finite() && gap.negated().finite()
            &&& R::epsilon_value().below(gap) || R::epsilon_value().below(gap.negated())
        }),
    ensures
        !shape.can_scale(scale),
{
    let gap = scale.x.minus(scale.z);
    let (zero, eps) = (R::of_count(0), R::epsilon_value());
    R::law_neutral(gap);
    R::law_magnitudes(gap);
    R::law_magnitudes(gap.negated());
    R::law_numbers(zero, eps);
    R::law_numbers(eps, gap);
    R::law_numbers(eps, gap.negated());
    R::law_numbers(zero, gap);
    R::law_numbers(zero, gap.negated());
    let m = if eps.below(gap) {
        gap
    } else {
        gap.negated()
    };
    R::law_transitive(zero, eps, m);
    if m.at_most(zero) {
        R::law_transitive(m, zero, eps);
    }
}

/// A shape with an arc can be scaled just if the factors of the profile plane differ by epsilon at
/// most, either way; one without arcs always can. So it is in real numbers.
pub proof fn law_when_real_scale_is_possible(shape: ExtrudedProfile<Ideal>, scale: Vector<Ideal>)
    requires
        scale.x.side == 0 && scale.z.side == 0,
    ensures
        shape.can_scale(scale) == (shape.arcs@.len() == 0 || (scale.x.v - scale.z.v
            <= Ideal::epsilon_value().v && scale.z.v - scale.x.v <= Ideal::epsilon_value().v)),
{
}

/// And so it is in fixed point.
pub proof fn law_when_fixed_scale_is_possible(shape: ExtrudedProfile<Fixed>, scale: Vector<Fixed>)
    requires
        i64::MIN < scale.x.raw - scale.z.raw < i64::MAX,
    ensures
        shape.can_scale(scale) == (shape.arcs@.len() == 0 || (scale.x.raw - scale.z.raw
            <= Fixed::epsilon_value().raw && scale.z.raw - scale.x.raw
            <= Fixed::epsilon_value().raw)),
{
}

/// A scaled shape has a vertex for every vertex, at its image, in the same order or, of a mirror
/// image, in the opposite one.
pub proof fn law_scaled_vertices<R: Lawful>(
    shape: ExtrudedProfile<R>,
    scaled: ExtrudedProfile<R>,
    scale: Vector<R>,
    i: int,
)
    requires
        scaled.is_scaled(shape, scale),
        0 <= i < shape.profile@.len(),
    ensures
        scaled.profile@.len() == shape.profile@.len(),
        scaled.arcs@.len() == shape.arcs@.len(),
        ({
            let zero = R::of_count(0);
            let n = shape.profile@.len();
            let p = shape.profile@[i];
            let q = Vector2 { x: p.x.times(scale.x), y: p.y.times(scale.z) };
            let turned_over = (scale.x.below(zero) && zero.below(scale.z)) || (zero.below(scale.x)
                && scale.z.below(zero));
            if turned_over {
                scaled.profile@[n - 1 - i] == q
            } else {
                scaled.profile@[i] == q
            }
        }),
{
}

/// A scaled shape has an arc for every arc, about the image of its centre and of its radius times
/// the size of the factor; a factor that is not negative leaves its angles alone.
pub proof fn law_scaled_arcs<R: Lawful>(
    shape: ExtrudedProfile<R>,
    scaled: ExtrudedProfile<R>,
    scale: Vector<R>,
    j: int,
)
    requires
        scaled.is_scaled(shape, scale),
        0 <= j < shape.arcs@.len(),
    ensures
        ({
            let (a, b) = (shape.arcs@[j], scaled.arcs@[j]);
            &&& b.center == (Vector2 {
                x: a.center.x.times(scale.x),
                y: a.center.y.times(scale.x),
            })
            &&& b.radius == a.radius.times(scale.x.magnitude())
            &&& !scale.x.below(R::of_count(0)) ==> b.start == a.start && b.end == a.end
            &&& !a.end.minus(a.start).below(angle::full_turn()) ==> b.start == a.start && b.end
                == a.end
        }),
        scaled.half_depth == shape.half_depth.times(scale.y.magnitude()),
{
}

} // verus!
