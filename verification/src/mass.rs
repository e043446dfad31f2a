//! Mass, centre of mass and inertia of the solid.
use vstd::prelude::*;

use crate::polygon;
use crate::profile::ExtrudedProfile;
use crate::scalar::{Lawful, Real, Scalar};
use crate::vector::{Matrix, Vector, Vector2};

verus! {

/// How a body resists being moved and turned.
#[derive(Debug, PartialEq)]
pub struct MassProperties<R> {
    /// The centre of mass.
    pub local_com: Vector<R>,
    pub mass: R,
    /// The inertia tensor about the centre of mass, along the body's own axes.
    pub inertia: Matrix<R>,
}

impl<R: Scalar> MassProperties<R> {
    /// What a body without mass has.
    pub open spec fn nothing() -> Self {
        MassProperties {
            local_com: Vector::origin(),
            mass: R::of_count(0),
            inertia: Matrix {
                x_axis: Vector::origin(),
                y_axis: Vector::origin(),
                z_axis: Vector::origin(),
            },
        }
    }
}

impl<R: Real> MassProperties<R> {
    pub fn massless() -> (r: Self)
        ensures
            r == Self::nothing(),
    {
        MassProperties {
            local_com: Vector::zero(),
            mass: R::from_usize(0),
            inertia: Matrix::from_cols(Vector::zero(), Vector::zero(), Vector::zero()),
        }
    }

    pub fn with_inertia_matrix(local_com: Vector<R>, mass: R, inertia: Matrix<R>) -> (r: Self)
        ensures
            r == (MassProperties { local_com, mass, inertia }),
    {
        MassProperties { local_com, mass, inertia }
    }
}

impl<R: Scalar> ExtrudedProfile<R> {
    /// The length of the sweep.
    pub open spec fn depth(self) -> R {
        self.half_depth.times(R::of_count(2))
    }

    /// The mass of the solid.
    pub open spec fn mass_of(self, density: R) -> R {
        density.times(self.section_spec().0.magnitude()).times(self.depth())
    }

    /// The inertia tensor of the solid: the in-plane moments carry through the depth, and the
    /// depth itself adds a slab term to the two axes across the sweep.
    pub open spec fn inertia_of(self, density: R) -> Matrix<R> {
        let zero = R::of_count(0);
        let (area, centroid, ixx, izz, ixz) = self.section_spec();
        let depth = self.depth();
        let slab = area.magnitude().times(depth).times(depth).times(depth).over(R::of_count(12));
        let xz = density.negated().times(depth).times(ixz);
        Matrix {
            x_axis: Vector { x: density.times(slab.plus(depth.times(izz))), y: zero, z: xz },
            y_axis: Vector { x: zero, y: density.times(depth).times(ixx.plus(izz)), z: zero },
            z_axis: Vector { x: xz, y: zero, z: density.times(slab.plus(depth.times(ixx))) },
        }
    }

    /// The mass properties of the solid.
    pub open spec fn mass_spec(self, density: R) -> MassProperties<R> {
        let c = self.section_spec().1;
        if self.mass_of(density).at_most(R::of_count(0)) {
            MassProperties::nothing()
        } else {
            MassProperties {
                local_com: Vector { x: c.x, y: R::of_count(0), z: c.y },
                mass: self.mass_of(density),
                inertia: self.inertia_of(density),
            }
        }
    }
}

impl<R: Real> ExtrudedProfile<R> {
    pub fn mass_properties(&self, density: R) -> (r: MassProperties<R>)
        ensures
            r == self.mass_spec(density),
    {
        let (area, centroid, ixx, izz, ixz) = self.section();
        let zero = R::from_usize(0);
        let depth = self.half_depth.mul(R::from_usize(2));
        let mass = density.mul(area.abs()).mul(depth);
        if mass.is_at_most(zero) {
            return MassProperties::massless();
        }
        // Extruding a section: the in-plane moments carry through the depth, and the depth itself
        // contributes a slab term to the two axes perpendicular to the sweep.
        let slab = area.abs().mul(depth).mul(depth).mul(depth).div(R::from_usize(12));
        let i_xx = density.mul(slab.add(depth.mul(izz)));
        let i_zz = density.mul(slab.add(depth.mul(ixx)));
        let i_yy = density.mul(depth).mul(ixx.add(izz));
        // The product of inertia is generally non-zero for an arbitrary profile, so the full
        // tensor is handed on rather than a principal frame assumed.
        let i_xz = density.neg().mul(depth).mul(ixz);
        let inertia = Matrix::from_cols(
            Vector::new(i_xx, zero, i_xz),
            Vector::new(zero, i_yy, zero),
            Vector::new(i_xz, zero, i_zz),
        );
        MassProperties::with_inertia_matrix(
            Vector::new(centroid.x, zero, centroid.y),
            mass,
            inertia,
        )
    }
}

/// The centre of mass lies midway along the sweep, over the centroid of the section, whenever
/// there is mass; it is the origin when there is none.
pub proof fn law_com_over_centroid<R: Lawful>(shape: ExtrudedProfile<R>, density: R)
    ensures
        shape.mass_spec(density).local_com.y == R::of_count(0),
        shape.mass_spec(density).local_com.in_plane() == shape.section_spec().1
            || shape.mass_spec(density) == MassProperties::<R>::nothing(),
{
}

/// A solid has a mass above zero, or none at all.
pub proof fn law_mass_is_positive<R: Lawful>(shape: ExtrudedProfile<R>, density: R)
    ensures
        shape.mass_spec(density) == MassProperties::<R>::nothing() || !shape.mass_spec(
            density,
        ).mass.at_most(R::of_count(0)),
{
}

/// Of a section with a positive area, the mass is the density times that area times the depth.
pub proof fn law_mass_of_positive_area<R: Lawful>(shape: ExtrudedProfile<R>, density: R)
    requires
        shape.section_spec().0.finite(),
        R::of_count(0).below(shape.section_spec().0),
    ensures
        shape.mass_of(density) == density.times(shape.section_spec().0).times(shape.depth()),
        ({
            let (area, c, ixx, izz, ixz) = shape.section_spec();
            let depth = shape.depth();
            let slab = area.times(depth).times(depth).times(depth).over(R::of_count(12));
            let inertia = shape.inertia_of(density);
            &&& inertia.x_axis.x == density.times(slab.plus(depth.times(izz)))
            &&& inertia.y_axis.y == density.times(depth).times(ixx.plus(izz))
            &&& inertia.z_axis.z == density.times(slab.plus(depth.times(ixx)))
        }),
{
    R::law_magnitudes(shape.section_spec().0);
}

/// What the section of any solid with mass, with arcs or without, says of its mass and of how it
/// resists being turned: the mass is that of the area swept over the depth; about the sweep, both
/// second moments count; about either other axis, the moment across it and that of a rod as long as
/// the depth; and off the diagonal, the product moment with its sign turned.
pub proof fn law_inertia_of_section<R: Lawful>(shape: ExtrudedProfile<R>, density: R)
    requires
        shape.mass_spec(density) != MassProperties::<R>::nothing(),
    ensures
        ({
            let m = shape.mass_spec(density);
            let (area, c, xx, zz, xz) = shape.section_spec();
            let (a, l) = (area.magnitude(), shape.half_depth.times(R::of_count(2)));
            let rod = a.times(l).times(l).times(l).over(R::of_count(12));
            &&& m.mass == density.times(a).times(l)
            &&& m.local_com == (Vector { x: c.x, y: R::of_count(0), z: c.y })
            &&& m.inertia.x_axis.x == density.times(rod.plus(l.times(zz)))
            &&& m.inertia.y_axis.y == density.times(l).times(xx.plus(zz))
            &&& m.inertia.z_axis.z == density.times(rod.plus(l.times(xx)))
            &&& m.inertia.x_axis.z == density.negated().times(l).times(xz)
            &&& m.inertia.z_axis.x == density.negated().times(l).times(xz)
        }),
{
}

/// What has no mass has nothing else either: no inertia, and the origin for its centre.
pub proof fn law_nothing_is_nothing<R: Lawful>()
    ensures
        ({
            let (none, zero) = (MassProperties::<R>::nothing(), R::of_count(0));
            let flat = Vector { x: zero, y: zero, z: zero };
            &&& none.mass == zero
            &&& none.local_com == flat
            &&& none.inertia.x_axis == flat && none.inertia.y_axis == flat
            &&& none.inertia.z_axis == flat
        }),
{
}

/// There is mass just where density, area and depth make some; else there is nothing at all.
pub proof fn law_when_there_is_mass<R: Lawful>(shape: ExtrudedProfile<R>, density: R)
    ensures
        ({
            let mass = density.times(shape.section_spec().0.magnitude()).times(
                shape.half_depth.times(R::of_count(2)),
            );
            if mass.at_most(R::of_count(0)) {
                shape.mass_spec(density) == MassProperties::<R>::nothing()
            } else {
                shape.mass_spec(density).mass == mass
            }
        }),
{
}

/// A centred profile, one whose summed-up centroid cannot be told from the origin, has its centre
/// of mass exactly at the origin, not nearly there.
pub proof fn law_centred_profile_has_zero_com<R: Lawful>(shape: ExtrudedProfile<R>, density: R)
    requires
        shape.raw_centroid().x.magnitude().below(polygon::resolution(shape.exact_area())),
        shape.raw_centroid().y.magnitude().below(polygon::resolution(shape.exact_area())),
    ensures
        shape.exact_centroid() == Vector2::<R>::origin(),
        shape.section_spec().1 == Vector2::<R>::origin(),
        shape.mass_spec(density).local_com == Vector::<R>::origin(),
{
}

/// A genuinely off-centre profile passes through untouched: a summed-up centroid above the
/// resolution is where the centre of mass lies.
pub proof fn law_off_centre_profile_keeps_com<R: Lawful>(shape: ExtrudedProfile<R>, density: R)
    requires
        !shape.raw_centroid().x.magnitude().below(polygon::resolution(shape.exact_area())),
        !shape.raw_centroid().y.magnitude().below(polygon::resolution(shape.exact_area())),
        !shape.is_degenerate(),
        !shape.mass_of(density).at_most(R::of_count(0)),
    ensures
        shape.mass_spec(density).local_com.in_plane() == shape.raw_centroid(),
{
    R::law_neutral(R::of_count(0));
}

/// The inertia tensor is symmetric, and turning about the sweep is apart from turning across it.
pub proof fn law_inertia_is_symmetric<R: Lawful>(shape: ExtrudedProfile<R>, density: R)
    ensures
        ({
            let m = shape.mass_spec(density).inertia;
            &&& m.x_axis.z == m.z_axis.x
            &&& m.x_axis.y == R::of_count(0) && m.y_axis.x == R::of_count(0)
            &&& m.y_axis.z == R::of_count(0) && m.z_axis.y == R::of_count(0)
        }),
{
}

} // verus!
