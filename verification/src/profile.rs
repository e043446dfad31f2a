//! The extruded profile, and the integrals over its section.
use vstd::prelude::*;

use crate::angle;
use crate::arc::ProfileArc;
use crate::polygon;
use crate::scalar::{Lawful, Real, Scalar};
use crate::vector::Vector2;
use crate::winding;

verus! {

/// Samples per full turn of an arc.
pub const PER_TURN: usize = 256;

/// A convex 2D profile in the XZ plane, extruded along Y.
///
/// A prism built as a convex hull is a mesh: its surface normals are a fixed, finite set, so as a
/// body rotates the contact normal jumps from facet to facet. A shape defined by its support
/// function has no such quantisation along the sweep: the extrusion direction is exact, and only
/// the profile is discrete, which is honest because the profile really is a polygon.
///
/// The profile must be convex and wound counter-clockwise. Concave parts are the caller's job to
/// decompose. The Y axis is the sweep.
#[derive(Debug, PartialEq)]
pub struct ExtrudedProfile<R> {
    /// Convex boundary loop in the XZ plane, counter-clockwise. May be empty if the profile is a
    /// single closed arc.
    pub profile: Vec<Vector2<R>>,
    /// Circular arcs on the boundary, which stay exactly circular rather than being tessellated.
    pub arcs: Vec<ProfileArc<R>>,
    /// Half the extrusion length, along Y.
    pub half_depth: R,
}

/// A part of the plane, by its area and its first moments about the origin.
pub struct Region<R> {
    pub area: R,
    pub moment: Vector2<R>,
}

impl<R: Real> Copy for Region<R> {

}

impl<R: Real> Clone for Region<R> {
    fn clone(&self) -> (r: Self)
        ensures
            r == *self,
    {
        *self
    }
}

/// How many points stand for an arc: in proportion to its part of a turn, and two at least.
pub open spec fn sample_count<R: Scalar>(arc: ProfileArc<R>) -> usize {
    arc.swept().over(angle::full_turn::<R>()).times(R::of_count(PER_TURN as nat)).ceiling().greater(
        R::of_count(2),
    ).whole()
}

/// The `k`-th of `n` points spread over an arc from its start.
pub open spec fn sample<R: Scalar>(arc: ProfileArc<R>, k: nat, n: nat) -> Vector2<R> {
    arc.point_at(arc.start.plus(arc.swept().times(R::of_count(k).over(R::of_count(n)))))
}

/// The points that stand for an arc.
pub open spec fn samples<R: Scalar>(arc: ProfileArc<R>) -> Seq<Vector2<R>> {
    Seq::new(sample_count(arc) as nat, |k: int| sample(arc, k as nat, sample_count(arc) as nat))
}

/// The vertices, then the points that stand for each arc.
pub open spec fn sampled_points<R: Scalar>(
    vertices: Seq<Vector2<R>>,
    arcs: Seq<ProfileArc<R>>,
) -> Seq<Vector2<R>>
    decreases arcs.len(),
{
    if arcs.len() == 0 {
        vertices
    } else {
        sampled_points(vertices, arcs.drop_last()) + samples(arcs.last())
    }
}

/// The vertices, then the two ends of each arc.
pub open spec fn chord_points<R: Scalar>(
    vertices: Seq<Vector2<R>>,
    arcs: Seq<ProfileArc<R>>,
) -> Seq<Vector2<R>>
    decreases arcs.len(),
{
    if arcs.len() == 0 {
        vertices
    } else {
        let arc = arcs.last();
        chord_points(vertices, arcs.drop_last()).push(arc.point_at(arc.start)).push(
            arc.point_at(arc.end),
        )
    }
}

/// The area between an arc and its chord.
pub open spec fn segment_area<R: Scalar>(arc: ProfileArc<R>) -> R {
    polygon::half_value::<R>().times(arc.radius).times(arc.radius).times(
        arc.swept().minus(arc.swept().sine()),
    )
}

/// How far the centroid of the part between an arc and its chord lies from the arc's centre.
pub open spec fn segment_distance<R: Scalar>(arc: ProfileArc<R>) -> R {
    let excess = arc.swept().minus(arc.swept().sine());
    if excess.magnitude().below(R::epsilon_value()) {
        R::of_count(0)
    } else {
        R::of_count(4).times(arc.radius).times(
            arc.swept().times(polygon::half_value::<R>()).sine().cube(),
        ).over(R::of_count(3).times(excess))
    }
}

/// The centroid of the part between an arc and its chord.
pub open spec fn segment_centroid<R: Scalar>(arc: ProfileArc<R>) -> Vector2<R> {
    let bisector = arc.start.plus(arc.swept().times(polygon::half_value::<R>()));
    arc.center.plus(
        Vector2 { x: bisector.cosine(), y: bisector.sine() }.times(segment_distance(arc)),
    )
}

impl<R: Scalar> Region<R> {
    /// The region together with the part between an arc and its chord.
    pub open spec fn with_segment(self, arc: ProfileArc<R>) -> Self {
        if segment_area(arc).magnitude().below(R::epsilon_value()) {
            self
        } else {
            Region {
                area: self.area.plus(segment_area(arc)),
                moment: self.moment.plus(segment_centroid(arc).times(segment_area(arc))),
            }
        }
    }

    /// The region together with the parts between each arc and its chord.
    pub open spec fn with_segments(self, arcs: Seq<ProfileArc<R>>) -> Self
        decreases arcs.len(),
    {
        if arcs.len() == 0 {
            self
        } else {
            self.with_segments(arcs.drop_last()).with_segment(arcs.last())
        }
    }

    /// The inside of a polygon.
    pub open spec fn inside(poly: Seq<Vector2<R>>) -> Self {
        if poly.len() >= 3 {
            Region {
                area: polygon::area_of(poly),
                moment: polygon::centroid_of(poly).times(polygon::area_of(poly)),
            }
        } else {
            Region { area: R::of_count(0), moment: Vector2::origin() }
        }
    }
}

impl<R: Real> Region<R> {
    fn add_segment(self, arc: ProfileArc<R>) -> (r: Self)
        ensures
            r == self.with_segment(arc),
    {
        let theta = arc.sweep();
        let excess = theta.sub(theta.sin());
        // Circular segment: area r²(θ − sin θ)/2, centroid 4r·sin³(θ/2) / (3(θ − sin θ)) from the
        // circle's centre along the bisector. A full turn degenerates to the whole disc, whose
        // centroid is the centre.
        let seg_area = polygon::half::<R>().mul(arc.radius).mul(arc.radius).mul(excess);
        if seg_area.abs().is_below(R::epsilon()) {
            return self;
        }
        let bisector = arc.start.add(theta.mul(polygon::half::<R>()));
        let d = if excess.abs().is_below(R::epsilon()) {
            R::from_usize(0)
        } else {
            R::from_usize(4).mul(arc.radius).mul(theta.mul(polygon::half::<R>()).sin().cubed()).div(
                R::from_usize(3).mul(excess),
            )
        };
        let centroid = arc.center.add(Vector2::new(bisector.cos(), bisector.sin()).mul(d));
        Region {
            area: self.area.add(seg_area),
            moment: self.moment.add(centroid.mul(seg_area)),
        }
    }
}

impl<R: Scalar> ExtrudedProfile<R> {
    /// The boundary as a polygon, arcs sampled.
    pub open spec fn boundary(self) -> Seq<Vector2<R>> {
        if self.arcs@.len() == 0 {
            self.profile@
        } else {
            let points = sampled_points(self.profile@, self.arcs@);
            winding::wound(points, winding::middle(points))
        }
    }

    /// The straight-edged core: the polygon through the vertices and the ends of the arcs.
    pub open spec fn straight_core(self) -> Seq<Vector2<R>> {
        let points = chord_points(self.profile@, self.arcs@);
        winding::distinct(winding::wound(points, winding::middle(points)))
    }

    /// The profile as its core and, for each arc, the part between the arc and its chord.
    pub open spec fn region(self) -> Region<R> {
        Region::inside(self.straight_core()).with_segments(self.arcs@)
    }

    /// The area of the profile, arcs in closed form.
    pub open spec fn exact_area(self) -> R {
        if self.arcs@.len() == 0 {
            polygon::area_of(self.profile@)
        } else if self.region().area.magnitude().below(R::epsilon_value()) {
            R::of_count(0)
        } else {
            self.region().area
        }
    }

    /// The centroid of the profile, arcs in closed form.
    pub open spec fn exact_centroid(self) -> Vector2<R> {
        if self.arcs@.len() == 0 {
            polygon::centroid_of(self.profile@)
        } else if self.region().area.magnitude().below(R::epsilon_value()) {
            Vector2::origin()
        } else {
            polygon::snapped(
                self.region().moment.over(self.region().area),
                self.region().area,
            )
        }
    }

    /// The centroid as the sums give it, before it is snapped.
    pub open spec fn raw_centroid(self) -> Vector2<R> {
        if self.arcs@.len() == 0 {
            polygon::raw_centroid(self.profile@)
        } else {
            self.region().moment.over(self.region().area)
        }
    }

    /// The area of the sampled boundary.
    pub open spec fn sampled_area(self) -> R {
        polygon::signed_area(self.boundary())
    }

    /// Is there no area to take moments of?
    pub open spec fn is_degenerate(self) -> bool {
        self.exact_area().magnitude().below(R::epsilon_value())
            || self.sampled_area().magnitude().below(R::epsilon_value())
    }

    /// How much larger the exact region is than the sampled polygon.
    pub open spec fn area_lost(self) -> R {
        self.exact_area().over(self.sampled_area())
    }

    /// The point that the moments of the boundary are taken about: the centroid, or with arcs that
    /// of the sampled polygon, which lies a little off it.
    pub open spec fn moment_centre(self) -> Vector2<R> {
        if self.arcs@.len() == 0 {
            self.exact_centroid()
        } else {
            polygon::raw_centroid(self.boundary())
        }
    }

    /// A second moment of the exact region from that of the boundary. That of a sampled polygon is
    /// scaled by the square of the area that sampling lost, as second moments go.
    pub open spec fn of_region(self, moment: R) -> R {
        if self.arcs@.len() == 0 {
            moment.times(self.area_lost())
        } else {
            moment.times(self.area_lost()).times(self.area_lost())
        }
    }

    /// Area, centroid, and the second moments about the centroid.
    pub open spec fn section_spec(self) -> (R, Vector2<R>, R, R, R) {
        let zero = R::of_count(0);
        let b = self.boundary();
        let c = self.moment_centre();
        if self.is_degenerate() {
            (zero, Vector2::origin(), zero, zero, zero)
        } else {
            (
                self.exact_area(),
                self.exact_centroid(),
                self.of_region(polygon::about_xx(b, c)),
                self.of_region(polygon::about_yy(b, c)),
                self.of_region(polygon::about_xy(b, c)),
            )
        }
    }

    /// The corners of a regular polygon of so many sides, or of three if that is fewer.
    pub open spec fn corners(radius: R, sides: nat) -> Seq<Vector2<R>> {
        let n = if sides < 3 {
            3
        } else {
            sides
        };
        Seq::new(n, |i: int| Self::corner(radius, i as nat, n))
    }

    /// Corner `i` of a regular polygon of `n` sides, the first on the X axis.
    pub open spec fn corner(radius: R, i: nat, n: nat) -> Vector2<R> {
        let a = R::of_count(i).over(R::of_count(n)).times(R::of_count(2)).times(
            angle::half_turn::<R>(),
        );
        Vector2 { x: radius.times(a.cosine()), y: radius.times(a.sine()) }
    }
}

/// The same items once more.
pub(crate) fn copied<T: Copy>(items: &Vec<T>) -> (r: Vec<T>)
    ensures
        r@ == items@,
{
    let mut out: Vec<T> = Vec::new();
    for i in 0..items.len()
        invariant
            out@ =~= items@.take(i as int),
    {
        out.push(items[i]);
    }
    assert(items@.take(items@.len() as int) =~= items@);
    out
}

impl<R: Real> ExtrudedProfile<R> {
    /// A straight-edged profile (XZ, convex, counter-clockwise) swept `half_depth * 2` along Y.
    pub fn new(profile: Vec<Vector2<R>>, half_depth: R) -> (r: Self)
        ensures
            r.profile == profile,
            r.arcs@ == Seq::<ProfileArc<R>>::empty(),
            r.half_depth == half_depth,
    {
        ExtrudedProfile { profile, arcs: Vec::new(), half_depth }
    }

    /// A profile mixing straight edges and circular arcs: a rounded rectangle, a filleted bracket,
    /// a slot with radiused ends. Sharp where it was drawn sharp, exactly round where it was drawn
    /// round.
    pub fn with_arcs(
        profile: Vec<Vector2<R>>,
        arcs: Vec<ProfileArc<R>>,
        half_depth: R,
    ) -> (r: Self)
        ensures
            r == (ExtrudedProfile { profile, arcs, half_depth }),
    {
        ExtrudedProfile { profile, arcs, half_depth }
    }

    /// A true circular bar: one full arc, no vertices, no facets anywhere.
    pub fn round(radius: R, half_depth: R) -> (r: Self)
        ensures
            r.profile@ == Seq::<Vector2<R>>::empty(),
            r.arcs@ == seq![ProfileArc::full(Vector2::origin(), radius)],
            r.half_depth == half_depth,
    {
        let mut arcs: Vec<ProfileArc<R>> = Vec::new();
        arcs.push(ProfileArc::circle(Vector2::zero(), radius));
        Self::with_arcs(Vec::new(), arcs, half_depth)
    }

    /// A regular `sides`-gon of the given radius across the corners.
    pub fn regular(radius: R, sides: usize, half_depth: R) -> (r: Self)
        ensures
            r.profile@ == Self::corners(radius, sides as nat),
            r.arcs@ == Seq::<ProfileArc<R>>::empty(),
            r.half_depth == half_depth,
    {
        let n: usize = if sides < 3 {
            3
        } else {
            sides
        };
        let mut profile: Vec<Vector2<R>> = Vec::new();
        for i in 0..n
            invariant
                profile@ =~= Seq::new(i as nat, |k: int| Self::corner(radius, k as nat, n as nat)),
        {
            let a = R::from_usize(i).div(R::from_usize(n)).mul(R::from_usize(2)).mul(
                angle::pi::<R>(),
            );
            profile.push(Vector2::new(radius.mul(a.cos()), radius.mul(a.sin())));
        }
        Self::new(profile, half_depth)
    }

    /// The boundary as a polygon, arcs sampled. Used where a shape is needed rather than a support
    /// direction: the contact cap feature, and the inertia integral.
    ///
    /// Never for the support function or the centroid, both of which stay exact.
    pub fn tessellated(&self) -> (r: Vec<Vector2<R>>)
        ensures
            r@ == self.boundary(),
    {
        let mut out = copied(&self.profile);
        if self.arcs.len() == 0 {
            return out;
        }
        assert(self.arcs@.take(0) =~= Seq::empty());
        for j in 0..self.arcs.len()
            invariant
                out@ == sampled_points(self.profile@, self.arcs@.take(j as int)),
        {
            let arc = self.arcs[j];
            let ghost before = out@;
            let n: usize = arc.sweep().div(angle::tau::<R>()).mul(
                R::from_usize(PER_TURN),
            ).ceil().max(R::from_usize(2)).to_usize();
            for k in 0..n
                invariant
                    n == sample_count(arc),
                    out@ =~= before + samples(arc).take(k as int),
            {
                let t = R::from_usize(k).div(R::from_usize(n));
                out.push(arc.at(arc.start.add(arc.sweep().mul(t))));
            }
            assert(samples(arc).take(n as int) =~= samples(arc));
            assert(self.arcs@.take(j + 1).drop_last() =~= self.arcs@.take(j as int));
        }
        assert(self.arcs@.take(self.arcs@.len() as int) =~= self.arcs@);
        let c = winding::mean(&out);
        winding::wind(&out, c)
    }

    /// The straight-edged core, with chord endpoints standing in for each arc.
    fn chord_loop(&self) -> (r: Vec<Vector2<R>>)
        ensures
            r@ == self.straight_core(),
    {
        let mut points = copied(&self.profile);
        assert(self.arcs@.take(0) =~= Seq::empty());
        for j in 0..self.arcs.len()
            invariant
                points@ == chord_points(self.profile@, self.arcs@.take(j as int)),
        {
            let arc = self.arcs[j];
            points.push(arc.at(arc.start));
            points.push(arc.at(arc.end));
            assert(self.arcs@.take(j + 1).drop_last() =~= self.arcs@.take(j as int));
        }
        assert(self.arcs@.take(self.arcs@.len() as int) =~= self.arcs@);
        let c = winding::mean(&points);
        winding::dedup(&winding::wind(&points, c))
    }

    /// Area and centroid, arcs included, in closed form.
    ///
    /// Not tessellated, because a centroid that is merely nearly right is not good enough: a
    /// sampled boundary would put the centroid of a symmetric profile slightly off zero, and rigid
    /// joints can diverge on any offset at all.
    ///
    /// The region is a polygon through the boundary points plus, for each arc, the circular
    /// segment between its chord and itself.
    pub fn area_centroid(&self) -> (r: (R, Vector2<R>))
        ensures
            r.0 == self.exact_area(),
            r.1 == self.exact_centroid(),
    {
        if self.arcs.len() == 0 {
            return polygon::polygon_area_centroid(self.profile.as_slice());
        }
        let poly = self.chord_loop();
        let mut region = if poly.len() >= 3 {
            let (a, c) = polygon::polygon_area_centroid(poly.as_slice());
            Region { area: a, moment: c.mul(a) }
        } else {
            Region { area: R::from_usize(0), moment: Vector2::zero() }
        };
        let ghost start = region;
        assert(self.arcs@.take(0) =~= Seq::empty());
        for j in 0..self.arcs.len()
            invariant
                region == start.with_segments(self.arcs@.take(j as int)),
        {
            region = region.add_segment(self.arcs[j]);
            assert(self.arcs@.take(j + 1).drop_last() =~= self.arcs@.take(j as int));
        }
        assert(self.arcs@.take(self.arcs@.len() as int) =~= self.arcs@);
        if region.area.abs().is_below(R::epsilon()) {
            return (R::from_usize(0), Vector2::zero());
        }
        (region.area, polygon::snap_to_centre(region.moment.div(region.area), region.area))
    }

    /// Area, centroid, and the second moments about that centroid, by Green's theorem over the
    /// boundary, which is the same integral a section modulus needs.
    ///
    /// Returns `(area, centroid, ∫x²dA, ∫z²dA, ∫xz dA)`, the last three taken about the centroid.
    /// With arcs present the moments come from a sampled boundary ([`PER_TURN`] points per turn, so
    /// they are off by some 1e-5 relative), while the area and centroid stay exact; see
    /// [`Self::area_centroid`] for why that asymmetry is deliberate.
    pub fn section(&self) -> (r: (R, Vector2<R>, R, R, R))
        ensures
            r == self.section_spec(),
    {
        let profile = self.tessellated();
        let (exact_area, exact_centroid) = self.area_centroid();
        let n: usize = profile.len();
        let zero = R::from_usize(0);
        let mut a2 = zero;
        let mut cx = zero;
        let mut cz = zero;
        let mut ixx = zero;
        let mut izz = zero;
        let mut ixz = zero;
        for i in 0..n
            invariant
                n == profile@.len(),
                a2 == polygon::edge_sum(profile@, polygon::area_term(), i as nat),
                cx == polygon::edge_sum(profile@, polygon::x_term(), i as nat),
                cz == polygon::edge_sum(profile@, polygon::y_term(), i as nat),
                ixx == polygon::edge_sum(profile@, polygon::xx_term(), i as nat),
                izz == polygon::edge_sum(profile@, polygon::yy_term(), i as nat),
                ixz == polygon::edge_sum(profile@, polygon::xy_term(), i as nat),
        {
            let p = profile[i];
            let q = profile[if i + 1 == n {
                0
            } else {
                i + 1
            }];
            proof {
                polygon::lemma_next(i as int, n as int);
            }
            let two = R::from_usize(2);
            let cross = p.cross(q);
            a2 = a2.add(cross);
            cx = cx.add(p.x.add(q.x).mul(cross));
            cz = cz.add(p.y.add(q.y).mul(cross));
            ixx = ixx.add(p.x.mul(p.x).add(p.x.mul(q.x)).add(q.x.mul(q.x)).mul(cross));
            izz = izz.add(p.y.mul(p.y).add(p.y.mul(q.y)).add(q.y.mul(q.y)).mul(cross));
            ixz = ixz.add(
                p.x.mul(q.y).add(two.mul(p.x).mul(p.y)).add(two.mul(q.x).mul(q.y)).add(
                    q.x.mul(p.y),
                ).mul(cross),
            );
        }
        let sampled_area = a2.mul(polygon::half::<R>());
        if exact_area.abs().is_below(R::epsilon()) || sampled_area.abs().is_below(R::epsilon()) {
            return (zero, Vector2::zero(), zero, zero, zero);
        }
        // Moments about the origin, shifted to the centroid by the parallel-axis theorem, then
        // scaled by however much area the sampling lost, so that they describe the exact region
        // rather than the inscribed polygon that stood in for it. A sampled polygon is shifted to
        // its own centroid: the exact one is a little off it, which would count for the more the
        // further the profile is from the origin. Second moments go with the square of the area,
        // so the factor is taken twice there.
        let k = exact_area.div(sampled_area);
        let sampled = self.arcs.len() > 0;
        let divisor = R::from_usize(3).mul(a2);
        let c = if sampled {
            Vector2::new(cx.div(divisor), cz.div(divisor))
        } else {
            exact_centroid
        };
        let ixx = ixx.div(R::from_usize(12)).sub(sampled_area.mul(c.x).mul(c.x)).mul(k);
        let izz = izz.div(R::from_usize(12)).sub(sampled_area.mul(c.y).mul(c.y)).mul(k);
        let ixz = ixz.div(R::from_usize(24)).sub(sampled_area.mul(c.x).mul(c.y)).mul(k);
        if sampled {
            return (exact_area, exact_centroid, ixx.mul(k), izz.mul(k), ixz.mul(k));
        }
        (exact_area, exact_centroid, ixx, izz, ixz)
    }
}

/// Every arc is sampled at two points at least.
pub proof fn law_two_samples<R: Lawful>(arc: ProfileArc<R>)
    ensures
        2 <= sample_count(arc),
{
    let two = R::of_count(2);
    let count = arc.swept().over(angle::full_turn::<R>()).times(
        R::of_count(PER_TURN as nat),
    ).ceiling();
    R::law_counts(2, 2);
    R::law_extremes(count, two);
    R::law_rounding(two, count.greater(two), 2);
}

/// An arc of at most a full turn is sampled at [`PER_TURN`] points at most.
pub proof fn law_samples_per_turn<R: Lawful>(arc: ProfileArc<R>)
    requires
        arc.is_valid(),
    ensures
        sample_count(arc) <= PER_TURN,
{
    let zero = R::of_count(0);
    let turn = angle::full_turn::<R>();
    let most = R::of_count(PER_TURN as nat);
    let part = arc.swept().over(turn);
    angle::lemma_full_turn::<R>();
    R::law_numbers(zero, arc.swept());
    R::law_fractions(arc.swept(), turn);
    R::law_counts(PER_TURN as nat, 2);
    R::law_counts(0, PER_TURN as nat);
    R::law_counts(2, PER_TURN as nat);
    R::law_numbers(R::of_count(2), most);
    R::law_fractions(part, most);
    let count = part.times(most).ceiling();
    R::law_rounding(part.times(most), most, PER_TURN as nat);
    R::law_extremes(count, R::of_count(2));
    R::law_rounding(count.greater(R::of_count(2)), most, PER_TURN as nat);
}

/// Sampling keeps the vertices and adds at most [`PER_TURN`] points for each valid arc.
pub proof fn law_boundary_length<R: Lawful>(shape: ExtrudedProfile<R>)
    requires
        forall|j: int| 0 <= j < shape.arcs@.len() ==> (#[trigger] shape.arcs@[j]).is_valid(),
    ensures
        shape.boundary().len() <= shape.profile@.len() + PER_TURN * shape.arcs@.len(),
        shape.boundary().len() >= shape.profile@.len() + 2 * shape.arcs@.len(),
{
    let points = sampled_points(shape.profile@, shape.arcs@);
    lemma_sampled_length(shape.profile@, shape.arcs@);
    if shape.arcs@.len() > 0 {
        winding::law_wound_permutes(points, winding::middle(points));
    }
}

proof fn lemma_sampled_length<R: Lawful>(vertices: Seq<Vector2<R>>, arcs: Seq<ProfileArc<R>>)
    requires
        forall|j: int| 0 <= j < arcs.len() ==> (#[trigger] arcs[j]).is_valid(),
    ensures
        sampled_points(vertices, arcs).len() <= vertices.len() + PER_TURN * arcs.len(),
        sampled_points(vertices, arcs).len() >= vertices.len() + 2 * arcs.len(),
    decreases arcs.len(),
{
    if arcs.len() > 0 {
        let rest = arcs.drop_last();
        assert forall|j: int| 0 <= j < rest.len() implies (#[trigger] rest[j]).is_valid() by {
            assert(rest[j] == arcs[j]);
        }
        lemma_sampled_length(vertices, rest);
        assert(arcs[arcs.len() - 1].is_valid());
        law_two_samples(arcs.last());
        law_samples_per_turn(arcs.last());
    }
}

/// Every vertex is on the sampled boundary, whatever the arcs.
pub proof fn law_boundary_keeps_vertices<R: Lawful>(shape: ExtrudedProfile<R>, i: int)
    requires
        0 <= i < shape.profile@.len(),
    ensures
        shape.boundary().contains(shape.profile@[i]),
{
    broadcast use vstd::seq_lib::group_to_multiset_ensures;

    let points = sampled_points(shape.profile@, shape.arcs@);
    if shape.arcs@.len() > 0 {
        lemma_sampled_prefix(shape.profile@, shape.arcs@);
        winding::law_wound_permutes(points, winding::middle(points));
        assert(points[i] == shape.profile@[i]);
        assert(points.contains(shape.profile@[i]));
        assert(points.to_multiset().contains(shape.profile@[i]));
        assert(shape.boundary().to_multiset().contains(shape.profile@[i]));
    }
}

proof fn lemma_sampled_prefix<R: Lawful>(vertices: Seq<Vector2<R>>, arcs: Seq<ProfileArc<R>>)
    ensures
        sampled_points(vertices, arcs).len() >= vertices.len(),
        sampled_points(vertices, arcs).take(vertices.len() as int) =~= vertices,
        forall|i: int|
            0 <= i < vertices.len() ==> #[trigger] sampled_points(vertices, arcs)[i]
                == vertices[i],
    decreases arcs.len(),
{
    if arcs.len() > 0 {
        lemma_sampled_prefix(vertices, arcs.drop_last());
    }
}

/// A shape of one arc and no vertices has no straight-edged core: its region is the part between
/// the arc and its chord, which for a full circle is the whole disc.
pub proof fn law_lone_arc_region<R: Lawful>(shape: ExtrudedProfile<R>, arc: ProfileArc<R>)
    requires
        shape.profile@.len() == 0,
        shape.arcs@ == seq![arc],
    ensures
        shape.region() == (Region {
            area: R::of_count(0),
            moment: Vector2::<R>::origin(),
        }).with_segment(arc),
{
    let points = chord_points(shape.profile@, shape.arcs@);
    reveal_with_fuel(chord_points, 2);
    reveal_with_fuel(Region::with_segments, 2);
    assert(shape.arcs@.drop_last().len() == 0);
    assert(shape.arcs@.last() == arc);
    assert(points.len() == 2);
    winding::law_wound_permutes(points, winding::middle(points));
    winding::law_distinct_shrinks(winding::wound(points, winding::middle(points)));
}

/// A straight-edged profile whose sums are those of another with the axes exchanged has its section
/// with the axes exchanged, but for how the product moment is rounded.
pub proof fn lemma_exchanged_sums<R: Scalar>(shape: ExtrudedProfile<R>, other: ExtrudedProfile<R>)
    requires
        shape.arcs@.len() == 0 && other.arcs@.len() == 0,
        shape.profile@.len() == other.profile@.len(),
        ({
            let (a, b) = (shape.profile@, other.profile@);
            &&& polygon::loop_sum(b, polygon::area_term()) == polygon::loop_sum(
                a,
                polygon::area_term(),
            )
            &&& polygon::loop_sum(b, polygon::x_term()) == polygon::loop_sum(a, polygon::y_term())
            &&& polygon::loop_sum(b, polygon::y_term()) == polygon::loop_sum(a, polygon::x_term())
            &&& polygon::loop_sum(b, polygon::xx_term()) == polygon::loop_sum(a, polygon::yy_term())
            &&& polygon::loop_sum(b, polygon::yy_term()) == polygon::loop_sum(a, polygon::xx_term())
        }),
    ensures
        ({
            let (area, c, ixx, izz, ixz) = shape.section_spec();
            let (area2, c2, ixx2, izz2, ixz2) = other.section_spec();
            &&& area2 == area
            &&& c2 == (Vector2 { x: c.y, y: c.x })
            &&& ixx2 == izz && izz2 == ixx
        }),
{
    let (c, c2) = (shape.exact_centroid(), other.exact_centroid());
    assert(c2 == (Vector2 { x: c.y, y: c.x }));
    assert(other.exact_area() == shape.exact_area());
    assert(other.sampled_area() == shape.sampled_area());
    assert(polygon::about_xx(other.profile@, c2) == polygon::about_yy(shape.profile@, c));
    assert(polygon::about_yy(other.profile@, c2) == polygon::about_xx(shape.profile@, c));
}

/// A regular profile has as many corners as it was asked for, and three at least.
pub proof fn law_regular_has_its_sides<R: Lawful>(radius: R, sides: nat)
    ensures
        3 <= ExtrudedProfile::corners(radius, sides).len(),
        3 <= sides ==> ExtrudedProfile::corners(radius, sides).len() == sides,
        sides < 3 ==> ExtrudedProfile::corners(radius, sides) == ExtrudedProfile::corners(
            radius,
            3,
        ),
{
}

/// With arcs, the area is that of the core and of the parts between the arcs and their chords, with
/// its sign, and the centroid is where their moments balance, but for what is snapped; where there
/// is next to no area, both are nothing.
pub proof fn law_area_of_region<R: Lawful>(shape: ExtrudedProfile<R>)
    requires
        shape.arcs@.len() > 0,
    ensures
        ({
            let r = Region::inside(shape.straight_core()).with_segments(shape.arcs@);
            if r.area.magnitude().below(R::epsilon_value()) {
                &&& shape.exact_area() == R::of_count(0)
                &&& shape.exact_centroid() == Vector2::<R>::origin()
            } else {
                &&& shape.exact_area() == r.area
                &&& shape.exact_centroid() == polygon::snapped(
                    Vector2 { x: r.moment.x.over(r.area), y: r.moment.y.over(r.area) },
                    r.area,
                )
            }
        }),
{
}

/// A profile has a section just if neither its area nor that of the polygon that stands for it is
/// next to nothing.
pub proof fn law_when_there_is_a_section<R: Lawful>(shape: ExtrudedProfile<R>)
    ensures
        ({
            let (zero, eps) = (R::of_count(0), R::epsilon_value());
            let sampled = polygon::loop_sum(shape.boundary(), polygon::area_term()).times(
                R::of_count(1).over(R::of_count(2)),
            );
            if shape.exact_area().magnitude().below(eps) || sampled.magnitude().below(eps) {
                shape.section_spec() == (zero, Vector2::<R>::origin(), zero, zero, zero)
            } else {
                shape.section_spec().0 == shape.exact_area() && shape.section_spec().1
                    == shape.exact_centroid()
            }
        }),
{
}

/// The area and the centroid of a section are the exact ones, never those of the samples, unless
/// there is no area to take moments of.
pub proof fn law_section_is_exact<R: Lawful>(shape: ExtrudedProfile<R>)
    ensures
        !shape.is_degenerate() ==> shape.section_spec().0 == shape.exact_area()
            && shape.section_spec().1 == shape.exact_centroid(),
        shape.is_degenerate() ==> shape.section_spec() == (
            R::of_count(0),
            Vector2::<R>::origin(),
            R::of_count(0),
            R::of_count(0),
            R::of_count(0),
        ),
{
}

/// A centroid coordinate of a section is exactly zero, or else too large to be a residue of the
/// summation.
pub proof fn law_centroid_has_no_residue<R: Lawful>(shape: ExtrudedProfile<R>)
    ensures
        ({
            let c = shape.section_spec().1;
            let eps = polygon::resolution(shape.exact_area());
            &&& c.x == R::of_count(0) || !c.x.magnitude().below(eps)
            &&& c.y == R::of_count(0) || !c.y.magnitude().below(eps)
        }),
{
}

} // verus!
