use extruded_profile::arc::ProfileArc;
use extruded_profile::bounds::Pose;
use extruded_profile::feature::{PackedFeatureId, PolygonalFeature};
use extruded_profile::mass::MassProperties;
use extruded_profile::polygon::{polygon_area_centroid, snap_to_centre};
use extruded_profile::profile::ExtrudedProfile;
use extruded_profile::scalar::{Real, Scalar};
use extruded_profile::shape::{FeatureId, ShapeType, TypedShape};
use extruded_profile::vector::{Matrix, Vector, Vector2};
use extruded_profile::{angle, winding};

#[derive(Copy, Clone, Debug, PartialEq)]
struct F(f64);

impl Scalar for F {}

impl Real for F {
    fn from_usize(n: usize) -> Self {
        F(n as f64)
    }
    fn add(self, other: Self) -> Self {
        F(self.0 + other.0)
    }
    fn sub(self, other: Self) -> Self {
        F(self.0 - other.0)
    }
    fn mul(self, other: Self) -> Self {
        F(self.0 * other.0)
    }
    fn div(self, other: Self) -> Self {
        F(self.0 / other.0)
    }
    fn neg(self) -> Self {
        F(-self.0)
    }
    fn abs(self) -> Self {
        F(self.0.abs())
    }
    fn sqrt(self) -> Self {
        F(self.0.sqrt())
    }
    fn cubed(self) -> Self {
        F(self.0.powi(3))
    }
    fn sin(self) -> Self {
        F(self.0.sin())
    }
    fn cos(self) -> Self {
        F(self.0.cos())
    }
    fn atan2(self, x: Self) -> Self {
        F(self.0.atan2(x.0))
    }
    fn ceil(self) -> Self {
        F(self.0.ceil())
    }
    fn min(self, other: Self) -> Self {
        F(self.0.min(other.0))
    }
    fn max(self, other: Self) -> Self {
        F(self.0.max(other.0))
    }
    fn to_usize(self) -> usize {
        self.0 as usize
    }
    fn is_below(self, other: Self) -> bool {
        self.0 < other.0
    }
    fn is_at_most(self, other: Self) -> bool {
        self.0 <= other.0
    }
    fn is_same(self, other: Self) -> bool {
        self.0 == other.0
    }
    fn is_finite(self) -> bool {
        self.0.is_finite()
    }
    fn epsilon() -> Self {
        F(f64::EPSILON)
    }
    fn min_positive() -> Self {
        F(f64::MIN_POSITIVE)
    }
    fn infinity() -> Self {
        F(f64::INFINITY)
    }
    fn neg_infinity() -> Self {
        F(f64::NEG_INFINITY)
    }
}

fn v2(x: f64, y: f64) -> Vector2<F> {
    Vector2::new(F(x), F(y))
}

fn v3(x: f64, y: f64, z: f64) -> Vector<F> {
    Vector::new(F(x), F(y), F(z))
}

fn unit(x: f64, y: f64, z: f64) -> Vector<F> {
    let n = (x * x + y * y + z * z).sqrt();
    v3(x / n, y / n, z / n)
}

fn dot(a: Vector<F>, b: Vector<F>) -> f64 {
    a.x.0 * b.x.0 + a.y.0 * b.y.0 + a.z.0 * b.z.0
}

const TAU: f64 = core::f32::consts::TAU as f64;

fn cuboid_support(h: Vector<F>, d: Vector<F>) -> Vector<F> {
    v3(
        h.x.0.copysign(d.x.0),
        h.y.0.copysign(d.y.0),
        h.z.0.copysign(d.z.0),
    )
}

fn cylinder_support(half_height: f64, radius: f64, d: Vector<F>) -> Vector<F> {
    let n = d.x.0.hypot(d.z.0);
    let k = if n == 0.0 { 0.0 } else { radius / n };
    v3(d.x.0 * k, half_height.copysign(d.y.0), d.z.0 * k)
}

/// The principal moments, smallest first.
fn principal_inertia(m: &MassProperties<F>) -> [f64; 3] {
    let (a, b, c) = (
        m.inertia.x_axis.x.0,
        m.inertia.z_axis.z.0,
        m.inertia.x_axis.z.0,
    );
    let mid = (a + b) / 2.0;
    let spread = (((a - b) / 2.0).powi(2) + c * c).sqrt();
    let mut r = [mid - spread, mid + spread, m.inertia.y_axis.y.0];
    r.sort_by(|x, y| x.partial_cmp(y).unwrap());
    r
}

fn rect(hx: f64, hz: f64) -> ExtrudedProfile<F> {
    ExtrudedProfile::new(
        vec![v2(-hx, -hz), v2(hx, -hz), v2(hx, hz), v2(-hx, hz)],
        F(0.0),
    )
}

/// A rectangle extruded is a cuboid, so every number should match a cuboid's to rounding.
#[test]
fn a_rectangular_profile_is_a_cuboid() {
    let mut p = rect(0.3, 0.7);
    p.half_depth = F(0.5);
    let h = v3(0.3, 0.5, 0.7);

    for dir in [
        v3(1.0, 0.0, 0.0),
        v3(-1.0, 0.0, 0.0),
        v3(0.0, 1.0, 0.0),
        v3(0.0, -1.0, 0.0),
        v3(0.0, 0.0, 1.0),
        unit(1.0, 1.0, 1.0),
        unit(-2.0, 0.3, 1.0),
    ] {
        let a = p.local_support_point(dir);
        let b = cuboid_support(h, dir);
        // Compare what a support function actually promises, the extent along `dir`, not the
        // point. On a face-on direction a box has several equally-far vertices, and picking a
        // different one of them is not a disagreement.
        assert!(
            (dot(a, dir) - dot(b, dir)).abs() < 1.0e-5,
            "extent along {dir:?}: {} vs {}",
            dot(a, dir),
            dot(b, dir)
        );
        // And it must be a point on the box, not merely one that measures the same.
        assert!(
            a.x.0.abs() <= 0.3 + 1.0e-5
                && a.y.0.abs() <= 0.5 + 1.0e-5
                && a.z.0.abs() <= 0.7 + 1.0e-5,
            "support point outside the solid: {a:?}"
        );
    }

    let mp = p.mass_properties(F(2500.0));
    let mass = 8.0 * 0.3 * 0.5 * 0.7 * 2500.0;
    assert!((mp.mass.0 - mass).abs() < 1.0e-3, "{} vs {}", mp.mass.0, mass);
    let a = principal_inertia(&mp);
    let (xx, yy, zz) = (0.3 * 0.3, 0.5 * 0.5, 0.7 * 0.7);
    let mut b = [
        mass / 3.0 * (yy + zz),
        mass / 3.0 * (xx + zz),
        mass / 3.0 * (xx + yy),
    ];
    b.sort_by(|x, y| x.partial_cmp(y).unwrap());
    for (x, y) in a.iter().zip(b.iter()) {
        assert!((x - y).abs() < 1.0e-3, "inertia {a:?} vs {b:?}");
    }
}

/// Many-sided, it should converge on the cylinder it approximates, from inside, since an inscribed
/// polygon is always a little smaller than its circle.
#[test]
fn many_sides_converge_on_a_cylinder() {
    for (sides, tol) in [(16usize, 0.03), (64, 0.002), (256, 0.0002)] {
        let p = ExtrudedProfile::regular(F(0.25), sides, F(0.4));
        let m = p.mass_properties(F(1000.0)).mass.0;
        let c = 1000.0 * core::f64::consts::PI * 0.25 * 0.25 * 0.8;
        let deficit = (c - m) / c;
        assert!(deficit > 0.0, "{sides}-gon should be lighter than its circle");
        assert!(deficit < tol, "{sides}-gon deficit {deficit} exceeds {tol}");
    }
}

/// A single full arc is a cylinder, not an approximation of one.
#[test]
fn a_round_profile_is_a_cylinder() {
    let p = ExtrudedProfile::round(F(0.25), F(0.4));

    for i in 0..64 {
        let a = i as f64 / 64.0 * TAU;
        for dy in [-2.0, -0.3, 0.0, 0.3, 2.0] {
            let dir = v3(a.cos(), dy, a.sin());
            let x = p.local_support_point(dir);
            let y = cylinder_support(0.4, 0.25, dir);
            assert!(
                (dot(x, dir) - dot(y, dir)).abs() < 1.0e-5,
                "extent along {dir:?}: {} vs {}",
                dot(x, dir),
                dot(y, dir)
            );
        }
    }

    let mp = p.mass_properties(F(1000.0)).mass.0;
    let mc = 1000.0 * core::f64::consts::PI * 0.25 * 0.25 * 0.8;
    assert!((mp - mc).abs() / mc < 1.0e-4, "{} vs {}", mp, mc);
}

/// The centroid of a centred profile must be exactly zero, not nearly zero.
#[test]
fn a_centred_profile_has_an_exactly_zero_centroid() {
    let cases = [
        ExtrudedProfile::round(F(0.25), F(0.4)),
        ExtrudedProfile::regular(F(0.3), 16, F(0.2)),
        ExtrudedProfile::new(
            vec![v2(-0.4, -0.2), v2(0.4, -0.2), v2(0.4, 0.2), v2(-0.4, 0.2)],
            F(0.5),
        ),
    ];
    for p in cases {
        let com = p.mass_properties(F(2500.0)).local_com;
        assert_eq!(
            com,
            v3(0.0, 0.0, 0.0),
            "centre of mass is {com:?}, not exactly zero"
        );
    }
}

/// An arc's side feature is a segment along the sweep, the way a cylinder's curved part is: there
/// is no flat face there to clip against.
#[test]
fn an_arc_side_feature_is_a_segment() {
    let p = ExtrudedProfile::round(F(0.3), F(0.5));
    let mut f = PolygonalFeature::default();
    p.local_support_feature(v3(1.0, 0.0, 0.0), &mut f);
    assert_eq!(f.num_vertices, 2, "a curved side has no polygon face");
    for i in 0..2 {
        let v = f.vertices[i];
        assert!((v.x.0.hypot(v.z.0) - 0.3).abs() < 1.0e-5);
        assert!((v.y.0.abs() - 0.5).abs() < 1.0e-5);
    }
}

/// The support feature has to be the whole face, not a sliver of it.
#[test]
fn the_cap_feature_spans_the_profile() {
    let p = ExtrudedProfile::regular(F(0.3), 16, F(0.6));
    let mut f = PolygonalFeature::default();
    p.local_support_feature(v3(0.0, 1.0, 0.0), &mut f);
    assert_eq!(f.num_vertices, 4);
    let v: Vec<(f64, f64)> = (0..4)
        .map(|i| (f.vertices[i].x.0, f.vertices[i].z.0))
        .collect();
    // Area of the quad against the cap's own; four spread vertices give the inscribed square,
    // 2/pi of the circle. Four consecutive ones would give a few percent.
    let (a, b) = (
        (v[2].0 - v[0].0, v[2].1 - v[0].1),
        (v[3].0 - v[1].0, v[3].1 - v[1].1),
    );
    let quad = 0.5 * (a.0 * b.1 - a.1 * b.0).abs();
    let cap = core::f32::consts::PI as f64 * 0.3 * 0.3;
    assert!(
        quad / cap > 0.5,
        "cap feature covers only {:.1}%",
        quad / cap * 100.0
    );
}

/// A side face is a quad of the swept edge, with all four corners on the surface.
#[test]
fn the_side_feature_is_the_swept_edge() {
    let p = ExtrudedProfile::regular(F(0.3), 8, F(0.6));
    let mut f = PolygonalFeature::default();
    p.local_support_feature(v3(1.0, 0.0, 0.0), &mut f);
    assert_eq!(f.num_vertices, 4);
    for i in 0..4 {
        let v = f.vertices[i];
        assert!((v.y.0.abs() - 0.6).abs() < 1.0e-5, "corner off the caps: {v:?}");
        let r = v.x.0.hypot(v.z.0);
        assert!(r <= 0.3 + 1.0e-5, "corner outside the profile: {r}");
    }
}

fn close(a: f64, b: f64) -> bool {
    (a - b).abs() < 1.0e-6
}

fn quarter(start: f64) -> ProfileArc<F> {
    ProfileArc {
        center: v2(1.0, 2.0),
        radius: F(3.0),
        start: F(start),
        end: F(start + 1.5),
    }
}

/// Two half discs joined by straight edges.
fn stadium() -> ExtrudedProfile<F> {
    let right = core::f64::consts::FRAC_PI_2;
    ExtrudedProfile::with_arcs(
        vec![v2(-1.0, -0.5), v2(1.0, -0.5), v2(1.0, 0.5), v2(-1.0, 0.5)],
        vec![
            ProfileArc {
                center: v2(1.0, 0.0),
                radius: F(0.5),
                start: F(-right),
                end: F(right),
            },
            ProfileArc {
                center: v2(-1.0, 0.0),
                radius: F(0.5),
                start: F(right),
                end: F(3.0 * right),
            },
        ],
        F(0.25),
    )
}

#[test]
fn a_circle_sweeps_a_turn() {
    let c = ProfileArc::circle(v2(1.0, -1.0), F(2.0));
    assert_eq!(c.center, v2(1.0, -1.0));
    assert_eq!(c.radius, F(2.0));
    assert_eq!(c.start, F(0.0));
    assert_eq!(c.end, F(TAU));
    assert_eq!(c.sweep(), F(TAU));
    for i in -20..20 {
        assert!(c.spans(F(i as f64)));
    }
}

#[test]
fn an_arc_spans_what_it_sweeps() {
    let a = quarter(0.5);
    assert!(a.spans(F(0.5)));
    assert!(a.spans(F(1.0)));
    assert!(a.spans(F(1.9)));
    assert!(!a.spans(F(2.1)));
    assert!(!a.spans(F(0.4)));
    assert!(a.spans(F(1.0 - TAU)));
    assert!(a.spans(F(1.0 + 3.0 * TAU)));
    assert!(!a.spans(F(4.0 - 2.0 * TAU)));
    assert!(!a.spans(F(f64::NAN)));
}

#[test]
fn an_arc_runs_on_its_circle() {
    let a = quarter(0.5);
    assert_eq!(a.at(F(0.0)), v2(4.0, 2.0));
    let p = a.at(F(core::f64::consts::FRAC_PI_2));
    assert!(close(p.x.0, 1.0) && close(p.y.0, 5.0));
}

#[test]
fn angles_wrap_into_one_turn() {
    assert_eq!(angle::tau::<F>(), F(TAU));
    assert_eq!(angle::pi::<F>(), F(core::f32::consts::PI as f64));
    assert_eq!(
        angle::frac_pi_2::<F>(),
        F(core::f32::consts::FRAC_PI_2 as f64)
    );
    assert_eq!(angle::wrap(F(1.25)), F(1.25));
    assert_eq!(angle::wrap(F(-1.0)), F(TAU - 1.0));
    assert_eq!(angle::wrap(F(TAU)), F(0.0));
    assert!(close(angle::wrap(F(-10.0)).0, 2.0 * TAU - 10.0));
    assert!(close(angle::wrap(F(20.0)).0, 20.0 - 3.0 * TAU));
}

#[test]
fn winding_sorts_by_angle_and_keeps_ties() {
    let points = vec![
        v2(0.0, -1.0),
        v2(2.0, 0.0),
        v2(-1.0, 0.0),
        v2(1.0, 0.0),
        v2(0.0, 1.0),
    ];
    let w = winding::wind(&points, v2(0.0, 0.0));
    assert_eq!(
        w,
        vec![
            v2(0.0, -1.0),
            v2(2.0, 0.0),
            v2(1.0, 0.0),
            v2(0.0, 1.0),
            v2(-1.0, 0.0)
        ]
    );
    assert_eq!(
        winding::mean(&vec![v2(1.0, 2.0), v2(3.0, 6.0)]),
        v2(2.0, 4.0)
    );
}

#[test]
fn coincident_points_are_dropped() {
    let points = vec![
        v2(0.0, 0.0),
        v2(1.0e-9, 0.0),
        v2(1.0, 0.0),
        v2(0.0, 0.0),
        v2(0.0, 1.0e-9),
    ];
    assert_eq!(
        winding::dedup(&points),
        vec![v2(0.0, 0.0), v2(1.0, 0.0), v2(0.0, 0.0)]
    );
    assert_eq!(winding::dedup(&Vec::<Vector2<F>>::new()), vec![]);
}

#[test]
fn a_regular_profile_has_three_sides_at_least() {
    for sides in 0..4 {
        assert_eq!(
            ExtrudedProfile::regular(F(1.0), sides, F(1.0)).profile.len(),
            3
        );
    }
    let p = ExtrudedProfile::regular(F(2.0), 4, F(1.0));
    assert_eq!(p.profile.len(), 4);
    assert_eq!(p.profile[0], v2(2.0, 0.0));
    assert!(close(p.profile[1].x.0, 0.0) && close(p.profile[1].y.0, 2.0));
    assert!(close(p.profile[3].x.0, 0.0) && close(p.profile[3].y.0, -2.0));
    assert!(p.arcs.is_empty());
}

#[test]
fn tessellation_samples_arcs() {
    let straight = rect(1.0, 2.0);
    assert_eq!(straight.tessellated(), straight.profile);

    let round = ExtrudedProfile::round(F(0.5), F(1.0)).tessellated();
    assert_eq!(round.len(), 256);
    for i in 0..256 {
        assert!(close(round[i].x.0.hypot(round[i].y.0), 0.5));
        if i > 0 {
            assert!(round[i - 1].angle().0 <= round[i].angle().0);
        }
    }

    let mut tiny = quarter(0.0);
    tiny.end = F(1.0e-6);
    let p = ExtrudedProfile::with_arcs(vec![v2(0.0, 0.0)], vec![tiny, tiny], F(1.0));
    assert_eq!(p.tessellated().len(), 5);

    assert_eq!(stadium().tessellated().len(), 4 + 128 + 128);
}

#[test]
fn the_section_of_a_rectangle() {
    let (area, c, ixx, izz, ixz) = rect(1.0, 2.0).section();
    assert_eq!(area, F(8.0));
    assert_eq!(c, v2(0.0, 0.0));
    assert!(close(ixx.0, 8.0 / 3.0));
    assert!(close(izz.0, 32.0 / 3.0));
    assert!(close(ixz.0, 0.0));

    let moved = ExtrudedProfile::new(
        vec![v2(0.0, 0.0), v2(2.0, 0.0), v2(2.0, 4.0), v2(0.0, 4.0)],
        F(1.0),
    );
    let (area, c, ixx, izz, ixz) = moved.section();
    assert_eq!(area, F(8.0));
    assert_eq!(c, v2(1.0, 2.0));
    assert!(close(ixx.0, 8.0 / 3.0));
    assert!(close(izz.0, 32.0 / 3.0));
    assert!(close(ixz.0, 0.0));
}

#[test]
fn the_section_of_a_triangle() {
    let p = ExtrudedProfile::new(vec![v2(0.0, 0.0), v2(1.0, 0.0), v2(0.0, 1.0)], F(1.0));
    let (area, c, ixx, izz, ixz) = p.section();
    assert_eq!(area, F(0.5));
    assert!(close(c.x.0, 1.0 / 3.0) && close(c.y.0, 1.0 / 3.0));
    assert!(close(ixx.0, 1.0 / 36.0));
    assert!(close(izz.0, 1.0 / 36.0));
    assert!(close(ixz.0, -1.0 / 72.0));
}

#[test]
fn a_flat_profile_has_no_section() {
    let zero = (F(0.0), v2(0.0, 0.0), F(0.0), F(0.0), F(0.0));
    for points in [
        vec![],
        vec![v2(1.0, 1.0)],
        vec![v2(0.0, 0.0), v2(1.0, 1.0)],
        vec![v2(0.0, 0.0), v2(1.0, 1.0), v2(2.0, 2.0)],
    ] {
        let p = ExtrudedProfile::new(points, F(1.0));
        assert_eq!(p.section(), zero);
        assert_eq!(p.area_centroid(), (F(0.0), v2(0.0, 0.0)));
        assert_eq!(p.mass_properties(F(1.0)), MassProperties::massless());
    }
    let point = ExtrudedProfile::round(F(0.0), F(1.0));
    assert_eq!(point.section(), zero);
}

#[test]
fn the_section_of_a_stadium() {
    let (area, c, ixx, _, _) = stadium().section();
    let pi = core::f64::consts::PI;
    assert!(close(area.0, 2.0 + pi / 4.0));
    assert_eq!(c, v2(0.0, 0.0));
    // A rectangle, and two half discs moved out by one.
    let lens = 4.0 * 0.5 / (3.0 * pi);
    let half_disc = pi / 128.0 - pi / 8.0 * lens * lens;
    let expected = 8.0 / 12.0 + 2.0 * (half_disc + pi / 8.0 * (1.0 + lens) * (1.0 + lens));
    assert!((ixx.0 - expected).abs() < 5.0e-5 * expected);
}

#[test]
fn the_centroid_of_a_half_disc() {
    let pi = core::f64::consts::PI;
    let arc = ProfileArc {
        center: v2(0.0, 0.0),
        radius: F(2.0),
        start: F(0.0),
        end: F(pi),
    };
    let p = ExtrudedProfile::with_arcs(vec![v2(2.0, 0.0), v2(-2.0, 0.0)], vec![arc], F(1.0));
    let (area, c) = p.area_centroid();
    assert!(close(area.0, 2.0 * pi));
    assert_eq!(c.x, F(0.0));
    assert!(close(c.y.0, 8.0 / (3.0 * pi)));
}

#[test]
fn polygons_wound_the_other_way_have_negative_area() {
    let poly = [v2(0.0, 0.0), v2(0.0, 1.0), v2(1.0, 0.0)];
    let (area, c) = polygon_area_centroid(&poly);
    assert_eq!(area, F(-0.5));
    assert!(close(c.x.0, 1.0 / 3.0) && close(c.y.0, 1.0 / 3.0));
}

#[test]
fn a_residue_is_snapped_and_an_offset_is_not() {
    assert_eq!(snap_to_centre(v2(9.0e-8, 1.0), F(1.0)), v2(0.0, 1.0));
    assert_eq!(snap_to_centre(v2(-9.0e-8, 2.0e-7), F(1.0)), v2(0.0, 2.0e-7));
    assert_eq!(snap_to_centre(v2(9.0e-8, 9.0e-8), F(0.25)), v2(9.0e-8, 9.0e-8));
    assert_eq!(snap_to_centre(v2(9.0e-7, 9.0e-7), F(-100.0)), v2(0.0, 0.0));
    let c = snap_to_centre(v2(3.0e-8, 0.5), F(1.0));
    assert_eq!(snap_to_centre(c, F(1.0)), c);
}

#[test]
fn a_degenerate_direction_still_finds_a_point() {
    let round = ExtrudedProfile::round(F(0.25), F(0.4));
    assert_eq!(
        round.local_support_point(v3(0.0, 1.0, 0.0)),
        v3(0.25, 0.4, 0.0)
    );
    assert_eq!(
        round.local_support_point(v3(0.0, -1.0, 0.0)),
        v3(0.25, -0.4, 0.0)
    );
    let nothing = ExtrudedProfile::<F>::new(vec![], F(0.5));
    assert_eq!(
        nothing.local_support_point(v3(1.0, 1.0, 0.0)),
        v3(0.0, 0.5, 0.0)
    );
    let square = rect(1.0, 1.0);
    assert_eq!(
        square.local_support_point(v3(0.0, 0.0, 0.0)).xz(),
        v2(-1.0, -1.0)
    );
}

#[test]
fn no_boundary_point_reaches_beyond_the_support() {
    let p = stadium();
    for i in 0..32 {
        let a = i as f64 / 32.0 * TAU;
        let d = v2(a.cos(), a.sin());
        let s = p
            .local_support_point(Vector::new(d.x, F(0.0), d.y))
            .xz()
            .dot(d);
        for q in p.tessellated() {
            assert!(q.dot(d).0 <= s.0 + 1.0e-12);
        }
    }
    let s = p.local_support_point(v3(1.0, 0.0, 1.0));
    assert!(close(s.x.0, 1.0 + 0.5 * 0.5f64.sqrt()));
    assert!(close(s.z.0, 0.5 * 0.5f64.sqrt()));
}

#[test]
fn arc_features_have_identifiers_of_their_own() {
    let p = stadium();
    let mut f = PolygonalFeature::default();
    p.local_support_feature(v3(-1.0, 0.5, 0.0), &mut f);
    assert_eq!(f.num_vertices, 2);
    assert_eq!(f.vertices[0], v3(-1.5, -0.25, 0.0));
    assert_eq!(f.vertices[1], v3(-1.5, 0.25, 0.0));
    assert_eq!(f.vids[0], PackedFeatureId::Vertex(1002));
    assert_eq!(f.vids[1], PackedFeatureId::Vertex(1003));
    assert_eq!(f.eids[0], PackedFeatureId::Edge(1001));
    assert_eq!(f.eids[1], PackedFeatureId::Edge(1001));
    assert_eq!(f.fid, PackedFeatureId::Face(1001));
    assert_eq!(f.vids[2], PackedFeatureId::Unknown);
}

#[test]
fn a_direction_along_the_sweep_gets_the_cap_of_a_round_bar() {
    let p = ExtrudedProfile::round(F(0.3), F(0.5));
    let mut f = PolygonalFeature::default();
    p.local_support_feature(v3(0.1, -1.0, 0.0), &mut f);
    assert_eq!(f.num_vertices, 4);
    assert_eq!(f.fid, PackedFeatureId::Face(1));
    for k in 0..4 {
        assert_eq!(f.vertices[k].y, F(-0.5));
    }
    assert_eq!(f.vids[1], PackedFeatureId::Vertex(192));
}

#[test]
fn the_lower_cap_runs_the_other_way() {
    let p = ExtrudedProfile::regular(F(1.0), 10, F(0.5));
    let mut up = PolygonalFeature::default();
    let mut down = PolygonalFeature::default();
    p.local_support_feature(v3(0.0, 1.0, 0.0), &mut up);
    p.local_support_feature(v3(0.0, -1.0, 0.0), &mut down);
    let codes = [0, 2, 4, 6];
    let back = [0, 8, 6, 4];
    for k in 0..4 {
        assert_eq!(up.vids[k], PackedFeatureId::Vertex(codes[k]));
        assert_eq!(up.eids[k], PackedFeatureId::Edge(codes[k]));
        assert_eq!(down.vids[k], PackedFeatureId::Vertex(back[k]));
        assert_eq!(down.eids[k], PackedFeatureId::Edge(back[k]));
        assert_eq!(up.vertices[k].xz(), p.profile[codes[k] as usize]);
        assert_eq!(down.vertices[k].xz(), p.profile[back[k] as usize]);
    }
    assert_eq!(up.fid, PackedFeatureId::Face(0));
    assert_eq!(down.fid, PackedFeatureId::Face(1));
}

#[test]
fn a_triangular_cap_has_three_corners() {
    let p = ExtrudedProfile::regular(F(1.0), 3, F(0.5));
    let mut f = PolygonalFeature::default();
    f.vids[3] = PackedFeatureId::Face(77);
    p.local_support_feature(v3(0.0, 1.0, 0.0), &mut f);
    assert_eq!(f.num_vertices, 3);
    assert_eq!(f.vids[2], PackedFeatureId::Vertex(2));
    assert_eq!(f.vids[3], PackedFeatureId::Face(77));
}

#[test]
fn a_side_is_numbered_by_its_edge() {
    let mut p = rect(1.0, 2.0);
    p.half_depth = F(3.0);
    let mut f = PolygonalFeature::default();
    p.local_support_feature(v3(-1.0, 0.5, 0.0), &mut f);
    assert_eq!(f.num_vertices, 4);
    assert_eq!(f.fid, PackedFeatureId::Face(5));
    assert_eq!(f.vertices[0], v3(-1.0, -3.0, 2.0));
    assert_eq!(f.vertices[1], v3(-1.0, -3.0, -2.0));
    assert_eq!(f.vertices[2], v3(-1.0, 3.0, -2.0));
    assert_eq!(f.vertices[3], v3(-1.0, 3.0, 2.0));
    for (k, code) in [3, 0, 4, 7].iter().enumerate() {
        assert_eq!(f.vids[k], PackedFeatureId::Vertex(*code));
        assert_eq!(f.eids[k], PackedFeatureId::Edge(12 + k as u32));
    }
}

#[test]
fn an_empty_profile_has_no_feature() {
    let p = ExtrudedProfile::new(vec![], F(1.0));
    let mut f = PolygonalFeature::default();
    f.num_vertices = 3;
    f.fid = PackedFeatureId::face(9);
    p.local_support_feature(v3(0.0, 1.0, 0.0), &mut f);
    assert_eq!(f.num_vertices, 0);
    assert_eq!(f.fid, PackedFeatureId::Face(9));
}

#[test]
fn boxes_bound_what_arcs_reach() {
    let b = ExtrudedProfile::round(F(0.3), F(0.5)).compute_local_aabb();
    for (x, y) in [
        (b.mins.x.0, -0.3),
        (b.mins.y.0, -0.5),
        (b.mins.z.0, -0.3),
        (b.maxs.x.0, 0.3),
        (b.maxs.y.0, 0.5),
        (b.maxs.z.0, 0.3),
    ] {
        assert!(close(x, y));
    }
    let b = stadium().compute_local_aabb();
    assert!(close(b.mins.x.0, -1.5) && close(b.maxs.x.0, 1.5));
    assert!(close(b.mins.z.0, -0.5) && close(b.maxs.z.0, 0.5));

    let b = ExtrudedProfile::<F>::new(vec![], F(1.0)).compute_local_aabb();
    assert_eq!(b.mins.x, F(f64::INFINITY));
    assert_eq!(b.maxs.x, F(f64::NEG_INFINITY));
}

#[test]
fn spheres_and_thickness_follow_the_box() {
    let mut p = rect(2.0, 3.0);
    p.half_depth = F(6.0);
    let s = p.compute_local_bounding_sphere();
    assert_eq!(s.center, v3(0.0, 0.0, 0.0));
    assert_eq!(s.radius, F(7.0));
    assert_eq!(p.ccd_thickness(), F(4.0));
    p.half_depth = F(0.5);
    assert_eq!(p.ccd_thickness(), F(1.0));
    assert_eq!(
        p.ccd_angular_thickness(),
        F(core::f32::consts::FRAC_PI_2 as f64)
    );
}

#[test]
fn a_swept_box_covers_both_ends() {
    let mut p = rect(1.0, 2.0);
    p.half_depth = F(3.0);
    let still = Pose {
        rotation: Matrix::from_cols(v3(1.0, 0.0, 0.0), v3(0.0, 1.0, 0.0), v3(0.0, 0.0, 1.0)),
        translation: v3(0.0, 0.0, 0.0),
    };
    // A quarter turn about the X axis, and a move.
    let turned = Pose {
        rotation: Matrix::from_cols(v3(1.0, 0.0, 0.0), v3(0.0, 0.0, 1.0), v3(0.0, -1.0, 0.0)),
        translation: v3(10.0, 0.0, 0.0),
    };
    let b = p.compute_aabb(&turned);
    assert_eq!(b.mins, v3(9.0, -2.0, -3.0));
    assert_eq!(b.maxs, v3(11.0, 2.0, 3.0));
    let b = p.compute_swept_aabb(&still, &turned);
    assert_eq!(b.mins, v3(-1.0, -3.0, -3.0));
    assert_eq!(b.maxs, v3(11.0, 3.0, 3.0));
    assert_eq!(b.extents(), v3(12.0, 6.0, 6.0));
}

#[test]
fn mass_needs_density() {
    let mut p = rect(1.0, 2.0);
    p.half_depth = F(3.0);
    assert_eq!(p.mass_properties(F(0.0)), MassProperties::massless());
    assert_eq!(p.mass_properties(F(-1.0)), MassProperties::massless());
    let m = p.mass_properties(F(2.0));
    assert_eq!(m.mass, F(96.0));
    assert!(close(m.inertia.x_axis.x.0, 96.0 / 3.0 * (9.0 + 4.0)));
    assert!(close(m.inertia.y_axis.y.0, 96.0 / 3.0 * (1.0 + 4.0)));
    assert!(close(m.inertia.z_axis.z.0, 96.0 / 3.0 * (9.0 + 1.0)));
}

#[test]
fn a_lopsided_section_couples_its_axes() {
    let p = ExtrudedProfile::new(vec![v2(0.0, 0.0), v2(1.0, 0.0), v2(0.0, 1.0)], F(1.0));
    let m = p.mass_properties(F(3.0));
    assert_eq!(m.mass, F(3.0));
    assert!(close(m.inertia.x_axis.z.0, 3.0 * 2.0 / 72.0));
    assert_eq!(m.inertia.x_axis.z, m.inertia.z_axis.x);
    assert_eq!(m.inertia.x_axis.y, F(0.0));
    assert!(close(m.local_com.x.0, 1.0 / 3.0));
    assert_eq!(m.local_com.y, F(0.0));
    assert!(close(m.local_com.z.0, 1.0 / 3.0));
}

#[test]
fn arcs_scale_only_alike() {
    let p = stadium();
    assert!(p.scale_dyn(v3(2.0, 1.0, 3.0), 0).is_none());
    let s = p.scale_dyn(v3(2.0, -3.0, 2.0), 0).unwrap();
    assert_eq!(s.half_depth, F(0.75));
    assert_eq!(s.profile[0], v2(-2.0, -1.0));
    assert_eq!(s.arcs[0].center, v2(2.0, 0.0));
    assert_eq!(s.arcs[0].radius, F(1.0));
    assert_eq!(s.arcs[0].start, p.arcs[0].start);
    assert_eq!(s.arcs[0].end, p.arcs[0].end);
}

#[test]
fn straight_edges_scale_under_any_scale() {
    let mut p = rect(1.0, 2.0);
    p.half_depth = F(3.0);
    let s = p.scale_dyn(v3(5.0, -7.0, 0.5), 0).unwrap();
    assert_eq!(s.half_depth, F(21.0));
    assert_eq!(s.profile, rect(5.0, 1.0).profile);
    let same = stadium().scale_dyn(v3(1.0, 1.0, 1.0), 0).unwrap();
    assert_eq!(*same, stadium());
}

#[test]
fn a_shape_says_what_it_is() {
    let p = stadium();
    assert_eq!(p.shape_type(), ShapeType::ExtrudedProfile);
    assert!(matches!(p.as_typed_shape(), TypedShape::Custom(s) if *s == p));
    assert!(p.is_convex());
    assert_eq!(p.as_support_map(), Some(&p));
    assert_eq!(p.as_polygonal_feature_map(), Some((&p, F(0.0))));
    assert_eq!(
        p.feature_normal_at_point(FeatureId::Unknown, v3(0.0, 0.0, 0.0)),
        None
    );
    assert_eq!(*p.clone_dyn(), p);
}

#[test]
fn the_box_contains_every_support() {
    let mut p = ExtrudedProfile::regular(F(1.0), 7, F(0.5));
    p.profile[2].x = F(-0.4);
    let b = p.compute_local_aabb();
    for i in 0..50 {
        let a = i as f64;
        let s = p.local_support_point(v3(a.cos(), a.sin(), (2.0 * a).sin()));
        assert!(b.mins.x.0 <= s.x.0 && s.x.0 <= b.maxs.x.0);
        assert!(b.mins.y.0 <= s.y.0 && s.y.0 <= b.maxs.y.0);
        assert!(b.mins.z.0 <= s.z.0 && s.z.0 <= b.maxs.z.0);
    }
}

fn half_disc(at: Vector2<F>) -> ExtrudedProfile<F> {
    let (x, y) = (at.x.0, at.y.0);
    ExtrudedProfile::with_arcs(
        vec![v2(x + 1.0, y), v2(x - 1.0, y)],
        vec![ProfileArc {
            center: at,
            radius: F(1.0),
            start: F(0.0),
            end: F(core::f64::consts::PI),
        }],
        F(1.0),
    )
}

fn double_area(points: &[Vector2<F>]) -> f64 {
    let n = points.len();
    (0..n).map(|i| points[i].cross(points[(i + 1) % n]).0).sum()
}

fn heptagon() -> ExtrudedProfile<F> {
    ExtrudedProfile::regular(F(1.0), 7, F(1.0))
}

#[test]
fn a_cap_of_seven_sides_is_spread_around() {
    let mut f = PolygonalFeature::default();
    heptagon().local_support_feature(v3(0.0, 1.0, 0.0), &mut f);
    assert_eq!(f.num_vertices, 4);
    for (k, code) in [0, 1, 3, 5].iter().enumerate() {
        assert_eq!(f.vids[k], PackedFeatureId::Vertex(*code));
    }
    for first in 0..7u32 {
        let window: Vec<u32> = (0..4).map(|j| (first + j) % 7).collect();
        assert!([0u32, 1, 3, 5].iter().any(|i| !window.contains(i)));
    }
}

#[test]
fn caps_face_outward() {
    for sides in 3..20 {
        let p = ExtrudedProfile::regular(F(1.0), sides, F(1.0));
        for (y, sign) in [(1.0, 1.0), (-1.0, -1.0)] {
            let mut f = PolygonalFeature::default();
            p.local_support_feature(v3(0.0, y, 0.0), &mut f);
            let outline: Vec<Vector2<F>> =
                (0..f.num_vertices).map(|k| f.vertices[k].xz()).collect();
            assert!(double_area(&outline) * sign > 0.0, "{sides} sides");
        }
    }
}

#[test]
fn sides_hold_the_support_point() {
    let p = heptagon();
    for i in 0..100 {
        let a = i as f64 * 0.063;
        let dir = v3(a.cos(), 0.1 * (3.0 * a).sin(), a.sin());
        let mut f = PolygonalFeature::default();
        p.local_support_feature(dir, &mut f);
        assert_eq!(f.num_vertices, 4);
        let best = (0..4)
            .map(|k| dot(f.vertices[k], dir))
            .fold(f64::NEG_INFINITY, f64::max);
        assert!((best - dot(p.local_support_point(dir), dir)).abs() < 1.0e-12);
    }
}

#[test]
fn a_mirror_image_is_counter_clockwise_again() {
    let p = ExtrudedProfile::new(vec![v2(0.0, 0.0), v2(1.0, 0.0), v2(0.0, 1.0)], F(1.0));
    let s = p.scale_dyn(v3(-1.0, 1.0, 1.0), 0).unwrap();
    assert_eq!(s.profile, vec![v2(0.0, 1.0), v2(-1.0, 0.0), v2(0.0, 0.0)]);
    assert_eq!(s.section().0, F(0.5));
    let s = p.scale_dyn(v3(2.0, 1.0, -3.0), 0).unwrap();
    assert_eq!(s.section().0, F(3.0));
    let s = p.scale_dyn(v3(-2.0, 1.0, -3.0), 0).unwrap();
    assert_eq!(s.section().0, F(3.0));
    assert_eq!(s.profile[1], v2(-2.0, 0.0));
    // Factors whose product is too small to tell from zero mirror all the same.
    let s = p.scale_dyn(v3(-1.0e-200, 1.0, 1.0e-200), 0).unwrap();
    assert_eq!(s.profile[0], v2(0.0, 1.0e-200));
    assert_eq!(s.profile[1], v2(-1.0e-200, 0.0));
}

#[test]
fn a_negative_scale_leaves_a_full_circle_alone() {
    let p = ExtrudedProfile::with_arcs(
        vec![],
        vec![ProfileArc { center: v2(1.0, 2.0), radius: F(0.5), start: F(1.0), end: F(1.0 + TAU) }],
        F(1.0),
    );
    let s = p.scale_dyn(v3(-2.0, 1.0, -2.0), 0).unwrap();
    assert_eq!(s.arcs[0].start, p.arcs[0].start);
    assert_eq!(s.arcs[0].end, p.arcs[0].end);
    assert_eq!(s.arcs[0].radius, F(1.0));
    assert_eq!(s.arcs[0].center, v2(-2.0, -4.0));
}

#[test]
fn straight_moments_are_about_the_centroid_that_is_returned() {
    let d = 1.0e-18;
    let p = ExtrudedProfile::new(
        vec![v2(-1.0, -1.0), v2(1.0, -1.0), v2(1.0 + d, 1.0), v2(-1.0, 1.0), v2(-1.0 - 1.0e-17, 0.0)],
        F(1.0),
    );
    let (area, c, ixx, _, _) = p.section();
    assert_eq!(c, v2(0.0, 0.0));
    let mut sum = 0.0;
    for i in 0..5 {
        let (a, b) = (p.profile[i], p.profile[(i + 1) % 5]);
        let cross = a.x.0 * b.y.0 - b.x.0 * a.y.0;
        sum += (a.x.0 * a.x.0 + a.x.0 * b.x.0 + b.x.0 * b.x.0) * cross;
    }
    assert_eq!(area, F(4.0));
    assert_eq!(ixx, F(sum / 12.0));
}

#[test]
fn a_negative_scale_turns_arcs_by_half_a_turn() {
    let p = half_disc(v2(0.0, 0.0));
    let s = p.scale_dyn(v3(-1.0, 1.0, -1.0), 0).unwrap();
    let b = s.compute_local_aabb();
    for (x, y) in [
        (b.mins.x.0, -1.0),
        (b.mins.y.0, -1.0),
        (b.mins.z.0, -1.0),
        (b.maxs.x.0, 1.0),
        (b.maxs.y.0, 1.0),
        (b.maxs.z.0, 0.0),
    ] {
        assert!(close(x, y), "{x} is not {y}");
    }
    let (area, c) = s.area_centroid();
    assert!(close(area.0, core::f64::consts::FRAC_PI_2));
    assert!(close(c.y.0, -4.0 / (3.0 * core::f64::consts::PI)));

    let r = ExtrudedProfile::round(F(0.5), F(1.0))
        .scale_dyn(v3(-2.0, 1.0, -2.0), 0)
        .unwrap();
    assert_eq!(r.arcs[0].sweep(), F(TAU));
    for i in 0..64 {
        let a = i as f64 * 0.1;
        let s = r.local_support_point(v3(a.cos(), 0.0, a.sin()));
        assert!(close(s.x.0, a.cos()) && close(s.z.0, a.sin()));
    }
}

#[test]
fn moments_of_a_disc_are_those_of_the_circle() {
    let pi = core::f64::consts::PI;
    let (area, c, ixx, izz, ixz) = ExtrudedProfile::round(F(1.0), F(1.0)).section();
    assert!((area.0 - pi).abs() < 1.0e-6);
    assert_eq!(c, v2(0.0, 0.0));
    assert!((ixx.0 - pi / 4.0).abs() < 1.0e-5 * pi / 4.0);
    assert!((izz.0 - pi / 4.0).abs() < 1.0e-5 * pi / 4.0);
    assert!(ixz.0.abs() < 1.0e-5);
}

#[test]
fn moving_a_profile_moves_its_centroid_alone() {
    let here = half_disc(v2(0.0, 0.0)).section();
    let there = half_disc(v2(100.0, -70.0)).section();
    assert!(close(here.0 .0, there.0 .0));
    assert!(close(here.1.x.0 + 100.0, there.1.x.0));
    assert!(close(here.1.y.0 - 70.0, there.1.y.0));
    assert!((here.2 .0 - there.2 .0).abs() < 1.0e-6);
    assert!((here.3 .0 - there.3 .0).abs() < 1.0e-6);
    assert!((here.4 .0 - there.4 .0).abs() < 1.0e-6);
    // The half disc about its own centroid.
    let pi = core::f64::consts::PI;
    let across = pi / 8.0 - 8.0 / (9.0 * pi);
    assert!((there.2 .0 - pi / 8.0).abs() < 5.0e-5 * pi / 8.0);
    assert!((there.3 .0 - across).abs() < 5.0e-5 * across);
}

#[test]
fn exchanging_the_axes_exchanges_the_moments() {
    let points = vec![v2(0.0, 0.0), v2(3.0, 1.0), v2(2.0, 4.0), v2(0.0, 2.0)];
    let swapped: Vec<Vector2<F>> = points.iter().rev().map(|p| Vector2::new(p.y, p.x)).collect();
    let (a, c, ixx, izz, ixz) = ExtrudedProfile::new(points, F(1.0)).section();
    let (b, d, jxx, jzz, jxz) = ExtrudedProfile::new(swapped, F(1.0)).section();
    assert!(close(a.0, b.0));
    assert!(close(c.x.0, d.y.0) && close(c.y.0, d.x.0));
    assert!(close(ixx.0, jzz.0) && close(izz.0, jxx.0) && close(ixz.0, jxz.0));
}

#[test]
fn loops_can_be_gone_through_otherwise() {
    let points = vec![v2(0.0, 0.0), v2(3.0, 1.0), v2(2.0, 4.0), v2(0.0, 2.0)];
    let (area, c) = polygon_area_centroid(&points);
    let back: Vec<Vector2<F>> = points.iter().rev().copied().collect();
    let (other, d) = polygon_area_centroid(&back);
    assert!(close(other.0, -area.0));
    assert!(close(c.x.0, d.x.0) && close(c.y.0, d.y.0));
    for k in 1..4 {
        let mut turned = points.clone();
        turned.rotate_left(k);
        let (other, d) = polygon_area_centroid(&turned);
        assert!(close(other.0, area.0));
        assert!(close(c.x.0, d.x.0) && close(c.y.0, d.y.0));
    }
}

#[test]
fn cutting_an_arc_changes_nothing() {
    let whole = half_disc(v2(2.0, 1.0));
    let mut cut = half_disc(v2(2.0, 1.0));
    let mut second = cut.arcs[0];
    cut.arcs[0].end = F(1.0);
    second.start = F(1.0);
    cut.arcs.push(second);
    let ((a, c), (b, d)) = (whole.area_centroid(), cut.area_centroid());
    assert!(close(a.0, b.0));
    assert!(close(c.x.0, d.x.0) && close(c.y.0, d.y.0));
}

#[test]
fn the_sampled_boundary_is_inscribed() {
    for p in [
        half_disc(v2(1.0, 0.0)),
        stadium(),
        ExtrudedProfile::round(F(2.0), F(1.0)),
    ] {
        let exact = p.area_centroid().0 .0;
        let sampled = polygon_area_centroid(&p.tessellated()).0 .0;
        assert!(sampled <= exact && exact < sampled * 1.001);
    }
    let p = rect(1.0, 2.0);
    assert_eq!(p.area_centroid(), polygon_area_centroid(&p.profile));
}

#[test]
fn a_scaled_shape_reaches_as_its_image_does() {
    let p = heptagon();
    let q = stadium();
    for (x, z) in [(2.0, 3.0), (-2.0, 0.5), (-1.0, -4.0)] {
        let s = p.scale_dyn(v3(x, 1.0, z), 0).unwrap();
        assert!(close(
            double_area(&s.profile),
            (x * z).abs() * double_area(&p.profile)
        ));
        for i in 0..40 {
            let a = i as f64 * 0.16;
            let d = v3(a.cos(), 0.0, a.sin());
            let e = v3(x * a.cos(), 0.0, z * a.sin());
            let reach = dot(s.local_support_point(d), d);
            assert!(close(reach, dot(p.local_support_point(e), e)));
        }
    }
    let s = q.scale_dyn(v3(3.0, 1.0, 3.0), 0).unwrap();
    for i in 0..40 {
        let a = i as f64 * 0.16;
        let d = v3(a.cos(), 0.0, a.sin());
        let reach = dot(s.local_support_point(d), d);
        assert!(close(reach, 3.0 * dot(q.local_support_point(d), d)));
    }
}

#[test]
fn the_centroid_lies_inside_and_moments_are_positive() {
    let mut p = heptagon();
    p.profile[0] = v2(5.0, 1.0);
    let (_, c, ixx, izz, ixz) = p.section();
    for i in 0..7 {
        let (a, b) = (p.profile[i], p.profile[(i + 1) % 7]);
        assert!(b.sub(a).cross(c.sub(a)).0 > 0.0);
    }
    for i in 0..20 {
        let (s, t) = (i as f64 * 0.3).sin_cos();
        assert!(s * s * ixx.0 + 2.0 * s * t * ixz.0 + t * t * izz.0 > 0.0);
    }
}

#[test]
fn the_circle_of_a_facing_arc_is_covered() {
    let p = stadium();
    for i in 0..20 {
        let a = i as f64 * 0.1 - 1.0;
        let d = v3(a.cos(), 0.0, a.sin());
        let best = dot(p.local_support_point(d), d);
        for j in 0..60 {
            let on = p.arcs[0].at(F(j as f64 * 0.11));
            assert!(on.x.0 * d.x.0 + on.y.0 * d.z.0 <= best + 1.0e-12);
        }
    }
}

#[test]
fn no_point_of_an_arc_reaches_beyond_the_support() {
    for p in [half_disc(v2(3.0, -2.0)), stadium(), ExtrudedProfile::round(F(2.0), F(1.0))] {
        for arc in &p.arcs {
            for i in 0..=20 {
                let q = arc.at(F(arc.start.0 + arc.sweep().0 * i as f64 / 20.0));
                for k in 0..64 {
                    let a = k as f64 * TAU / 64.0;
                    let d = v3(a.cos(), 0.0, a.sin());
                    let s = p.local_support_point(d);
                    let reach = q.x.0 * d.x.0 + q.y.0 * d.z.0;
                    assert!(dot(s, d) >= reach - 1.0e-6, "{i} {k}");
                }
            }
        }
    }
}

#[test]
fn the_sides_of_a_box_are_supports() {
    for p in [half_disc(v2(3.0, -2.0)), stadium(), ExtrudedProfile::round(F(2.0), F(1.0))] {
        let b = p.compute_local_aabb();
        assert_eq!(b.maxs.x, p.local_support_point(v3(1.0, 0.0, 0.0)).x);
        assert_eq!(b.maxs.z, p.local_support_point(v3(0.0, 0.0, 1.0)).z);
        assert_eq!(b.mins.x, p.local_support_point(v3(-1.0, 0.0, 0.0)).x);
        assert_eq!(b.mins.z, p.local_support_point(v3(0.0, 0.0, -1.0)).z);
    }
}

#[test]
fn winding_finds_a_convex_loop_again() {
    let octagon = ExtrudedProfile::regular(F(1.0), 8, F(1.0)).profile;
    let points: Vec<Vector2<F>> = [3, 0, 7, 0, 2, 5, 1, 6, 4, 3]
        .iter()
        .map(|&i: &usize| octagon[i])
        .collect();
    let c = winding::mean(&points);
    let found = winding::dedup(&winding::wind(&points, c));
    assert_eq!(found.len(), 8);
    let start = (0..8).find(|&k: &usize| octagon[k] == found[0]).unwrap();
    for i in 0..8 {
        assert_eq!(found[i], octagon[(start + i) % 8]);
    }
}

#[test]
fn a_regular_profile_runs_counter_clockwise() {
    for n in [3, 5, 12] {
        let p = ExtrudedProfile::regular(F(2.0), n, F(1.0)).profile;
        for i in 0..n {
            let corner = [p[i], p[(i + 1) % n], p[(i + 2) % n]];
            assert!(double_area(&corner) > 0.0);
        }
        let step = TAU / n as f64;
        assert!(close(double_area(&p), n as f64 * 4.0 * step.sin()));
        assert!(double_area(&p) <= 4.0 * TAU);
    }
}

#[test]
fn the_centroid_of_a_circle_is_its_centre() {
    let p = ExtrudedProfile::with_arcs(
        vec![],
        vec![ProfileArc::circle(v2(40.0, -7.0), F(0.5))],
        F(1.0),
    );
    let (area, c) = p.area_centroid();
    assert!(close(area.0, 0.125 * TAU));
    assert!(close(c.x.0, 40.0) && close(c.y.0, -7.0));
}

#[test]
fn boxes_join_either_way() {
    let p = stadium();
    let here = Pose {
        rotation: Matrix::from_cols(v3(1.0, 0.0, 0.0), v3(0.0, 1.0, 0.0), v3(0.0, 0.0, 1.0)),
        translation: v3(1.0, 2.0, 3.0),
    };
    let there = Pose {
        rotation: Matrix::from_cols(v3(0.0, 0.0, -1.0), v3(0.0, 1.0, 0.0), v3(1.0, 0.0, 0.0)),
        translation: v3(-4.0, 0.5, 1.0),
    };
    assert_eq!(
        p.compute_swept_aabb(&here, &there),
        p.compute_swept_aabb(&there, &here)
    );
    assert_eq!(p.compute_swept_aabb(&here, &here), p.compute_aabb(&here));
}

#[test]
fn a_scaled_solid_reaches_as_its_image_does() {
    let bar = rect(1.0, 2.0);
    let round = stadium();
    for (p, k) in [(&bar, v3(-2.0, -0.5, 3.0)), (&round, v3(1.5, 4.0, 1.5))] {
        let s = p.scale_dyn(k, 0).unwrap();
        for i in 0..40 {
            let a = i as f64 * 0.7;
            let d = v3(a.cos(), (3.0 * a).sin(), a.sin());
            let e = v3(d.x.0 * k.x.0, d.y.0 * k.y.0, d.z.0 * k.z.0);
            assert!(close(
                dot(s.local_support_point(d), d),
                dot(p.local_support_point(e), e)
            ));
        }
    }
}

#[test]
fn caps_of_a_sampled_boundary_face_outward() {
    let p = stadium();
    let mut f = PolygonalFeature::default();
    p.local_support_feature(v3(0.0, 1.0, 0.0), &mut f);
    let up: Vec<Vector2<F>> = (0..f.num_vertices).map(|k| f.vertices[k].xz()).collect();
    assert!(double_area(&up) > 0.0);
    p.local_support_feature(v3(0.0, -1.0, 0.0), &mut f);
    let down: Vec<Vector2<F>> = (0..f.num_vertices).map(|k| f.vertices[k].xz()).collect();
    assert!(double_area(&down) < 0.0);
}
