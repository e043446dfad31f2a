use extruded_profile::angle;
use extruded_profile::arc::ProfileArc;
use extruded_profile::fixed::{Fixed, ONE};
use extruded_profile::polygon::polygon_area_centroid;
use extruded_profile::profile::ExtrudedProfile;
use extruded_profile::scalar::Real;
use extruded_profile::vector::{Vector, Vector2};

fn fx(x: f64) -> Fixed {
    Fixed {
        raw: (x * ONE as f64).round() as i64,
    }
}

fn value(x: Fixed) -> f64 {
    x.raw as f64 / ONE as f64
}

fn close(x: Fixed, y: f64) -> bool {
    (value(x) - y).abs() < 1.0e-7
}

#[test]
fn arithmetic_is_that_of_numbers() {
    assert_eq!(fx(1.5).add(fx(2.25)), fx(3.75));
    assert_eq!(fx(1.5).sub(fx(2.25)), fx(-0.75));
    assert_eq!(fx(-1.5).mul(fx(2.5)), fx(-3.75));
    assert_eq!(fx(-3.0).div(fx(4.0)), fx(-0.75));
    assert_eq!(fx(3.0).div(fx(-4.0)), fx(-0.75));
    assert_eq!(fx(-3.0).neg(), fx(3.0));
    assert_eq!(fx(-3.5).abs(), fx(3.5));
    assert_eq!(fx(-2.0).cubed(), fx(-8.0));
    assert_eq!(Fixed::from_usize(7), fx(7.0));
    assert_eq!(fx(7.9).to_usize(), 7);
    assert_eq!(fx(-7.9).to_usize(), 0);
    assert_eq!(fx(7.1).ceil(), fx(8.0));
    assert_eq!(fx(-7.1).ceil(), fx(-7.0));
    assert_eq!(fx(8.0).ceil(), fx(8.0));
    assert_eq!(fx(1.0).min(fx(2.0)), fx(1.0));
    assert_eq!(fx(1.0).max(fx(2.0)), fx(2.0));
}

#[test]
fn results_are_pinned_to_the_range() {
    let big = fx(2.0e9);
    assert_eq!(big.add(big), Fixed::infinity());
    assert_eq!(big.neg().sub(big), Fixed::neg_infinity());
    assert_eq!(big.mul(big.neg()), Fixed::neg_infinity());
    assert_eq!(fx(1.0).div(fx(0.0)), Fixed::infinity());
    assert_eq!(fx(-1.0).div(fx(0.0)), Fixed::neg_infinity());
    assert_eq!(fx(0.0).div(fx(0.0)), fx(0.0));
    assert_eq!(Fixed::neg_infinity().abs(), Fixed::infinity());
    assert_eq!(Fixed::from_usize(usize::MAX), Fixed::infinity());
    assert!(!Fixed::infinity().is_finite());
    assert!(!Fixed::neg_infinity().is_finite());
    assert!(big.is_finite());
}

#[test]
fn comparison_is_that_of_numbers() {
    assert!(fx(1.0).is_below(fx(1.5)));
    assert!(!fx(1.0).is_below(fx(1.0)));
    assert!(fx(1.0).is_at_most(fx(1.0)));
    assert!(!fx(2.0).is_at_most(fx(1.0)));
    assert!(fx(2.0).is_same(fx(2.0)));
    assert!(!fx(2.0).is_same(fx(-2.0)));
    assert!(fx(0.0).is_below(Fixed::epsilon()));
    assert!(fx(0.0).is_below(Fixed::min_positive()));
}

#[test]
fn roots_and_angles_are_close() {
    assert_eq!(fx(4.0).sqrt(), fx(2.0));
    assert_eq!(fx(-4.0).sqrt(), fx(0.0));
    assert!(close(fx(2.0).sqrt(), 2.0f64.sqrt()));
    for i in -200..200 {
        let a = i as f64 * 0.07;
        assert!(close(fx(a).sin(), a.sin()), "sine of {a}");
        assert!(close(fx(a).cos(), a.cos()), "cosine of {a}");
        let (y, x) = (a.sin() * 3.0, a.cos() * 3.0);
        assert!(
            close(fx(y).atan2(fx(x)), y.atan2(x)),
            "angle {y} over {x}"
        );
    }
    assert_eq!(fx(0.0).atan2(fx(0.0)), fx(0.0));
}

#[test]
fn every_angle_wraps() {
    for i in -50..50 {
        let a = fx(i as f64 * 1.7);
        let w = angle::wrap(a);
        assert!(fx(0.0).is_at_most(w) && w.is_below(angle::tau()));
    }
    let w = angle::wrap(fx(-2.0e9));
    assert!(fx(0.0).is_at_most(w) && w.is_below(angle::tau()));
}

#[test]
fn a_symmetric_profile_is_exactly_centred() {
    let a = Vector2::new(fx(1.3), fx(0.1));
    let b = Vector2::new(fx(0.7), fx(1.1));
    let c = Vector2::new(fx(-0.9), fx(1.0));
    let back = |p: Vector2<Fixed>| Vector2::new(p.x.neg(), p.y.neg());
    let p = ExtrudedProfile::new(vec![a, b, c, back(a), back(b), back(c)], fx(0.5));
    assert_eq!(p.section().1, Vector2::zero());
    assert_eq!(p.mass_properties(fx(2.0)).local_com, Vector::zero());
    let r = ExtrudedProfile::round(fx(0.25), fx(0.4));
    assert_eq!(r.mass_properties(fx(2.0)).local_com, Vector::zero());
}

#[test]
fn a_rectangle_is_a_cuboid_to_the_last_step() {
    let (hx, hz) = (fx(0.3), fx(0.7));
    let p = ExtrudedProfile::new(
        vec![
            Vector2::new(hx.neg(), hz.neg()),
            Vector2::new(hx, hz.neg()),
            Vector2::new(hx, hz),
            Vector2::new(hx.neg(), hz),
        ],
        fx(0.5),
    );
    assert_eq!(p.section().0.raw, 4 * hx.mul(hz).raw);
    let b = p.compute_local_aabb();
    assert_eq!(b.mins, Vector::new(hx.neg(), fx(-0.5), hz.neg()));
    assert_eq!(b.maxs, Vector::new(hx, fx(0.5), hz));
    for (x, z) in [(1.0, 0.0), (-0.3, 0.9), (0.2, -0.1), (-5.0, -4.0)] {
        let d = Vector2::new(fx(x), fx(z));
        let s = p.local_support_point(Vector::new(d.x, fx(0.0), d.y)).xz();
        assert_eq!(s.dot(d), hx.mul(d.x.abs()).add(hz.mul(d.y.abs())));
    }
}

#[test]
fn a_round_bar_supports_on_its_circle() {
    let p = ExtrudedProfile::round(fx(0.25), fx(0.4));
    for i in 0..16 {
        let a = i as f64 / 16.0 * 6.0;
        let s = p.local_support_point(Vector::new(fx(a.cos()), fx(-1.0), fx(a.sin())));
        assert!(close(s.x, 0.25 * a.cos()));
        assert!(close(s.z, 0.25 * a.sin()));
        assert_eq!(s.y, fx(-0.4));
    }
    let mass = value(p.mass_properties(fx(1000.0)).mass);
    let expected = 1000.0 * core::f64::consts::PI * 0.0625 * 0.8;
    assert!((mass - expected).abs() / expected < 1.0e-4);
}

#[test]
fn a_whole_rectangle_weighs_what_a_cuboid_does() {
    let n = Fixed::from_usize;
    let (a, b, d, r) = (n(2), n(3), n(1), n(5));
    let p = ExtrudedProfile::new(
        vec![
            Vector2::new(a.neg(), b.neg()),
            Vector2::new(a, b.neg()),
            Vector2::new(a, b),
            Vector2::new(a.neg(), b),
        ],
        d,
    );
    let (area, _, ixx, izz, ixz) = p.section();
    assert_eq!(area, n(24));
    assert_eq!((ixx, izz, ixz), (n(32), n(72), n(0)));
    let m = p.mass_properties(r);
    assert_eq!(m.mass, n(240));
    assert_eq!(m.local_com, Vector::zero());
    assert_eq!(m.inertia.x_axis, Vector::new(n(800), n(0), n(0)));
    assert_eq!(m.inertia.y_axis, Vector::new(n(0), n(1040), n(0)));
    assert_eq!(m.inertia.z_axis, Vector::new(n(0), n(0), n(400)));
}

#[test]
fn rounding_takes_no_more_than_a_few_steps() {
    let n = Fixed::from_usize;
    let one = n(1);
    let p = ExtrudedProfile::new(
        vec![
            Vector2::new(one.neg(), one.neg()),
            Vector2::new(one, one.neg()),
            Vector2::new(one, one),
            Vector2::new(one.neg(), one),
        ],
        one,
    );
    let m = p.mass_properties(one);
    assert_eq!(m.mass, n(8));
    for axis in [m.inertia.x_axis.x, m.inertia.y_axis.y, m.inertia.z_axis.z] {
        let short = 16 * ONE - 3 * axis.raw;
        assert!((0..12).contains(&short), "short by {short}");
    }
}

#[test]
fn full_turns_do_not_matter() {
    let arc = ProfileArc {
        center: Vector2::zero(),
        radius: fx(1.0),
        start: fx(-0.5),
        end: fx(1.5),
    };
    let tau = angle::tau::<Fixed>();
    for i in 0..60 {
        let a = fx(i as f64 * 0.1 - 0.5);
        assert_eq!(arc.spans(a), i <= 20);
        assert_eq!(arc.spans(a.add(tau)), arc.spans(a));
        assert_eq!(arc.spans(a.sub(tau)), arc.spans(a));
        assert_eq!(angle::wrap(a).raw, a.raw.rem_euclid(tau.raw));
    }
    assert!(arc.spans(arc.start) && arc.spans(arc.end));
}

#[test]
fn a_negative_factor_turns_arcs() {
    let arc = ProfileArc {
        center: Vector2::zero(),
        radius: fx(1.0),
        start: fx(0.25),
        end: fx(2.0),
    };
    let p = ExtrudedProfile::with_arcs(vec![], vec![arc], fx(1.0));
    let minus = fx(-1.0);
    let s = p
        .scale_dyn(Vector::new(minus, fx(1.0), minus), 0)
        .unwrap();
    assert_eq!(s.arcs[0].sweep(), arc.sweep());
    assert_eq!(s.arcs[0].start, arc.start.sub(angle::pi()));
    for i in 0..60 {
        let a = fx(i as f64 * 0.1);
        assert_eq!(s.arcs[0].spans(a.sub(angle::pi())), arc.spans(a));
    }
}

#[test]
fn loops_can_be_gone_through_otherwise_to_the_step() {
    let p: Vec<Vector2<Fixed>> = [(0.1, 0.3), (2.7, -0.4), (3.3, 1.9), (1.2, 2.6)]
        .iter()
        .map(|&(x, y)| Vector2::new(fx(x), fx(y)))
        .collect();
    let (area, c) = polygon_area_centroid(&p);
    let mut other = p.clone();
    other.rotate_left(2);
    assert_eq!(polygon_area_centroid(&other), (area, c));
    other.reverse();
    assert_eq!(polygon_area_centroid(&other), (area.neg(), c));
}

#[test]
fn sines_are_within_a_few_steps() {
    for i in -400..400 {
        let a = i as f64 * 0.01;
        assert!((value(fx(a).sin()) - a.sin()).abs() < 20.0 / ONE as f64, "{a}");
        assert!((value(fx(a).cos()) - a.cos()).abs() < 20.0 / ONE as f64, "{a}");
    }
}

#[test]
fn exchanging_the_axes_exchanges_the_moments_to_the_step() {
    let p: Vec<Vector2<Fixed>> = [(0.1, 0.3), (2.7, -0.4), (3.3, 1.9), (1.2, 2.6)]
        .iter()
        .map(|&(x, y)| Vector2::new(fx(x), fx(y)))
        .collect();
    let q: Vec<Vector2<Fixed>> = p.iter().rev().map(|v| Vector2::new(v.y, v.x)).collect();
    let (area, c, ixx, izz, _) = ExtrudedProfile::new(p, fx(1.0)).section();
    let (area2, c2, ixx2, izz2, _) = ExtrudedProfile::new(q, fx(1.0)).section();
    assert_eq!(area2, area);
    assert_eq!(c2, Vector2::new(c.y, c.x));
    assert_eq!((ixx2, izz2), (izz, ixx));
}

#[test]
fn a_whole_polygon_moves_by_whole_numbers() {
    let place = |u: f64, w: f64| -> Vec<Vector2<Fixed>> {
        [(0.0, 0.0), (5.0, 1.0), (4.0, 6.0), (1.0, 4.0)]
            .iter()
            .map(|&(x, y)| Vector2::new(fx(x + u), fx(y + w)))
            .collect()
    };
    let (area, c) = polygon_area_centroid(&place(0.0, 0.0));
    let (area2, d) = polygon_area_centroid(&place(7.0, -11.0));
    assert_eq!(area2, area);
    assert!((d.x.raw - (c.x.raw + 7 * ONE)).abs() <= 1);
    assert!((d.y.raw - (c.y.raw - 11 * ONE)).abs() <= 1);
}

#[test]
fn arc_tangents_are_within_a_few_steps() {
    for i in 0..=200 {
        let t = i as f64 / 200.0;
        let a = fx(t).atan2(fx(1.0));
        assert!((value(a) - t.atan()).abs() < 40.0 / ONE as f64, "{t}");
    }
}
