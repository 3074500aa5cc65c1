use lumen2d::fx::ONE;
use lumen2d::vec2::Vec2;
use lumen2d::material::{Color, Material, MaterialKind, SampleResult, sample_mirror,
    diffuse_direction, dielectric_direction, dielectric_reflectance, transform_coords};

fn v(x: i64, y: i64) -> Vec2 {
    Vec2 { x, y }
}

#[test]
fn mirror_about_vertical_normal_flips_y() {
    let wo = sample_mirror(v(0, -ONE), v(0, ONE));
    assert_eq!(wo, v(0, ONE));
    let wo2 = sample_mirror(v(ONE, 0), v(0, ONE));
    assert_eq!(wo2, v(ONE, 0));
}

#[test]
fn mirror_double_reflection_returns_original() {
    let n = v(0, ONE);
    // One reflection first normalizes the direction; after that the double
    // reflection is the identity exactly.
    let r1 = sample_mirror(v(30_000, -40_000), n);
    assert_eq!(r1, v(39_321, 52_428));
    let r2 = sample_mirror(r1, n);
    assert_eq!(r2, v(39_321, -52_428));
    let r3 = sample_mirror(r2, n);
    assert_eq!(r3, r1);
}

#[test]
fn mirror_double_reflection_tilted_normal_within_tolerance() {
    // A non-axis normal: renormalization may move each component by a few
    // ulps, but the double reflection returns the original direction.
    let n = v(46_341, 46_341).normalize();
    let w = v(60_000, -26_000).normalize();
    let r2 = sample_mirror(sample_mirror(w, n), n);
    assert!((r2.x - w.x).abs() <= 4, "x drifted: {} vs {}", r2.x, w.x);
    assert!((r2.y - w.y).abs() <= 4, "y drifted: {} vs {}", r2.y, w.y);
}

#[test]
fn dielectric_eta_one_always_transmits_unchanged() {
    for &w in &[v(30_000, -40_000), v(30_000, 40_000), v(ONE, 0), v(0, -ONE), v(-ONE, 0)] {
        for &xi in &[0i64, 1, 1000, ONE / 2, ONE] {
            assert_eq!(dielectric_direction(w, ONE, xi), w);
        }
    }
}

#[test]
fn dielectric_reflectance_eta_one_is_zero() {
    for &cosi in &[1i64, 100, ONE / 2, ONE, 2 * ONE] {
        assert_eq!(dielectric_reflectance(cosi, ONE), 0);
    }
    // Grazing incidence reflects fully.
    assert_eq!(dielectric_reflectance(0, ONE), ONE);
}

#[test]
fn dielectric_normal_incidence_reflectance() {
    // eta = 1.8: the analytic normal-incidence reflectance is
    // ((eta-1)/(eta+1))^2, about 0.0816.
    let eta = 117_964;
    assert_eq!(dielectric_reflectance(ONE, eta), 5349);
}

#[test]
fn dielectric_total_internal_reflection_mirrors() {
    // Traveling toward the interface inside the denser medium at a shallow
    // angle: the refraction branch must fall back to reflection even when
    // the stochastic sample says transmit.
    let eta = 117_964;
    let w = v(65_000, -8_000);
    assert_eq!(dielectric_direction(w, eta, ONE), v(65_000, 8_000));
}

#[test]
fn dielectric_oblique_refraction_value() {
    let eta = 117_964;
    assert_eq!(dielectric_direction(v(65_000, 8_000), eta, ONE), v(36_111, 54_672));
}

#[test]
fn diffuse_direction_extremes_and_midpoint() {
    // The tangential component is 2 xi - 1; the normal component is never
    // negative: the lobe covers only the outward half circle.
    assert_eq!(diffuse_direction(0), v(-ONE, 0));
    assert_eq!(diffuse_direction(ONE / 2), v(0, ONE));
    assert_eq!(diffuse_direction(ONE), v(ONE, 0));
    for xi in [0, 1, 1000, ONE / 4, ONE / 2, ONE - 1, ONE] {
        assert!(diffuse_direction(xi).y >= 0);
    }
}

#[test]
fn diffuse_samples_stay_unit_length() {
    let mut rng = rand::thread_rng();
    let n = v(0, ONE);
    for _ in 0..200 {
        let wo = lumen2d::material::sample_diffuse(v(0, -ONE), n, &mut rng);
        assert!(wo.x.abs() <= ONE && wo.y.abs() <= ONE);
        assert!(!(wo.x == 0 && wo.y == 0));
    }
}

#[test]
fn transform_coords_in_normal_frame() {
    let (local, t) = transform_coords(v(0, -ONE), v(0, ONE));
    assert_eq!(t, v(ONE, 0));
    assert_eq!(local, v(0, -ONE));
    let (local2, _) = transform_coords(v(ONE, 0), v(ONE, 0));
    // Against a horizontal normal the x-axis becomes the local normal.
    assert_eq!(local2, v(0, ONE));
}

#[test]
fn emissive_material_returns_its_radiance() {
    let m = Material {
        kind: MaterialKind::Emissive,
        absorptivity: Color { r: ONE, g: ONE, b: ONE },
        eta: 0,
        emissivity: Color { r: 5 * ONE, g: 3 * ONE, b: ONE },
    };
    let mut rng = rand::thread_rng();
    let r = m.sample(v(0, -ONE), v(0, ONE), &mut rng);
    assert_eq!(r, SampleResult::Node(Color { r: 5 * ONE, g: 3 * ONE, b: ONE }));
}

#[test]
fn lambert_back_side_terminates_black() {
    let m = Material {
        kind: MaterialKind::Lambert,
        absorptivity: Color::black(),
        eta: 0,
        emissivity: Color::black(),
    };
    let mut rng = rand::thread_rng();
    // The ray leaves along the normal: a degenerate back-side strike.
    let r = m.sample(v(0, ONE), v(0, ONE), &mut rng);
    assert_eq!(r, SampleResult::Node(Color::black()));
}

#[test]
fn lambert_front_side_continues_with_unit_weight() {
    let m = Material {
        kind: MaterialKind::Lambert,
        absorptivity: Color::black(),
        eta: 0,
        emissivity: Color::black(),
    };
    let mut rng = rand::thread_rng();
    match m.sample(v(0, -ONE), v(0, ONE), &mut rng) {
        SampleResult::Edge(wo, w) => {
            assert_eq!(w, ONE);
            assert!(wo.x.abs() <= ONE && wo.y.abs() <= ONE);
        }
        SampleResult::Node(_) => panic!("front-side diffuse strike must continue"),
    }
}

#[test]
fn directional_emissive_shines_only_along_normal() {
    let m = Material {
        kind: MaterialKind::DirectionalEmissive,
        absorptivity: Color::black(),
        eta: 0,
        emissivity: Color { r: ONE, g: ONE, b: ONE },
    };
    let mut rng = rand::thread_rng();
    let head_on = m.sample(v(0, -ONE), v(0, ONE), &mut rng);
    assert_eq!(head_on, SampleResult::Node(Color { r: ONE, g: ONE, b: ONE }));
    let oblique = m.sample(v(46_341, -46_341).normalize(), v(0, ONE), &mut rng);
    assert_eq!(oblique, SampleResult::Node(Color::black()));
}
