use lumen2d::fx::ONE;
use lumen2d::vec2::Vec2;
use lumen2d::shape::{Circle, Shape};
use lumen2d::material::{Color, Material, MaterialKind};
use lumen2d::scene::{Entity, Scene};
use lumen2d::render::{beer_lambert, trace, sample};

fn v(x: i64, y: i64) -> Vec2 {
    Vec2 { x, y }
}

fn emissive(emissivity: Color) -> Material {
    Material {
        kind: MaterialKind::Emissive,
        absorptivity: Color { r: ONE, g: ONE, b: ONE },
        eta: 0,
        emissivity,
    }
}

fn circle_entity(center: Vec2, r: i64, m: Material) -> Entity {
    Entity { shape: Shape::Circle(Circle { center, r }), material: m }
}

#[test]
fn beer_lambert_no_absorption_is_unit() {
    let t = beer_lambert(Color::black(), 5 * ONE);
    assert_eq!(t, Color { r: ONE, g: ONE, b: ONE });
    let t0 = beer_lambert(Color { r: ONE, g: ONE, b: ONE }, 0);
    assert_eq!(t0, Color { r: ONE, g: ONE, b: ONE });
}

#[test]
fn beer_lambert_unit_coefficient_unit_distance() {
    // exp(-1) in this arithmetic.
    let t = beer_lambert(Color { r: ONE, g: ONE, b: ONE }, ONE);
    assert_eq!(t, Color { r: 24_098, g: 24_098, b: 24_098 });
}

#[test]
fn trace_escaping_ray_is_black() {
    let scene = Scene {
        entities: vec![circle_entity(v(5 * ONE, 0), ONE, emissive(Color { r: ONE, g: ONE, b: ONE }))],
    };
    let mut rng = rand::thread_rng();
    let c = trace(&scene, v(0, 0), v(-ONE, 0), &mut rng, 0, 6);
    assert_eq!(c, Color::black());
}

#[test]
fn trace_direct_emissive_hit_returns_radiance() {
    let scene = Scene {
        entities: vec![circle_entity(
            v(5 * ONE, 0),
            ONE,
            emissive(Color { r: 5 * ONE, g: 5 * ONE, b: 5 * ONE }),
        )],
    };
    let mut rng = rand::thread_rng();
    let c = trace(&scene, v(3 * ONE, 0), v(ONE, 0), &mut rng, 0, 6);
    assert_eq!(c, Color { r: 5 * ONE, g: 5 * ONE, b: 5 * ONE });
}

#[test]
fn trace_depth_ceiling_contributes_nothing() {
    let scene = Scene {
        entities: vec![circle_entity(
            v(5 * ONE, 0),
            ONE,
            emissive(Color { r: 5 * ONE, g: 5 * ONE, b: 5 * ONE }),
        )],
    };
    let mut rng = rand::thread_rng();
    let c = trace(&scene, v(3 * ONE, 0), v(ONE, 0), &mut rng, 0, 0);
    assert_eq!(c, Color::black());
}

#[test]
fn emissive_circle_estimate_converges_to_its_radiance() {
    // From the center of an emissive circle every path strikes the circle
    // immediately, so the stratified estimate over 1024 samples is exact.
    let radiance = Color { r: 5 * ONE, g: 5 * ONE, b: 5 * ONE };
    let scene = Scene { entities: vec![circle_entity(v(ONE, -ONE), ONE / 2, emissive(radiance))] };
    let mut rng = rand::thread_rng();
    let c = sample(&scene, &mut rng, v(ONE, -ONE), 1024, 6);
    assert_eq!(c, radiance);
}

#[test]
fn black_scene_samples_to_exact_black() {
    // A black directional emitter is just as light-free as a plain one.
    let dark_directional = Material {
        kind: MaterialKind::DirectionalEmissive,
        absorptivity: Color { r: ONE, g: ONE, b: ONE },
        eta: 0,
        emissivity: Color::black(),
    };
    let scene = Scene {
        entities: vec![
            circle_entity(v(0, 0), ONE, emissive(Color::black())),
            circle_entity(v(3 * ONE, 0), ONE, emissive(Color::black())),
            circle_entity(v(0, 3 * ONE), ONE, dark_directional),
        ],
    };
    let mut rng = rand::thread_rng();
    for &n in &[1u32, 7, 64, 256] {
        let c = sample(&scene, &mut rng, v(ONE / 2, 0), n, 6);
        assert_eq!(c, Color::black());
    }
    let t = trace(&scene, v(10 * ONE, 10 * ONE), v(-ONE, 0), &mut rng, 0, 6);
    assert_eq!(t, Color::black());
}

#[test]
fn scene_nearest_hit_picks_closer_entity() {
    let near = circle_entity(v(3 * ONE, 0), ONE, emissive(Color::black()));
    let far = circle_entity(v(8 * ONE, 0), ONE, emissive(Color::black()));
    let scene = Scene { entities: vec![far, near] };
    let (idx, it) = scene.intersect_closest(v(-ONE, 0), v(ONE, 0)).unwrap();
    assert_eq!(idx, 1);
    assert_eq!(it.point, v(4 * ONE, 0));
}

#[test]
fn scene_equidistant_hits_keep_first_entity() {
    let a = circle_entity(v(3 * ONE, 0), ONE, emissive(Color::black()));
    let b = circle_entity(v(3 * ONE, 0), ONE, emissive(Color::black()));
    let scene = Scene { entities: vec![a, b] };
    let (idx, _) = scene.intersect_closest(v(-ONE, 0), v(ONE, 0)).unwrap();
    assert_eq!(idx, 0);
}

#[test]
fn scene_miss_returns_none() {
    let scene = Scene { entities: vec![circle_entity(v(5 * ONE, 0), ONE, emissive(Color::black()))] };
    assert!(scene.intersect_closest(v(0, 3 * ONE), v(ONE, 0)).is_none());
}

#[test]
fn dielectric_hit_attenuates_by_beer_lambert() {
    // A dielectric circle in an otherwise empty scene: whatever the path
    // does inside, every channel stays within the transmittance bound of
    // one unit, and with full absorptivity the result is heavily damped.
    let glass = Material {
        kind: MaterialKind::Dielectric,
        absorptivity: Color { r: 40 * ONE, g: 40 * ONE, b: 40 * ONE },
        eta: 117_964,
        emissivity: Color::black(),
    };
    let scene = Scene {
        entities: vec![
            circle_entity(v(5 * ONE, 0), ONE, glass),
            circle_entity(v(12 * ONE, 0), ONE, emissive(Color { r: ONE, g: ONE, b: ONE })),
        ],
    };
    let mut rng = rand::thread_rng();
    for _ in 0..50 {
        let c = trace(&scene, v(3 * ONE, 0), v(ONE, 0), &mut rng, 0, 6);
        // At least two units of absorptive travel: exp(-80) is zero in
        // this arithmetic, and no channel can exceed the source.
        assert!(c.r <= ONE && c.g <= ONE && c.b <= ONE);
        assert!(c.r >= 0 && c.g >= 0 && c.b >= 0);
    }
}
