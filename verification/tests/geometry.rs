use lumen2d::fx::ONE;
use lumen2d::vec2::Vec2;
use lumen2d::shape::{Circle, Polygon, Shape};
use rand::Rng;

fn v(x: i64, y: i64) -> Vec2 {
    Vec2 { x, y }
}

#[test]
fn circle_ray_through_center_hits_at_radius() {
    let c = Circle { center: v(5 * ONE, 0), r: ONE };
    // Entering from the left: the far intersection lies one radius past
    // the center.
    let hit = c.intersect(v(3 * ONE, 0), v(ONE, 0)).unwrap();
    assert_eq!(hit.point, v(6 * ONE, 0));
    assert_eq!(hit.normal, v(ONE, 0));
    assert_eq!(hit.point.dist_sq(c.center), c.r * c.r);
    // Entering from the right.
    let hit2 = c.intersect(v(7 * ONE, 0), v(-ONE, 0)).unwrap();
    assert_eq!(hit2.point, v(4 * ONE, 0));
    assert_eq!(hit2.point.dist_sq(c.center), c.r * c.r);
}

#[test]
fn circle_inside_center_and_outside_far_points() {
    let c = Circle { center: v(5 * ONE, 0), r: ONE };
    assert!(c.is_inside(c.center));
    assert!(!c.is_inside(v(7 * ONE, 0)));
    assert!(!c.is_inside(v(5 * ONE, -3 * ONE)));
    // A point exactly on the boundary is not strictly inside.
    assert!(!c.is_inside(v(6 * ONE, 0)));
}

#[test]
fn circle_miss_returns_none() {
    let c = Circle { center: v(5 * ONE, 0), r: ONE };
    assert!(c.intersect(v(0, 3 * ONE), v(ONE, 0)).is_none());
    // Pointing away from the circle: both roots lie behind the origin.
    assert!(c.intersect(v(3 * ONE, 0), v(-ONE, 0)).is_none());
}

#[test]
fn polygon_vertices_not_strictly_inside() {
    let pg = Polygon::new(vec![v(0, 0), v(ONE, 0), v(0, ONE)]);
    for i in 0..3 {
        assert!(!pg.is_inside(pg.points[i]));
    }
    let rect = Polygon::rectangle(v(0, 0), 0, 2 * ONE, 2 * ONE);
    for i in 0..4 {
        assert!(!rect.is_inside(rect.points[i]));
    }
}

#[test]
fn rectangle_contains_center_not_far_points() {
    let rect = Polygon::rectangle(v(0, 0), 0, 2 * ONE, 2 * ONE);
    assert_eq!(rect.points.len(), 4);
    assert!(rect.is_inside(v(0, 0)));
    assert!(!rect.is_inside(v(10 * ONE, 0)));
    assert!(!rect.is_inside(v(0, -10 * ONE)));
    assert!(!rect.is_inside(v(3 * ONE, 3 * ONE)));
}

#[test]
fn rectangle_unrotated_corners() {
    // cos(0) is 65535 in this arithmetic, so the half-extents shrink by
    // one ulp under the rotation.
    let rect = Polygon::rectangle(v(0, 0), 0, 2 * ONE, 2 * ONE);
    assert_eq!(rect.points[0], v(65535, -65535));
    assert_eq!(rect.points[1], v(-65535, -65535));
    assert_eq!(rect.points[2], v(-65535, 65535));
    assert_eq!(rect.points[3], v(65535, 65535));
}

#[test]
fn ngon_center_inside_for_small_orders() {
    for n in [3u32, 4, 5, 8, 16] {
        let pg = Polygon::ngon(v(0, 0), ONE, n);
        assert!(pg.is_inside(v(0, 0)), "center left a {}-gon", n);
        assert!(!pg.is_inside(v(3 * ONE, 0)));
    }
}

#[test]
fn rectangle_center_inside_when_rotated() {
    for theta in [
        0,
        1000,
        lumen2d::fx::HALF_PI_FX,
        lumen2d::fx::PI_FX,
        lumen2d::fx::PI_FX + lumen2d::fx::HALF_PI_FX,
    ] {
        let rect = Polygon::rectangle(v(0, 0), theta, ONE, ONE / 2);
        assert!(rect.is_inside(v(0, 0)), "center left the box at theta {}", theta);
    }
}

#[test]
fn ngon_square_vertices() {
    let pg = Polygon::ngon(v(0, 0), ONE, 4);
    assert_eq!(pg.points.len(), 4);
    assert_eq!(pg.points[0], v(65535, 0));
    assert_eq!(pg.points[1], v(0, -65535));
    assert_eq!(pg.points[2], v(-65535, 0));
    assert_eq!(pg.points[3], v(0, 65535));
}

#[test]
fn polygon_ray_hits_nearest_edge() {
    let rect = Polygon::rectangle(v(0, 0), 0, 2 * ONE, 2 * ONE);
    let hit = rect.intersect(v(-3 * ONE, 0), v(ONE, 0)).unwrap();
    assert_eq!(hit.point, v(-65535, 0));
    assert_eq!(hit.normal, v(-ONE, 0));
}

#[test]
fn union_is_inside_matches_logical_or() {
    let c1 = Circle { center: v(0, 0), r: 100_000 };
    let c2 = Circle { center: v(80_000, 0), r: 100_000 };
    let u = Shape::union_of(Shape::Circle(c1), Shape::Circle(c2));
    let mut rng = rand::thread_rng();
    for _ in 0..1000 {
        let p = v(rng.gen_range(-200_000..200_000), rng.gen_range(-200_000..200_000));
        assert_eq!(u.is_inside(p), c1.is_inside(p) || c2.is_inside(p));
    }
}

#[test]
fn intersection_is_inside_matches_logical_and() {
    let c1 = Circle { center: v(0, 0), r: 100_000 };
    let c2 = Circle { center: v(80_000, 0), r: 100_000 };
    let s = Shape::intersection_of(Shape::Circle(c1), Shape::Circle(c2));
    let mut rng = rand::thread_rng();
    for _ in 0..1000 {
        let p = v(rng.gen_range(-200_000..200_000), rng.gen_range(-200_000..200_000));
        assert_eq!(s.is_inside(p), c1.is_inside(p) && c2.is_inside(p));
    }
}

#[test]
fn intersection_of_disjoint_circles_has_empty_interior() {
    let c1 = Circle { center: v(0, 0), r: 100_000 };
    let c2 = Circle { center: v(300_000, 0), r: 100_000 };
    let s = Shape::intersection_of(Shape::Circle(c1), Shape::Circle(c2));
    let mut rng = rand::thread_rng();
    for _ in 0..1000 {
        let p = v(rng.gen_range(-400_000..400_000), rng.gen_range(-400_000..400_000));
        assert!(!s.is_inside(p));
    }
}

#[test]
fn union_ray_returns_nearer_surface() {
    let near = Circle { center: v(3 * ONE, 0), r: ONE };
    let far = Circle { center: v(8 * ONE, 0), r: ONE };
    let u = Shape::union_of(Shape::Circle(near), Shape::Circle(far));
    let hit = u.intersect(v(-ONE, 0), v(ONE, 0)).unwrap();
    // The nearer circle's far boundary along the ray.
    assert_eq!(hit.point, v(4 * ONE, 0));
}

#[test]
fn intersection_ray_accepts_boundary_inside_other_operand() {
    let c1 = Circle { center: v(0, 0), r: 2 * ONE };
    let c2 = Circle { center: v(2 * ONE, 0), r: 2 * ONE };
    let s = Shape::intersection_of(Shape::Circle(c1), Shape::Circle(c2));
    // Both operands are struck; only the first operand's boundary point
    // lies inside the other, so it is the lens boundary.
    let hit = s.intersect(v(-4 * ONE, 0), v(ONE, 0)).unwrap();
    assert_eq!(hit.point, v(2 * ONE, 0));
}

#[test]
fn intersection_ray_rejects_boundary_outside_other_operand() {
    let c1 = Circle { center: v(0, 0), r: 2 * ONE };
    let c2 = Circle { center: v(2 * ONE, 0), r: 2 * ONE };
    let s = Shape::intersection_of(Shape::Circle(c1), Shape::Circle(c2));
    // This ray strikes only the first circle, far from the lens: no
    // boundary point of the intersection lies on it.
    assert!(s.intersect(v(-ONE, -4 * ONE), v(0, ONE)).is_none());
}

#[test]
fn random_rays_against_union_agree_with_operands() {
    let c1 = Circle { center: v(0, 0), r: 100_000 };
    let c2 = Circle { center: v(80_000, 0), r: 100_000 };
    let u = Shape::union_of(Shape::Circle(c1), Shape::Circle(c2));
    let mut rng = rand::thread_rng();
    for _ in 0..200 {
        let p = v(rng.gen_range(-400_000..400_000), rng.gen_range(-400_000..400_000));
        let d = v(rng.gen_range(-ONE..=ONE), rng.gen_range(-ONE..=ONE));
        if d.x == 0 && d.y == 0 {
            continue;
        }
        let d = d.normalize();
        let h1 = c1.intersect(p, d);
        let h2 = c2.intersect(p, d);
        let hu = u.intersect(p, d);
        match (h1, h2) {
            (None, None) => assert!(hu.is_none()),
            (Some(a), None) => assert_eq!(hu, Some(a)),
            (None, Some(b)) => assert_eq!(hu, Some(b)),
            (Some(a), Some(b)) => {
                let da = p.dist_sq(a.point);
                let db = p.dist_sq(b.point);
                let expect = if da < db { a } else { b };
                assert_eq!(hu, Some(expect));
            }
        }
    }
}
