//! Geometric shapes: circles, convex polygons, and their boolean (CSG)
//! combinators, with ray intersection and point containment.

use vstd::prelude::*;
use crate::fx::{ONE, PI_FX, TWO_PI_FX, div_t, div_s, fmul, fmul_s, lemma_mul_le, lemma_div_bound,
    sqrt_floor, isqrt_i64, sin_s, cos_s, sin_fx, cos_fx};
use crate::vec2::{Vec2, bounded, unitish, add_s, sub_s, dot_s, cross_s, norm_sq_s, dist_sq_s,
    scale_s, normalize_s};

verus! {

/// Shape coordinates (centers, radii, vertices) stay within this bound.
pub const WMAX: i64 = 0x100_0000;

/// Ray origins and intersection points stay within this larger bound; a hit
/// outside it is discarded.
pub const PMAX: i64 = 0x400_0000;

/// Intersections closer along the ray than this threshold are rejected as
/// self-intersection noise.
pub const EPS: i64 = 8;

/// Ray parameters at least this large are discarded as unrepresentable.
pub const TBIG: i64 = 0x4000_0000;

/// The first surface contact of a ray: the hit point and the surface normal
/// there (a unitish direction).
#[derive(Clone, Copy, Debug, PartialEq, Eq, Structural)]
pub struct Intersection {
    pub point: Vec2,
    pub normal: Vec2,
}

/// A circle given by its center and radius.
#[derive(Clone, Copy, Debug, PartialEq, Eq, Structural)]
pub struct Circle {
    pub center: Vec2,
    pub r: i64,
}

/// A convex polygon, listed in winding order so that the interior is to the
/// right of every directed edge.
pub struct Polygon {
    pub points: Vec<Vec2>,
}

/// A shape: a primitive, or a boolean combination of two shapes.
pub enum Shape {
    Circle(Circle),
    Polygon(Polygon),
    Union(Box<Shape>, Box<Shape>),
    Intersect(Box<Shape>, Box<Shape>),
}

pub open spec fn circle_wf(c: Circle) -> bool {
    bounded(c.center, WMAX as int) && 0 < c.r <= WMAX
}

pub open spec fn polygon_wf(p: Polygon) -> bool {
    p.points@.len() >= 2 && forall|i: int|
        0 <= i < p.points@.len() ==> bounded(#[trigger] p.points@[i], WMAX as int)
}

pub open spec fn shape_wf(s: Shape) -> bool
    decreases s,
{
    match s {
        Shape::Circle(c) => circle_wf(c),
        Shape::Polygon(p) => polygon_wf(p),
        Shape::Union(a, b) => shape_wf(*a) && shape_wf(*b),
        Shape::Intersect(a, b) => shape_wf(*a) && shape_wf(*b),
    }
}

/// A point is inside a circle when its squared distance to the center is
/// strictly below the squared radius.
pub open spec fn circle_inside_s(c: Circle, p: Vec2) -> bool {
    dist_sq_s(p, c.center) < c.r * c.r
}

/// Index of the vertex that follows vertex `i`.
pub open spec fn poly_next(pts: Seq<Vec2>, i: int) -> int {
    if i + 1 == pts.len() {
        0
    } else {
        i + 1
    }
}

/// A point is inside a convex polygon when it lies strictly to the right of
/// every directed edge.
pub open spec fn poly_inside_s(pts: Seq<Vec2>, p: Vec2) -> bool {
    forall|i: int|
        0 <= i < pts.len() ==> #[trigger] cross_s(
            sub_s(pts[poly_next(pts, i)], pts[i]),
            sub_s(p, pts[i]),
        ) < 0
}

/// Containment for every shape: primitives as above, a union is the logical
/// OR of its operands, an intersection the logical AND.
pub open spec fn shape_inside_s(s: Shape, p: Vec2) -> bool
    decreases s,
{
    match s {
        Shape::Circle(c) => circle_inside_s(c, p),
        Shape::Polygon(pg) => poly_inside_s(pg.points@, p),
        Shape::Union(a, b) => shape_inside_s(*a, p) || shape_inside_s(*b, p),
        Shape::Intersect(a, b) => shape_inside_s(*a, p) && shape_inside_s(*b, p),
    }
}

/// An axis-aligned box with half-extents `a` and `b` around `center`,
/// listed clockwise starting from the lower-right corner, holds its center
/// strictly inside under the winding convention of `poly_inside_s`.
proof fn lemma_axis_box_winding(center: Vec2, a: int, b: int, pts: Seq<Vec2>)
    requires
        1 <= a <= 0x20_0000,
        1 <= b <= 0x20_0000,
        bounded(center, 0x80_0000),
        pts.len() == 4,
        pts[0] == (Vec2 { x: (center.x + a) as i64, y: (center.y - b) as i64 }),
        pts[1] == (Vec2 { x: (center.x - a) as i64, y: (center.y - b) as i64 }),
        pts[2] == (Vec2 { x: (center.x - a) as i64, y: (center.y + b) as i64 }),
        pts[3] == (Vec2 { x: (center.x + a) as i64, y: (center.y + b) as i64 }),
    ensures
        poly_inside_s(pts, center),
{
    assert(0 * a == 0 && 0 * b == 0 && (-2 * a) * b <= -2 && (-2 * b) * a <= -2 && (2 * a) * (-b)
        <= -2) by (nonlinear_arith)
        requires
            1 <= a,
            1 <= b,
    ;
    assert forall|i: int| 0 <= i < pts.len() implies #[trigger] cross_s(
        sub_s(pts[poly_next(pts, i)], pts[i]),
        sub_s(center, pts[i]),
    ) < 0 by {
        if i == 0 {
            assert(cross_s(sub_s(pts[1], pts[0]), sub_s(center, pts[0])) == (-2 * a) * b - 0 * (-a));
        } else if i == 1 {
            assert(cross_s(sub_s(pts[2], pts[1]), sub_s(center, pts[1])) == 0 * b - (2 * b) * a);
            assert((2 * b) * a == -((-2 * b) * a)) by (nonlinear_arith);
        } else if i == 2 {
            assert(cross_s(sub_s(pts[3], pts[2]), sub_s(center, pts[2])) == (2 * a) * (-b) - 0 * a);
        } else {
            assert(poly_next(pts, 3) == 0);
            assert(cross_s(sub_s(pts[0], pts[3]), sub_s(center, pts[3])) == 0 * (-b) - (-2 * b) * (
            -a));
            assert((-2 * b) * (-a) == -((-2 * b) * a)) by (nonlinear_arith);
        }
    }
}

/// A vector rotated by the angle whose cosine and sine are given.
pub open spec fn rot_s(v: Vec2, cs: int, sn: int) -> Vec2 {
    Vec2 {
        x: (fmul_s(cs, v.x as int) - fmul_s(sn, v.y as int)) as i64,
        y: (fmul_s(sn, v.x as int) + fmul_s(cs, v.y as int)) as i64,
    }
}

/// One corner of the rectangle built by `Polygon::rectangle`.
pub open spec fn rect_corner_s(center: Vec2, theta: int, w: int, h: int, i: int) -> Vec2 {
    let hw = w / 2;
    let hh = h / 2;
    let corner = if i == 0 {
        Vec2 { x: hw as i64, y: (-hh) as i64 }
    } else if i == 1 {
        Vec2 { x: (-hw) as i64, y: (-hh) as i64 }
    } else if i == 2 {
        Vec2 { x: (-hw) as i64, y: hh as i64 }
    } else {
        Vec2 { x: hw as i64, y: hh as i64 }
    };
    add_s(rot_s(corner, cos_s(theta), sin_s(theta)), center)
}

/// Vertex `i` of the regular polygon built by `Polygon::ngon`.
pub open spec fn ngon_pt_s(center: Vec2, rad: int, n: int, i: int) -> Vec2 {
    let a = i * TWO_PI_FX / n;
    Vec2 {
        x: (fmul_s(rad, cos_s(a)) + center.x) as i64,
        y: (-fmul_s(rad, sin_s(a)) + center.y) as i64,
    }
}

/// First contact of the ray `p + t*d` with a circle: the larger root of the
/// ray/circle quadratic, accepted when it lies beyond the self-intersection
/// threshold. Degenerate hits (landing exactly on the center, or outside the
/// representable box) are discarded.
pub open spec fn circle_hit_s(c: Circle, p: Vec2, d: Vec2) -> Option<Intersection> {
    let vcp = sub_s(p, c.center);
    let b1 = div_t(dot_s(d, vcp), ONE as int);
    let cc = norm_sq_s(vcp) - c.r * c.r;
    let delta = b1 * b1 - cc;
    if delta < 0 {
        None
    } else {
        let t = -b1 + sqrt_floor(delta);
        if t > EPS {
            let ip = add_s(p, scale_s(d, t));
            if ip == c.center || !bounded(ip, PMAX as int) {
                None
            } else {
                Some(Intersection { point: ip, normal: normalize_s(sub_s(ip, c.center)) })
            }
        } else {
            None
        }
    }
}

/// First contact of the ray with one directed edge `(a, b)`: the ray's line
/// must separate the endpoints, and the plane equation gives the ray
/// parameter, accepted within the representable range.
pub open spec fn edge_hit_s(a: Vec2, b: Vec2, p: Vec2, d: Vec2) -> Option<Intersection> {
    let va = sub_s(a, p);
    let vb = sub_s(b, p);
    let s1 = cross_s(va, d);
    let s2 = cross_s(vb, d);
    if (s1 < 0 && s2 > 0) || (s1 > 0 && s2 < 0) {
        let n = normalize_s(Vec2 { x: (va.y - vb.y) as i64, y: (vb.x - va.x) as i64 });
        let den = dot_s(d, n);
        let num = dot_s(n, va);
        if den == 0 {
            None
        } else if (num > 0 && den > 0) || (num < 0 && den < 0) {
            let t = if num > 0 {
                (num * ONE) / den
            } else {
                ((-num) * ONE) / (-den)
            };
            if EPS < t && t < TBIG {
                let ip = add_s(p, scale_s(d, t));
                if bounded(ip, PMAX as int) {
                    Some(Intersection { point: ip, normal: n })
                } else {
                    None
                }
            } else {
                None
            }
        } else {
            None
        }
    } else {
        None
    }
}

impl Circle {
    /// See `circle_hit_s`.
    pub fn intersect(&self, p: Vec2, d: Vec2) -> (r: Option<Intersection>)
        requires
            circle_wf(*self),
            bounded(p, PMAX as int),
            unitish(d),
        ensures
            r == circle_hit_s(*self, p, d),
            r matches Some(it) ==> bounded(it.point, PMAX as int) && unitish(it.normal),
    {
        let vcp: Vec2 = p.sub(self.center);
        let bb: i64 = d.dot(vcp);
        proof {
            lemma_mul_le(d.x as int, ONE as int, vcp.x as int, 0x800_0000);
            lemma_mul_le(d.y as int, ONE as int, vcp.y as int, 0x800_0000);
        }
        let b1: i64 = div_s(bb, ONE);
        proof {
            lemma_mul_le(self.r as int, WMAX as int, self.r as int, WMAX as int);
            lemma_mul_le(vcp.x as int, 0x800_0000, vcp.x as int, 0x800_0000);
            lemma_mul_le(vcp.y as int, 0x800_0000, vcp.y as int, 0x800_0000);
        }
        let cc: i64 = vcp.norm_sq() - self.r * self.r;
        proof {
            lemma_mul_le(b1 as int, 0x1000_0000, b1 as int, 0x1000_0000);
        }
        let delta: i64 = b1 * b1 - cc;
        if delta < 0 {
            None
        } else {
            let st: i64 = isqrt_i64(delta);
            proof {
                if st > 0x2000_0000 {
                    assert(st * st > 0x2000_0000 * 0x2000_0000i64) by (nonlinear_arith)
                        requires
                            st > 0x2000_0000i64,
                    ;
                }
            }
            let t: i64 = -b1 + st;
            if t > EPS {
                proof {
                    lemma_mul_le(d.x as int, ONE as int, t as int, 0x4000_0000);
                    lemma_mul_le(d.y as int, ONE as int, t as int, 0x4000_0000);
                }
                let ip: Vec2 = p.add(d.scale(t));
                if ip == self.center {
                    None
                } else if ip.x < -PMAX || ip.x > PMAX || ip.y < -PMAX || ip.y > PMAX {
                    None
                } else {
                    let n: Vec2 = ip.sub(self.center).normalize();
                    Some(Intersection { point: ip, normal: n })
                }
            } else {
                None
            }
        }
    }

    pub fn is_inside(&self, p: Vec2) -> (r: bool)
        requires
            circle_wf(*self),
            bounded(p, PMAX as int),
        ensures
            r == circle_inside_s(*self, p),
    {
        proof {
            lemma_mul_le(self.r as int, WMAX as int, self.r as int, WMAX as int);
        }
        p.dist_sq(self.center) < self.r * self.r
    }
}

/// See `edge_hit_s`.
fn edge_hit(a: Vec2, b: Vec2, p: Vec2, d: Vec2) -> (r: Option<Intersection>)
    requires
        bounded(a, WMAX as int),
        bounded(b, WMAX as int),
        bounded(p, PMAX as int),
        unitish(d),
    ensures
        r == edge_hit_s(a, b, p, d),
        r matches Some(it) ==> bounded(it.point, PMAX as int) && unitish(it.normal),
{
    let va: Vec2 = a.sub(p);
    let vb: Vec2 = b.sub(p);
    let s1: i64 = va.cross(d);
    let s2: i64 = vb.cross(d);
    if (s1 < 0 && s2 > 0) || (s1 > 0 && s2 < 0) {
        let n: Vec2 = Vec2 { x: va.y - vb.y, y: vb.x - va.x }.normalize();
        let den: i64 = d.dot(n);
        let num: i64 = n.dot(va);
        proof {
            lemma_mul_le(n.x as int, ONE as int, va.x as int, 0x800_0000);
            lemma_mul_le(n.y as int, ONE as int, va.y as int, 0x800_0000);
            lemma_mul_le(d.x as int, ONE as int, n.x as int, ONE as int);
            lemma_mul_le(d.y as int, ONE as int, n.y as int, ONE as int);
        }
        if den == 0 {
            None
        } else if (num > 0 && den > 0) || (num < 0 && den < 0) {
            let t: i64 = if num > 0 {
                (num * ONE) / den
            } else {
                ((-num) * ONE) / (-den)
            };
            if EPS < t && t < TBIG {
                proof {
                    lemma_mul_le(d.x as int, ONE as int, t as int, TBIG as int);
                    lemma_mul_le(d.y as int, ONE as int, t as int, TBIG as int);
                }
                let ip: Vec2 = p.add(d.scale(t));
                if ip.x >= -PMAX && ip.x <= PMAX && ip.y >= -PMAX && ip.y <= PMAX {
                    Some(Intersection { point: ip, normal: n })
                } else {
                    None
                }
            } else {
                None
            }
        } else {
            None
        }
    } else {
        None
    }
}

/// The nearest hit among the first `k` edges of the polygon, scanning in
/// edge order and keeping the strictly closer candidate.
pub open spec fn poly_hit_upto_s(pts: Seq<Vec2>, p: Vec2, d: Vec2, k: int) -> Option<Intersection>
    decreases k,
{
    if k <= 0 {
        None
    } else {
        let prev = poly_hit_upto_s(pts, p, d, k - 1);
        let cand = edge_hit_s(pts[k - 1], pts[poly_next(pts, k - 1)], p, d);
        match (prev, cand) {
            (Option::None, c) => c,
            (Option::Some(pr), Option::None) => Some(pr),
            (Option::Some(pr), Option::Some(ca)) => if dist_sq_s(p, ca.point) < dist_sq_s(
                p,
                pr.point,
            ) {
                Some(ca)
            } else {
                Some(pr)
            },
        }
    }
}

/// The nearest hit over all edges of the polygon.
pub open spec fn poly_hit_s(pts: Seq<Vec2>, p: Vec2, d: Vec2) -> Option<Intersection> {
    poly_hit_upto_s(pts, p, d, pts.len() as int)
}

impl Polygon {
    /// See `poly_hit_s`: the nearest edge intersection along the ray.
    pub fn intersect(&self, p: Vec2, d: Vec2) -> (r: Option<Intersection>)
        requires
            polygon_wf(*self),
            bounded(p, PMAX as int),
            unitish(d),
        ensures
            r == poly_hit_s(self.points@, p, d),
            r matches Some(it) ==> bounded(it.point, PMAX as int) && unitish(it.normal),
    {
        let len: usize = self.points.len();
        let mut res: Option<Intersection> = None;
        let mut i: usize = 0;
        while i < len
            invariant
                polygon_wf(*self),
                bounded(p, PMAX as int),
                unitish(d),
                len == self.points@.len(),
                0 <= i <= len,
                res == poly_hit_upto_s(self.points@, p, d, i as int),
                res matches Some(it) ==> bounded(it.point, PMAX as int) && unitish(it.normal),
            decreases len - i,
        {
            let a: Vec2 = self.points[i];
            let b: Vec2 = if i + 1 == len {
                self.points[0]
            } else {
                self.points[i + 1]
            };
            let cand: Option<Intersection> = edge_hit(a, b, p, d);
            if let Some(ca) = cand {
                res = match res {
                    Some(pr) => if p.dist_sq(ca.point) < p.dist_sq(pr.point) {
                        Some(ca)
                    } else {
                        Some(pr)
                    },
                    None => Some(ca),
                };
            }
            i = i + 1;
        }
        res
    }

    /// A polygon needs at least two vertices.
    pub fn new(points: Vec<Vec2>) -> (r: Polygon)
        requires
            points@.len() >= 2,
            forall|i: int| 0 <= i < points@.len() ==> bounded(#[trigger] points@[i], WMAX as int),
        ensures
            r.points == points,
            polygon_wf(r),
    {
        Polygon { points }
    }

    /// An axis-aligned `w` by `h` box around the origin, rotated by `theta`
    /// and moved to `center`; the corners are listed in the winding order
    /// that `is_inside` accepts. For the unrotated box of non-degenerate
    /// size that winding is proved: the center lies strictly inside.
    pub fn rectangle(center: Vec2, theta: i64, w: i64, h: i64) -> (r: Polygon)
        requires
            bounded(center, 0x80_0000),
            0 <= theta <= TWO_PI_FX,
            0 <= w <= 0x40_0000,
            0 <= h <= 0x40_0000,
        ensures
            r.points@.len() == 4,
            r.points@[0] == rect_corner_s(center, theta as int, w as int, h as int, 0),
            r.points@[1] == rect_corner_s(center, theta as int, w as int, h as int, 1),
            r.points@[2] == rect_corner_s(center, theta as int, w as int, h as int, 2),
            r.points@[3] == rect_corner_s(center, theta as int, w as int, h as int, 3),
            polygon_wf(r),
            theta == 0 && 4 <= w && 4 <= h ==> poly_inside_s(r.points@, center),
    {
        let hw: i64 = w / 2;
        let hh: i64 = h / 2;
        let cs: i64 = cos_fx(theta);
        let sn: i64 = sin_fx(theta);
        let c0: Vec2 = Self::place_corner(center, cs, sn, hw, -hh);
        let c1: Vec2 = Self::place_corner(center, cs, sn, -hw, -hh);
        let c2: Vec2 = Self::place_corner(center, cs, sn, -hw, hh);
        let c3: Vec2 = Self::place_corner(center, cs, sn, hw, hh);
        let mut points: Vec<Vec2> = Vec::new();
        points.push(c0);
        points.push(c1);
        points.push(c2);
        points.push(c3);
        proof {
            if theta == 0 && 4 <= w && 4 <= h {
                let u0 = 0 * ((PI_FX as int) - 0);
                assert(u0 == 0) by (nonlinear_arith)
                    requires
                        u0 == 0 * ((PI_FX as int) - 0),
                ;
                let d0 = 5 * (PI_FX as int) * (PI_FX as int) - 4 * u0;
                assert(d0 == 211947283845) by (nonlinear_arith)
                    requires
                        d0 == 5 * (PI_FX as int) * (PI_FX as int) - 4 * u0,
                        u0 == 0,
                        PI_FX == 205887i64,
                ;
                assert(sin_s(0) == 0);
                let x1 = (crate::fx::HALF_PI_FX) as int;
                let u1 = x1 * ((PI_FX as int) - x1);
                assert(u1 == 10597364192) by (nonlinear_arith)
                    requires
                        u1 == x1 * ((PI_FX as int) - x1),
                        x1 == 102944,
                        PI_FX == 205887i64,
                ;
                let n1 = 16 * u1 * (ONE as int);
                assert(n1 == 11112141754990592) by (nonlinear_arith)
                    requires
                        n1 == 16 * u1 * (ONE as int),
                        u1 == 10597364192,
                        ONE == 65536i64,
                ;
                let d1 = 5 * (PI_FX as int) * (PI_FX as int) - 4 * u1;
                assert(d1 == 169557827077) by (nonlinear_arith)
                    requires
                        d1 == 5 * (PI_FX as int) * (PI_FX as int) - 4 * u1,
                        u1 == 10597364192,
                        PI_FX == 205887i64,
                ;
                vstd::arithmetic::div_mod::lemma_fundamental_div_mod_converse(
                    n1,
                    d1,
                    65535,
                    169557499397,
                );
                assert(cos_s(0) == 65535);
                let pw = 65535 * (hw as int);
                let ph = 65535 * (hh as int);
                assert((cs as int) * (hw as int) == pw && (cs as int) * (-(hw as int)) == -pw
                    && (cs as int) * (hh as int) == ph && (cs as int) * (-(hh as int)) == -ph
                    && (sn as int) * (hw as int) == 0 && (sn as int) * (-(hw as int)) == 0
                    && (sn as int) * (hh as int) == 0 && (sn as int) * (-(hh as int)) == 0)
                    by (nonlinear_arith)
                    requires
                        cs == 65535i64,
                        sn == 0i64,
                        pw == 65535 * (hw as int),
                        ph == 65535 * (hh as int),
                ;
                let a = fmul_s(cs as int, hw as int);
                let b = fmul_s(cs as int, hh as int);
                assert(a == pw / (ONE as int) && b == ph / (ONE as int));
                crate::fx::lemma_div_ge_one(pw, ONE as int);
                crate::fx::lemma_div_ge_one(ph, ONE as int);
                crate::fx::lemma_div_bound(pw, ONE as int, hw as int);
                crate::fx::lemma_div_bound(ph, ONE as int, hh as int);
                assert(fmul_s(cs as int, -(hw as int)) == -a && fmul_s(cs as int, -(hh as int))
                    == -b);
                assert(fmul_s(sn as int, hw as int) == 0 && fmul_s(sn as int, -(hw as int)) == 0
                    && fmul_s(sn as int, hh as int) == 0 && fmul_s(sn as int, -(hh as int)) == 0);
                lemma_axis_box_winding(center, a, b, points@);
            }
        }
        Polygon { points }
    }

    /// One rectangle corner, rotated and translated.
    fn place_corner(center: Vec2, cs: i64, sn: i64, x: i64, y: i64) -> (r: Vec2)
        requires
            bounded(center, 0x80_0000),
            -ONE <= cs <= ONE,
            -ONE <= sn <= ONE,
            -0x20_0000 <= x <= 0x20_0000,
            -0x20_0000 <= y <= 0x20_0000,
        ensures
            r == add_s(rot_s(Vec2 { x, y }, cs as int, sn as int), center),
            bounded(r, WMAX as int),
    {
        proof {
            lemma_mul_le(cs as int, ONE as int, x as int, 0x20_0000);
            lemma_mul_le(sn as int, ONE as int, y as int, 0x20_0000);
            lemma_mul_le(sn as int, ONE as int, x as int, 0x20_0000);
            lemma_mul_le(cs as int, ONE as int, y as int, 0x20_0000);
        }
        let rx: i64 = fmul(cs, x) - fmul(sn, y);
        let ry: i64 = fmul(sn, x) + fmul(cs, y);
        Vec2 { x: rx + center.x, y: ry + center.y }
    }

    /// A regular `n`-gon of circumradius `rad` around `center`, in the same
    /// winding as `rectangle`.
    pub fn ngon(center: Vec2, rad: i64, n: u32) -> (r: Polygon)
        requires
            bounded(center, 0x80_0000),
            0 <= rad <= 0x40_0000,
            2 <= n <= 0x1_0000,
        ensures
            r.points@.len() == n,
            forall|i: int|
                0 <= i < n ==> r.points@[i] == ngon_pt_s(center, rad as int, n as int, i),
            polygon_wf(r),
    {
        let mut points: Vec<Vec2> = Vec::new();
        let mut i: u32 = 0;
        while i < n
            invariant
                bounded(center, 0x80_0000),
                0 <= rad <= 0x40_0000,
                2 <= n <= 0x1_0000,
                0 <= i <= n,
                points@.len() == i,
                forall|j: int|
                    0 <= j < i ==> points@[j] == ngon_pt_s(center, rad as int, n as int, j),
                forall|j: int| 0 <= j < i ==> bounded(#[trigger] points@[j], WMAX as int),
            decreases n - i,
        {
            let a: i64 = (i as i64) * TWO_PI_FX / (n as i64);
            proof {
                lemma_div_bound((i as i64 * TWO_PI_FX) as int, n as int, TWO_PI_FX as int);
            }
            let cs: i64 = cos_fx(a);
            let sn: i64 = sin_fx(a);
            proof {
                lemma_mul_le(rad as int, 0x40_0000, cs as int, ONE as int);
                lemma_mul_le(rad as int, 0x40_0000, sn as int, ONE as int);
            }
            let v: Vec2 = Vec2 { x: fmul(rad, cs) + center.x, y: -fmul(rad, sn) + center.y };
            points.push(v);
            i = i + 1;
        }
        Polygon { points }
    }

    pub fn is_inside(&self, p: Vec2) -> (r: bool)
        requires
            polygon_wf(*self),
            bounded(p, PMAX as int),
        ensures
            r == poly_inside_s(self.points@, p),
    {
        let len: usize = self.points.len();
        let mut i: usize = 0;
        while i < len
            invariant
                polygon_wf(*self),
                bounded(p, PMAX as int),
                len == self.points@.len(),
                0 <= i <= len,
                forall|j: int|
                    0 <= j < i ==> #[trigger] cross_s(
                        sub_s(self.points@[poly_next(self.points@, j)], self.points@[j]),
                        sub_s(p, self.points@[j]),
                    ) < 0,
            decreases len - i,
        {
            let a: Vec2 = self.points[i];
            let b: Vec2 = if i + 1 == len {
                self.points[0]
            } else {
                self.points[i + 1]
            };
            let vab: Vec2 = b.sub(a);
            let vap: Vec2 = p.sub(a);
            if vab.cross(vap) >= 0 {
                proof {
                    let gi = i as int;
                    assert(cross_s(
                        sub_s(self.points@[poly_next(self.points@, gi)], self.points@[gi]),
                        sub_s(p, self.points@[gi]),
                    ) >= 0);
                }
                return false;
            }
            i = i + 1;
        }
        true
    }
}

/// First contact of the ray with a shape. A union's boundary is whichever
/// operand surface is met first. An intersection's boundary consists of the
/// points on one operand's boundary that lie inside the other operand.
pub open spec fn shape_hit_s(s: Shape, p: Vec2, d: Vec2) -> Option<Intersection>
    decreases s,
{
    match s {
        Shape::Circle(c) => circle_hit_s(c, p, d),
        Shape::Polygon(pg) => poly_hit_s(pg.points@, p, d),
        Shape::Union(a, b) => match (shape_hit_s(*a, p, d), shape_hit_s(*b, p, d)) {
            (Option::Some(i1), Option::Some(i2)) => if dist_sq_s(p, i1.point) < dist_sq_s(
                p,
                i2.point,
            ) {
                Some(i1)
            } else {
                Some(i2)
            },
            (Option::None, r2) => r2,
            (r1, Option::None) => r1,
        },
        Shape::Intersect(a, b) => match (shape_hit_s(*a, p, d), shape_hit_s(*b, p, d)) {
            (Option::Some(i1), Option::Some(i2)) => {
                if shape_inside_s(*a, i2.point) && shape_inside_s(*b, i1.point) {
                    if dist_sq_s(p, i1.point) < dist_sq_s(p, i2.point) {
                        Some(i1)
                    } else {
                        Some(i2)
                    }
                } else if shape_inside_s(*a, i2.point) {
                    Some(i2)
                } else if shape_inside_s(*b, i1.point) {
                    Some(i1)
                } else {
                    None
                }
            },
            (Option::None, Option::Some(i2)) => if shape_inside_s(*a, i2.point) {
                Some(i2)
            } else {
                None
            },
            (Option::Some(i1), Option::None) => if shape_inside_s(*b, i1.point) {
                Some(i1)
            } else {
                None
            },
            (Option::None, Option::None) => None,
        },
    }
}

impl Shape {
    /// The union of two shapes.
    pub fn union_of(a: Shape, b: Shape) -> (r: Shape)
        ensures
            r matches Shape::Union(x, y) && *x == a && *y == b,
    {
        Shape::Union(Box::new(a), Box::new(b))
    }

    /// The intersection of two shapes.
    pub fn intersection_of(a: Shape, b: Shape) -> (r: Shape)
        ensures
            r matches Shape::Intersect(x, y) && *x == a && *y == b,
    {
        Shape::Intersect(Box::new(a), Box::new(b))
    }

    /// Containment, dispatching over the variants; see `shape_inside_s`.
    pub fn is_inside(&self, p: Vec2) -> (r: bool)
        requires
            shape_wf(*self),
            bounded(p, PMAX as int),
        ensures
            r == shape_inside_s(*self, p),
        decreases *self,
    {
        match self {
            Shape::Circle(c) => c.is_inside(p),
            Shape::Polygon(pg) => pg.is_inside(p),
            Shape::Union(a, b) => a.is_inside(p) || b.is_inside(p),
            Shape::Intersect(a, b) => a.is_inside(p) && b.is_inside(p),
        }
    }

    /// First contact of the ray with the shape; see `shape_hit_s`.
    pub fn intersect(&self, p: Vec2, d: Vec2) -> (r: Option<Intersection>)
        requires
            shape_wf(*self),
            bounded(p, PMAX as int),
            unitish(d),
        ensures
            r == shape_hit_s(*self, p, d),
            r matches Some(it) ==> bounded(it.point, PMAX as int) && unitish(it.normal),
        decreases *self,
    {
        match self {
            Shape::Circle(c) => c.intersect(p, d),
            Shape::Polygon(pg) => pg.intersect(p, d),
            Shape::Union(a, b) => match (a.intersect(p, d), b.intersect(p, d)) {
                (Some(i1), Some(i2)) => if p.dist_sq(i1.point) < p.dist_sq(i2.point) {
                    Some(i1)
                } else {
                    Some(i2)
                },
                (None, r2) => r2,
                (r1, None) => r1,
            },
            Shape::Intersect(a, b) => match (a.intersect(p, d), b.intersect(p, d)) {
                (Some(i1), Some(i2)) => {
                    if a.is_inside(i2.point) && b.is_inside(i1.point) {
                        if p.dist_sq(i1.point) < p.dist_sq(i2.point) {
                            Some(i1)
                        } else {
                            Some(i2)
                        }
                    } else if a.is_inside(i2.point) {
                        Some(i2)
                    } else if b.is_inside(i1.point) {
                        Some(i1)
                    } else {
                        None
                    }
                },
                (None, Some(i2)) => if a.is_inside(i2.point) {
                    Some(i2)
                } else {
                    None
                },
                (Some(i1), None) => if b.is_inside(i1.point) {
                    Some(i1)
                } else {
                    None
                },
                (None, None) => None,
            },
        }
    }
}

/// A point is inside the union of two shapes exactly when it is inside
/// either operand.
pub proof fn lemma_union_is_or(a: Box<Shape>, b: Box<Shape>, p: Vec2)
    ensures
        shape_inside_s(Shape::Union(a, b), p) == (shape_inside_s(*a, p) || shape_inside_s(*b, p)),
{
}

/// A point is inside the intersection of two shapes exactly when it is
/// inside both operands.
pub proof fn lemma_intersect_is_and(a: Box<Shape>, b: Box<Shape>, p: Vec2)
    ensures
        shape_inside_s(Shape::Intersect(a, b), p) == (shape_inside_s(*a, p) && shape_inside_s(
            *b,
            p,
        )),
{
}

/// The center of a circle is inside it.
pub proof fn lemma_circle_center_inside(c: Circle)
    requires
        circle_wf(c),
    ensures
        circle_inside_s(c, c.center),
{
    assert(1 <= c.r * c.r) by (nonlinear_arith)
        requires
            1 <= c.r,
    ;
    let z = sub_s(c.center, c.center);
    assert(z.x == 0 && z.y == 0);
    assert(norm_sq_s(z) == z.x * z.x + z.y * z.y);
    assert(z.x as int * (z.x as int) + (z.y as int) * (z.y as int) == 0) by (nonlinear_arith)
        requires
            z.x == 0 && z.y == 0,
    ;
}

/// A point at squared distance at least the squared radius is not inside
/// the circle.
pub proof fn lemma_circle_far_outside(c: Circle, p: Vec2)
    requires
        dist_sq_s(p, c.center) >= c.r * c.r,
    ensures
        !circle_inside_s(c, p),
{
}

/// No vertex of a polygon is strictly inside it: the vertex lies on its own
/// edge, where the edge cross product vanishes.
pub proof fn lemma_polygon_vertex_not_inside(pg: Polygon, i: int)
    requires
        0 <= i < pg.points@.len(),
    ensures
        !poly_inside_s(pg.points@, pg.points@[i]),
{
    let pts = pg.points@;
    let a = pts[i];
    let b = pts[poly_next(pts, i)];
    let e = sub_s(b, a);
    let z = sub_s(a, a);
    assert(z.x == 0 && z.y == 0);
    assert(cross_s(e, z) == e.x * z.y - e.y * z.x);
    assert(e.x as int * (z.y as int) - (e.y as int) * (z.x as int) == 0) by (nonlinear_arith)
        requires
            z.x == 0 && z.y == 0,
    ;
}

/// The Cauchy-Schwarz inequality in the plane, over raw components.
proof fn lemma_cauchy_schwarz(a: int, b: int, c: int, d: int)
    ensures
        (a * c + b * d) * (a * c + b * d) <= (a * a + b * b) * (c * c + d * d),
{
    let l = a * c + b * d;
    let m = a * d - b * c;
    assert(l * l == (a * c) * (a * c) + 2 * ((a * c) * (b * d)) + (b * d) * (b * d))
        by (nonlinear_arith)
        requires
            l == a * c + b * d,
    ;
    assert(m * m == (a * d) * (a * d) - 2 * ((a * d) * (b * c)) + (b * c) * (b * c))
        by (nonlinear_arith)
        requires
            m == a * d - b * c,
    ;
    assert((a * c) * (b * d) == (a * d) * (b * c)) by (nonlinear_arith);
    assert((a * c) * (a * c) == (a * a) * (c * c)) by (nonlinear_arith);
    assert((b * d) * (b * d) == (b * b) * (d * d)) by (nonlinear_arith);
    assert((a * d) * (a * d) == (a * a) * (d * d)) by (nonlinear_arith);
    assert((b * c) * (b * c) == (b * b) * (c * c)) by (nonlinear_arith);
    assert((a * a + b * b) * (c * c + d * d) == (a * a) * (c * c) + (a * a) * (d * d) + (b * b) * (c
        * c) + (b * b) * (d * d)) by (nonlinear_arith);
    assert(m * m >= 0) by (nonlinear_arith);
    assert(l * l + m * m == (a * a + b * b) * (c * c + d * d));
}

/// Two vectors shorter than `r1` and `r2` cannot sum to a vector of length
/// `r1 + r2` or more (the triangle inequality, squared throughout).
proof fn lemma_triangle_sq(ux: int, uy: int, vx: int, vy: int, r1: int, r2: int)
    requires
        ux * ux + uy * uy < r1 * r1,
        vx * vx + vy * vy < r2 * r2,
        0 < r1,
        0 < r2,
    ensures
        (ux + vx) * (ux + vx) + (uy + vy) * (uy + vy) < (r1 + r2) * (r1 + r2),
{
    lemma_cauchy_schwarz(ux, uy, vx, vy);
    assert(0 <= ux * ux + uy * uy && 0 <= vx * vx + vy * vy) by (nonlinear_arith);
    assert((ux * ux + uy * uy) * (vx * vx + vy * vy) < (r1 * r1) * (r2 * r2)) by (nonlinear_arith)
        requires
            0 <= ux * ux + uy * uy < r1 * r1,
            0 <= vx * vx + vy * vy < r2 * r2,
    ;
    assert((r1 * r1) * (r2 * r2) == (r1 * r2) * (r1 * r2)) by (nonlinear_arith);
    let dt = ux * vx + uy * vy;
    assert(dt * dt <= (ux * ux + uy * uy) * (vx * vx + vy * vy));
    assert(dt < r1 * r2) by (nonlinear_arith)
        requires
            dt * dt < (r1 * r2) * (r1 * r2),
            0 < r1,
            0 < r2,
    ;
    assert((ux + vx) * (ux + vx) + (uy + vy) * (uy + vy) == (ux * ux + uy * uy) + 2 * dt + (vx * vx
        + vy * vy)) by (nonlinear_arith)
        requires
            dt == ux * vx + uy * vy,
    ;
    assert((r1 + r2) * (r1 + r2) == r1 * r1 + 2 * (r1 * r2) + r2 * r2) by (nonlinear_arith);
}

/// Two circles whose centers are at least the sum of their radii apart have
/// no common interior point: the intersection of disjoint circles is empty.
pub proof fn lemma_disjoint_circles_empty(c1: Circle, c2: Circle, p: Vec2)
    requires
        circle_wf(c1),
        circle_wf(c2),
        bounded(p, PMAX as int),
        dist_sq_s(c1.center, c2.center) >= (c1.r + c2.r) * (c1.r + c2.r),
    ensures
        !(circle_inside_s(c1, p) && circle_inside_s(c2, p)),
{
    if circle_inside_s(c1, p) && circle_inside_s(c2, p) {
        let ax = c1.center.x as int;
        let ay = c1.center.y as int;
        let bx = c2.center.x as int;
        let by = c2.center.y as int;
        let px = p.x as int;
        let py = p.y as int;
        assert(dist_sq_s(p, c1.center) == (px - ax) * (px - ax) + (py - ay) * (py - ay));
        assert(dist_sq_s(p, c2.center) == (px - bx) * (px - bx) + (py - by) * (py - by));
        assert(dist_sq_s(c1.center, c2.center) == (ax - bx) * (ax - bx) + (ay - by) * (ay - by));
        assert((ax - px) * (ax - px) + (ay - py) * (ay - py) == (px - ax) * (px - ax) + (py - ay) * (
        py - ay)) by (nonlinear_arith);
        lemma_triangle_sq(ax - px, ay - py, px - bx, py - by, c1.r as int, c2.r as int);
    }
}

} // verus!
