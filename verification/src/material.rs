//! Colors and optical materials: the stochastic sampling model that, at
//! each scattering event, either continues the path with a new direction
//! and a weight, or terminates it with an emitted radiance.

use vstd::prelude::*;
use crate::fx::{ONE, div_t, div_s, fmul, fmul_s, lemma_mul_le, lemma_div_bound,
    lemma_div_nonneg_le, is_sqrt_floor, sqrt_floor, isqrt_i64};
use crate::vec2::{Vec2, bounded, unitish, add_s, dot_s, scale_s, normalize_s};
use crate::rng::rand_unit;

verus! {

/// Color channel values stay within this bound.
pub const CMAX: i64 = 0x4000_0000;

/// Refractive indices stay within this bound (eight units).
pub const EMAX: i64 = 0x8_0000;

/// A directional emitter shines only at rays arriving within this cosine
/// of its normal (a hair under one unit).
pub const DIR_COS: i64 = 65529;

/// An RGB radiance triple; channels are non-negative fixed-point values.
#[derive(Clone, Copy, Debug, PartialEq, Eq, Structural)]
pub struct Color {
    pub r: i64,
    pub g: i64,
    pub b: i64,
}

pub open spec fn color_wf(c: Color) -> bool {
    0 <= c.r <= CMAX && 0 <= c.g <= CMAX && 0 <= c.b <= CMAX
}

pub open spec fn black_s() -> Color {
    Color { r: 0, g: 0, b: 0 }
}

pub open spec fn color_add_s(a: Color, b: Color) -> Color {
    Color { r: (a.r + b.r) as i64, g: (a.g + b.g) as i64, b: (a.b + b.b) as i64 }
}

/// Componentwise fixed-point product.
pub open spec fn color_mul_s(a: Color, b: Color) -> Color {
    Color {
        r: fmul_s(a.r as int, b.r as int) as i64,
        g: fmul_s(a.g as int, b.g as int) as i64,
        b: fmul_s(a.b as int, b.b as int) as i64,
    }
}

impl Color {
    /// The zero radiance.
    pub fn black() -> (r: Color)
        ensures
            r == black_s(),
    {
        Color { r: 0, g: 0, b: 0 }
    }

    pub fn add(self, other: Color) -> (r: Color)
        requires
            0 <= self.r + other.r <= 0x4000_0000_0000_0000,
            0 <= self.g + other.g <= 0x4000_0000_0000_0000,
            0 <= self.b + other.b <= 0x4000_0000_0000_0000,
        ensures
            r == color_add_s(self, other),
    {
        Color { r: self.r + other.r, g: self.g + other.g, b: self.b + other.b }
    }

    /// The color scaled by a fixed-point weight of at most one.
    pub fn scale(self, s: i64) -> (r: Color)
        requires
            color_wf(self),
            0 <= s <= ONE,
        ensures
            r == color_scale_s(self, s as int),
            color_wf(r),
    {
        proof {
            crate::fx::lemma_fmul_le_left(self.r as int, s as int);
            crate::fx::lemma_fmul_le_left(self.g as int, s as int);
            crate::fx::lemma_fmul_le_left(self.b as int, s as int);
        }
        Color { r: fmul(self.r, s), g: fmul(self.g, s), b: fmul(self.b, s) }
    }

    /// Componentwise fixed-point product; with one operand's channels at
    /// most `ONE` it attenuates the other.
    pub fn mul(self, other: Color) -> (r: Color)
        requires
            0 <= self.r <= CMAX && 0 <= self.g <= CMAX && 0 <= self.b <= CMAX,
            0 <= other.r <= CMAX && 0 <= other.g <= CMAX && 0 <= other.b <= CMAX,
        ensures
            r == color_mul_s(self, other),
    {
        Color { r: fmul(self.r, other.r), g: fmul(self.g, other.g), b: fmul(self.b, other.b) }
    }
}

/// A color scaled by a fixed-point factor.
pub open spec fn color_scale_s(c: Color, s: int) -> Color {
    Color {
        r: fmul_s(c.r as int, s) as i64,
        g: fmul_s(c.g as int, s) as i64,
        b: fmul_s(c.b as int, s) as i64,
    }
}

/// The five material kinds.
#[derive(Clone, Copy, Debug, PartialEq, Eq, Structural)]
pub enum MaterialKind {
    Lambert,
    Dielectric,
    Mirror,
    Emissive,
    DirectionalEmissive,
}

/// A material: its kind plus the shared optical coefficients. Fields that a
/// kind does not use are simply ignored.
#[derive(Clone, Copy, Debug, PartialEq, Eq, Structural)]
pub struct Material {
    pub kind: MaterialKind,
    /// Beer-Lambert extinction coefficients, per channel.
    pub absorptivity: Color,
    /// Relative refractive index, at least one unit for a dielectric.
    pub eta: i64,
    pub emissivity: Color,
}

pub open spec fn material_wf(m: Material) -> bool {
    color_wf(m.absorptivity) && color_wf(m.emissivity) && 0 <= m.eta <= EMAX && (m.kind
        == MaterialKind::Dielectric ==> ONE <= m.eta)
}

/// The outcome of one scattering event: either the path continues along a
/// direction with a multiplicative weight, or it ends with a radiance.
#[derive(Clone, Copy, Debug, PartialEq, Eq, Structural)]
pub enum SampleResult {
    Edge(Vec2, i64),
    Node(Color),
}

/// The tangent of a normal: the normal rotated a quarter turn clockwise.
pub open spec fn tangent_s(n: Vec2) -> Vec2 {
    Vec2 { x: n.y, y: (-n.x) as i64 }
}

/// A direction expressed in the basis of a normal and its tangent.
pub open spec fn transform_s(wi: Vec2, n: Vec2) -> Vec2 {
    Vec2 {
        x: div_t(dot_s(tangent_s(n), wi), ONE as int) as i64,
        y: div_t(dot_s(n, wi), ONE as int) as i64,
    }
}

/// A local direction carried back to the basis in which the normal and
/// tangent are embedded, renormalized.
pub open spec fn inv_transform_s(w: Vec2, n: Vec2, t: Vec2) -> Vec2 {
    normalize_s(add_s(scale_s(t, w.x as int), scale_s(n, w.y as int)))
}

/// Returns the direction `wi` in the basis given by the normal `n` and its
/// tangent, together with that tangent.
pub fn transform_coords(wi: Vec2, n: Vec2) -> (r: (Vec2, Vec2))
    requires
        unitish(wi),
        unitish(n),
    ensures
        r.0 == transform_s(wi, n),
        r.1 == tangent_s(n),
        bounded(r.0, 2 * ONE),
{
    let t: Vec2 = Vec2 { x: n.y, y: -n.x };
    proof {
        lemma_mul_le(t.x as int, ONE as int, wi.x as int, ONE as int);
        lemma_mul_le(t.y as int, ONE as int, wi.y as int, ONE as int);
        lemma_mul_le(n.x as int, ONE as int, wi.x as int, ONE as int);
        lemma_mul_le(n.y as int, ONE as int, wi.y as int, ONE as int);
    }
    let lx: i64 = div_s(t.dot(wi), ONE);
    let ly: i64 = div_s(n.dot(wi), ONE);
    (Vec2 { x: lx, y: ly }, t)
}

/// Carries a sampled local direction back out of the surface frame; see
/// `inv_transform_s`.
pub fn inv_transform_coords(w: Vec2, n: Vec2, t: Vec2) -> (r: Vec2)
    requires
        bounded(w, 0x40_0000),
        unitish(n),
        unitish(t),
    ensures
        r == inv_transform_s(w, n, t),
        unitish(r),
{
    proof {
        lemma_mul_le(t.x as int, ONE as int, w.x as int, 0x40_0000);
        lemma_mul_le(t.y as int, ONE as int, w.x as int, 0x40_0000);
        lemma_mul_le(n.x as int, ONE as int, w.y as int, 0x40_0000);
        lemma_mul_le(n.y as int, ONE as int, w.y as int, 0x40_0000);
    }
    let a: Vec2 = t.scale(w.x);
    let b: Vec2 = n.scale(w.y);
    a.add(b).normalize()
}

/// The exact (unscaled) specular reflection of `w` about the tangent of
/// `n`: x component.
pub open spec fn refl_x(nx: int, ny: int, wx: int, wy: int) -> int {
    (ny * wx - nx * wy) * ny - (nx * wx + ny * wy) * nx
}

/// The exact (unscaled) specular reflection of `w` about the tangent of
/// `n`: y component.
pub open spec fn refl_y(nx: int, ny: int, wx: int, wy: int) -> int {
    -(ny * wx - nx * wy) * nx - (nx * wx + ny * wy) * ny
}

/// Specular reflection about the tangent `(n.y, -n.x)`: the exact reflected
/// vector scaled down and renormalized.
pub open spec fn mirror_s(wi: Vec2, n: Vec2) -> Vec2 {
    normalize_s(
        Vec2 {
            x: div_t(refl_x(n.x as int, n.y as int, wi.x as int, wi.y as int), (ONE * ONE) as int)
                as i64,
            y: div_t(refl_y(n.x as int, n.y as int, wi.x as int, wi.y as int), (ONE * ONE) as int)
                as i64,
        },
    )
}

/// Deterministic mirror reflection: `wo = (t . wi) t - (n . wi) n`.
pub fn sample_mirror(wi: Vec2, n: Vec2) -> (r: Vec2)
    requires
        unitish(wi),
        unitish(n),
    ensures
        r == mirror_s(wi, n),
        unitish(r),
{
    let t: Vec2 = Vec2 { x: n.y, y: -n.x };
    let tw: i64 = t.dot(wi);
    let nw: i64 = n.dot(wi);
    proof {
        lemma_mul_le(t.x as int, ONE as int, wi.x as int, ONE as int);
        lemma_mul_le(t.y as int, ONE as int, wi.y as int, ONE as int);
        lemma_mul_le(n.x as int, ONE as int, wi.x as int, ONE as int);
        lemma_mul_le(n.y as int, ONE as int, wi.y as int, ONE as int);
        lemma_mul_le(tw as int, 0x2_0000_0000, n.y as int, ONE as int);
        lemma_mul_le(tw as int, 0x2_0000_0000, n.x as int, ONE as int);
        lemma_mul_le(nw as int, 0x2_0000_0000, n.x as int, ONE as int);
        lemma_mul_le(nw as int, 0x2_0000_0000, n.y as int, ONE as int);
    }
    let mx: i64 = tw * n.y - nw * n.x;
    let my: i64 = -(tw * n.x) - nw * n.y;
    proof {
        let nx = n.x as int;
        let ny = n.y as int;
        let wx = wi.x as int;
        let wy = wi.y as int;
        assert(mx == (ny * wx - nx * wy) * ny - (nx * wx + ny * wy) * nx && my == (-(ny * wx - nx
            * wy)) * nx - (nx * wx + ny * wy) * ny) by (nonlinear_arith)
            requires
                mx == tw * ny - nw * nx,
                my == -(tw * nx) - nw * ny,
                tw == ny * wx + (-nx) * wy,
                nw == nx * wx + ny * wy,
        ;
        assert(mx == refl_x(nx, ny, wx, wy));
        assert(my == refl_y(nx, ny, wx, wy));
    }
    let rx: i64 = div_s(mx, ONE * ONE);
    let ry: i64 = div_s(my, ONE * ONE);
    Vec2 { x: rx, y: ry }.normalize()
}

/// The diffuse lobe in the local frame: the sine of the outgoing angle is
/// uniform in `[-ONE, ONE]`, the cosine follows from the unit norm.
pub open spec fn diffuse_local_s(xi: int) -> Vec2 {
    let sn = 2 * xi - ONE;
    Vec2 { x: sn as i64, y: sqrt_floor(ONE * ONE - sn * sn) as i64 }
}

/// Deterministic core of diffuse sampling, from a uniform sample. The
/// normal component of the sampled local direction is never negative: the
/// lobe covers only the outward half circle.
pub fn diffuse_direction(xi: i64) -> (r: Vec2)
    requires
        0 <= xi <= ONE,
    ensures
        r == diffuse_local_s(xi as int),
        unitish(r),
        0 <= r.y,
{
    let sn: i64 = 2 * xi - ONE;
    proof {
        lemma_mul_le(sn as int, ONE as int, sn as int, ONE as int);
        assert(sn * sn <= ONE * ONE) by (nonlinear_arith)
            requires
                -ONE <= sn <= ONE,
        ;
        assert(0 <= sn * sn) by (nonlinear_arith);
    }
    let cs: i64 = isqrt_i64(ONE * ONE - sn * sn);
    proof {
        if cs > ONE {
            assert(cs * cs > ONE * ONE) by (nonlinear_arith)
                requires
                    cs > ONE as i64,
            ;
        }
        if cs == 0 && sn == 0 {
            assert(sn * sn == 0) by (nonlinear_arith)
                requires
                    sn == 0i64,
            ;
            assert((cs + 1) * (cs + 1) == 1) by (nonlinear_arith)
                requires
                    cs == 0i64,
            ;
            assert(ONE as int * (ONE as int) == 0x1_0000_0000) by (nonlinear_arith)
                requires
                    ONE == 65536i64,
            ;
            assert(false);
        }
    }
    Vec2 { x: sn, y: cs }
}

/// A diffuse bounce about the normal `n`, from a uniform sample.
pub open spec fn sample_diffuse_s(n: Vec2, xi: int) -> Vec2 {
    inv_transform_s(diffuse_local_s(xi), n, tangent_s(n))
}

/// The diffuse lobe covers only the outward half circle: whatever the
/// draw, the sampled local direction's normal component is non-negative.
pub proof fn lemma_diffuse_outward(xi: int)
    requires
        0 <= xi <= ONE,
    ensures
        0 <= diffuse_local_s(xi).y,
{
    let sn = 2 * xi - ONE;
    assert(0 <= sn * sn <= ONE * ONE) by (nonlinear_arith)
        requires
            -ONE <= sn <= ONE,
    ;
    crate::fx::lemma_sqrt_floor_exists(ONE * ONE - sn * sn);
    let r = sqrt_floor(ONE * ONE - sn * sn);
    assert(r <= 0x1_0000_0000) by (nonlinear_arith)
        requires
            is_sqrt_floor(ONE * ONE - sn * sn, r),
            ONE * ONE - sn * sn <= 0x1_0000_0000,
    ;
}

/// Draws a diffuse outgoing direction: uniform angle over the outward half
/// circle in the frame of the normal.
pub fn sample_diffuse(wi: Vec2, n: Vec2, rng: &mut rand::rngs::ThreadRng) -> (r: Vec2)
    requires
        unitish(wi),
        unitish(n),
    ensures
        exists|xi: i64| 0 <= xi <= ONE && r == sample_diffuse_s(n, xi as int),
        unitish(r),
{
    let t: Vec2 = Vec2 { x: n.y, y: -n.x };
    let xi: i64 = rand_unit(rng);
    let wl: Vec2 = diffuse_direction(xi);
    let r: Vec2 = inv_transform_coords(wl, n, t);
    proof {
        assert(0 <= xi <= ONE && r == sample_diffuse_s(n, xi as int));
    }
    r
}

/// Fresnel reflectance of a dielectric interface, averaged over the two
/// polarizations, from the incident cosine and the relative index. Grazing
/// incidence (a vanishing denominator) and total internal reflection yield
/// full reflectance.
pub open spec fn dielectric_reflectance_s(cosi: int, eta: int) -> int {
    let k2 = ONE * ONE - div_t(fmul_s(eta, eta) * (ONE * ONE - cosi * cosi), ONE as int);
    if k2 < 0 {
        ONE as int
    } else {
        let cost = sqrt_floor(k2);
        if eta * cosi + ONE * cost == 0 || eta * cost + ONE * cosi == 0 {
            ONE as int
        } else {
            let rs = div_t((eta * cosi - ONE * cost) * ONE, eta * cosi + ONE * cost);
            let rp = div_t((eta * cost - ONE * cosi) * ONE, eta * cost + ONE * cosi);
            div_t(fmul_s(rs, rs) + fmul_s(rp, rp), 2)
        }
    }
}

/// See `dielectric_reflectance_s`.
pub fn dielectric_reflectance(cosi: i64, eta: i64) -> (r: i64)
    requires
        0 <= cosi <= 2 * ONE,
        0 < eta <= EMAX,
    ensures
        r == dielectric_reflectance_s(cosi as int, eta as int),
        0 <= r <= ONE,
{
    let eta2: i64 = fmul(eta, eta);
    proof {
        lemma_mul_le(eta as int, 0x8_0000, eta as int, 0x8_0000);
        lemma_div_nonneg_le((eta * eta) as int, ONE as int);
        assert(0 <= eta * eta) by (nonlinear_arith)
            requires
                0 < eta,
        ;
        lemma_mul_le(cosi as int, 0x2_0000, cosi as int, 0x2_0000);
        assert(0 <= cosi * cosi) by (nonlinear_arith);
    }
    let inner: i64 = ONE * ONE - cosi * cosi;
    proof {
        lemma_mul_le(eta2 as int, 0x40_0000, inner as int, 0x4_0000_0000);
    }
    let k2: i64 = ONE * ONE - div_s(eta2 * inner, ONE);
    if k2 < 0 {
        ONE
    } else {
        let cost: i64 = isqrt_i64(k2);
        proof {
            if cost > 0x18_0000 {
                assert(cost * cost > 0x18_0000 * 0x18_0000i64) by (nonlinear_arith)
                    requires
                        cost > 0x18_0000i64,
                ;
                assert(false);
            }
            lemma_mul_le(eta as int, 0x8_0000, cosi as int, 0x2_0000);
            assert(0 <= eta * cosi && 0 <= eta * cost) by (nonlinear_arith)
                requires
                    0 < eta,
                    0 <= cosi,
                    0 <= cost,
            ;
            lemma_mul_le(eta as int, 0x8_0000, cost as int, 0x18_0000);
        }
        let den_s: i64 = eta * cosi + ONE * cost;
        let den_p: i64 = eta * cost + ONE * cosi;
        if den_s == 0 || den_p == 0 {
            ONE
        } else {
            let num_s: i64 = eta * cosi - ONE * cost;
            let num_p: i64 = eta * cost - ONE * cosi;
            let rs: i64 = div_s(num_s * ONE, den_s);
            let rp: i64 = div_s(num_p * ONE, den_p);
            proof {
                if num_s >= 0 {
                    lemma_div_bound((num_s * ONE) as int, den_s as int, ONE as int);
                } else {
                    lemma_div_bound((-(num_s as int) * (ONE as int)), den_s as int, ONE as int);
                }
                if num_p >= 0 {
                    lemma_div_bound((num_p * ONE) as int, den_p as int, ONE as int);
                } else {
                    lemma_div_bound((-(num_p as int) * (ONE as int)), den_p as int, ONE as int);
                }
                lemma_mul_le(rs as int, ONE as int, rs as int, ONE as int);
                lemma_mul_le(rp as int, ONE as int, rp as int, ONE as int);
                assert(0 <= rs * rs && 0 <= rp * rp) by (nonlinear_arith);
                assert(rs * rs <= ONE * ONE && rp * rp <= ONE * ONE) by (nonlinear_arith)
                    requires
                        -ONE <= rs <= ONE,
                        -ONE <= rp <= ONE,
                ;
            }
            div_s(fmul(rs, rs) + fmul(rp, rp), 2)
        }
    }
}

/// Vector refraction of the local direction `w` at the axis-aligned local
/// normal `(0, nsign)`, falling back to local mirror reflection on total
/// internal reflection.
pub open spec fn refract_s(w: Vec2, nsign: int, eta: int) -> Vec2 {
    let dotv = nsign * w.y;
    let k2 = ONE * ONE - div_t(fmul_s(eta, eta) * (ONE * ONE - dotv * dotv), ONE as int);
    if k2 < 0 {
        Vec2 { x: w.x, y: (-w.y) as i64 }
    } else {
        let a2 = eta * dotv + ONE * sqrt_floor(k2);
        Vec2 {
            x: div_t(eta * w.x, ONE as int) as i64,
            y: div_t(eta * w.y - a2 * nsign, ONE as int) as i64,
        }
    }
}

/// See `refract_s`.
pub fn refract(w: Vec2, nsign: i64, eta: i64) -> (r: Vec2)
    requires
        bounded(w, 2 * ONE),
        nsign == 1i64 || nsign == -1i64,
        0 < eta <= EMAX,
    ensures
        r == refract_s(w, nsign as int, eta as int),
        bounded(r, 0x40_0000),
{
    proof {
        lemma_mul_le(nsign as int, 1, w.y as int, 0x2_0000);
    }
    let dotv: i64 = nsign * w.y;
    let eta2: i64 = fmul(eta, eta);
    proof {
        lemma_mul_le(eta as int, 0x8_0000, eta as int, 0x8_0000);
        lemma_div_nonneg_le((eta * eta) as int, ONE as int);
        assert(0 <= eta * eta) by (nonlinear_arith)
            requires
                0 < eta,
        ;
        lemma_mul_le(dotv as int, 0x2_0000, dotv as int, 0x2_0000);
        assert(0 <= dotv * dotv) by (nonlinear_arith);
    }
    let inner: i64 = ONE * ONE - dotv * dotv;
    proof {
        lemma_mul_le(eta2 as int, 0x40_0000, inner as int, 0x4_0000_0000);
    }
    let k2: i64 = ONE * ONE - div_s(eta2 * inner, ONE);
    if k2 < 0 {
        Vec2 { x: w.x, y: -w.y }
    } else {
        let cost: i64 = isqrt_i64(k2);
        proof {
            if cost > 0x18_0000 {
                assert(cost * cost > 0x18_0000 * 0x18_0000i64) by (nonlinear_arith)
                    requires
                        cost > 0x18_0000i64,
                ;
                assert(false);
            }
            lemma_mul_le(eta as int, 0x8_0000, dotv as int, 0x2_0000);
            lemma_mul_le(eta as int, 0x8_0000, w.x as int, 0x2_0000);
            lemma_mul_le(eta as int, 0x8_0000, w.y as int, 0x2_0000);
        }
        let a2: i64 = eta * dotv + ONE * cost;
        proof {
            lemma_mul_le(a2 as int, 0x28_0000_0000, nsign as int, 1);
        }
        let tx: i64 = div_s(eta * w.x, ONE);
        let ty: i64 = div_s(eta * w.y - a2 * nsign, ONE);
        Vec2 { x: tx, y: ty }
    }
}

/// One dielectric scattering event in the local frame: orient the problem
/// so the ray travels toward the interface, then reflect with the Fresnel
/// probability and refract otherwise.
pub open spec fn dielectric_local_s(w: Vec2, eta: int, xi: int) -> Vec2 {
    let flip = w.y > 0;
    let eta_r = if flip {
        div_t(ONE * ONE, eta)
    } else {
        eta
    };
    let w2 = if flip {
        Vec2 { x: w.x, y: (-w.y) as i64 }
    } else {
        w
    };
    let nsign: int = if flip {
        -1
    } else {
        1
    };
    let rfl = dielectric_reflectance_s(-(w2.y as int), eta_r);
    if xi < rfl {
        Vec2 { x: w2.x, y: (-w2.y) as i64 }
    } else {
        refract_s(w2, nsign, eta_r)
    }
}

/// Deterministic core of dielectric sampling, from a uniform sample.
pub fn dielectric_direction(w: Vec2, eta: i64, xi: i64) -> (r: Vec2)
    requires
        bounded(w, 2 * ONE),
        ONE <= eta <= EMAX,
        0 <= xi <= ONE,
    ensures
        r == dielectric_local_s(w, eta as int, xi as int),
        bounded(r, 0x40_0000),
{
    let flip: bool = w.y > 0;
    let eta_r: i64 = if flip {
        proof {
            crate::fx::lemma_div_ge_one((ONE * ONE) as int, eta as int);
            lemma_div_bound((ONE * ONE) as int, eta as int, ONE as int);
        }
        div_s(ONE * ONE, eta)
    } else {
        eta
    };
    let w2: Vec2 = if flip {
        Vec2 { x: w.x, y: -w.y }
    } else {
        w
    };
    let nsign: i64 = if flip {
        -1
    } else {
        1
    };
    let rfl: i64 = dielectric_reflectance(-w2.y, eta_r);
    if xi < rfl {
        Vec2 { x: w2.x, y: -w2.y }
    } else {
        refract(w2, nsign, eta_r)
    }
}

/// A dielectric scattering event about the normal `n`, from a uniform
/// sample: the incoming direction is taken to the local frame, scattered
/// there, and carried back.
pub open spec fn sample_dielectric_s(wi: Vec2, n: Vec2, eta: int, xi: int) -> Vec2 {
    inv_transform_s(dielectric_local_s(transform_s(wi, n), eta, xi), n, tangent_s(n))
}

/// Draws a dielectric outgoing direction: reflection with the Fresnel
/// probability, refraction otherwise.
pub fn sample_dielectric(wi: Vec2, n: Vec2, eta: i64, rng: &mut rand::rngs::ThreadRng) -> (r:
    Vec2)
    requires
        unitish(wi),
        unitish(n),
        ONE <= eta <= EMAX,
    ensures
        exists|xi: i64| 0 <= xi <= ONE && r == sample_dielectric_s(wi, n, eta as int, xi as int),
        unitish(r),
{
    let (wl, t): (Vec2, Vec2) = transform_coords(wi, n);
    let xi: i64 = rand_unit(rng);
    let wo: Vec2 = dielectric_direction(wl, eta, xi);
    let r: Vec2 = inv_transform_coords(wo, n, t);
    proof {
        assert(0 <= xi <= ONE && r == sample_dielectric_s(wi, n, eta as int, xi as int));
    }
    r
}

impl Material {
    /// One scattering event: by kind, either a continuation direction with
    /// unit weight, or a terminal radiance. A diffuse surface struck from
    /// behind terminates black; a directional emitter shines only at rays
    /// arriving nearly along its normal.
    pub fn sample(&self, wi: Vec2, n: Vec2, rng: &mut rand::rngs::ThreadRng) -> (r: SampleResult)
        requires
            material_wf(*self),
            unitish(wi),
            unitish(n),
        ensures
            self.kind == MaterialKind::Lambert && dot_s(wi, n) < 0 ==> exists|xi: i64|
                0 <= xi <= ONE && r == SampleResult::Edge(sample_diffuse_s(n, xi as int), ONE),
            self.kind == MaterialKind::Lambert && dot_s(wi, n) >= 0 ==> r == SampleResult::Node(
                black_s(),
            ),
            self.kind == MaterialKind::Dielectric ==> exists|xi: i64|
                0 <= xi <= ONE && r == SampleResult::Edge(
                    sample_dielectric_s(wi, n, self.eta as int, xi as int),
                    ONE,
                ),
            self.kind == MaterialKind::Mirror ==> r == SampleResult::Edge(mirror_s(wi, n), ONE),
            self.kind == MaterialKind::Emissive ==> r == SampleResult::Node(self.emissivity),
            self.kind == MaterialKind::DirectionalEmissive ==> r == (if dot_s(wi, n) < -(DIR_COS
                * ONE) {
                SampleResult::Node(self.emissivity)
            } else {
                SampleResult::Node(black_s())
            }),
            r matches SampleResult::Edge(wo, wt) ==> unitish(wo) && wt == ONE,
    {
        match self.kind {
            MaterialKind::Lambert => {
                let dotv: i64 = wi.dot(n);
                if dotv < 0 {
                    let wo: Vec2 = sample_diffuse(wi, n, rng);
                    proof {
                        let xi = choose|xi: i64|
                            0 <= xi <= ONE && wo == sample_diffuse_s(n, xi as int);
                        assert(0 <= xi <= ONE && SampleResult::Edge(wo, ONE)
                            == SampleResult::Edge(sample_diffuse_s(n, xi as int), ONE));
                    }
                    SampleResult::Edge(wo, ONE)
                } else {
                    SampleResult::Node(Color::black())
                }
            },
            MaterialKind::Dielectric => {
                let wo: Vec2 = sample_dielectric(wi, n, self.eta, rng);
                proof {
                    let xi = choose|xi: i64|
                        0 <= xi <= ONE && wo == sample_dielectric_s(
                            wi,
                            n,
                            self.eta as int,
                            xi as int,
                        );
                    assert(0 <= xi <= ONE && SampleResult::Edge(wo, ONE) == SampleResult::Edge(
                        sample_dielectric_s(wi, n, self.eta as int, xi as int),
                        ONE,
                    ));
                }
                SampleResult::Edge(wo, ONE)
            },
            MaterialKind::Mirror => SampleResult::Edge(sample_mirror(wi, n), ONE),
            MaterialKind::Emissive => SampleResult::Node(self.emissivity),
            MaterialKind::DirectionalEmissive => {
                let dotv: i64 = wi.dot(n);
                if dotv < -(DIR_COS * ONE) {
                    SampleResult::Node(self.emissivity)
                } else {
                    SampleResult::Node(Color::black())
                }
            },
        }
    }
}

/// Reflecting twice about the same normal returns the original direction:
/// at the exact (unscaled) level, the double reflection equals the original
/// vector scaled by the fourth power of the normal's length.
pub proof fn lemma_mirror_involution(nx: int, ny: int, wx: int, wy: int)
    ensures
        refl_x(nx, ny, refl_x(nx, ny, wx, wy), refl_y(nx, ny, wx, wy)) == (nx * nx + ny * ny) * (nx
            * nx + ny * ny) * wx,
        refl_y(nx, ny, refl_x(nx, ny, wx, wy), refl_y(nx, ny, wx, wy)) == (nx * nx + ny * ny) * (nx
            * nx + ny * ny) * wy,
{
    let tw1 = ny * wx - nx * wy;
    let nw1 = nx * wx + ny * wy;
    let rx = refl_x(nx, ny, wx, wy);
    let ry = refl_y(nx, ny, wx, wy);
    assert(rx == tw1 * ny - nw1 * nx);
    assert(ry == (-tw1) * nx - nw1 * ny);
    let ns = nx * nx + ny * ny;
    let tw2 = ny * rx - nx * ry;
    let nw2 = nx * rx + ny * ry;
    assert(tw2 == tw1 * ns) by (nonlinear_arith)
        requires
            tw2 == ny * rx - nx * ry,
            rx == tw1 * ny - nw1 * nx,
            ry == (-tw1) * nx - nw1 * ny,
            ns == nx * nx + ny * ny,
    ;
    assert(nw2 == -(nw1 * ns)) by (nonlinear_arith)
        requires
            nw2 == nx * rx + ny * ry,
            rx == tw1 * ny - nw1 * nx,
            ry == (-tw1) * nx - nw1 * ny,
            ns == nx * nx + ny * ny,
    ;
    assert(refl_x(nx, ny, rx, ry) == tw2 * ny - nw2 * nx);
    assert(refl_y(nx, ny, rx, ry) == (-tw2) * nx - nw2 * ny);
    assert(tw2 * ny - nw2 * nx == ns * (tw1 * ny + nw1 * nx)) by (nonlinear_arith)
        requires
            tw2 == tw1 * ns,
            nw2 == -(nw1 * ns),
    ;
    assert((-tw2) * nx - nw2 * ny == ns * ((-tw1) * nx + nw1 * ny)) by (nonlinear_arith)
        requires
            tw2 == tw1 * ns,
            nw2 == -(nw1 * ns),
    ;
    assert(tw1 * ny + nw1 * nx == ns * wx) by (nonlinear_arith)
        requires
            tw1 == ny * wx - nx * wy,
            nw1 == nx * wx + ny * wy,
            ns == nx * nx + ny * ny,
    ;
    assert((-tw1) * nx + nw1 * ny == ns * wy) by (nonlinear_arith)
        requires
            tw1 == ny * wx - nx * wy,
            nw1 == nx * wx + ny * wy,
            ns == nx * nx + ny * ny,
    ;
    assert(ns * (ns * wx) == ns * ns * wx) by (nonlinear_arith);
    assert(ns * (ns * wy) == ns * ns * wy) by (nonlinear_arith);
}

/// With no index mismatch there is no reflection: the Fresnel reflectance
/// at a relative index of one is exactly zero away from grazing incidence.
pub proof fn lemma_fresnel_eta_one(cosi: int)
    requires
        0 < cosi <= 2 * ONE,
    ensures
        dielectric_reflectance_s(cosi, ONE as int) == 0,
{
    crate::fx::lemma_fx_cancel(ONE as int);
    assert(fmul_s(ONE as int, ONE as int) == ONE);
    crate::fx::lemma_fx_cancel(ONE * ONE - cosi * cosi);
    let k2 = ONE * ONE - div_t((ONE as int) * (ONE * ONE - cosi * cosi), ONE as int);
    assert(k2 == cosi * cosi);
    assert(0 < cosi * cosi && cosi * cosi <= cosi * cosi && cosi * cosi < (cosi + 1) * (cosi + 1))
        by (nonlinear_arith)
        requires
            0 < cosi,
    ;
    crate::fx::lemma_sqrt_floor_eq(cosi * cosi, cosi);
    let cost = sqrt_floor(k2);
    assert(cost == cosi);
    assert(0 < ONE * cosi) by (nonlinear_arith)
        requires
            0 < cosi,
    ;
    let den = ONE * cosi + ONE * cosi;
    assert(den != 0);
    assert((ONE * cosi - ONE * cost) * ONE == 0);
    crate::fx::lemma_div_nonneg_le(0, den);
    assert(div_t(0, den) == 0);
    assert(fmul_s(0, 0) == 0) by {
        crate::fx::lemma_div_nonneg_le(0, ONE as int);
    }
    assert(div_t(0, 2) == 0);
}

/// With no index mismatch a dielectric scattering event is nothing but the
/// round trip through the surface frame: the sampled step itself leaves
/// the local direction untouched, whatever the stochastic sample.
pub proof fn lemma_sample_dielectric_eta_one(wi: Vec2, n: Vec2, xi: int)
    requires
        unitish(wi),
        unitish(n),
        0 <= xi <= ONE,
    ensures
        sample_dielectric_s(wi, n, ONE as int, xi) == inv_transform_s(
            transform_s(wi, n),
            n,
            tangent_s(n),
        ),
{
    let t = tangent_s(n);
    let wl = transform_s(wi, n);
    lemma_mul_le(t.x as int, ONE as int, wi.x as int, ONE as int);
    lemma_mul_le(t.y as int, ONE as int, wi.y as int, ONE as int);
    lemma_mul_le(n.x as int, ONE as int, wi.x as int, ONE as int);
    lemma_mul_le(n.y as int, ONE as int, wi.y as int, ONE as int);
    lemma_dielectric_eta_one(wl, xi);
}

/// A dielectric with a relative index of one always transmits, with the
/// local direction unchanged, whatever the stochastic sample: at an index
/// mismatch of one there is nothing to reflect or to bend.
pub proof fn lemma_dielectric_eta_one(w: Vec2, xi: int)
    requires
        bounded(w, 2 * ONE),
        0 <= xi <= ONE,
    ensures
        dielectric_local_s(w, ONE as int, xi) == w,
{
    crate::fx::lemma_fx_cancel(ONE as int);
    let flip = w.y > 0;
    let w2 = if flip {
        Vec2 { x: w.x, y: (-w.y) as i64 }
    } else {
        w
    };
    let nsign: int = if flip {
        -1
    } else {
        1
    };
    assert(div_t(ONE * ONE, ONE as int) == ONE);
    let cosi = -(w2.y as int);
    assert(0 <= cosi <= 2 * ONE);
    if cosi == 0 {
        // Grazing incidence: both the mirror and the refraction branch
        // leave the direction unchanged.
        assert(!flip && w.y == 0);
        if xi < dielectric_reflectance_s(cosi, ONE as int) {
            assert(dielectric_local_s(w, ONE as int, xi) == Vec2 { x: w.x, y: 0i64 });
            assert(dielectric_local_s(w, ONE as int, xi) == w);
        } else {
            let dotv = nsign * (w2.y as int);
            assert(dotv == 0);
            assert(dotv * dotv == 0) by (nonlinear_arith)
                requires
                    dotv == 0,
            ;
            crate::fx::lemma_fx_cancel(ONE * ONE - dotv * dotv);
            assert(fmul_s(ONE as int, ONE as int) == ONE);
            let k2 = ONE * ONE - div_t((ONE as int) * (ONE * ONE - dotv * dotv), ONE as int);
            assert(k2 == 0);
            assert(is_sqrt_floor(0, 0));
            crate::fx::lemma_sqrt_floor_eq(0, 0);
            let a2 = (ONE as int) * dotv + ONE * sqrt_floor(k2);
            assert((ONE as int) * dotv == 0) by (nonlinear_arith)
                requires
                    dotv == 0,
            ;
            assert((ONE as int) * sqrt_floor(k2) == 0) by (nonlinear_arith)
                requires
                    sqrt_floor(k2) == 0,
            ;
            assert(a2 == 0);
            assert(a2 * nsign == 0) by (nonlinear_arith)
                requires
                    a2 == 0,
            ;
            crate::fx::lemma_fx_cancel(w2.x as int);
            crate::fx::lemma_fx_cancel(w2.y as int);
            assert(refract_s(w2, nsign, ONE as int) == w2);
            assert(dielectric_local_s(w, ONE as int, xi) == w);
        }
    } else {
        lemma_fresnel_eta_one(cosi);
        assert(!(xi < dielectric_reflectance_s(cosi, ONE as int)));
        let dotv = nsign * (w2.y as int);
        assert(dotv * dotv == (w2.y as int) * (w2.y as int)) by (nonlinear_arith)
            requires
                dotv == nsign * (w2.y as int),
                nsign == 1 || nsign == -1,
        ;
        crate::fx::lemma_fx_cancel(ONE * ONE - dotv * dotv);
        assert(fmul_s(ONE as int, ONE as int) == ONE);
        let k2 = ONE * ONE - div_t((ONE as int) * (ONE * ONE - dotv * dotv), ONE as int);
        assert(k2 == dotv * dotv);
        let ad = if dotv >= 0 {
            dotv
        } else {
            -dotv
        };
        assert(ad * ad == dotv * dotv && ad * ad <= dotv * dotv && dotv * dotv < (ad + 1) * (ad
            + 1)) by (nonlinear_arith)
            requires
                ad == if dotv >= 0 {
                    dotv
                } else {
                    -dotv
                },
        ;
        crate::fx::lemma_sqrt_floor_eq(k2, ad);
        let a2 = (ONE as int) * dotv + ONE * sqrt_floor(k2);
        assert(a2 == ONE * dotv + ONE * ad);
        // In both orientations the refraction term cancels to the original
        // direction exactly.
        if flip {
            assert(dotv == cosi && ad == dotv);
            assert((ONE as int) * (w2.y as int) - a2 * nsign == ONE * (w.y as int))
                by (nonlinear_arith)
                requires
                    a2 == ONE * dotv + ONE * ad,
                    ad == dotv,
                    dotv == -(w2.y as int),
                    nsign == -1,
                    w2.y == -w.y,
        ;
        } else {
            assert(dotv == w2.y as int && dotv < 0 && ad == -dotv);
            assert((ONE as int) * (w2.y as int) - a2 * nsign == ONE * (w.y as int))
                by (nonlinear_arith)
                requires
                    a2 == ONE * dotv + ONE * ad,
                    ad == -dotv,
                    dotv == w2.y as int,
                    nsign == 1,
                    w2.y == w.y,
        ;
        }
        crate::fx::lemma_fx_cancel(w.y as int);
        crate::fx::lemma_fx_cancel(w2.x as int);
        assert(refract_s(w2, nsign, ONE as int) == w);
        assert(dielectric_local_s(w, ONE as int, xi) == w);
    }
}

} // verus!
