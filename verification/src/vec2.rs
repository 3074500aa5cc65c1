//! Points and displacement vectors in the plane, with fixed-point
//! coordinates. Directions are "unitish": components bounded by `ONE` and
//! not both zero, as produced by `normalize`.

use vstd::prelude::*;
use crate::fx::{ONE, div_t, div_s, fmul, fmul_s, lemma_mul_le, lemma_div_bound, is_sqrt_floor,
    sqrt_floor, isqrt};

verus! {

/// A position or displacement in the plane, in fixed-point coordinates.
#[derive(Clone, Copy, Debug, PartialEq, Eq, Structural)]
pub struct Vec2 {
    pub x: i64,
    pub y: i64,
}

/// Both coordinates are bounded in magnitude by `m`.
pub open spec fn bounded(v: Vec2, m: int) -> bool {
    -m <= v.x <= m && -m <= v.y <= m
}

/// A direction vector as `normalize` produces it: components no larger than
/// one unit, and not the zero vector.
pub open spec fn unitish(v: Vec2) -> bool {
    -ONE <= v.x <= ONE && -ONE <= v.y <= ONE && !(v.x == 0 && v.y == 0)
}

pub open spec fn add_s(a: Vec2, b: Vec2) -> Vec2 {
    Vec2 { x: (a.x + b.x) as i64, y: (a.y + b.y) as i64 }
}

pub open spec fn sub_s(a: Vec2, b: Vec2) -> Vec2 {
    Vec2 { x: (a.x - b.x) as i64, y: (a.y - b.y) as i64 }
}

pub open spec fn dot_s(a: Vec2, b: Vec2) -> int {
    a.x * b.x + a.y * b.y
}

pub open spec fn cross_s(a: Vec2, b: Vec2) -> int {
    a.x * b.y - a.y * b.x
}

pub open spec fn norm_sq_s(v: Vec2) -> int {
    v.x * v.x + v.y * v.y
}

pub open spec fn dist_sq_s(a: Vec2, b: Vec2) -> int {
    norm_sq_s(sub_s(a, b))
}

/// Componentwise fixed-point scaling.
pub open spec fn scale_s(v: Vec2, s: int) -> Vec2 {
    Vec2 { x: fmul_s(v.x as int, s) as i64, y: fmul_s(v.y as int, s) as i64 }
}

/// The unit direction of `v`: each component is scaled by `ONE` and divided
/// by the floor of the norm. The zero vector, which has no direction, maps
/// to the unit vector along the x-axis by convention.
pub open spec fn normalize_s(v: Vec2) -> Vec2 {
    if v.x == 0 && v.y == 0 {
        Vec2 { x: ONE, y: 0 }
    } else {
        let n = sqrt_floor(norm_sq_s(v));
        Vec2 { x: div_t(v.x * ONE, n) as i64, y: div_t(v.y * ONE, n) as i64 }
    }
}

impl Vec2 {
    pub fn new(x: i64, y: i64) -> (r: Vec2)
        ensures
            r == (Vec2 { x, y }),
    {
        Vec2 { x, y }
    }

    pub fn add(self, other: Vec2) -> (r: Vec2)
        requires
            bounded(self, 0x1000_0000_0000_0000),
            bounded(other, 0x1000_0000_0000_0000),
        ensures
            r == add_s(self, other),
    {
        Vec2 { x: self.x + other.x, y: self.y + other.y }
    }

    pub fn sub(self, other: Vec2) -> (r: Vec2)
        requires
            bounded(self, 0x1000_0000_0000_0000),
            bounded(other, 0x1000_0000_0000_0000),
        ensures
            r == sub_s(self, other),
    {
        Vec2 { x: self.x - other.x, y: self.y - other.y }
    }

    /// Exact inner product (the scale of the result is the product of the
    /// operands' scales).
    pub fn dot(self, other: Vec2) -> (r: i64)
        requires
            bounded(self, 0x4000_0000),
            bounded(other, 0x4000_0000),
        ensures
            r == dot_s(self, other),
    {
        proof {
            lemma_mul_le(self.x as int, 0x4000_0000, other.x as int, 0x4000_0000);
            lemma_mul_le(self.y as int, 0x4000_0000, other.y as int, 0x4000_0000);
        }
        self.x * other.x + self.y * other.y
    }

    /// Exact two-dimensional cross product.
    pub fn cross(self, other: Vec2) -> (r: i64)
        requires
            bounded(self, 0x4000_0000),
            bounded(other, 0x4000_0000),
        ensures
            r == cross_s(self, other),
    {
        proof {
            lemma_mul_le(self.x as int, 0x4000_0000, other.y as int, 0x4000_0000);
            lemma_mul_le(self.y as int, 0x4000_0000, other.x as int, 0x4000_0000);
        }
        self.x * other.y - self.y * other.x
    }

    /// Exact squared norm.
    pub fn norm_sq(self) -> (r: i64)
        requires
            bounded(self, 0x4000_0000),
        ensures
            r == norm_sq_s(self),
            r >= 0,
    {
        proof {
            lemma_mul_le(self.x as int, 0x4000_0000, self.x as int, 0x4000_0000);
            lemma_mul_le(self.y as int, 0x4000_0000, self.y as int, 0x4000_0000);
            assert(self.x * self.x >= 0 && self.y * self.y >= 0) by (nonlinear_arith);
        }
        self.x * self.x + self.y * self.y
    }

    /// Componentwise fixed-point scaling.
    pub fn scale(self, s: i64) -> (r: Vec2)
        requires
            bounded(self, 0x4000_0000),
            -0x4000_0000 <= s <= 0x4000_0000,
        ensures
            r == scale_s(self, s as int),
    {
        Vec2 { x: fmul(self.x, s), y: fmul(self.y, s) }
    }

    /// Exact squared distance to another point.
    pub fn dist_sq(self, other: Vec2) -> (r: i64)
        requires
            bounded(self, 0x2000_0000),
            bounded(other, 0x2000_0000),
        ensures
            r == dist_sq_s(self, other),
            r >= 0,
    {
        self.sub(other).norm_sq()
    }

    /// The floor of the distance to another point.
    pub fn dist(self, other: Vec2) -> (r: i64)
        requires
            bounded(self, 0x400_0000),
            bounded(other, 0x400_0000),
        ensures
            r == sqrt_floor(dist_sq_s(self, other)),
            0 <= r <= 0x1000_0000,
    {
        let dsq: i64 = self.dist_sq(other);
        proof {
            let dx = self.x - other.x;
            let dy = self.y - other.y;
            lemma_mul_le(dx as int, 0x800_0000, dx as int, 0x800_0000);
            lemma_mul_le(dy as int, 0x800_0000, dy as int, 0x800_0000);
        }
        let r: i64 = crate::fx::isqrt_i64(dsq);
        proof {
            if r > 0x1000_0000 {
                assert(r * r > 0x1000_0000 * 0x1000_0000i64) by (nonlinear_arith)
                    requires
                        r > 0x1000_0000i64,
                ;
            }
        }
        r
    }

    /// The unit direction of `self` (the x-axis for the zero vector).
    pub fn normalize(self) -> (r: Vec2)
        requires
            bounded(self, 0x10_0000_0000),
        ensures
            r == normalize_s(self),
            unitish(r),
    {
        if self.x == 0 && self.y == 0 {
            Vec2 { x: ONE, y: 0 }
        } else {
            let ax: u64 = if self.x >= 0 { self.x as u64 } else { (-self.x) as u64 };
            let ay: u64 = if self.y >= 0 { self.y as u64 } else { (-self.y) as u64 };
            proof {
                lemma_mul_le(ax as int, 0x10_0000_0000, ax as int, 0x10_0000_0000);
                lemma_mul_le(ay as int, 0x10_0000_0000, ay as int, 0x10_0000_0000);
                assert((ax as int) * (ax as int) == (self.x as int) * (self.x as int)
                    && (ay as int) * (ay as int) == (self.y as int) * (self.y as int))
                    by (nonlinear_arith)
                    requires
                        ax == if self.x >= 0 { self.x as int } else { -(self.x as int) },
                        ay == if self.y >= 0 { self.y as int } else { -(self.y as int) },
                ;
            }
            let nsq: u128 = (ax as u128) * (ax as u128) + (ay as u128) * (ay as u128);
            let n128: u128 = isqrt(nsq);
            proof {
                if n128 >= 0x40_0000_0000u128 {
                    assert(n128 * n128 >= 0x1000_0000_0000_0000_0000) by (nonlinear_arith)
                        requires
                            n128 >= 0x40_0000_0000u128,
                    ;
                }
                if n128 == 0 {
                    assert(norm_sq_s(self) >= 1) by (nonlinear_arith)
                        requires
                            !(self.x == 0 && self.y == 0),
                    ;
                }
            }
            let n: i64 = n128 as i64;
            proof {
                assert(-n <= self.x <= n && -n <= self.y <= n) by (nonlinear_arith)
                    requires
                        is_sqrt_floor(norm_sq_s(self), n as int),
                        0 <= n,
                ;
            }
            let rx: i64 = div_s(self.x * ONE, n);
            let ry: i64 = div_s(self.y * ONE, n);
            proof {
                if self.x >= 0 {
                    lemma_div_bound((self.x * ONE) as int, n as int, ONE as int);
                } else {
                    lemma_div_bound((-(self.x as int) * (ONE as int)), n as int, ONE as int);
                }
                if self.y >= 0 {
                    lemma_div_bound((self.y * ONE) as int, n as int, ONE as int);
                } else {
                    lemma_div_bound((-(self.y as int) * (ONE as int)), n as int, ONE as int);
                }
                lemma_normalize_nonzero(self, n as int, rx as int, ry as int);
            }
            Vec2 { x: rx, y: ry }
        }
    }
}

/// The scaled components of a non-zero vector divided by the floor of its
/// norm are not both zero.
proof fn lemma_normalize_nonzero(v: Vec2, n: int, rx: int, ry: int)
    requires
        !(v.x == 0 && v.y == 0),
        is_sqrt_floor(norm_sq_s(v), n),
        rx == div_t(v.x * ONE, n),
        ry == div_t(v.y * ONE, n),
        1 <= n,
    ensures
        !(rx == 0 && ry == 0),
{
    let m: int = if v.x >= 0 { v.x as int } else { -(v.x as int) };
    let my: int = if v.y >= 0 { v.y as int } else { -(v.y as int) };
    let mm: int = if m >= my { m } else { my };
    assert(1 <= mm);
    assert(n <= mm * ONE) by (nonlinear_arith)
        requires
            n * n <= norm_sq_s(v),
            norm_sq_s(v) == v.x * v.x + v.y * v.y,
            mm == if (if v.x >= 0 { v.x as int } else { -(v.x as int) })
                >= (if v.y >= 0 { v.y as int } else { -(v.y as int) })
                { if v.x >= 0 { v.x as int } else { -(v.x as int) } }
                else { if v.y >= 0 { v.y as int } else { -(v.y as int) } },
            1 <= mm,
            0 <= n,
    ;
    assert(1 <= (mm * ONE) / n) by (nonlinear_arith)
        requires
            1 <= n <= mm * ONE,
    ;
    if m >= my {
        assert(rx != 0);
    } else {
        assert(ry != 0);
    }
}

} // verus!
