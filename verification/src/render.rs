//! The path integrator and the per-pixel Monte-Carlo estimator.

use vstd::prelude::*;
use crate::fx::{ONE, PI_FX, cos_s, sin_s, cos_fx, sin_fx, exp_neg, exp_neg_s, fmul, fmul_s,
    sqrt_floor, lemma_mul_le, lemma_div_bound, lemma_div_nonneg_le, lemma_fmul_le_left};
use crate::vec2::{Vec2, bounded, unitish, dot_s, dist_sq_s};
use crate::shape::{PMAX, Intersection};
use crate::material::{Color, color_wf, black_s, color_mul_s, color_scale_s, Material,
    MaterialKind, SampleResult, DIR_COS, mirror_s, sample_diffuse_s, sample_dielectric_s};
use crate::scene::{Scene, scene_wf, ent_hit, hit_point, hit_val, first_min,
    lemma_first_min_unique};
use crate::rng::rand_unit;
use vstd::arithmetic::div_mod::lemma_div_multiples_vanish;

verus! {

/// Componentwise Beer-Lambert transmittance over a traveled distance.
pub open spec fn beer_lambert_s(a: Color, dist: int) -> Color {
    Color {
        r: exp_neg_s(fmul_s(a.r as int, dist)) as i64,
        g: exp_neg_s(fmul_s(a.g as int, dist)) as i64,
        b: exp_neg_s(fmul_s(a.b as int, dist)) as i64,
    }
}

/// See `beer_lambert_s`: each channel decays exponentially with the
/// distance, weighted by its extinction coefficient.
pub fn beer_lambert(a: Color, dist: i64) -> (r: Color)
    requires
        color_wf(a),
        0 <= dist <= 0x1000_0000,
    ensures
        r == beer_lambert_s(a, dist as int),
        0 <= r.r <= ONE && 0 <= r.g <= ONE && 0 <= r.b <= ONE,
{
    proof {
        assert(0 <= a.r * dist && 0 <= a.g * dist && 0 <= a.b * dist) by (nonlinear_arith)
            requires
                0 <= a.r && 0 <= a.g && 0 <= a.b && 0 <= dist,
        ;
        lemma_mul_le(a.r as int, 0x4000_0000, dist as int, 0x1000_0000);
        lemma_mul_le(a.g as int, 0x4000_0000, dist as int, 0x1000_0000);
        lemma_mul_le(a.b as int, 0x4000_0000, dist as int, 0x1000_0000);
        lemma_div_nonneg_le((a.r * dist) as int, ONE as int);
        lemma_div_nonneg_le((a.g * dist) as int, ONE as int);
        lemma_div_nonneg_le((a.b * dist) as int, ONE as int);
    }
    Color { r: exp_neg(fmul(a.r, dist)), g: exp_neg(fmul(a.g, dist)), b: exp_neg(fmul(a.b, dist)) }
}

/// Every entity is a light-free terminator: an emitter (plain or
/// directional) of exactly black. Such a scene can only ever answer black.
pub open spec fn all_dark(s: Scene) -> bool {
    forall|j: int|
        0 <= j < s.entities@.len() ==> ((#[trigger] s.entities@[j]).material.kind
            == MaterialKind::Emissive || s.entities@[j].material.kind
            == MaterialKind::DirectionalEmissive) && s.entities@[j].material.emissivity
            == black_s()
}

/// The Beer-Lambert attenuation a dielectric hit applies to the gathered
/// radiance; every other material passes it through.
pub open spec fn attenuate_s(m: Material, p: Vec2, it: Intersection, base: Color) -> Color {
    if m.kind == MaterialKind::Dielectric {
        color_mul_s(base, beer_lambert_s(m.absorptivity, sqrt_floor(dist_sq_s(p, it.point))))
    } else {
        base
    }
}

/// Everything the integrator may answer for a ray. A miss answers black.
/// A hit is the unique first minimal one; with no fuel left it contributes
/// black, and otherwise the material scatters: a terminal emission, or the
/// answer of a recursive trace along the sampled continuation direction
/// under some admissible draw, scaled by the unit weight; a dielectric hit
/// finally attenuates the gathered radiance by Beer-Lambert absorption
/// over the traveled segment.
pub open spec fn trace_possible(s: Scene, p: Vec2, d: Vec2, fuel: nat, c: Color) -> bool
    decreases fuel,
{
    ||| ((forall|j: int| 0 <= j < s.entities@.len() ==> (#[trigger] ent_hit(s, p, d, j)) is None)
        && c == black_s())
    ||| (exists|k: int, it: Intersection|
        #[trigger] first_min(s, p, d, k, it) && (if fuel == 0 {
            c == black_s()
        } else {
            exists|base: Color|
                c == #[trigger] attenuate_s(s.entities@[k].material, p, it, base) && (match s.entities@[k].material.kind {
                    MaterialKind::Emissive => base == s.entities@[k].material.emissivity,
                    MaterialKind::DirectionalEmissive => base == (if dot_s(d, it.normal) < -(
                    DIR_COS * ONE) {
                        s.entities@[k].material.emissivity
                    } else {
                        black_s()
                    }),
                    MaterialKind::Mirror => exists|rec: Color|
                        trace_possible(s, it.point, mirror_s(d, it.normal), (fuel - 1) as nat, rec)
                            && base == #[trigger] color_scale_s(rec, ONE as int),
                    MaterialKind::Lambert => if dot_s(d, it.normal) >= 0 {
                        base == black_s()
                    } else {
                        exists|xi: i64, rec: Color|
                            0 <= xi <= ONE && trace_possible(
                                s,
                                it.point,
                                #[trigger] sample_diffuse_s(it.normal, xi as int),
                                (fuel - 1) as nat,
                                rec,
                            ) && base == #[trigger] color_scale_s(rec, ONE as int)
                    },
                    MaterialKind::Dielectric => exists|xi: i64, rec: Color|
                        0 <= xi <= ONE && trace_possible(
                            s,
                            it.point,
                            #[trigger] sample_dielectric_s(
                                d,
                                it.normal,
                                s.entities@[k].material.eta as int,
                                xi as int,
                            ),
                            (fuel - 1) as nat,
                            rec,
                        ) && base == #[trigger] color_scale_s(rec, ONE as int),
                })
        }))
}

/// One traced light path: follow the ray to the nearest surface, scatter
/// there, and recurse until a terminal material or the depth ceiling; a
/// dielectric additionally attenuates by Beer-Lambert absorption over the
/// traveled segment. A ray that escapes the scene contributes black.
pub fn trace(
    scene: &Scene,
    center: Vec2,
    d: Vec2,
    rng: &mut rand::rngs::ThreadRng,
    depth: u32,
    max_depth: u32,
) -> (c: Color)
    requires
        scene_wf(*scene),
        bounded(center, PMAX as int),
        unitish(d),
        depth <= max_depth,
    ensures
        color_wf(c),
        trace_possible(*scene, center, d, (max_depth - depth) as nat, c),
        (forall|j: int|
            0 <= j < scene.entities@.len() ==> (#[trigger] ent_hit(*scene, center, d, j))
                is None) ==> c == black_s(),
        depth == max_depth ==> c == black_s(),
        forall|k: int, it: Intersection|
            #[trigger] first_min(*scene, center, d, k, it) && depth < max_depth
                && scene.entities@[k].material.kind == MaterialKind::Emissive ==> c
                == scene.entities@[k].material.emissivity,
        all_dark(*scene) ==> c == black_s(),
    decreases max_depth - depth,
{
    match scene.intersect_closest(center, d) {
        None => {
            proof {
                assert(trace_possible(*scene, center, d, (max_depth - depth) as nat, black_s()));
            }
            Color::black()
        },
        Some((idx, inter)) => {
            let m: Material = scene.entities[idx].material;
            let mut sum: Color = Color::black();
            let ghost fuel = (max_depth - depth) as nat;
            let ghost ki = idx as int;
            if depth < max_depth {
                let sr: SampleResult = m.sample(d, inter.normal, rng);
                let ghost mut rec_g: Color = black_s();
                match sr {
                    SampleResult::Edge(wo, weight) => {
                        let rec: Color = trace(scene, inter.point, wo, rng, depth + 1, max_depth);
                        sum = rec.scale(weight);
                        proof {
                            rec_g = rec;
                        }
                    },
                    SampleResult::Node(emission) => {
                        sum = emission;
                    },
                }
                let ghost base_g = sum;
                if m.kind == MaterialKind::Dielectric {
                    let dst: i64 = center.dist(inter.point);
                    let bl: Color = beer_lambert(m.absorptivity, dst);
                    proof {
                        lemma_fmul_le_left(sum.r as int, bl.r as int);
                        lemma_fmul_le_left(sum.g as int, bl.g as int);
                        lemma_fmul_le_left(sum.b as int, bl.b as int);
                    }
                    sum = sum.mul(bl);
                }
                proof {
                    assert(sum == attenuate_s(m, center, inter, base_g));
                    assert((max_depth - (depth + 1)) as nat == (fuel - 1) as nat);
                    match m.kind {
                        MaterialKind::Emissive => {
                            assert(base_g == m.emissivity);
                        },
                        MaterialKind::DirectionalEmissive => {
                            assert(base_g == (if dot_s(d, inter.normal) < -(DIR_COS * ONE) {
                                m.emissivity
                            } else {
                                black_s()
                            }));
                        },
                        MaterialKind::Mirror => {
                            assert(trace_possible(
                                *scene,
                                inter.point,
                                mirror_s(d, inter.normal),
                                (fuel - 1) as nat,
                                rec_g,
                            ));
                            assert(base_g == color_scale_s(rec_g, ONE as int));
                        },
                        MaterialKind::Lambert => {
                            if dot_s(d, inter.normal) < 0 {
                                let xi = choose|xi: i64|
                                    0 <= xi <= ONE && sr == SampleResult::Edge(
                                        sample_diffuse_s(inter.normal, xi as int),
                                        ONE,
                                    );
                                assert(trace_possible(
                                    *scene,
                                    inter.point,
                                    sample_diffuse_s(inter.normal, xi as int),
                                    (fuel - 1) as nat,
                                    rec_g,
                                ));
                                assert(base_g == color_scale_s(rec_g, ONE as int));
                            } else {
                                assert(base_g == black_s());
                            }
                        },
                        MaterialKind::Dielectric => {
                            let xi = choose|xi: i64|
                                0 <= xi <= ONE && sr == SampleResult::Edge(
                                    sample_dielectric_s(d, inter.normal, m.eta as int, xi as int),
                                    ONE,
                                );
                            assert(trace_possible(
                                *scene,
                                inter.point,
                                sample_dielectric_s(d, inter.normal, m.eta as int, xi as int),
                                (fuel - 1) as nat,
                                rec_g,
                            ));
                            assert(base_g == color_scale_s(rec_g, ONE as int));
                        },
                    }
                    assert(first_min(*scene, center, d, ki, inter));
                    assert(trace_possible(*scene, center, d, fuel, sum));
                }
            } else {
                proof {
                    assert(first_min(*scene, center, d, ki, inter));
                    assert(trace_possible(*scene, center, d, fuel, sum));
                }
            }
            proof {
                if depth < max_depth {
                    assert forall|k: int, it: Intersection|
                        #[trigger] first_min(*scene, center, d, k, it) && scene.entities@[k].material.kind
                            == MaterialKind::Emissive implies sum
                        == scene.entities@[k].material.emissivity by {
                        lemma_first_min_unique(*scene, center, d, k, it, idx as int, inter);
                    }
                }
            }
            sum
        },
    }
}

/// The componentwise sum of a sequence of radiance samples.
pub open spec fn color_sum_s(cols: Seq<Color>) -> Color
    decreases cols.len(),
{
    if cols.len() == 0 {
        black_s()
    } else {
        let rest = color_sum_s(cols.drop_last());
        Color {
            r: (rest.r + cols.last().r) as i64,
            g: (rest.g + cols.last().g) as i64,
            b: (rest.b + cols.last().b) as i64,
        }
    }
}

/// The estimator's direction for stratum `i` of `n` under the draw `xi`:
/// the direction of the jittered angle `2 pi (i + xi) / n` (the x-axis in
/// the degenerate case of both trigonometric values rounding to zero).
pub open spec fn strat_dir_s(i: int, xi: int, n: int) -> Vec2 {
    let a = (2 * PI_FX * (i * ONE + xi)) / (n * ONE);
    if cos_s(a) == 0 && sin_s(a) == 0 {
        Vec2 { x: ONE, y: 0 }
    } else {
        Vec2 { x: cos_s(a) as i64, y: sin_s(a) as i64 }
    }
}

/// A single emitting entity that every direction away from `p` strikes:
/// from such a point the estimator can only ever see that emitter.
pub open spec fn lone_emitter_surrounds(s: Scene, p: Vec2) -> bool {
    &&& s.entities@.len() == 1
    &&& s.entities@[0].material.kind == MaterialKind::Emissive
    &&& forall|dv: Vec2| unitish(dv) ==> (#[trigger] ent_hit(s, p, dv, 0)) is Some
}

/// `ci` is a possible trace outcome along the stratified direction of
/// stratum `i` under some admissible draw.
pub open spec fn sample_entry_ok(s: Scene, p: Vec2, n: int, md: nat, i: int, ci: Color) -> bool {
    exists|xi: i64|
        0 <= xi <= ONE && #[trigger] trace_possible(s, p, strat_dir_s(i, xi as int, n), md, ci)
}

/// `c` is the componentwise floor-average of the `n` per-path radiances
/// `cols`, where path `i` is a possible trace outcome along the
/// stratified direction of stratum `i` under some admissible draw.
pub open spec fn estimate_of(s: Scene, p: Vec2, n: int, md: nat, cols: Seq<Color>, c: Color) -> bool {
    &&& cols.len() == n
    &&& (forall|i: int| 0 <= i < n ==> color_wf(#[trigger] cols[i]))
    &&& (forall|i: int| 0 <= i < n ==> sample_entry_ok(s, p, n, md, i, #[trigger] cols[i]))
    &&& c == (Color {
        r: (color_sum_s(cols).r as int / n) as i64,
        g: (color_sum_s(cols).g as int / n) as i64,
        b: (color_sum_s(cols).b as int / n) as i64,
    })
}

/// Monte-Carlo estimate of the radiance arriving at a point: the
/// componentwise floor-average of `n` traced paths, path `i` leaving along
/// the stratified jittered angle `2 pi (i + xi) / n`. Surrounded by a lone
/// emitter the estimate is that emitter's radiance exactly.
pub fn sample(
    scene: &Scene,
    rng: &mut rand::rngs::ThreadRng,
    point: Vec2,
    n: u32,
    max_depth: u32,
) -> (c: Color)
    requires
        scene_wf(*scene),
        bounded(point, PMAX as int),
        1 <= n <= 0x1_0000,
    ensures
        color_wf(c),
        all_dark(*scene) ==> c == black_s(),
        max_depth >= 1 && lone_emitter_surrounds(*scene, point) ==> c
            == scene.entities@[0].material.emissivity,
        exists|cols: Seq<Color>| #[trigger] estimate_of(*scene, point, n as int, max_depth as nat, cols, c),
{
    let mut acc: Color = Color::black();
    let ghost mut cols: Seq<Color> = Seq::empty();
    let mut i: u32 = 0;
    while i < n
        invariant
            scene_wf(*scene),
            bounded(point, PMAX as int),
            1 <= n <= 0x1_0000,
            0 <= i <= n,
            cols.len() == i,
            forall|j: int| 0 <= j < i ==> color_wf(#[trigger] cols[j]),
            forall|j: int|
                0 <= j < i ==> sample_entry_ok(
                    *scene,
                    point,
                    n as int,
                    max_depth as nat,
                    j,
                    #[trigger] cols[j],
                ),
            acc.r == color_sum_s(cols).r && acc.g == color_sum_s(cols).g && acc.b == color_sum_s(
                cols,
            ).b,
            0 <= acc.r <= i * 0x4000_0000,
            0 <= acc.g <= i * 0x4000_0000,
            0 <= acc.b <= i * 0x4000_0000,
            all_dark(*scene) ==> acc == black_s(),
            max_depth >= 1 && lone_emitter_surrounds(*scene, point) ==> (acc.r == i
                * scene.entities@[0].material.emissivity.r && acc.g == i
                * scene.entities@[0].material.emissivity.g && acc.b == i
                * scene.entities@[0].material.emissivity.b),
        decreases n - i,
    {
        let xi: i64 = rand_unit(rng);
        let num: i64 = 2 * PI_FX * ((i as i64) * ONE + xi);
        let den: i64 = (n as i64) * ONE;
        proof {
            lemma_div_bound(num as int, den as int, crate::fx::TWO_PI_FX as int);
            lemma_div_nonneg_le(num as int, den as int);
        }
        let ang: i64 = num / den;
        let cs: i64 = cos_fx(ang);
        let sn: i64 = sin_fx(ang);
        let dir: Vec2 = if cs == 0 && sn == 0 {
            Vec2 { x: ONE, y: 0 }
        } else {
            Vec2 { x: cs, y: sn }
        };
        proof {
            assert(dir == strat_dir_s(i as int, xi as int, n as int));
        }
        let col: Color = trace(scene, point, dir, rng, 0, max_depth);
        proof {
            if max_depth >= 1 && lone_emitter_surrounds(*scene, point) {
                assert(ent_hit(*scene, point, dir, 0) is Some);
                let itv = hit_val(ent_hit(*scene, point, dir, 0));
                assert(ent_hit(*scene, point, dir, 0) == Some(itv));
                assert(first_min(*scene, point, dir, 0, itv)) by {
                    assert forall|j: int|
                        0 <= j < scene.entities@.len() && (#[trigger] ent_hit(
                            *scene,
                            point,
                            dir,
                            j,
                        )) is Some implies dist_sq_s(point, itv.point) <= dist_sq_s(
                        point,
                        hit_point(ent_hit(*scene, point, dir, j)),
                    ) by {
                        assert(j == 0);
                    }
                }
                assert(col == scene.entities@[0].material.emissivity);
                assert((i + 1) * scene.entities@[0].material.emissivity.r == i
                    * scene.entities@[0].material.emissivity.r
                    + scene.entities@[0].material.emissivity.r) by (nonlinear_arith);
                assert((i + 1) * scene.entities@[0].material.emissivity.g == i
                    * scene.entities@[0].material.emissivity.g
                    + scene.entities@[0].material.emissivity.g) by (nonlinear_arith);
                assert((i + 1) * scene.entities@[0].material.emissivity.b == i
                    * scene.entities@[0].material.emissivity.b
                    + scene.entities@[0].material.emissivity.b) by (nonlinear_arith);
            }
            let old_cols = cols;
            cols = cols.push(col);
            assert(cols.drop_last() =~= old_cols);
            assert(cols.last() == col);
            assert forall|j: int| 0 <= j < old_cols.len() implies sample_entry_ok(
                *scene,
                point,
                n as int,
                max_depth as nat,
                j,
                #[trigger] cols[j],
            ) by {
                assert(cols[j] == old_cols[j]);
                assert(sample_entry_ok(*scene, point, n as int, max_depth as nat, j, old_cols[j]));
            }
            assert(0 <= xi <= ONE && trace_possible(
                *scene,
                point,
                strat_dir_s(i as int, xi as int, n as int),
                max_depth as nat,
                col,
            ));
            assert(sample_entry_ok(*scene, point, n as int, max_depth as nat, i as int, col));
        }
        acc = acc.add(col);
        i = i + 1;
    }
    proof {
        lemma_div_bound(acc.r as int, n as int, 0x4000_0000);
        lemma_div_bound(acc.g as int, n as int, 0x4000_0000);
        lemma_div_bound(acc.b as int, n as int, 0x4000_0000);
        lemma_div_nonneg_le(acc.r as int, n as int);
        lemma_div_nonneg_le(acc.g as int, n as int);
        lemma_div_nonneg_le(acc.b as int, n as int);
        if max_depth >= 1 && lone_emitter_surrounds(*scene, point) {
            lemma_div_multiples_vanish(scene.entities@[0].material.emissivity.r as int, n as int);
            lemma_div_multiples_vanish(scene.entities@[0].material.emissivity.g as int, n as int);
            lemma_div_multiples_vanish(scene.entities@[0].material.emissivity.b as int, n as int);
        }
    }
    let avg: Color = Color { r: acc.r / (n as i64), g: acc.g / (n as i64), b: acc.b / (n as i64) };
    proof {
        assert(estimate_of(*scene, point, n as int, max_depth as nat, cols, avg));
    }
    avg
}

} // verus!
