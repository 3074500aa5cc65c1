//! Entities (a shape bound to a material) and the scene: an ordered list of
//! entities answering nearest-hit ray queries by linear scan.

use vstd::prelude::*;
use crate::vec2::{Vec2, bounded, unitish, dist_sq_s};
use crate::shape::{Shape, Intersection, shape_wf, shape_hit_s, PMAX};
use crate::material::{Material, material_wf};

verus! {

/// One scene object: a shape with its optical material.
pub struct Entity {
    pub shape: Shape,
    pub material: Material,
}

pub open spec fn entity_wf(e: Entity) -> bool {
    shape_wf(e.shape) && material_wf(e.material)
}

impl Entity {
    /// Delegates the ray query to the entity's shape.
    pub fn intersect(&self, p: Vec2, d: Vec2) -> (r: Option<Intersection>)
        requires
            entity_wf(*self),
            bounded(p, PMAX as int),
            unitish(d),
        ensures
            r == shape_hit_s(self.shape, p, d),
            r matches Some(it) ==> bounded(it.point, PMAX as int) && unitish(it.normal),
    {
        self.shape.intersect(p, d)
    }
}

/// A scene: the entities it holds, in construction order.
pub struct Scene {
    pub entities: Vec<Entity>,
}

pub open spec fn scene_wf(s: Scene) -> bool {
    forall|j: int| 0 <= j < s.entities@.len() ==> entity_wf(#[trigger] s.entities@[j])
}

/// What entity `j`'s shape answers for this ray.
pub open spec fn ent_hit(s: Scene, p: Vec2, d: Vec2, j: int) -> Option<Intersection> {
    shape_hit_s(s.entities@[j].shape, p, d)
}

/// The hit point of an intersection answer (the origin when there is
/// none; used only under an `is Some` guard).
pub open spec fn hit_point(h: Option<Intersection>) -> Vec2 {
    match h {
        Some(it) => it.point,
        None => Vec2 { x: 0, y: 0 },
    }
}

/// The intersection inside an answer (an arbitrary fixed record when there
/// is none; used only under an `is Some` guard).
pub open spec fn hit_val(h: Option<Intersection>) -> Intersection {
    match h {
        Some(it) => it,
        None => Intersection { point: Vec2 { x: 0, y: 0 }, normal: Vec2 { x: 0, y: 0 } },
    }
}

/// Entity `k`'s shape answers `it` for this ray, no entity answers a
/// strictly nearer hit, and every earlier entity's hit is strictly
/// farther: `(k, it)` is the unique first minimal hit.
pub open spec fn first_min(s: Scene, p: Vec2, d: Vec2, k: int, it: Intersection) -> bool {
    &&& 0 <= k < s.entities@.len()
    &&& ent_hit(s, p, d, k) == Some(it)
    &&& forall|j: int|
        0 <= j < s.entities@.len() && (#[trigger] ent_hit(s, p, d, j)) is Some ==> dist_sq_s(
            p,
            it.point,
        ) <= dist_sq_s(p, hit_point(ent_hit(s, p, d, j)))
    &&& forall|j: int|
        0 <= j < k && (#[trigger] ent_hit(s, p, d, j)) is Some ==> dist_sq_s(p, it.point)
            < dist_sq_s(p, hit_point(ent_hit(s, p, d, j)))
}

/// The first minimal hit is unique.
pub proof fn lemma_first_min_unique(
    s: Scene,
    p: Vec2,
    d: Vec2,
    k1: int,
    it1: Intersection,
    k2: int,
    it2: Intersection,
)
    requires
        first_min(s, p, d, k1, it1),
        first_min(s, p, d, k2, it2),
    ensures
        k1 == k2,
        it1 == it2,
{
    if k1 < k2 {
        assert(dist_sq_s(p, it2.point) < dist_sq_s(p, hit_point(ent_hit(s, p, d, k1))));
        assert(dist_sq_s(p, it1.point) <= dist_sq_s(p, hit_point(ent_hit(s, p, d, k2))));
    }
    if k2 < k1 {
        assert(dist_sq_s(p, it1.point) < dist_sq_s(p, hit_point(ent_hit(s, p, d, k2))));
        assert(dist_sq_s(p, it2.point) <= dist_sq_s(p, hit_point(ent_hit(s, p, d, k1))));
    }
}

impl Scene {
    /// The nearest hit along the ray over all entities, with the index of
    /// the entity that was struck. Among equidistant hits the
    /// first-encountered entity wins.
    pub fn intersect_closest(&self, p: Vec2, d: Vec2) -> (r: Option<(usize, Intersection)>)
        requires
            scene_wf(*self),
            bounded(p, PMAX as int),
            unitish(d),
        ensures
            r is None ==> forall|j: int|
                0 <= j < self.entities@.len() ==> (#[trigger] ent_hit(*self, p, d, j)) is None,
            r matches Some((k, it)) ==> first_min(*self, p, d, k as int, it) && bounded(
                it.point,
                PMAX as int,
            ) && unitish(it.normal),
    {
        let len: usize = self.entities.len();
        let mut res: Option<(usize, Intersection)> = None;
        let mut i: usize = 0;
        while i < len
            invariant
                scene_wf(*self),
                bounded(p, PMAX as int),
                unitish(d),
                len == self.entities@.len(),
                0 <= i <= len,
                res is None ==> forall|j: int|
                    0 <= j < i ==> (#[trigger] ent_hit(*self, p, d, j)) is None,
                res matches Some((k, it)) ==> {
                    &&& k < i
                    &&& ent_hit(*self, p, d, k as int) == Some(it)
                    &&& forall|j: int|
                        0 <= j < i && (#[trigger] ent_hit(*self, p, d, j)) is Some ==> dist_sq_s(
                            p,
                            it.point,
                        ) <= dist_sq_s(p, hit_point(ent_hit(*self, p, d, j)))
                    &&& forall|j: int|
                        0 <= j < k && (#[trigger] ent_hit(*self, p, d, j)) is Some ==> dist_sq_s(
                            p,
                            it.point,
                        ) < dist_sq_s(p, hit_point(ent_hit(*self, p, d, j)))
                    &&& bounded(it.point, PMAX as int) && unitish(it.normal)
                },
            decreases len - i,
        {
            let e: &Entity = &self.entities[i];
            if let Some(inter) = e.intersect(p, d) {
                res = match res {
                    Some((k, prev)) => if p.dist_sq(prev.point) > p.dist_sq(inter.point) {
                        Some((i, inter))
                    } else {
                        Some((k, prev))
                    },
                    None => Some((i, inter)),
                };
            }
            i = i + 1;
        }
        res
    }
}

} // verus!
