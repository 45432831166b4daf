//! Scenes: lists of surfaces, and the nearest one that a ray meets.
use crate::ray::Ray;
use crate::scalar::Scalar;
use crate::sphere::{within, HitRecord, Sphere};
use vstd::prelude::*;

verus! {

/// The surfaces of a scene, in the order in which they were added.
pub struct HittableList {
    pub objects: Vec<Sphere>,
}

impl View for HittableList {
    type V = Seq<Sphere>;

    open spec fn view(&self) -> Seq<Sphere> {
        self.objects@
    }
}

/// The bound under which the next surface is asked: the nearest point so far, or
/// `t_max` while there is none.
pub open spec fn bound_after(best: Option<HitRecord>, t_max: Scalar) -> Scalar {
    match best {
        Some(rec) => rec.t,
        None => t_max,
    }
}

/// The nearest point at which the ray meets one of `objects` strictly between
/// `t_min` and `t_max`. The surfaces are asked in order, each one under the
/// bound that those before it have left; of two surfaces met at the same `t`,
/// the one asked first is returned.
pub open spec fn closest_spec(objects: Seq<Sphere>, ray: Ray, t_min: Scalar, t_max: Scalar)
    -> Option<HitRecord>
    decreases objects.len(),
{
    if objects.len() == 0 {
        None
    } else {
        let before = closest_spec(objects.drop_last(), ray, t_min, t_max);
        match objects.last().hit_spec(ray, t_min, bound_after(before, t_max)) {
            Some(rec) => Some(rec),
            None => before,
        }
    }
}

/// What the scan returns lies strictly between `t_min` and `t_max`, and is the
/// record of one of the surfaces at one of its two roots.
pub proof fn lemma_closest_is_a_hit(objects: Seq<Sphere>, ray: Ray, t_min: Scalar, t_max: Scalar)
    ensures
        closest_spec(objects, ray, t_min, t_max) matches Some(rec) ==> within(rec.t, t_min, t_max)
            && exists|i: int|
            0 <= i < objects.len() && rec == #[trigger] objects[i].record_spec(ray, rec.t) && (rec.t
                == objects[i].near_root_spec(ray) || rec.t == objects[i].far_root_spec(ray)),
    decreases objects.len(),
{
    if objects.len() > 0 {
        let front = objects.drop_last();
        let before = closest_spec(front, ray, t_min, t_max);
        lemma_closest_is_a_hit(front, ray, t_min, t_max);
        let last = objects.last();
        last.lemma_hit(ray, t_min, bound_after(before, t_max));
        match last.hit_spec(ray, t_min, bound_after(before, t_max)) {
            Some(rec) => {
                assert(rec == objects[objects.len() - 1].record_spec(ray, rec.t));
            },
            None => {
                if let Some(rec) = before {
                    let i = choose|i: int|
                        0 <= i < front.len() && rec == #[trigger] front[i].record_spec(ray, rec.t)
                            && (rec.t == front[i].near_root_spec(ray) || rec.t
                            == front[i].far_root_spec(ray));
                    assert(front[i] == objects[i]);
                    assert(rec == objects[i].record_spec(ray, rec.t));
                }
            },
        }
    }
}

/// The scan returns nothing exactly if the ray meets none of the surfaces
/// strictly between `t_min` and `t_max`.
pub proof fn lemma_closest_misses(objects: Seq<Sphere>, ray: Ray, t_min: Scalar, t_max: Scalar)
    ensures
        closest_spec(objects, ray, t_min, t_max) is None <==> forall|i: int|
            0 <= i < objects.len() ==> (#[trigger] objects[i].hit_spec(ray, t_min, t_max)) is None,
    decreases objects.len(),
{
    if objects.len() > 0 {
        let front = objects.drop_last();
        let before = closest_spec(front, ray, t_min, t_max);
        lemma_closest_misses(front, ray, t_min, t_max);
        lemma_closest_is_a_hit(front, ray, t_min, t_max);
        let last = objects.last();
        let n = objects.len() as int;
        let bound = bound_after(before, t_max);
        assert forall|i: int| 0 <= i < n - 1 implies front[i] == objects[i] by {}
        if closest_spec(objects, ray, t_min, t_max) is None {
            assert(before is None);
            assert forall|i: int| 0 <= i < n implies (#[trigger] objects[i].hit_spec(
                ray,
                t_min,
                t_max,
            )) is None by {
                if i < n - 1 {
                    assert(front[i].hit_spec(ray, t_min, t_max) is None);
                }
            }
        } else {
            if before is Some {
                let j = choose|j: int|
                    0 <= j < front.len() && (#[trigger] front[j].hit_spec(ray, t_min, t_max))
                        is Some;
                assert(objects[j].hit_spec(ray, t_min, t_max) is Some);
            } else {
                assert(objects[n - 1].hit_spec(ray, t_min, t_max) is Some);
            }
        }
    }
}

/// What the scan returns is the nearest point: under its distance the ray meets
/// none of the surfaces.
pub proof fn lemma_closest_is_nearest(objects: Seq<Sphere>, ray: Ray, t_min: Scalar, t_max: Scalar)
    ensures
        closest_spec(objects, ray, t_min, t_max) matches Some(rec) ==> forall|i: int|
            0 <= i < objects.len() ==> (#[trigger] objects[i].hit_spec(ray, t_min, rec.t)) is None,
    decreases objects.len(),
{
    if objects.len() > 0 {
        let front = objects.drop_last();
        let before = closest_spec(front, ray, t_min, t_max);
        let bound = bound_after(before, t_max);
        let last = objects.last();
        let n = objects.len() as int;
        lemma_closest_is_nearest(front, ray, t_min, t_max);
        lemma_closest_misses(front, ray, t_min, t_max);
        last.lemma_hit(ray, t_min, bound);
        last.lemma_hit_is_nearest(ray, t_min, bound);
        assert forall|i: int| 0 <= i < n - 1 implies front[i] == objects[i] by {}
        match last.hit_spec(ray, t_min, bound) {
            Some(rec) => {
                assert forall|i: int| 0 <= i < n implies (#[trigger] objects[i].hit_spec(
                    ray,
                    t_min,
                    rec.t,
                )) is None by {
                    if i < n - 1 {
                        assert(front[i].hit_spec(ray, t_min, bound) is None);
                        objects[i].lemma_miss_under_lower_bound(ray, t_min, bound, rec.t);
                    }
                }
            },
            None => {
                if let Some(rec) = before {
                    assert forall|i: int| 0 <= i < n implies (#[trigger] objects[i].hit_spec(
                        ray,
                        t_min,
                        rec.t,
                    )) is None by {
                        if i < n - 1 {
                            assert(front[i].hit_spec(ray, t_min, rec.t) is None);
                        }
                    }
                }
            },
        }
    }
}

impl HittableList {
    /// A scene without surfaces.
    pub fn new() -> (list: HittableList)
        ensures
            list@.len() == 0,
    {
        HittableList { objects: Vec::new() }
    }

    /// Adds a surface behind those that are there.
    pub fn add(&mut self, object: Sphere)
        ensures
            final(self)@ == old(self)@.push(object),
    {
        self.objects.push(object);
    }

    /// The nearest point at which the ray meets a surface of the scene strictly
    /// between `t_min` and `t_max`, if there is one: nothing exactly if the ray
    /// meets no surface there; else the record of a surface at one of its roots,
    /// under whose distance the ray meets no surface.
    pub fn hit(&self, ray: &Ray, t_min: Scalar, t_max: Scalar) -> (r: Option<HitRecord>)
        ensures
            r == closest_spec(self@, *ray, t_min, t_max),
            r is None <==> forall|i: int|
                0 <= i < self@.len() ==> (#[trigger] self@[i].hit_spec(*ray, t_min, t_max)) is None,
            r matches Some(rec) ==> within(rec.t, t_min, t_max) && (exists|i: int|
                0 <= i < self@.len() && rec == #[trigger] self@[i].record_spec(*ray, rec.t)
                    && (rec.t == self@[i].near_root_spec(*ray) || rec.t == self@[i].far_root_spec(
                    *ray,
                ))) && (forall|i: int|
                0 <= i < self@.len() ==> (#[trigger] self@[i].hit_spec(*ray, t_min, rec.t))
                    is None),
    {
        let mut best: Option<HitRecord> = None;
        let mut closest_so_far = t_max;
        let mut i: usize = 0;
        while i < self.objects.len()
            invariant
                i <= self.objects.len(),
                best == closest_spec(self@.take(i as int), *ray, t_min, t_max),
                closest_so_far == bound_after(best, t_max),
            decreases self.objects.len() - i,
        {
            proof {
                assert(self@.take(i + 1).drop_last() == self@.take(i as int));
            }
            match self.objects[i].hit(ray, t_min, closest_so_far) {
                Some(rec) => {
                    closest_so_far = rec.t;
                    best = Some(rec);
                },
                None => {},
            }
            i = i + 1;
        }
        proof {
            assert(self@.take(i as int) == self@);
            lemma_closest_is_a_hit(self@, *ray, t_min, t_max);
            lemma_closest_misses(self@, *ray, t_min, t_max);
            lemma_closest_is_nearest(self@, *ray, t_min, t_max);
        }
        best
    }
}

impl Default for HittableList {
    fn default() -> (list: HittableList)
        ensures
            list@.len() == 0,
    {
        HittableList::new()
    }
}

} // verus!
