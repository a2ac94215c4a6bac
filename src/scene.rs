//! A scene of spheres and the search for the nearest hit among them.
use crate::ray::Ray;
use crate::sphere::{hit_spec, lemma_hit_wf, lemma_hit_in_range, lemma_hit_narrowed, HitRecord, Sphere};
use vstd::prelude::*;

verus! {

/// The objects that rays are traced against.
pub struct Scene {
    pub objects: Vec<Sphere>,
}

/// The hit that the scan over `objs` keeps: each object is tested against a
/// range whose upper end has shrunk to the nearest hit so far.
pub open spec fn scan_hit(objs: Seq<Sphere>, ray: Ray, t_min: i64, t_max: i64) -> Option<
    HitRecord,
>
    decreases objs.len(),
{
    if objs.len() == 0 {
        None
    } else {
        let prev = scan_hit(objs.drop_last(), ray, t_min, t_max);
        let bound = match prev {
            Some(h) => h.t,
            None => t_max,
        };
        match hit_spec(objs.last(), ray, t_min as int, bound as int) {
            Some(h) => Some(h),
            None => prev,
        }
    }
}

/// Of the hits that each object reports on its own for `(t_min, t_max)`,
/// the one with the least parameter; of equals, the earliest object's.
pub open spec fn nearest_hit(objs: Seq<Sphere>, ray: Ray, t_min: i64, t_max: i64) -> Option<
    HitRecord,
>
    decreases objs.len(),
{
    if objs.len() == 0 {
        None
    } else {
        let prev = nearest_hit(objs.drop_last(), ray, t_min, t_max);
        match hit_spec(objs.last(), ray, t_min as int, t_max as int) {
            Some(h) => match prev {
                Some(p) => if h.t < p.t {
                    Some(h)
                } else {
                    prev
                },
                None => Some(h),
            },
            None => prev,
        }
    }
}

/// The shrinking-bound scan finds the same hit as taking, over every
/// object's own nearest hit, the one with the least parameter; and that hit
/// lies strictly inside the range.
pub proof fn lemma_scan_is_nearest(objs: Seq<Sphere>, ray: Ray, t_min: i64, t_max: i64)
    ensures
        scan_hit(objs, ray, t_min, t_max) == nearest_hit(objs, ray, t_min, t_max),
        nearest_hit(objs, ray, t_min, t_max) matches Some(h) ==> t_min < h.t < t_max,
    decreases objs.len(),
{
    if objs.len() > 0 {
        let init = objs.drop_last();
        lemma_scan_is_nearest(init, ray, t_min, t_max);
        let prev = nearest_hit(init, ray, t_min, t_max);
        let bound = match prev {
            Some(h) => h.t,
            None => t_max,
        };
        lemma_hit_narrowed(objs.last(), ray, t_min, t_max, bound);
        lemma_hit_in_range(objs.last(), ray, t_min, t_max);
    }
}

/// Every hit that a scene of well-formed spheres reports is well formed.
pub proof fn lemma_nearest_wf(objs: Seq<Sphere>, ray: Ray, t_min: i64, t_max: i64)
    requires
        ray.wf(),
        forall|i: int| 0 <= i < objs.len() ==> (#[trigger] objs[i]).wf(),
    ensures
        nearest_hit(objs, ray, t_min, t_max) matches Some(h) ==> h.wf(),
    decreases objs.len(),
{
    if objs.len() > 0 {
        let init = objs.drop_last();
        assert forall|i: int| 0 <= i < init.len() implies (#[trigger] init[i]).wf() by {
            assert(init[i] == objs[i]);
        }
        lemma_nearest_wf(init, ray, t_min, t_max);
        assert(objs.last().wf());
        lemma_hit_wf(objs.last(), ray, t_min as int, t_max as int);
    }
}

impl Scene {
    /// Every object is a well-formed sphere.
    pub open spec fn wf(&self) -> bool {
        forall|i: int| 0 <= i < self.objects@.len() ==> (#[trigger] self.objects@[i]).wf()
    }

    /// An empty scene.
    pub fn new() -> (r: Scene)
        ensures
            r.objects@ == Seq::<Sphere>::empty(),
    {
        Scene { objects: Vec::new() }
    }

    /// Whether every object is well formed.
    pub fn is_valid(&self) -> (r: bool)
        ensures
            r == self.wf(),
    {
        let mut i: usize = 0;
        while i < self.objects.len()
            invariant
                i <= self.objects@.len(),
                forall|k: int| 0 <= k < i ==> (#[trigger] self.objects@[k]).wf(),
            decreases self.objects@.len() - i,
        {
            if !self.objects[i].is_valid() {
                return false;
            }
            i += 1;
        }
        true
    }

    /// Appends an object.
    pub fn add_object(&mut self, obj: Sphere)
        ensures
            final(self).objects@ == old(self).objects@.push(obj),
    {
        self.objects.push(obj);
    }

    /// The nearest hit of `ray` among all objects with parameter strictly
    /// inside `(t_min, t_max)`.
    pub fn hit(&self, ray: &Ray, t_min: i64, t_max: i64) -> (r: Option<HitRecord>)
        requires
            self.wf(),
            ray.wf(),
        ensures
            r == nearest_hit(self.objects@, *ray, t_min, t_max),
            r matches Some(h) ==> h.wf(),
    {
        let mut closest = t_max;
        let mut record: Option<HitRecord> = None;
        let mut i: usize = 0;
        while i < self.objects.len()
            invariant
                self.wf(),
                ray.wf(),
                i <= self.objects@.len(),
                record == scan_hit(self.objects@.take(i as int), *ray, t_min, t_max),
                closest == (match record {
                    Some(h) => h.t,
                    None => t_max,
                }),
            decreases self.objects@.len() - i,
        {
            assert(self.objects@.take(i + 1).drop_last() =~= self.objects@.take(i as int));
            let obj = &self.objects[i];
            match obj.hit(ray, t_min, closest) {
                Some(h) => {
                    closest = h.t;
                    record = Some(h);
                },
                None => {},
            }
            i += 1;
        }
        proof {
            assert(self.objects@.take(i as int) =~= self.objects@);
            lemma_scan_is_nearest(self.objects@, *ray, t_min, t_max);
            lemma_nearest_wf(self.objects@, *ray, t_min, t_max);
        }
        record
    }
}

} // verus!
