//! The scene collection: an ordered sequence of primitives, intersected by
//! shrinking the window onto the nearest hit found so far. Its contract says
//! the returned hit is the strictly nearest qualifying one.
use vstd::prelude::*;
use crate::ray::{Ray, ray_b};
use crate::hittable::{
    HitRecord, Primitive, prim_wf, prim_hit_t, prim_rec_matches, lemma_prim_shrink,
    lemma_prim_none_beyond,
};

verus! {

pub struct HittableList {
    pub objects: Vec<Primitive>,
}

pub open spec fn list_wf(l: HittableList) -> bool {
    forall|i: int| 0 <= i < l.objects.len() ==> prim_wf(#[trigger] l.objects[i])
}

impl HittableList {
    pub fn new() -> (l: HittableList)
        ensures
            l.objects.len() == 0,
            list_wf(l),
    {
        HittableList { objects: Vec::new() }
    }

    /// Append a primitive; duplicates and overlaps are permitted.
    pub fn add(&mut self, object: Primitive)
        requires
            prim_wf(object),
        ensures
            final(self).objects@ == old(self).objects@.push(object),
            list_wf(*old(self)) ==> list_wf(*final(self)),
    {
        self.objects.push(object);
        proof {
            assert(forall|i: int|
                0 <= i < old(self).objects.len() ==> self.objects[i] == old(self).objects[i]);
        }
    }

    pub fn len(&self) -> (n: usize)
        ensures
            n == self.objects.len(),
    {
        self.objects.len()
    }

    /// Intersect every primitive and keep the strictly nearest qualifying
    /// hit: the returned record belongs to some primitive whose accepted
    /// parameter no other primitive's accepted parameter undercuts.
    pub fn hit(&self, r: &Ray, t_min: i64, t_max: i64) -> (res: Option<HitRecord>)
        requires
            list_wf(*self),
            ray_b(*r),
            -0x20_0000_0000 <= t_min,
            t_max <= 0x20_0000_0000,
        ensures
            match res {
                Some(rec) => {
                    &&& t_min < rec.t < t_max
                    &&& exists|i: int|
                        0 <= i < self.objects.len() && #[trigger] prim_hit_t(
                            self.objects[i],
                            *r,
                            t_min as int,
                            t_max as int,
                        ) == Some(rec.t as int) && prim_rec_matches(self.objects[i], *r, rec)
                    &&& forall|i: int|
                        0 <= i < self.objects.len() ==> match #[trigger] prim_hit_t(
                            self.objects[i],
                            *r,
                            t_min as int,
                            t_max as int,
                        ) {
                            Some(t) => t >= rec.t,
                            None => true,
                        }
                },
                None => forall|i: int|
                    0 <= i < self.objects.len() ==> #[trigger] prim_hit_t(
                        self.objects[i],
                        *r,
                        t_min as int,
                        t_max as int,
                    ) is None,
            },
    {
        let mut res: Option<HitRecord> = None;
        let mut closest: i64 = t_max;
        let mut i: usize = 0;
        while i < self.objects.len()
            invariant
                i <= self.objects.len(),
                list_wf(*self),
                ray_b(*r),
                -0x20_0000_0000 <= t_min,
                t_max <= 0x20_0000_0000,
                match res {
                    Some(rec) => {
                        &&& t_min < rec.t < t_max
                        &&& closest == rec.t
                        &&& exists|j: int|
                            0 <= j < i && #[trigger] prim_hit_t(
                                self.objects[j],
                                *r,
                                t_min as int,
                                t_max as int,
                            ) == Some(rec.t as int) && prim_rec_matches(self.objects[j], *r, rec)
                        &&& forall|j: int|
                            0 <= j < i ==> match #[trigger] prim_hit_t(
                                self.objects[j],
                                *r,
                                t_min as int,
                                t_max as int,
                            ) {
                                Some(t) => t >= rec.t,
                                None => true,
                            }
                    },
                    None => closest == t_max && forall|j: int|
                        0 <= j < i ==> #[trigger] prim_hit_t(
                            self.objects[j],
                            *r,
                            t_min as int,
                            t_max as int,
                        ) is None,
                },
            decreases self.objects.len() - i,
        {
            let ob = self.objects[i];
            match ob.hit(r, t_min, closest) {
                Some(rec2) => {
                    proof {
                        lemma_prim_shrink(ob, *r, t_min as int, closest as int, t_max as int);
                    }
                    res = Some(rec2);
                    closest = rec2.t;
                },
                None => {
                    proof {
                        lemma_prim_none_beyond(ob, *r, t_min as int, closest as int, t_max as int);
                    }
                },
            }
            i = i + 1;
        }
        res
    }
}

} // verus!
