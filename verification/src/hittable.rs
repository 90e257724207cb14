//! The outcome of a successful intersection, and the closed set of
//! primitives a ray can be tested against.
use vstd::prelude::*;
use crate::vec::{Vec3, Point};
use crate::ray::{Ray, ray_b};
use crate::material::{Material, albedo_s};
use crate::vec::Color;
use crate::sphere::{
    Sphere, sphere_wf, hit_t_s, rec_matches, lemma_hit_shrink, lemma_hit_none_beyond,
};
use crate::vec::len_sq_s;

verus! {

/// A hit: point reached, surface normal turned against the ray, parameter
/// along the ray, which side was struck, and the material there.
#[derive(Clone, Copy, Debug)]
pub struct HitRecord {
    pub p: Point,
    pub normal: Vec3,
    pub t: i64,
    pub front_face: bool,
    pub material: Material,
}

/// The closed set of primitive shapes.
#[derive(Clone, Copy, Debug)]
pub enum Primitive {
    Sphere(Sphere),
}

pub open spec fn prim_wf(p: Primitive) -> bool {
    match p {
        Primitive::Sphere(s) => sphere_wf(s),
    }
}

/// The parameter at which a ray first meets a primitive inside the window,
/// if it does.
pub open spec fn prim_hit_t(p: Primitive, r: Ray, t_min: int, t_max: int) -> Option<int> {
    match p {
        Primitive::Sphere(s) => hit_t_s(s, r, t_min, t_max),
    }
}

/// The returned record is the one the primitive's geometry dictates at its
/// parameter.
pub open spec fn prim_rec_matches(p: Primitive, r: Ray, rec: HitRecord) -> bool {
    match p {
        Primitive::Sphere(s) => rec_matches(s, r, rec),
    }
}

/// The albedo of the material a primitive carries.
pub open spec fn prim_albedo(p: Primitive) -> Color {
    match p {
        Primitive::Sphere(s) => albedo_s(s.material),
    }
}

/// Shrinking the window onto an accepted parameter keeps any wider window's
/// accepted parameter the same.
pub proof fn lemma_prim_shrink(p: Primitive, r: Ray, t_min: int, b: int, t_max: int)
    requires
        1 <= len_sq_s(r.dir),
        b <= t_max,
        prim_hit_t(p, r, t_min, b) is Some,
    ensures
        prim_hit_t(p, r, t_min, t_max) == prim_hit_t(p, r, t_min, b),
{
    match p {
        Primitive::Sphere(s) => lemma_hit_shrink(s, r, t_min, b, t_max),
    }
}

/// If the narrow window holds no hit, a hit of the wider window lies at or
/// beyond the narrow window's end.
pub proof fn lemma_prim_none_beyond(p: Primitive, r: Ray, t_min: int, b: int, t_max: int)
    requires
        1 <= len_sq_s(r.dir),
        b <= t_max,
        prim_hit_t(p, r, t_min, b) is None,
    ensures
        match prim_hit_t(p, r, t_min, t_max) {
            Some(t) => t >= b,
            None => true,
        },
{
    match p {
        Primitive::Sphere(s) => lemma_hit_none_beyond(s, r, t_min, b, t_max),
    }
}

impl Primitive {
    /// Intersect a ray with this primitive over the open window
    /// `(t_min, t_max)`.
    pub fn hit(&self, r: &Ray, t_min: i64, t_max: i64) -> (res: Option<HitRecord>)
        requires
            prim_wf(*self),
            ray_b(*r),
            -0x20_0000_0000 <= t_min,
            t_max <= 0x20_0000_0000,
        ensures
            match res {
                Some(rec) => prim_hit_t(*self, *r, t_min as int, t_max as int) == Some(
                    rec.t as int,
                ) && prim_rec_matches(*self, *r, rec) && t_min < rec.t < t_max,
                None => prim_hit_t(*self, *r, t_min as int, t_max as int) is None,
            },
    {
        match self {
            Primitive::Sphere(s) => s.hit(r, t_min, t_max),
        }
    }
}

} // verus!
