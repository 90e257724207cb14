//! The sphere primitive: quadratic intersection with front-face normal
//! orientation, stated exactly over the grid arithmetic.
use vstd::prelude::*;
use crate::fx::{
    fmul, fdiv, sqrt_fx, mul_fx, div_fx, fx_sqrt, lemma_tdiv_bound, lemma_tdiv_mono,
    lemma_sqrt_fx_props,
};
use crate::vec::{Point, in_b, len_sq_s};
use crate::ray::{Ray, ray_b, COORD_LIMIT};
use crate::material::{Material, mat_wf};
use crate::hittable::HitRecord;

verus! {

#[derive(Clone, Copy, Debug)]
pub struct Sphere {
    pub center: Point,
    pub radius: i64,
    pub material: Material,
}

pub open spec fn sphere_wf(s: Sphere) -> bool {
    in_b(s.center, COORD_LIMIT as int) && 1 <= s.radius <= COORD_LIMIT && mat_wf(s.material)
}

/// Ray origin minus sphere center, per component.
pub open spec fn oc_s(s: Sphere, r: Ray) -> (int, int, int) {
    (r.orig.x - s.center.x, r.orig.y - s.center.y, r.orig.z - s.center.z)
}

/// Grid dot product of component triples.
pub open spec fn d3(u: (int, int, int), v: (int, int, int)) -> int {
    fmul(u.0, v.0) + fmul(u.1, v.1) + fmul(u.2, v.2)
}

pub open spec fn vdir(r: Ray) -> (int, int, int) {
    (r.dir.x as int, r.dir.y as int, r.dir.z as int)
}

/// Half the linear coefficient of the intersection quadratic.
pub open spec fn half_b_s(s: Sphere, r: Ray) -> int {
    d3(oc_s(s, r), vdir(r))
}

/// The constant coefficient of the intersection quadratic.
pub open spec fn quad_c_s(s: Sphere, r: Ray) -> int {
    d3(oc_s(s, r), oc_s(s, r)) - fmul(s.radius as int, s.radius as int)
}

/// The reduced discriminant of the intersection quadratic.
pub open spec fn disc_s(s: Sphere, r: Ray) -> int {
    fmul(half_b_s(s, r), half_b_s(s, r)) - fmul(len_sq_s(r.dir), quad_c_s(s, r))
}

/// The nearer root of the quadratic.
pub open spec fn root1_s(s: Sphere, r: Ray) -> int {
    fdiv(-half_b_s(s, r) - sqrt_fx(disc_s(s, r)), len_sq_s(r.dir))
}

/// The farther root of the quadratic.
pub open spec fn root2_s(s: Sphere, r: Ray) -> int {
    fdiv(-half_b_s(s, r) + sqrt_fx(disc_s(s, r)), len_sq_s(r.dir))
}

/// The accepted parameter: the nearer root if it lies strictly inside the
/// window, else the farther root if it does, else nothing.
pub open spec fn hit_t_s(s: Sphere, r: Ray, t_min: int, t_max: int) -> Option<int> {
    if disc_s(s, r) < 0 {
        None
    } else if t_min < root1_s(s, r) < t_max {
        Some(root1_s(s, r))
    } else if t_min < root2_s(s, r) < t_max {
        Some(root2_s(s, r))
    } else {
        None
    }
}

/// The point the ray reaches at the accepted parameter.
pub open spec fn hit_p_s(r: Ray, t: int) -> (int, int, int) {
    (
        r.orig.x + fmul(r.dir.x as int, t),
        r.orig.y + fmul(r.dir.y as int, t),
        r.orig.z + fmul(r.dir.z as int, t),
    )
}

/// The outward normal at the hit point: the offset from the center divided
/// by the radius.
pub open spec fn outward_s(s: Sphere, r: Ray, t: int) -> (int, int, int) {
    (
        fdiv(hit_p_s(r, t).0 - s.center.x, s.radius as int),
        fdiv(hit_p_s(r, t).1 - s.center.y, s.radius as int),
        fdiv(hit_p_s(r, t).2 - s.center.z, s.radius as int),
    )
}

/// The ray strikes the outside of the sphere: its direction opposes the
/// outward offset at the hit point.
pub open spec fn front_face_s(s: Sphere, r: Ray, t: int) -> bool {
    fmul(r.dir.x as int, hit_p_s(r, t).0 - s.center.x) + fmul(
        r.dir.y as int,
        hit_p_s(r, t).1 - s.center.y,
    ) + fmul(r.dir.z as int, hit_p_s(r, t).2 - s.center.z) < 0
}

/// The record holds exactly what the sphere's geometry dictates at its
/// parameter, with the normal turned against the ray.
pub open spec fn rec_matches(s: Sphere, r: Ray, rec: HitRecord) -> bool {
    &&& rec.p.x == hit_p_s(r, rec.t as int).0
    &&& rec.p.y == hit_p_s(r, rec.t as int).1
    &&& rec.p.z == hit_p_s(r, rec.t as int).2
    &&& rec.front_face == front_face_s(s, r, rec.t as int)
    &&& (rec.front_face ==> rec.normal.x == outward_s(s, r, rec.t as int).0
        && rec.normal.y == outward_s(s, r, rec.t as int).1 && rec.normal.z == outward_s(
        s,
        r,
        rec.t as int,
    ).2)
    &&& (!rec.front_face ==> rec.normal.x == -outward_s(s, r, rec.t as int).0
        && rec.normal.y == -outward_s(s, r, rec.t as int).1 && rec.normal.z == -outward_s(
        s,
        r,
        rec.t as int,
    ).2)
    &&& rec.material == s.material
}

/// With a nonnegative discriminant the nearer root never exceeds the farther.
pub proof fn lemma_roots_ordered(s: Sphere, r: Ray)
    requires
        1 <= len_sq_s(r.dir),
        0 <= disc_s(s, r),
    ensures
        root1_s(s, r) <= root2_s(s, r),
{
    lemma_sqrt_fx_props(disc_s(s, r));
    let sq = sqrt_fx(disc_s(s, r));
    let hb = half_b_s(s, r);
    assert((-hb - sq) * 65536 <= (-hb + sq) * 65536) by (nonlinear_arith)
        requires
            0 <= sq,
    ;
    lemma_tdiv_mono((-hb - sq) * 65536, (-hb + sq) * 65536, len_sq_s(r.dir));
}

/// Shrinking the upper end of the window onto an accepted parameter keeps
/// the accepted parameter of any wider window the same.
pub proof fn lemma_hit_shrink(s: Sphere, r: Ray, t_min: int, b: int, t_max: int)
    requires
        1 <= len_sq_s(r.dir),
        b <= t_max,
        hit_t_s(s, r, t_min, b) is Some,
    ensures
        hit_t_s(s, r, t_min, t_max) == hit_t_s(s, r, t_min, b),
{
    lemma_roots_ordered(s, r);
}

/// If the narrow window holds no hit, any hit of the wider window lies at
/// or beyond the narrow window's end.
pub proof fn lemma_hit_none_beyond(s: Sphere, r: Ray, t_min: int, b: int, t_max: int)
    requires
        1 <= len_sq_s(r.dir),
        b <= t_max,
        hit_t_s(s, r, t_min, b) is None,
    ensures
        match hit_t_s(s, r, t_min, t_max) {
            Some(t) => t >= b,
            None => true,
        },
{
    if disc_s(s, r) >= 0 {
        lemma_roots_ordered(s, r);
    }
}

impl Sphere {
    pub fn new(center: Point, radius: i64, material: Material) -> (s: Sphere)
        requires
            in_b(center, COORD_LIMIT as int),
            1 <= radius <= COORD_LIMIT,
            mat_wf(material),
        ensures
            s.center == center && s.radius == radius && s.material == material,
            sphere_wf(s),
    {
        Sphere { center, radius, material }
    }

    /// Intersect over the open window `(t_min, t_max)`: solve the quadratic,
    /// test the nearer root first, and orient the normal against the ray.
    pub fn hit(&self, r: &Ray, t_min: i64, t_max: i64) -> (res: Option<HitRecord>)
        requires
            sphere_wf(*self),
            ray_b(*r),
            -0x20_0000_0000 <= t_min,
            t_max <= 0x20_0000_0000,
        ensures
            match res {
                Some(rec) => hit_t_s(*self, *r, t_min as int, t_max as int) == Some(rec.t as int)
                    && rec_matches(*self, *r, rec) && t_min < rec.t < t_max,
                None => hit_t_s(*self, *r, t_min as int, t_max as int) is None,
            },
    {
        proof {
            assert forall|a: int, b: int|
                -0x100_0000 <= a <= 0x100_0000 && -0x100_0000 <= b <= 0x100_0000
                    implies -0x1_0000_0000 <= #[trigger] fmul(a, b) <= 0x1_0000_0000 by {
                assert(-(0x1_0000_0000int * 65536) <= a * b <= 0x1_0000_0000int * 65536)
                    by (nonlinear_arith)
                    requires
                        -0x100_0000 <= a <= 0x100_0000,
                        -0x100_0000 <= b <= 0x100_0000,
                ;
                lemma_tdiv_bound(a * b, 0x1_0000_0000, 65536);
            }
        }
        let oc = r.origin().sub(self.center);
        let a = crate::vec::dot(r.direction(), r.direction());
        let hb = crate::vec::dot(oc, r.direction());
        let rad_sq = mul_fx(self.radius, self.radius);
        proof {
            assert(-(0x4000_0000int * 65536) <= (self.radius as int) * (self.radius as int)
                <= 0x4000_0000int * 65536) by (nonlinear_arith)
                requires
                    1 <= self.radius <= 0x80_0000,
            ;
            lemma_tdiv_bound((self.radius as int) * (self.radius as int), 0x4000_0000, 65536);
        }
        let c = crate::vec::dot(oc, oc) - rad_sq;
        proof {
            assert(-0x9_0000_0000_0000_0000 <= (hb as int) * (hb as int)
                <= 0x9_0000_0000_0000_0000) by (nonlinear_arith)
                requires
                    -0x3_0000_0000 <= hb <= 0x3_0000_0000,
            ;
            lemma_tdiv_bound((hb as int) * (hb as int), 0x9_0000_0000_0000, 65536);
            assert(-0x14_0000_0000_0000_0000 <= (a as int) * (c as int)
                <= 0x14_0000_0000_0000_0000) by (nonlinear_arith)
                requires
                    0 <= a <= 0x3_0000_0000,
                    -0x5_0000_0000 <= c <= 0x5_0000_0000,
            ;
            lemma_tdiv_bound((a as int) * (c as int), 0x14_0000_0000_0000, 65536);
        }
        let t1 = mul_fx(hb, hb);
        let t2 = mul_fx(a, c);
        let di = t1 - t2;
        if di < 0 {
            return None;
        }
        let sq = fx_sqrt(di);
        proof {
            assert(sq <= 0x8_0000_0000) by (nonlinear_arith)
                requires
                    0 <= sq,
                    (sq as int) * (sq as int) <= (di as int) * 65536,
                    di <= 0x1D_0000_0000_0000,
            ;
        }
        let mut root = div_fx(-hb - sq, a);
        if root <= t_min || t_max <= root {
            root = div_fx(-hb + sq, a);
            if root <= t_min || t_max <= root {
                return None;
            }
        }
        let p = r.at(root);
        proof {
            assert forall|d: int|
                -0x80_0000 <= d <= 0x80_0000 implies -0x1000_0000_0000 <= #[trigger] fmul(
                    d,
                    root as int,
                ) <= 0x1000_0000_0000 by {
                assert(-(0x1000_0000_0000int * 65536) <= d * (root as int) <= 0x1000_0000_0000int
                    * 65536) by (nonlinear_arith)
                    requires
                        -0x80_0000 <= d <= 0x80_0000,
                        -0x20_0000_0000 <= root <= 0x20_0000_0000,
                ;
                lemma_tdiv_bound(d * (root as int), 0x1000_0000_0000, 65536);
            }
        }
        let pc = p.sub(self.center);
        proof {
            assert forall|d: int, w: int|
                -0x80_0000 <= d <= 0x80_0000 && -0x1001_0000_0000 <= w <= 0x1001_0000_0000
                    implies -0x10_0000_0000_0000int * 65536 <= #[trigger] (d * w)
                    <= 0x10_0000_0000_0000int * 65536 by {
                assert(-(0x10_0000_0000_0000int * 65536) <= d * w <= 0x10_0000_0000_0000int
                    * 65536) by (nonlinear_arith)
                    requires
                        -0x80_0000 <= d <= 0x80_0000,
                        -0x1001_0000_0000 <= w <= 0x1001_0000_0000,
                ;
            }
            assert forall|d: int, w: int|
                -0x80_0000 <= d <= 0x80_0000 && -0x1001_0000_0000 <= w <= 0x1001_0000_0000
                    implies -0x10_0000_0000_0000 <= #[trigger] fmul(d, w)
                    <= 0x10_0000_0000_0000 by {
                assert(-(0x10_0000_0000_0000int * 65536) <= d * w <= 0x10_0000_0000_0000int
                    * 65536);
                lemma_tdiv_bound(d * w, 0x10_0000_0000_0000, 65536);
            }
        }
        let d_out = mul_fx(r.direction().x, pc.x) + mul_fx(r.direction().y, pc.y) + mul_fx(
            r.direction().z,
            pc.z,
        );
        let ff = d_out < 0;
        let outward = pc.div(self.radius);
        let normal = if ff {
            outward
        } else {
            outward.neg()
        };
        Some(HitRecord { p, normal, t: root, front_face: ff, material: self.material })
    }
}

} // verus!
