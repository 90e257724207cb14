//! The material protocol: how an incoming ray continues after striking a
//! surface, and with what color attenuation. The stochastic draw is separated
//! from the deterministic rule, so the rule carries an exact contract.
use vstd::prelude::*;
use vstd::arithmetic::div_mod::lemma_div_basics;
use crate::fx::{iabs, fmul, fdiv, tdiv};
use crate::vec::{
    Vec3, Color, in_b, dot_s, len_s, len_sq_s, near_zero_s, color_wf, unit_vector,
};
use crate::ray::{Ray, ray_b, COORD_LIMIT};
use crate::hittable::HitRecord;

verus! {

/// A diffuse surface.
#[derive(Clone, Copy, Debug)]
pub struct Lambertian {
    pub albedo: Color,
}

/// A reflective surface with a blur factor.
#[derive(Clone, Copy, Debug)]
pub struct Metal {
    pub albedo: Color,
    pub fuzz: i64,
}

/// The closed set of materials.
#[derive(Clone, Copy, Debug)]
pub enum Material {
    Lambertian(Lambertian),
    Metal(Metal),
}

pub open spec fn mat_wf(m: Material) -> bool {
    match m {
        Material::Lambertian(l) => color_wf(l.albedo),
        Material::Metal(mt) => color_wf(mt.albedo) && 0 <= mt.fuzz <= 65536,
    }
}

pub open spec fn albedo_s(m: Material) -> Color {
    match m {
        Material::Lambertian(l) => l.albedo,
        Material::Metal(mt) => mt.albedo,
    }
}

pub open spec fn fuzz_s(m: Material) -> int {
    match m {
        Material::Lambertian(_) => 0,
        Material::Metal(mt) => mt.fuzz as int,
    }
}

/// The normalized incoming direction, per axis.
pub open spec fn unit_in_x(r: Ray) -> int {
    fdiv(r.dir.x as int, len_s(r.dir))
}

pub open spec fn unit_in_y(r: Ray) -> int {
    fdiv(r.dir.y as int, len_s(r.dir))
}

pub open spec fn unit_in_z(r: Ray) -> int {
    fdiv(r.dir.z as int, len_s(r.dir))
}

/// The blurred mirror direction stated over the incoming ray itself: the
/// reflection of its normalized direction about the normal, plus `fuzz`
/// times the sphere sample.
pub open spec fn metal_dir_of(r: Ray, n: Vec3, fuzz: int, s: Vec3) -> (int, int, int) {
    let d = fmul(unit_in_x(r), n.x as int) + fmul(unit_in_y(r), n.y as int) + fmul(
        unit_in_z(r),
        n.z as int,
    );
    (
        unit_in_x(r) - fmul(n.x as int, 2 * d) + fmul(s.x as int, fuzz),
        unit_in_y(r) - fmul(n.y as int, 2 * d) + fmul(s.y as int, fuzz),
        unit_in_z(r) - fmul(n.z as int, 2 * d) + fmul(s.z as int, fuzz),
    )
}

/// The hit data a material can scatter from: a point inside the world box, a
/// normal of unit scale (within three units — what normalization can yield)
/// that is not degenerate. A hit point can land outside the box when
/// geometry sits near its edge; the tracer absorbs such paths.
pub open spec fn scatterable(rec: HitRecord) -> bool {
    in_b(rec.p, COORD_LIMIT as int) && in_b(rec.normal, 0x30000) && !near_zero_s(rec.normal)
}

/// The diffuse bounce direction before the degeneracy substitution.
pub open spec fn lam_sum(normal: Vec3, sample: Vec3) -> (int, int, int) {
    (normal.x + sample.x, normal.y + sample.y, normal.z + sample.z)
}

/// The degeneracy test on a component triple.
pub open spec fn nz3(v: (int, int, int)) -> bool {
    iabs(v.0) < 256 && iabs(v.1) < 256 && iabs(v.2) < 256
}

/// The blurred mirror direction: the reflection of `unit_in` about `normal`
/// plus `fuzz` times the sphere sample.
pub open spec fn metal_dir(unit_in: Vec3, normal: Vec3, fuzz: int, sample: Vec3) -> (
    int,
    int,
    int,
) {
    (
        unit_in.x - fmul(normal.x as int, 2 * dot_s(unit_in, normal)) + fmul(
            sample.x as int,
            fuzz,
        ),
        unit_in.y - fmul(normal.y as int, 2 * dot_s(unit_in, normal)) + fmul(
            sample.y as int,
            fuzz,
        ),
        unit_in.z - fmul(normal.z as int, 2 * dot_s(unit_in, normal)) + fmul(
            sample.z as int,
            fuzz,
        ),
    )
}

/// Dot product of a component triple with a vector.
pub open spec fn d3t(a: (int, int, int), v: Vec3) -> int {
    fmul(a.0, v.x as int) + fmul(a.1, v.y as int) + fmul(a.2, v.z as int)
}

impl Lambertian {
    pub fn new(albedo: Color) -> (r: Lambertian)
        requires
            color_wf(albedo),
        ensures
            r.albedo == albedo,
    {
        Lambertian { albedo }
    }
}

impl Metal {
    pub fn new(albedo: Color, fuzz: i64) -> (r: Metal)
        requires
            color_wf(albedo),
            0 <= fuzz <= 65536,
        ensures
            r.albedo == albedo && r.fuzz == fuzz,
    {
        Metal { albedo, fuzz }
    }
}

/// The deterministic diffuse rule, applied to a drawn unit sample: bounce
/// along the normal plus the sample, or along the normal alone when that sum
/// degenerates. It always scatters.
pub fn lambertian_scatter_from(albedo: Color, sample: Vec3, rec: &HitRecord) -> (r: (Color, Ray))
    requires
        color_wf(albedo),
        in_b(sample, 0x30000),
        scatterable(*rec),
    ensures
        r.0 == albedo,
        r.1.orig == rec.p,
        nz3(lam_sum(rec.normal, sample)) ==> r.1.dir == rec.normal,
        !nz3(lam_sum(rec.normal, sample)) ==> (r.1.dir.x == rec.normal.x + sample.x
            && r.1.dir.y == rec.normal.y + sample.y && r.1.dir.z == rec.normal.z + sample.z),
        !near_zero_s(r.1.dir),
        in_b(r.1.dir, 0x60000),
{
    let d = rec.normal.add(sample);
    let dir = if d.near_zero() {
        rec.normal
    } else {
        d
    };
    (albedo, Ray::new(rec.p, dir))
}

/// The deterministic mirror rule, applied to a drawn sphere sample: reflect
/// the unit incoming direction, blur it by `fuzz` times the sample, and
/// absorb the ray unless the result leaves the surface.
pub fn metal_scatter_from(
    albedo: Color,
    fuzz: i64,
    unit_in: Vec3,
    sample: Vec3,
    rec: &HitRecord,
) -> (res: Option<(Color, Ray)>)
    requires
        color_wf(albedo),
        0 <= fuzz <= 65536,
        in_b(unit_in, 0x30000),
        in_b(sample, 65536),
        scatterable(*rec),
    ensures
        res is Some <==> d3t(metal_dir(unit_in, rec.normal, fuzz as int, sample), rec.normal)
            > 0,
        match res {
            Some(r) => {
                &&& r.0 == albedo
                &&& r.1.orig == rec.p
                &&& r.1.dir.x == metal_dir(unit_in, rec.normal, fuzz as int, sample).0
                &&& r.1.dir.y == metal_dir(unit_in, rec.normal, fuzz as int, sample).1
                &&& r.1.dir.z == metal_dir(unit_in, rec.normal, fuzz as int, sample).2
                &&& dot_s(r.1.dir, rec.normal) > 0
                &&& in_b(r.1.dir, 0x200_0000)
            },
            None => true,
        },
{
    let reflected = Vec3::reflect(unit_in, rec.normal);
    let blur = sample.scale(fuzz);
    proof {
        assert forall|a: int|
            -65536 <= a <= 65536 implies -65536 <= #[trigger] fmul(a, fuzz as int)
            <= 65536 by {
            assert(-(65536int * 65536) <= a * (fuzz as int) <= 65536int * 65536)
                by (nonlinear_arith)
                requires
                    -65536 <= a <= 65536,
                    0 <= fuzz <= 65536,
            ;
            crate::fx::lemma_tdiv_bound(a * (fuzz as int), 65536, 65536);
        }
    }
    let dir = reflected.add(blur);
    let d = crate::vec::dot(dir, rec.normal);
    if d > 0 {
        Some((albedo, Ray::new(rec.p, dir)))
    } else {
        None
    }
}

impl Material {
    /// Scatter an incoming ray at a hit. A diffuse surface always scatters;
    /// a mirror absorbs exactly when its blurred reflection would not leave
    /// the surface, so with no blur it is owed success whenever the exact
    /// reflection leaves the surface. Whatever was drawn, the scattered
    /// direction follows the material's model for some admissible sample.
    pub fn scatter(&self, r_in: &Ray, rec: &HitRecord) -> (res: Option<(Color, Ray)>)
        requires
            mat_wf(*self),
            ray_b(*r_in),
            scatterable(*rec),
        ensures
            self is Lambertian ==> res is Some,
            (self is Metal && fuzz_s(*self) == 0 && d3t(
                metal_dir_of(*r_in, rec.normal, 0, (Vec3 { x: 0, y: 0, z: 0 })),
                rec.normal,
            ) > 0) ==> res is Some,
            match res {
                Some(r) => {
                    &&& r.0 == albedo_s(*self)
                    &&& r.1.orig == rec.p
                    &&& in_b(r.1.dir, 0x200_0000)
                    &&& (self is Lambertian ==> !near_zero_s(r.1.dir))
                    &&& (self is Metal ==> dot_s(r.1.dir, rec.normal) > 0)
                    &&& (self is Lambertian ==> exists|s: Vec3|
                        #![trigger in_b(s, 0x30000)]
                        in_b(s, 0x30000) && (if nz3(lam_sum(rec.normal, s)) {
                            r.1.dir == rec.normal
                        } else {
                            r.1.dir.x == rec.normal.x + s.x && r.1.dir.y == rec.normal.y + s.y
                                && r.1.dir.z == rec.normal.z + s.z
                        }))
                    &&& (self is Metal ==> exists|s: Vec3|
                        #![trigger in_b(s, 65536)]
                        in_b(s, 65536) && 16384 <= len_sq_s(s) < 65536 && r.1.dir.x
                            == metal_dir_of(*r_in, rec.normal, fuzz_s(*self), s).0 && r.1.dir.y
                            == metal_dir_of(*r_in, rec.normal, fuzz_s(*self), s).1 && r.1.dir.z
                            == metal_dir_of(*r_in, rec.normal, fuzz_s(*self), s).2)
                },
                None => self is Metal,
            },
    {
        match self {
            Material::Lambertian(l) => {
                let sample = Vec3::random_unit_vector();
                let out = lambertian_scatter_from(l.albedo, sample, rec);
                proof {
                    assert(in_b(sample, 0x30000) && (if nz3(lam_sum(rec.normal, sample)) {
                        out.1.dir == rec.normal
                    } else {
                        out.1.dir.x == rec.normal.x + sample.x && out.1.dir.y == rec.normal.y
                            + sample.y && out.1.dir.z == rec.normal.z + sample.z
                    }));
                }
                Some(out)
            },
            Material::Metal(m) => {
                let unit_in = unit_vector(r_in.direction());
                let sample = Vec3::random_in_unit_sphere();
                let res = metal_scatter_from(m.albedo, m.fuzz, unit_in, sample, rec);
                proof {
                    assert(unit_in.x == unit_in_x(*r_in) && unit_in.y == unit_in_y(*r_in)
                        && unit_in.z == unit_in_z(*r_in));
                    let md = metal_dir(unit_in, rec.normal, m.fuzz as int, sample);
                    let mo = metal_dir_of(*r_in, rec.normal, m.fuzz as int, sample);
                    assert(md.0 == mo.0 && md.1 == mo.1 && md.2 == mo.2);
                    if m.fuzz == 0 {
                        lemma_div_basics(65536);
                        let z = (Vec3 { x: 0, y: 0, z: 0 });
                        assert((sample.x as int) * 0 == 0) by (nonlinear_arith);
                        assert((sample.y as int) * 0 == 0) by (nonlinear_arith);
                        assert((sample.z as int) * 0 == 0) by (nonlinear_arith);
                        assert(tdiv(0, 65536) == 0int / 65536);
                        assert(fmul(sample.x as int, 0) == 0 && fmul(sample.y as int, 0) == 0
                            && fmul(sample.z as int, 0) == 0);
                        assert(fmul(z.x as int, 0) == 0 && fmul(z.y as int, 0) == 0 && fmul(
                            z.z as int,
                            0,
                        ) == 0);
                        let mz = metal_dir_of(*r_in, rec.normal, 0, z);
                        assert(mo.0 == mz.0 && mo.1 == mz.1 && mo.2 == mz.2);
                        assert(d3t(mo, rec.normal) == d3t(mz, rec.normal));
                    }
                    if res is Some {
                        assert(in_b(sample, 65536) && 16384 <= len_sq_s(sample) < 65536
                            && res->Some_0.1.dir.x == mo.0 && res->Some_0.1.dir.y == mo.1
                            && res->Some_0.1.dir.z == mo.2);
                    }
                }
                res
            },
        }
    }
}

} // verus!
