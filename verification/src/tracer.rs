//! The path-color estimator: recursive, depth-limited Monte-Carlo tracing
//! with a background gradient on a miss and black at depth exhaustion.
use vstd::prelude::*;
use crate::fx::{fmul, fdiv, lemma_tdiv_exact, lemma_tdiv_bound, lemma_tdiv_nonneg, mul_fx};
use crate::vec::{Vec3, Color, in_b, len_s, color_wf, unit_vector};
use crate::ray::{Ray, ray_b, COORD_LIMIT};
use crate::hittable::{Primitive, prim_hit_t, prim_rec_matches, prim_albedo};
use crate::hittable_list::{HittableList, list_wf};
use crate::material::albedo_s;

verus! {

/// Lower intersection bound: about a thousandth on the grid, suppressing
/// self-intersection of freshly scattered rays.
pub const T_EPSILON: i64 = 66;

/// Upper intersection bound standing in for infinity.
pub const T_INFINITY: i64 = 0x20_0000_0000;

/// The gradient coordinate: half of one plus the normalized vertical
/// component, kept inside `[0, 1]` on the grid.
pub open spec fn bg_t(r: Ray) -> int {
    let uy = fdiv(r.dir.y as int, len_s(r.dir));
    let s = uy + 65536;
    let c = if s < 0 {
        0int
    } else if s > 131072 {
        131072int
    } else {
        s
    };
    c / 2
}

/// The sky: white blended toward sky blue by the gradient coordinate.
pub open spec fn background_s(r: Ray) -> (int, int, int) {
    let t = bg_t(r);
    (
        fmul(65536 - t, 65536) + fmul(t, 32768),
        fmul(65536 - t, 65536) + fmul(t, 45875),
        fmul(65536 - t, 65536) + fmul(t, 65536),
    )
}

/// The terminal color: no light.
pub open spec fn is_black(c: Color) -> bool {
    c.x == 0 && c.y == 0 && c.z == 0
}

/// Some primitive's accepted parameter lies in the window.
pub open spec fn hit_somewhere(w: HittableList, r: Ray, t_min: int, t_max: int) -> bool {
    exists|i: int|
        0 <= i < w.objects.len() && #[trigger] prim_hit_t(w.objects[i], r, t_min, t_max) is Some
}

/// Primitive `i` is hit at parameter `ti`, and no primitive is hit nearer.
pub open spec fn nearest_hit_at(
    w: HittableList,
    r: Ray,
    t_min: int,
    t_max: int,
    i: int,
    ti: int,
) -> bool {
    &&& 0 <= i < w.objects.len()
    &&& prim_hit_t(w.objects[i], r, t_min, t_max) == Some(ti)
    &&& forall|j: int|
        0 <= j < w.objects.len() ==> match #[trigger] prim_hit_t(w.objects[j], r, t_min, t_max) {
            Some(tj) => tj >= ti,
            None => true,
        }
}

/// `c` is `a` attenuating some in-range color, component-wise on the grid.
pub open spec fn attenuated_by(c: Color, a: Color) -> bool {
    exists|b: Vec3|
        #![trigger fmul(a.x as int, b.x as int)]
        color_wf(b) && c.x == fmul(a.x as int, b.x as int) && c.y == fmul(a.y as int, b.y as int)
            && c.z == fmul(a.z as int, b.z as int)
}

/// Whether a ray is one the tracer can work on.
pub fn ray_ok(r: &Ray) -> (b: bool)
    ensures
        b == ray_b(*r),
{
    if !vec_within(&r.dir, COORD_LIMIT) {
        false
    } else if !vec_within(&r.orig, COORD_LIMIT) {
        false
    } else {
        r.dir.length_squared() >= 1
    }
}

/// Whether every component lies within `m` in magnitude.
pub fn vec_within(v: &Vec3, m: i64) -> (b: bool)
    requires
        0 <= m,
    ensures
        b == in_b(*v, m as int),
{
    -m <= v.x && v.x <= m && -m <= v.y && v.y <= m && -m <= v.z && v.z <= m
}

/// The background gradient for a ray that hits nothing.
pub fn background(r: &Ray) -> (c: Color)
    requires
        ray_b(*r),
    ensures
        c.x == background_s(*r).0,
        c.y == background_s(*r).1,
        c.z == background_s(*r).2,
        color_wf(c),
{
    let u = unit_vector(r.direction());
    let s = u.y + 65536;
    let cl: i64 = if s < 0 {
        0
    } else if s > 131072 {
        131072
    } else {
        s
    };
    let t = ((cl as u64) / 2) as i64;
    let wt = 65536 - t;
    proof {
        lemma_tdiv_exact(wt as int, 65536);
        lemma_blend_in_unit(t as int, 32768);
        lemma_blend_in_unit(t as int, 45875);
        lemma_blend_in_unit(t as int, 65536);
    }
    Vec3::new(
        mul_fx(wt, 65536) + mul_fx(t, 32768),
        mul_fx(wt, 65536) + mul_fx(t, 45875),
        mul_fx(wt, 65536) + mul_fx(t, 65536),
    )
}

/// Blending a channel toward a color in the unit range keeps it there:
/// the scaled term stays within the gradient coordinate itself.
proof fn lemma_blend_in_unit(t: int, chan: int)
    requires
        0 <= t <= 65536,
        0 <= chan <= 65536,
    ensures
        0 <= fmul(t, chan) <= t,
        -0x4000_0000_0000_0000_0000 <= t * chan <= 0x4000_0000_0000_0000_0000,
{
    assert(0 <= t * chan <= t * 65536) by (nonlinear_arith)
        requires
            0 <= t <= 65536,
            0 <= chan <= 65536,
    ;
    lemma_tdiv_bound(t * chan, t, 65536);
    assert(t * 65536 <= 65536 * 65536) by (nonlinear_arith)
        requires
            0 <= t <= 65536,
    ;
}

/// A product of two unit-range channels stays in the unit range.
proof fn lemma_channel_mul(a: int, b: int)
    requires
        0 <= a <= 65536,
        0 <= b <= 65536,
    ensures
        0 <= fmul(a, b) <= 65536,
        -0x4000_0000_0000_0000_0000 <= a * b <= 0x4000_0000_0000_0000_0000,
{
    assert(0 <= a * b <= 65536 * 65536) by (nonlinear_arith)
        requires
            0 <= a <= 65536,
            0 <= b <= 65536,
    ;
    lemma_tdiv_nonneg(a * b, 65536);
    lemma_tdiv_bound(a * b, 65536, 65536);
}

/// Estimate the radiance along a ray: black at depth exhaustion; on a hit,
/// the material's attenuation times the estimate of the scattered ray, or
/// black on absorption; on a miss, the background gradient. Whatever the
/// draws gave, a hit yields black or the nearest hit's albedo attenuating an
/// in-range color. Hit data that leaves the grid's working range — possible
/// for geometry near the edge of the world box — ends the path as absorbed,
/// within the black alternative of that clause.
pub fn ray_color(r: &Ray, world: &HittableList, depth: u64) -> (c: Color)
    requires
        ray_b(*r),
        list_wf(*world),
    ensures
        color_wf(c),
        depth == 0 ==> c.x == 0 && c.y == 0 && c.z == 0,
        (depth > 0 && (forall|i: int|
            0 <= i < world.objects.len() ==> #[trigger] prim_hit_t(
                world.objects[i],
                *r,
                T_EPSILON as int,
                T_INFINITY as int,
            ) is None)) ==> (c.x == background_s(*r).0 && c.y == background_s(*r).1 && c.z
            == background_s(*r).2),
        (depth > 0 && hit_somewhere(*world, *r, T_EPSILON as int, T_INFINITY as int)) ==> (
        is_black(c) || exists|i: int, ti: int|
            #![trigger nearest_hit_at(*world, *r, T_EPSILON as int, T_INFINITY as int, i, ti)]
            nearest_hit_at(*world, *r, T_EPSILON as int, T_INFINITY as int, i, ti)
                && attenuated_by(c, prim_albedo(world.objects[i]))),
    decreases depth,
{
    if depth == 0 {
        return Vec3::new(0, 0, 0);
    }
    match world.hit(r, T_EPSILON, T_INFINITY) {
        Some(rec) => {
            if !(vec_within(&rec.p, COORD_LIMIT) && vec_within(&rec.normal, 0x30000)
                && !rec.normal.near_zero()) {
                return Vec3::new(0, 0, 0);
            }
            match rec.material.scatter(r, &rec) {
                Some((attenuation, scattered)) => {
                    if ray_ok(&scattered) {
                        let bounced = ray_color(&scattered, world, depth - 1);
                        proof {
                            lemma_channel_mul(bounced.x as int, attenuation.x as int);
                            lemma_channel_mul(bounced.y as int, attenuation.y as int);
                            lemma_channel_mul(bounced.z as int, attenuation.z as int);
                        }
                        let shaded = bounced.mul(attenuation);
                        proof {
                            let i = choose|i: int|
                                0 <= i < world.objects.len() && #[trigger] prim_hit_t(
                                    world.objects[i],
                                    *r,
                                    T_EPSILON as int,
                                    T_INFINITY as int,
                                ) == Some(rec.t as int) && prim_rec_matches(
                                    world.objects[i],
                                    *r,
                                    rec,
                                );
                            assert(nearest_hit_at(
                                *world,
                                *r,
                                T_EPSILON as int,
                                T_INFINITY as int,
                                i,
                                rec.t as int,
                            ));
                            let p = world.objects@[i];
                            match p {
                                Primitive::Sphere(sp) => {
                                    assert(rec.material == sp.material);
                                    assert(prim_albedo(p) == albedo_s(sp.material));
                                },
                            }
                            assert(prim_albedo(world.objects@[i]) == attenuation);
                            assert((bounced.x as int) * (attenuation.x as int) == (
                            attenuation.x as int) * (bounced.x as int)) by (nonlinear_arith);
                            assert((bounced.y as int) * (attenuation.y as int) == (
                            attenuation.y as int) * (bounced.y as int)) by (nonlinear_arith);
                            assert((bounced.z as int) * (attenuation.z as int) == (
                            attenuation.z as int) * (bounced.z as int)) by (nonlinear_arith);
                            assert(attenuated_by(shaded, prim_albedo(world.objects@[i]))) by {
                                assert(color_wf(bounced) && shaded.x == fmul(
                                    attenuation.x as int,
                                    bounced.x as int,
                                ) && shaded.y == fmul(attenuation.y as int, bounced.y as int)
                                    && shaded.z == fmul(attenuation.z as int, bounced.z as int));
                            }
                        }
                        shaded
                    } else {
                        Vec3::new(0, 0, 0)
                    }
                },
                None => Vec3::new(0, 0, 0),
            }
        },
        None => background(r),
    }
}

} // verus!
