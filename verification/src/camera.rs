//! The pinhole camera: fixed viewport geometry derived once, and a mapping
//! from normalized image-plane coordinates to world-space rays.
use vstd::prelude::*;
use crate::fx::{fmul, fdiv, mul_fx, div_fx, lemma_tdiv_bound};
use crate::vec::{Vec3, Point, in_b};
use crate::ray::Ray;

verus! {

#[derive(Clone, Copy, Debug)]
pub struct Camera {
    pub origin: Point,
    pub lower_left_corner: Point,
    pub horizontal: Vec3,
    pub vertical: Vec3,
}

/// The camera's fixed vectors stay in the small range that ray generation
/// needs.
pub open spec fn cam_wf(c: Camera) -> bool {
    in_b(c.origin, 0x8_0000) && in_b(c.lower_left_corner, 0x8_0000) && in_b(c.horizontal, 0x8_0000)
        && in_b(c.vertical, 0x8_0000)
}

impl Camera {
    /// The fixed viewport: aspect ratio 16:9, viewport height two, focal
    /// length one, eye at the world origin.
    pub fn new() -> (c: Camera)
        ensures
            cam_wf(c),
            c.origin.x == 0 && c.origin.y == 0 && c.origin.z == 0,
            c.horizontal.x == fmul(fdiv(16int * 65536, 9int * 65536), 2int * 65536) && c.horizontal.y == 0
                && c.horizontal.z == 0,
            c.vertical.x == 0 && c.vertical.y == 2 * 65536 && c.vertical.z == 0,
            c.lower_left_corner.x == -fdiv(c.horizontal.x as int, 2int * 65536),
            c.lower_left_corner.y == -65536,
            c.lower_left_corner.z == -65536,
    {
        let aspect_ratio = div_fx(16 * 65536, 9 * 65536);
        let viewport_height: i64 = 2 * 65536;
        let viewport_width = mul_fx(aspect_ratio, viewport_height);
        let focal_length: i64 = 65536;
        let origin = Vec3::new(0, 0, 0);
        let horizontal = Vec3::new(viewport_width, 0, 0);
        let vertical = Vec3::new(0, viewport_height, 0);
        let half_w = div_fx(viewport_width, 2 * 65536);
        let lower_left_corner = Vec3::new(-half_w, -65536, -focal_length);
        Camera { origin, lower_left_corner, horizontal, vertical }
    }

    /// The ray from the eye toward the viewport point `(u, v)`, each
    /// coordinate in `[0, 1]` on the grid.
    pub fn get_ray(&self, u: i64, v: i64) -> (r: Ray)
        requires
            cam_wf(*self),
            0 <= u <= 65536,
            0 <= v <= 65536,
        ensures
            r.orig == self.origin,
            r.dir.x == self.lower_left_corner.x + fmul(self.horizontal.x as int, u as int) + fmul(
                self.vertical.x as int,
                v as int,
            ) - self.origin.x,
            r.dir.y == self.lower_left_corner.y + fmul(self.horizontal.y as int, u as int) + fmul(
                self.vertical.y as int,
                v as int,
            ) - self.origin.y,
            r.dir.z == self.lower_left_corner.z + fmul(self.horizontal.z as int, u as int) + fmul(
                self.vertical.z as int,
                v as int,
            ) - self.origin.z,
            in_b(r.dir, 0x20_0000),
    {
        proof {
            assert forall|a: int, w: int|
                -0x8_0000 <= a <= 0x8_0000 && 0 <= w <= 65536 implies -0x8_0000 <= #[trigger] fmul(
                    a,
                    w,
                ) <= 0x8_0000 by {
                assert(-(0x8_0000int * 65536) <= a * w <= 0x8_0000int * 65536)
                    by (nonlinear_arith)
                    requires
                        -0x8_0000 <= a <= 0x8_0000,
                        0 <= w <= 65536,
                ;
                lemma_tdiv_bound(a * w, 0x8_0000, 65536);
            }
        }
        let dir = self.lower_left_corner.add(self.horizontal.scale(u)).add(
            self.vertical.scale(v),
        ).sub(self.origin);
        Ray::new(self.origin, dir)
    }
}

} // verus!
