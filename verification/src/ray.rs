//! A ray: origin plus direction, evaluated at a grid parameter.
use vstd::prelude::*;
use crate::fx::{fmul, lemma_tdiv_bound};
use crate::vec::{Vec3, Point, in_b, len_sq_s};

verus! {

/// The world box: every coordinate the tracer works on stays within this
/// many grid units (128 whole units). It is the largest power of two the
/// kernel's overflow chain admits with `i64` storage: intersecting a sphere
/// squares the quadratic's half-coefficient, which for coordinates within a
/// bound `G` can reach `12 * G * G / 65536`, and `mul_fx` caps the square of
/// that at `2^78` — satisfied for `G = 2^23` and broken for `2^24`.
pub const COORD_LIMIT: i64 = 0x80_0000;

#[derive(Clone, Copy, Debug)]
pub struct Ray {
    pub orig: Point,
    pub dir: Vec3,
}

/// A ray the tracer works on: components within the geometry range and a
/// direction whose square registers on the grid.
pub open spec fn ray_b(r: Ray) -> bool {
    in_b(r.orig, COORD_LIMIT as int) && in_b(r.dir, COORD_LIMIT as int) && 1 <= len_sq_s(r.dir)
}

impl Ray {
    pub fn new(origin: Point, direction: Vec3) -> (r: Ray)
        ensures
            r.orig == origin && r.dir == direction,
    {
        Ray { orig: origin, dir: direction }
    }

    pub fn origin(&self) -> (r: Point)
        ensures
            r == self.orig,
    {
        self.orig
    }

    pub fn direction(&self) -> (r: Vec3)
        ensures
            r == self.dir,
    {
        self.dir
    }

    /// The point the ray reaches at parameter `t`.
    pub fn at(&self, t: i64) -> (r: Point)
        requires
            in_b(self.dir, 0x80_0000),
            in_b(self.orig, 0x4000_0000_0000),
            -0x20_0000_0000 <= t <= 0x20_0000_0000,
        ensures
            r.x == self.orig.x + fmul(self.dir.x as int, t as int),
            r.y == self.orig.y + fmul(self.dir.y as int, t as int),
            r.z == self.orig.z + fmul(self.dir.z as int, t as int),
            in_b(r, 0x5000_0000_0000),
    {
        proof {
            assert forall|a: int|
                -0x80_0000 <= a <= 0x80_0000 implies -0x1000_0000_0000 <= #[trigger] fmul(
                    a,
                    t as int,
                ) <= 0x1000_0000_0000 by {
                assert(-(0x1000_0000_0000int * 65536) <= a * (t as int) <= 0x1000_0000_0000int
                    * 65536) by (nonlinear_arith)
                    requires
                        -0x80_0000 <= a <= 0x80_0000,
                        -0x20_0000_0000 <= t <= 0x20_0000_0000,
                ;
                lemma_tdiv_bound(a * (t as int), 0x1000_0000_0000, 65536);
            }
        }
        self.orig.add(self.dir.scale(t))
    }
}

} // verus!
