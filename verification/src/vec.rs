//! The three-component vector kernel. A `Vec3` doubles as a point and as a
//! color; each component is a fixed-point grid value (see `fx`).
use vstd::prelude::*;
use vstd::string::StringExecFns;
use vstd::arithmetic::div_mod::{
    lemma_fundamental_div_mod, lemma_mod_division_less_than_divisor, lemma_div_is_ordered,
    lemma_div_is_ordered_by_denominator, lemma_div_basics, lemma_div_pos_is_pos,
};
use crate::fx::{
    iabs, tdiv, fmul, fdiv, sqrt_fx, mul_fx, div_fx, fx_sqrt,
    lemma_tdiv_bound, lemma_tdiv_neg, lemma_tdiv_nonneg, lemma_tdiv_decompose,
    lemma_sqrt_fx_props,
};

verus! {

#[derive(Clone, Copy, Debug)]
pub struct Vec3 {
    pub x: i64,
    pub y: i64,
    pub z: i64,
}

pub type Color = Vec3;

pub type Point = Vec3;

/// Every component lies within `m` in magnitude.
pub open spec fn in_b(v: Vec3, m: int) -> bool {
    -m <= v.x <= m && -m <= v.y <= m && -m <= v.z <= m
}

/// The grid dot product: component products rounded onto the grid, summed.
pub open spec fn dot_s(u: Vec3, v: Vec3) -> int {
    fmul(u.x as int, v.x as int) + fmul(u.y as int, v.y as int) + fmul(u.z as int, v.z as int)
}

/// Squared length on the grid.
pub open spec fn len_sq_s(v: Vec3) -> int {
    dot_s(v, v)
}

/// Length on the grid: the rounded square root of the squared length.
pub open spec fn len_s(v: Vec3) -> int {
    sqrt_fx(len_sq_s(v))
}

/// All components are below the degeneracy threshold: such a vector is too
/// short for its square to register on the grid, so it cannot be normalized.
pub open spec fn near_zero_s(v: Vec3) -> bool {
    iabs(v.x as int) < 256 && iabs(v.y as int) < 256 && iabs(v.z as int) < 256
}

/// A color: every channel within `[0, 1]` on the grid.
pub open spec fn color_wf(c: Vec3) -> bool {
    0 <= c.x <= 65536 && 0 <= c.y <= 65536 && 0 <= c.z <= 65536
}

/// The square of a component never registers negatively on the grid.
pub proof fn lemma_sq_nonneg(a: int)
    ensures
        0 <= fmul(a, a),
{
    assert(a * a >= 0) by (nonlinear_arith);
    lemma_tdiv_nonneg(a * a, 65536);
}

/// The squared length is a sum of three nonnegative terms.
pub proof fn lemma_len_sq_nonneg(v: Vec3)
    ensures
        0 <= len_sq_s(v),
        fmul(v.x as int, v.x as int) <= len_sq_s(v),
        fmul(v.y as int, v.y as int) <= len_sq_s(v),
        fmul(v.z as int, v.z as int) <= len_sq_s(v),
{
    lemma_sq_nonneg(v.x as int);
    lemma_sq_nonneg(v.y as int);
    lemma_sq_nonneg(v.z as int);
}

/// Negating one argument negates a rounded product.
pub proof fn lemma_fmul_neg_left(a: int, b: int)
    ensures
        fmul(-a, b) == -fmul(a, b),
{
    assert((-a) * b == -(a * b)) by (nonlinear_arith);
    lemma_tdiv_neg(a * b, 65536);
}

/// A normalized component stays within three grid units of one, given the
/// length bracketing; stated over the raw quotient.
proof fn lemma_unit_comp_bound(vi: int, ls: int, l: int)
    requires
        0 <= ls,
        255 <= l,
        l * l <= ls * 65536,
        ls * 65536 < (l + 1) * (l + 1),
        fmul(vi, vi) <= ls,
    ensures
        -0x30000 <= fdiv(vi, l) <= 0x30000,
{
    assert(vi * vi >= 0) by (nonlinear_arith);
    lemma_fundamental_div_mod(vi * vi, 65536);
    lemma_mod_division_less_than_divisor(vi * vi, 65536);
    assert(vi * vi <= 65536 * ls + 65535);
    assert((l + 1) * (l + 1) + 65535 >= 65536 * ls + 65535) by (nonlinear_arith)
        requires
            ls * 65536 < (l + 1) * (l + 1),
    ;
    assert((l + 257) * (l + 257) > (l + 1) * (l + 1) + 65535) by (nonlinear_arith)
        requires
            l >= 255,
    ;
    assert(-(l + 256) <= vi <= l + 256) by (nonlinear_arith)
        requires
            l >= 0,
            vi * vi <= (l + 1) * (l + 1) + 65535,
            (l + 257) * (l + 257) > (l + 1) * (l + 1) + 65535,
    ;
    assert((l + 256) * 65536 <= 196608 * l) by (nonlinear_arith)
        requires
            l >= 255,
    ;
    assert(-(196608 * l) <= vi * 65536 <= 196608 * l) by (nonlinear_arith)
        requires
            -(l + 256) <= vi <= l + 256,
            (l + 256) * 65536 <= 196608 * l,
            l >= 0,
    ;
    lemma_tdiv_bound(vi * 65536, 196608, l);
}


/// The cosine the refraction uses: the dot of the negated incident vector
/// with the normal, capped at one.
pub open spec fn refract_cos(v: Vec3, n: Vec3) -> int {
    let d = fmul(-(v.x as int), n.x as int) + fmul(-(v.y as int), n.y as int) + fmul(
        -(v.z as int),
        n.z as int,
    );
    if d > 65536 {
        65536int
    } else {
        d
    }
}

pub open spec fn refract_perp_x(v: Vec3, n: Vec3, e: int) -> int {
    fmul(v.x + fmul(n.x as int, refract_cos(v, n)), e)
}

pub open spec fn refract_perp_y(v: Vec3, n: Vec3, e: int) -> int {
    fmul(v.y + fmul(n.y as int, refract_cos(v, n)), e)
}

pub open spec fn refract_perp_z(v: Vec3, n: Vec3, e: int) -> int {
    fmul(v.z + fmul(n.z as int, refract_cos(v, n)), e)
}

/// The magnitude under the square root of the parallel component.
pub open spec fn refract_k(v: Vec3, n: Vec3, e: int) -> int {
    let px = refract_perp_x(v, n, e);
    let py = refract_perp_y(v, n, e);
    let pz = refract_perp_z(v, n, e);
    iabs(65536 - (fmul(px, px) + fmul(py, py) + fmul(pz, pz)))
}

pub open spec fn refract_x_s(v: Vec3, n: Vec3, e: int) -> int {
    refract_perp_x(v, n, e) + fmul(n.x as int, -sqrt_fx(refract_k(v, n, e)))
}

pub open spec fn refract_y_s(v: Vec3, n: Vec3, e: int) -> int {
    refract_perp_y(v, n, e) + fmul(n.y as int, -sqrt_fx(refract_k(v, n, e)))
}

pub open spec fn refract_z_s(v: Vec3, n: Vec3, e: int) -> int {
    refract_perp_z(v, n, e) + fmul(n.z as int, -sqrt_fx(refract_k(v, n, e)))
}


/// A square rounded onto the grid brackets the true square from below,
/// within one grid unit.
proof fn lemma_floor_sq(a: int)
    ensures
        0 <= fmul(a, a),
        65536 * fmul(a, a) <= a * a < 65536 * fmul(a, a) + 65536,
{
    assert(a * a >= 0) by (nonlinear_arith);
    lemma_tdiv_nonneg(a * a, 65536);
    vstd::arithmetic::div_mod::lemma_fundamental_div_mod(a * a, 65536);
    lemma_mod_division_less_than_divisor(a * a, 65536);
    let q = (a * a) / 65536;
    assert(a * a == 65536 * q + (a * a) % 65536);
}

/// Per-component facts behind the normalization-accuracy bound: the rounded
/// quotient's remainder is small, lies on the component's side of zero, and
/// the component itself cannot exceed the length by more than one.
proof fn lemma_unit_comp_facts(vi: int, ls: int, l: int)
    requires
        0 <= ls,
        32768 <= l,
        l * l <= ls * 65536,
        ls * 65536 < (l + 1) * (l + 1),
        fmul(vi, vi) <= ls,
    ensures
        ({
            let w = tdiv(vi * 65536, l);
            let r = vi * 65536 - w * l;
            &&& -(l - 1) <= r <= l - 1
            &&& 0 <= vi * r <= l * l - 1
            &&& 0 <= r * r <= (l - 1) * (l - 1)
            &&& w * w * (l * l) == (vi * vi) * (65536 * 65536) - 2 * 65536 * (vi * r) + r * r
            &&& -(l + 1) <= vi <= l + 1
        }),
{
    lemma_floor_sq(vi);
    assert(vi * vi <= 65536 * ls + 65535);
    assert((l + 2) * (l + 2) > (l + 1) * (l + 1) + 65535) by (nonlinear_arith)
        requires
            l >= 32768,
    ;
    assert(-(l + 1) <= vi <= l + 1) by (nonlinear_arith)
        requires
            l >= 0,
            vi * vi <= (l + 1) * (l + 1) + 65535,
            (l + 2) * (l + 2) > (l + 1) * (l + 1) + 65535,
    ;
    lemma_tdiv_decompose(vi * 65536, l);
    let w = tdiv(vi * 65536, l);
    let r = vi * 65536 - w * l;
    assert(vi >= 0 ==> vi * 65536 >= 0) by (nonlinear_arith);
    assert(vi < 0 ==> vi * 65536 < 0) by (nonlinear_arith);
    assert(-(l - 1) <= r <= l - 1);
    assert(vi >= 0 && r >= 0 ==> vi * r >= 0) by (nonlinear_arith);
    assert(vi <= 0 && r <= 0 ==> vi * r >= 0) by (nonlinear_arith);
    assert(vi * r <= (l + 1) * (l - 1)) by (nonlinear_arith)
        requires
            -(l + 1) <= vi <= l + 1,
            -(l - 1) <= r <= l - 1,
            l >= 1,
    ;
    assert((l + 1) * (l - 1) == l * l - 1) by (nonlinear_arith);
    assert(0 <= r * r <= (l - 1) * (l - 1)) by (nonlinear_arith)
        requires
            -(l - 1) <= r <= l - 1,
            l >= 1,
    ;
    assert(w * w * (l * l) == (vi * vi) * (65536 * 65536) - 2 * 65536 * (vi * r) + r * r)
        by (nonlinear_arith)
        requires
            vi * 65536 == w * l + r,
    ;
}

/// Normalizing a vector at least half a unit long yields a vector whose grid
/// length lies within a dozen units of one.
pub proof fn lemma_unit_accuracy(v: Vec3, u: Vec3)
    requires
        in_b(v, 0x4000_0000),
        16384 <= len_sq_s(v),
        u.x == fdiv(v.x as int, len_s(v)),
        u.y == fdiv(v.y as int, len_s(v)),
        u.z == fdiv(v.z as int, len_s(v)),
    ensures
        65528 <= len_sq_s(u) <= 65561,
        65531 <= len_s(u) <= 65548,
{
    let ls = len_sq_s(v);
    let v1 = v.x as int;
    let v2 = v.y as int;
    let v3 = v.z as int;
    lemma_len_sq_nonneg(v);
    lemma_sqrt_fx_props(ls);
    let l = len_s(v);
    assert(l >= 32768) by (nonlinear_arith)
        requires
            (l + 1) * (l + 1) > ls * 65536,
            ls >= 16384,
            l >= 0,
    ;
    lemma_unit_comp_facts(v1, ls, l);
    lemma_unit_comp_facts(v2, ls, l);
    lemma_unit_comp_facts(v3, ls, l);
    let w1 = tdiv(v1 * 65536, l);
    let w2 = tdiv(v2 * 65536, l);
    let w3 = tdiv(v3 * 65536, l);
    let r1 = v1 * 65536 - w1 * l;
    let r2 = v2 * 65536 - w2 * l;
    let r3 = v3 * 65536 - w3 * l;
    lemma_floor_sq(v1);
    lemma_floor_sq(v2);
    lemma_floor_sq(v3);
    let sv = v1 * v1 + v2 * v2 + v3 * v3;
    assert(65536 * ls <= sv < 65536 * ls + 3 * 65536);
    let sw = w1 * w1 + w2 * w2 + w3 * w3;
    let sp = v1 * r1 + v2 * r2 + v3 * r3;
    let sr = r1 * r1 + r2 * r2 + r3 * r3;
    assert(sw * (l * l) == sv * (65536 * 65536) - 2 * 65536 * sp + sr) by (nonlinear_arith)
        requires
            sw == w1 * w1 + w2 * w2 + w3 * w3,
            sv == v1 * v1 + v2 * v2 + v3 * v3,
            sp == v1 * r1 + v2 * r2 + v3 * r3,
            sr == r1 * r1 + r2 * r2 + r3 * r3,
            w1 * w1 * (l * l) == (v1 * v1) * (65536 * 65536) - 2 * 65536 * (v1 * r1) + r1 * r1,
            w2 * w2 * (l * l) == (v2 * v2) * (65536 * 65536) - 2 * 65536 * (v2 * r2) + r2 * r2,
            w3 * w3 * (l * l) == (v3 * v3) * (65536 * 65536) - 2 * 65536 * (v3 * r3) + r3 * r3,
    ;
    assert(0 <= sp <= 3 * (l * l) - 3);
    assert(0 <= sr <= 3 * ((l - 1) * (l - 1)));
    // lower bound on the sum of squared quotients
    assert(sv * (65536 * 65536) >= (l * l) * (65536 * 65536)) by (nonlinear_arith)
        requires
            sv >= 65536 * ls,
            65536 * ls >= l * l,
    ;
    assert(sw * (l * l) >= (65536 * 65536 - 6 * 65536) * (l * l)) by (nonlinear_arith)
        requires
            sw * (l * l) == sv * (65536 * 65536) - 2 * 65536 * sp + sr,
            sv * (65536 * 65536) >= (l * l) * (65536 * 65536),
            sp <= 3 * (l * l) - 3,
            sr >= 0,
    ;
    assert(sw >= 65536 * 65536 - 6 * 65536) by (nonlinear_arith)
        requires
            sw * (l * l) >= (65536 * 65536 - 6 * 65536) * (l * l),
            l >= 1,
    ;
    // upper bound on the sum of squared quotients
    assert(sv * (65536 * 65536) <= ((l + 1) * (l + 1) + 3 * 65536 - 1) * (65536 * 65536))
        by (nonlinear_arith)
        requires
            sv < 65536 * ls + 3 * 65536,
            65536 * ls < (l + 1) * (l + 1),
    ;
    assert(sw * (l * l) <= ((l + 1) * (l + 1) + 3 * 65536) * (65536 * 65536) + 3 * ((l - 1) * (l
        - 1))) by (nonlinear_arith)
        requires
            sw * (l * l) == sv * (65536 * 65536) - 2 * 65536 * sp + sr,
            sv * (65536 * 65536) <= ((l + 1) * (l + 1) + 3 * 65536 - 1) * (65536 * 65536),
            sp >= 0,
            sr <= 3 * ((l - 1) * (l - 1)),
    ;
    assert(((l + 1) * (l + 1) + 3 * 65536) * (65536 * 65536) + 3 * ((l - 1) * (l - 1)) <= (65536
        * 65536 + 25 * 65536) * (l * l)) by (nonlinear_arith)
        requires
            l >= 32768,
    ;
    assert(sw <= 65536 * 65536 + 25 * 65536) by (nonlinear_arith)
        requires
            sw * (l * l) <= (65536 * 65536 + 25 * 65536) * (l * l),
            l >= 1,
    ;
    // the grid squared length of the quotient vector
    lemma_floor_sq(w1);
    lemma_floor_sq(w2);
    lemma_floor_sq(w3);
    let lu = len_sq_s(u);
    assert(u.x == w1 && u.y == w2 && u.z == w3);
    assert(65536 * lu <= sw < 65536 * lu + 3 * 65536);
    assert(65528 <= lu <= 65561);
    // and its grid length
    lemma_sqrt_fx_props(lu);
    let m = len_s(u);
    assert(m <= 65548) by (nonlinear_arith)
        requires
            m >= 0,
            m * m <= lu * 65536,
            lu <= 65561,
    ;
    assert(m >= 65531) by (nonlinear_arith)
        requires
            (m + 1) * (m + 1) > lu * 65536,
            lu >= 65528,
            m >= 0,
    ;
}

/// Relies on rand: `Rng::gen_range` over a half-open `i64` range returns a
/// uniform value in `[min, max)` and panics only on an empty range, which
/// the precondition excludes.
#[verifier::external_body]
fn rand_in(min: i64, max: i64) -> (r: i64)
    requires
        min < max,
    ensures
        min <= r < max,
{
    rand::Rng::gen_range(&mut rand::thread_rng(), min..max)
}

impl Vec3 {
    pub fn new(e0: i64, e1: i64, e2: i64) -> (r: Vec3)
        ensures
            r.x == e0 && r.y == e1 && r.z == e2,
    {
        Vec3 { x: e0, y: e1, z: e2 }
    }

    pub fn x(&self) -> (r: i64)
        ensures
            r == self.x,
    {
        self.x
    }

    pub fn y(&self) -> (r: i64)
        ensures
            r == self.y,
    {
        self.y
    }

    pub fn z(&self) -> (r: i64)
        ensures
            r == self.z,
    {
        self.z
    }

    pub fn add(self, rhs: Vec3) -> (r: Vec3)
        requires
            in_b(self, 0x3FFF_FFFF_FFFF_FFFF),
            in_b(rhs, 0x3FFF_FFFF_FFFF_FFFF),
        ensures
            r.x == self.x + rhs.x && r.y == self.y + rhs.y && r.z == self.z + rhs.z,
    {
        Vec3 { x: self.x + rhs.x, y: self.y + rhs.y, z: self.z + rhs.z }
    }

    pub fn sub(self, rhs: Vec3) -> (r: Vec3)
        requires
            in_b(self, 0x3FFF_FFFF_FFFF_FFFF),
            in_b(rhs, 0x3FFF_FFFF_FFFF_FFFF),
        ensures
            r.x == self.x - rhs.x && r.y == self.y - rhs.y && r.z == self.z - rhs.z,
    {
        Vec3 { x: self.x - rhs.x, y: self.y - rhs.y, z: self.z - rhs.z }
    }

    pub fn neg(self) -> (r: Vec3)
        requires
            in_b(self, 0x3FFF_FFFF_FFFF_FFFF),
        ensures
            r.x == -self.x && r.y == -self.y && r.z == -self.z,
    {
        Vec3 { x: -self.x, y: -self.y, z: -self.z }
    }

    /// Component-wise product of two colors.
    pub fn mul(self, rhs: Vec3) -> (r: Vec3)
        requires
            in_b(self, 0x1_0000_0000),
            in_b(rhs, 0x1_0000_0000),
        ensures
            r.x == fmul(self.x as int, rhs.x as int),
            r.y == fmul(self.y as int, rhs.y as int),
            r.z == fmul(self.z as int, rhs.z as int),
    {
        proof {
            assert forall|a: int, b: int|
                -0x1_0000_0000 <= a <= 0x1_0000_0000 && -0x1_0000_0000 <= b <= 0x1_0000_0000
                    implies -0x4000_0000_0000_0000_0000 <= #[trigger] (a * b)
                    <= 0x4000_0000_0000_0000_0000 by {
                assert(-0x4000_0000_0000_0000_0000 <= a * b <= 0x4000_0000_0000_0000_0000)
                    by (nonlinear_arith)
                    requires
                        -0x1_0000_0000 <= a <= 0x1_0000_0000,
                        -0x1_0000_0000 <= b <= 0x1_0000_0000,
                ;
            }
        }
        Vec3 {
            x: mul_fx(self.x, rhs.x),
            y: mul_fx(self.y, rhs.y),
            z: mul_fx(self.z, rhs.z),
        }
    }

    /// Scale by a grid scalar.
    pub fn scale(self, t: i64) -> (r: Vec3)
        requires
            in_b(self, 0x80_0000),
            -0x20_0000_0000_0000 <= t <= 0x20_0000_0000_0000,
        ensures
            r.x == fmul(self.x as int, t as int),
            r.y == fmul(self.y as int, t as int),
            r.z == fmul(self.z as int, t as int),
    {
        proof {
            assert forall|a: int|
                -0x80_0000 <= a <= 0x80_0000 implies -0x4000_0000_0000_0000_0000 <= #[trigger] (a
                    * (t as int)) <= 0x4000_0000_0000_0000_0000 by {
                assert(-0x4000_0000_0000_0000_0000 <= a * (t as int)
                    <= 0x4000_0000_0000_0000_0000) by (nonlinear_arith)
                    requires
                        -0x80_0000 <= a <= 0x80_0000,
                        -0x20_0000_0000_0000 <= t <= 0x20_0000_0000_0000,
                ;
            }
        }
        Vec3 { x: mul_fx(self.x, t), y: mul_fx(self.y, t), z: mul_fx(self.z, t) }
    }

    /// Divide by a positive grid scalar.
    pub fn div(self, t: i64) -> (r: Vec3)
        requires
            0 < t,
            in_b(self, 0x3FFF_FFFF_FFFF),
        ensures
            r.x == fdiv(self.x as int, t as int),
            r.y == fdiv(self.y as int, t as int),
            r.z == fdiv(self.z as int, t as int),
            in_b(r, 0x3FFF_FFFF_FFFF_0000),
    {
        Vec3 { x: div_fx(self.x, t), y: div_fx(self.y, t), z: div_fx(self.z, t) }
    }

    pub fn length_squared(&self) -> (r: i64)
        requires
            in_b(*self, 0x4000_0000),
        ensures
            r == len_sq_s(*self),
            0 <= r <= 0x3000_0000_0000,
    {
        proof {
            lemma_len_sq_nonneg(*self);
        }
        dot(*self, *self)
    }

    pub fn length(&self) -> (r: i64)
        requires
            in_b(*self, 0x4000_0000),
        ensures
            r == len_s(*self),
            0 <= r <= 0x1_0000_0000,
            (r as int) * (r as int) <= len_sq_s(*self) * 65536 < (r as int + 1) * (r as int + 1),
    {
        let ls = self.length_squared();
        let r = fx_sqrt(ls);
        proof {
            assert(r <= 0x1_0000_0000) by (nonlinear_arith)
                requires
                    0 <= r,
                    (r as int) * (r as int) <= (ls as int) * 65536,
                    ls <= 0x3000_0000_0000,
            ;
        }
        r
    }


    /// Snell's-law decomposition into components perpendicular and parallel
    /// to the normal, for an incident-over-transmitted index ratio.
    pub fn refract(self, n: Vec3, etai_over_etat: i64) -> (r: Vec3)
        requires
            in_b(self, 0x30000),
            in_b(n, 0x30000),
            0 <= etai_over_etat <= 0x40000,
        ensures
            r.x == refract_x_s(self, n, etai_over_etat as int),
            r.y == refract_y_s(self, n, etai_over_etat as int),
            r.z == refract_z_s(self, n, etai_over_etat as int),
    {
        proof {
            assert forall|a: int, b: int|
                -0x30000 <= a <= 0x30000 && -0x30000 <= b <= 0x30000 implies -0x9_0000
                    <= #[trigger] fmul(a, b) <= 0x9_0000 by {
                assert(-(0x9_0000int * 65536) <= a * b <= 0x9_0000int * 65536)
                    by (nonlinear_arith)
                    requires
                        -0x30000 <= a <= 0x30000,
                        -0x30000 <= b <= 0x30000,
                ;
                lemma_tdiv_bound(a * b, 0x9_0000, 65536);
            }
        }
        let d = dot(self.neg(), n);
        let cos_theta = if d > 65536 {
            65536
        } else {
            d
        };
        proof {
            assert forall|a: int|
                -0x30000 <= a <= 0x30000 implies -0x51_0000 <= #[trigger] fmul(
                    a,
                    cos_theta as int,
                ) <= 0x51_0000 by {
                assert(-(0x51_0000int * 65536) <= a * (cos_theta as int) <= 0x51_0000int * 65536)
                    by (nonlinear_arith)
                    requires
                        -0x30000 <= a <= 0x30000,
                        -0x1B_0000 <= cos_theta <= 0x1B_0000,
                ;
                lemma_tdiv_bound(a * (cos_theta as int), 0x51_0000, 65536);
            }
        }
        let inner = self.add(n.scale(cos_theta));
        proof {
            assert forall|a: int|
                -0x84_0000 <= a <= 0x84_0000 implies -0x210_0000 <= #[trigger] fmul(
                    a,
                    etai_over_etat as int,
                ) <= 0x210_0000 by {
                assert(-(0x210_0000int * 65536) <= a * (etai_over_etat as int) <= 0x210_0000int
                    * 65536) by (nonlinear_arith)
                    requires
                        -0x84_0000 <= a <= 0x84_0000,
                        0 <= etai_over_etat <= 0x40000,
                ;
                lemma_tdiv_bound(a * (etai_over_etat as int), 0x210_0000, 65536);
            }
        }
        let r_out_perp = inner.scale(etai_over_etat);
        let ls = r_out_perp.length_squared();
        let k = 65536 - ls;
        let ka = if k < 0 {
            -k
        } else {
            k
        };
        let sq = fx_sqrt(ka);
        proof {
            assert(sq <= 0x8000_0000) by (nonlinear_arith)
                requires
                    0 <= sq,
                    (sq as int) * (sq as int) <= (ka as int) * 65536,
                    ka <= 0x3000_0000_0001,
            ;
            assert forall|a: int|
                -0x30000 <= a <= 0x30000 implies -0x1_8000_0000 <= #[trigger] fmul(
                    a,
                    -(sq as int),
                ) <= 0x1_8000_0000 by {
                assert(-(0x1_8000_0000int * 65536) <= a * (-(sq as int)) <= 0x1_8000_0000int
                    * 65536) by (nonlinear_arith)
                    requires
                        -0x30000 <= a <= 0x30000,
                        0 <= sq <= 0x8000_0000,
                ;
                lemma_tdiv_bound(a * (-(sq as int)), 0x1_8000_0000, 65536);
            }
        }
        let r_out_parallel = n.scale(-sq);
        r_out_perp.add(r_out_parallel)
    }

    pub fn add_assign(&mut self, rhs: Vec3)
        requires
            in_b(*old(self), 0x3FFF_FFFF_FFFF_FFFF),
            in_b(rhs, 0x3FFF_FFFF_FFFF_FFFF),
        ensures
            final(self).x == old(self).x + rhs.x,
            final(self).y == old(self).y + rhs.y,
            final(self).z == old(self).z + rhs.z,
    {
        self.x = self.x + rhs.x;
        self.y = self.y + rhs.y;
        self.z = self.z + rhs.z;
    }

    pub fn sub_assign(&mut self, rhs: Vec3)
        requires
            in_b(*old(self), 0x3FFF_FFFF_FFFF_FFFF),
            in_b(rhs, 0x3FFF_FFFF_FFFF_FFFF),
        ensures
            final(self).x == old(self).x - rhs.x,
            final(self).y == old(self).y - rhs.y,
            final(self).z == old(self).z - rhs.z,
    {
        self.x = self.x - rhs.x;
        self.y = self.y - rhs.y;
        self.z = self.z - rhs.z;
    }

    pub fn mul_assign(&mut self, t: i64)
        requires
            in_b(*old(self), 0x80_0000),
            -0x20_0000_0000_0000 <= t <= 0x20_0000_0000_0000,
        ensures
            final(self).x == fmul(old(self).x as int, t as int),
            final(self).y == fmul(old(self).y as int, t as int),
            final(self).z == fmul(old(self).z as int, t as int),
    {
        *self = self.scale(t);
    }

    pub fn div_assign(&mut self, t: i64)
        requires
            0 < t,
            in_b(*old(self), 0x3FFF_FFFF_FFFF),
        ensures
            final(self).x == fdiv(old(self).x as int, t as int),
            final(self).y == fdiv(old(self).y as int, t as int),
            final(self).z == fdiv(old(self).z as int, t as int),
    {
        *self = self.div(t);
    }

    /// All components below the degeneracy threshold of the grid.
    pub fn near_zero(&self) -> (r: bool)
        ensures
            r == near_zero_s(*self),
    {
        -256 < self.x && self.x < 256 && -256 < self.y && self.y < 256 && -256 < self.z && self.z
            < 256
    }

    /// Mirror `v` about the plane orthogonal to `n`.
    pub fn reflect(v: Vec3, n: Vec3) -> (r: Vec3)
        requires
            in_b(v, 0x30000),
            in_b(n, 0x30000),
        ensures
            r.x == v.x - fmul(n.x as int, 2 * dot_s(v, n)),
            r.y == v.y - fmul(n.y as int, 2 * dot_s(v, n)),
            r.z == v.z - fmul(n.z as int, 2 * dot_s(v, n)),
            in_b(r, 0x100_0000),
    {
        let d = dot(v, n);
        proof {
            assert forall|a: int, b: int|
                -0x30000 <= a <= 0x30000 && -0x30000 <= b <= 0x30000 implies -0x9_0000
                    <= #[trigger] fmul(a, b) <= 0x9_0000 by {
                assert(-(0x9_0000int * 65536) <= a * b <= 0x9_0000int * 65536)
                    by (nonlinear_arith)
                    requires
                        -0x30000 <= a <= 0x30000,
                        -0x30000 <= b <= 0x30000,
                ;
                lemma_tdiv_bound(a * b, 0x9_0000, 65536);
            }
            assert(-0x1B_0000 <= dot_s(v, n) <= 0x1B_0000);
        }
        let s = n.scale(2 * d);
        proof {
            assert forall|a: int|
                -0x30000 <= a <= 0x30000 implies -0xA2_0000 <= #[trigger] fmul(
                    a,
                    2 * (d as int),
                ) <= 0xA2_0000 by {
                assert(-(0xA2_0000int * 65536) <= a * (2 * (d as int)) <= 0xA2_0000int
                    * 65536) by (nonlinear_arith)
                    requires
                        -0x30000 <= a <= 0x30000,
                        -0x36_0000 <= 2 * (d as int) <= 0x36_0000,
                ;
                lemma_tdiv_bound(a * (2 * (d as int)), 0xA2_0000, 65536);
            }
        }
        v.sub(s)
    }


    /// The three bytes the accumulated pixel color writes after averaging
    /// over the sample count, square-root gamma correction, clamping and
    /// eight-bit scaling.
    pub fn color_bytes(&self, samples_per_pixel: i64) -> (r: (u64, u64, u64))
        requires
            0 <= self.x <= 0x3FFF_FFFF_FFFF,
            0 <= self.y <= 0x3FFF_FFFF_FFFF,
            0 <= self.z <= 0x3FFF_FFFF_FFFF,
            1 <= samples_per_pixel,
        ensures
            r.0 == channel_byte(self.x as int, samples_per_pixel as int),
            r.1 == channel_byte(self.y as int, samples_per_pixel as int),
            r.2 == channel_byte(self.z as int, samples_per_pixel as int),
            r.0 < 256 && r.1 < 256 && r.2 < 256,
    {
        (
            chan_byte(self.x, samples_per_pixel),
            chan_byte(self.y, samples_per_pixel),
            chan_byte(self.z, samples_per_pixel),
        )
    }

    /// The pixel line for this accumulated color: the three channel bytes
    /// in decimal, separated by single spaces.
    pub fn write_color(&self, samples_per_pixel: i64) -> (s: String)
        requires
            0 <= self.x <= 0x3FFF_FFFF_FFFF,
            0 <= self.y <= 0x3FFF_FFFF_FFFF,
            0 <= self.z <= 0x3FFF_FFFF_FFFF,
            1 <= samples_per_pixel,
        ensures
            s@ == dec3(channel_byte(self.x as int, samples_per_pixel as int)) + seq![' ']
                + dec3(channel_byte(self.y as int, samples_per_pixel as int)) + seq![' ']
                + dec3(channel_byte(self.z as int, samples_per_pixel as int)),
    {
        let (a, b, c) = self.color_bytes(samples_per_pixel);
        let mut out = String::new();
        push_dec3(&mut out, a);
        out.append(" ");
        push_dec3(&mut out, b);
        out.append(" ");
        push_dec3(&mut out, c);
        proof {
            reveal_strlit(" ");
            assert(out@ =~= dec3(a as int) + seq![' '] + dec3(b as int) + seq![' '] + dec3(
                c as int,
            ));
        }
        out
    }

    /// A vector with each component drawn uniformly from `[min, max)`.
    pub fn random(min: i64, max: i64) -> (r: Vec3)
        requires
            min < max,
        ensures
            min <= r.x < max && min <= r.y < max && min <= r.z < max,
    {
        Vec3 { x: rand_in(min, max), y: rand_in(min, max), z: rand_in(min, max) }
    }

    /// Rejection-sample a point of the open unit ball at least half a unit
    /// long — shorter samples would normalize inaccurately on the grid — and
    /// after a bounded number of draws fall back to a fixed interior point so
    /// that the loop provably terminates.
    pub fn random_in_unit_sphere() -> (r: Vec3)
        ensures
            in_b(r, 65536),
            16384 <= len_sq_s(r) < 65536,
    {
        let mut tries: u64 = 0;
        while tries < 64
            invariant
                tries <= 64,
            decreases 64 - tries,
        {
            let p = Vec3::random(-65536, 65536);
            let ls = p.length_squared();
            if 16384 <= ls && ls < 65536 {
                return p;
            }
            tries = tries + 1;
        }
        let p = Vec3::new(32768, 0, 0);
        proof {
            lemma_len_sq_nonneg(p);
            assert(fmul(32768, 32768) == 16384);
            assert(fmul(0, 0) == 0);
        }
        p
    }

    /// A unit-sphere sample turned toward the side of `normal`.
    pub fn random_in_hemisphere(normal: Vec3) -> (r: Vec3)
        requires
            in_b(normal, 0x4000_0000),
        ensures
            in_b(r, 65536),
            16384 <= len_sq_s(r) < 65536,
            dot_s(r, normal) >= 0,
    {
        let in_unit_sphere = Vec3::random_in_unit_sphere();
        let d = dot(in_unit_sphere, normal);
        if d > 0 {
            in_unit_sphere
        } else {
            let r = in_unit_sphere.neg();
            proof {
                lemma_fmul_neg_left(in_unit_sphere.x as int, normal.x as int);
                lemma_fmul_neg_left(in_unit_sphere.y as int, normal.y as int);
                lemma_fmul_neg_left(in_unit_sphere.z as int, normal.z as int);
                lemma_fmul_neg_left(in_unit_sphere.x as int, in_unit_sphere.x as int);
                lemma_fmul_neg_left(in_unit_sphere.y as int, in_unit_sphere.y as int);
                lemma_fmul_neg_left(in_unit_sphere.z as int, in_unit_sphere.z as int);
                assert forall|a: int| #[trigger] fmul(-a, -a) == fmul(a, a) by {
                    assert((-a) * (-a) == a * a) by (nonlinear_arith);
                }
            }
            r
        }
    }

    /// A normalized unit-sphere sample: its grid length lies within a dozen
    /// units of one, and it is the normalization of some admissible sample.
    pub fn random_unit_vector() -> (r: Vec3)
        ensures
            in_b(r, 0x30000),
            65528 <= len_sq_s(r) <= 65561,
            65531 <= len_s(r) <= 65548,
            exists|s: Vec3|
                #![trigger len_sq_s(s)]
                16384 <= len_sq_s(s) < 65536 && in_b(s, 65536) && r.x == fdiv(
                    s.x as int,
                    len_s(s),
                ) && r.y == fdiv(s.y as int, len_s(s)) && r.z == fdiv(s.z as int, len_s(s)),
    {
        let sample = Vec3::random_in_unit_sphere();
        let r = unit_vector(sample);
        proof {
            assert(16384 <= len_sq_s(sample) < 65536 && in_b(sample, 65536) && r.x == fdiv(
                sample.x as int,
                len_s(sample),
            ) && r.y == fdiv(sample.y as int, len_s(sample)) && r.z == fdiv(
                sample.z as int,
                len_s(sample),
            ));
        }
        r
    }
}

/// The grid dot product.
pub fn dot(u: Vec3, v: Vec3) -> (r: i64)
    requires
        in_b(u, 0x4000_0000),
        in_b(v, 0x4000_0000),
    ensures
        r == dot_s(u, v),
        -0x3000_0000_0000 <= r <= 0x3000_0000_0000,
{
    proof {
        assert forall|a: int, b: int|
            -0x4000_0000 <= a <= 0x4000_0000 && -0x4000_0000 <= b <= 0x4000_0000
                implies -0x1000_0000_0000int * 65536 <= #[trigger] (a * b) <= 0x1000_0000_0000int
                * 65536 by {
            assert(-(0x1000_0000_0000int * 65536) <= a * b <= 0x1000_0000_0000int * 65536)
                by (nonlinear_arith)
                requires
                    -0x4000_0000 <= a <= 0x4000_0000,
                    -0x4000_0000 <= b <= 0x4000_0000,
            ;
        }
        assert forall|a: int, b: int|
            -0x4000_0000 <= a <= 0x4000_0000 && -0x4000_0000 <= b <= 0x4000_0000
                implies -0x1000_0000_0000 <= #[trigger] fmul(a, b) <= 0x1000_0000_0000 by {
            assert(-(0x1000_0000_0000int * 65536) <= a * b <= 0x1000_0000_0000int * 65536);
            lemma_tdiv_bound(a * b, 0x1000_0000_0000, 65536);
        }
    }
    mul_fx(u.x, v.x) + mul_fx(u.y, v.y) + mul_fx(u.z, v.z)
}

/// The grid cross product.
pub fn cross(u: &Vec3, v: &Vec3) -> (r: Vec3)
    requires
        in_b(*u, 0x4000_0000),
        in_b(*v, 0x4000_0000),
    ensures
        r.x == fmul(u.y as int, v.z as int) - fmul(u.z as int, v.y as int),
        r.y == fmul(u.z as int, v.x as int) - fmul(u.x as int, v.z as int),
        r.z == fmul(u.x as int, v.y as int) - fmul(u.y as int, v.x as int),
{
    proof {
        assert forall|a: int, b: int|
            -0x4000_0000 <= a <= 0x4000_0000 && -0x4000_0000 <= b <= 0x4000_0000
                implies -0x1000_0000_0000int * 65536 <= #[trigger] (a * b) <= 0x1000_0000_0000int
                * 65536 by {
            assert(-(0x1000_0000_0000int * 65536) <= a * b <= 0x1000_0000_0000int * 65536)
                by (nonlinear_arith)
                requires
                    -0x4000_0000 <= a <= 0x4000_0000,
                    -0x4000_0000 <= b <= 0x4000_0000,
            ;
        }
        assert forall|a: int, b: int|
            -0x4000_0000 <= a <= 0x4000_0000 && -0x4000_0000 <= b <= 0x4000_0000
                implies -0x1000_0000_0000 <= #[trigger] fmul(a, b) <= 0x1000_0000_0000 by {
            assert(-(0x1000_0000_0000int * 65536) <= a * b <= 0x1000_0000_0000int * 65536);
            lemma_tdiv_bound(a * b, 0x1000_0000_0000, 65536);
        }
    }
    Vec3::new(
        mul_fx(u.y, v.z) - mul_fx(u.z, v.y),
        mul_fx(u.z, v.x) - mul_fx(u.x, v.z),
        mul_fx(u.x, v.y) - mul_fx(u.y, v.x),
    )
}

/// Normalize: divide each component by the grid length. The squared length
/// must register on the grid; a zero-length input is excluded by contract.
pub fn unit_vector(v: Vec3) -> (r: Vec3)
    requires
        in_b(v, 0x4000_0000),
        1 <= len_sq_s(v),
    ensures
        r.x == fdiv(v.x as int, len_s(v)),
        r.y == fdiv(v.y as int, len_s(v)),
        r.z == fdiv(v.z as int, len_s(v)),
        in_b(r, 0x30000),
        16384 <= len_sq_s(v) ==> 65528 <= len_sq_s(r) <= 65561,
        16384 <= len_sq_s(v) ==> 65531 <= len_s(r) <= 65548,
{
    let l = v.length();
    proof {
        assert(l >= 255) by (nonlinear_arith)
            requires
                0 <= l,
                len_sq_s(v) * 65536 < (l as int + 1) * (l as int + 1),
                1 <= len_sq_s(v),
        ;
        lemma_len_sq_nonneg(v);
        lemma_unit_comp_bound(v.x as int, len_sq_s(v), l as int);
        lemma_unit_comp_bound(v.y as int, len_sq_s(v), l as int);
        lemma_unit_comp_bound(v.z as int, len_sq_s(v), l as int);
    }
    let r = v.div(l);
    proof {
        if 16384 <= len_sq_s(v) {
            lemma_unit_accuracy(v, r);
        }
    }
    r
}

/// The character of one decimal digit.
pub open spec fn dec_digit(d: int) -> char {
    if d == 0 {
        '0'
    } else if d == 1 {
        '1'
    } else if d == 2 {
        '2'
    } else if d == 3 {
        '3'
    } else if d == 4 {
        '4'
    } else if d == 5 {
        '5'
    } else if d == 6 {
        '6'
    } else if d == 7 {
        '7'
    } else if d == 8 {
        '8'
    } else {
        '9'
    }
}

/// Decimal rendering of a channel byte, which has at most three digits.
pub open spec fn dec3(n: int) -> Seq<char> {
    if n < 10 {
        seq![dec_digit(n)]
    } else if n < 100 {
        seq![dec_digit(n / 10), dec_digit(n % 10)]
    } else {
        seq![dec_digit(n / 100), dec_digit((n / 10) % 10), dec_digit(n % 10)]
    }
}

/// The byte written for an accumulated channel over `n` samples: average,
/// gamma-correct by square root, clamp below one, scale to eight bits.
pub open spec fn channel_byte(x: int, n: int) -> int {
    let scaled = x / n;
    let root = sqrt_fx(scaled);
    let clamped = if root > 65480 {
        65480int
    } else {
        root
    };
    (clamped * 256) / 65536
}

fn chan_byte(x: i64, n: i64) -> (b: u64)
    requires
        0 <= x <= 0x3FFF_FFFF_FFFF,
        1 <= n,
    ensures
        b == channel_byte(x as int, n as int),
        b < 256,
{
    let s = ((x as u64) / (n as u64)) as i64;
    proof {
        lemma_div_is_ordered_by_denominator(x as int, 1, n as int);
        lemma_div_basics(x as int);
        lemma_div_pos_is_pos(x as int, n as int);
    }
    let root = fx_sqrt(s);
    let cl: i64 = if root > 65480 {
        65480
    } else {
        root
    };
    proof {
        lemma_div_is_ordered(cl * 256, 65480int * 256, 65536);
        lemma_div_pos_is_pos(cl * 256, 65536);
    }
    ((cl as u64) * 256) / 65536
}

fn digit_str(d: u64) -> (s: &'static str)
    requires
        d < 10,
    ensures
        s@ == seq![dec_digit(d as int)],
{
    proof {
        reveal_strlit("0");
        reveal_strlit("1");
        reveal_strlit("2");
        reveal_strlit("3");
        reveal_strlit("4");
        reveal_strlit("5");
        reveal_strlit("6");
        reveal_strlit("7");
        reveal_strlit("8");
        reveal_strlit("9");
    }
    let s = match d {
        0 => "0",
        1 => "1",
        2 => "2",
        3 => "3",
        4 => "4",
        5 => "5",
        6 => "6",
        7 => "7",
        8 => "8",
        _ => "9",
    };
    proof {
        assert(s@ =~= seq![dec_digit(d as int)]);
    }
    s
}

/// Append the base-ten rendering of a channel byte.
fn push_dec3(out: &mut String, n: u64)
    requires
        n < 1000,
    ensures
        final(out)@ == old(out)@ + dec3(n as int),
{
    if n < 10 {
        out.append(digit_str(n));
        proof {
            assert(out@ =~= old(out)@ + dec3(n as int));
        }
    } else if n < 100 {
        out.append(digit_str(n / 10));
        out.append(digit_str(n % 10));
        proof {
            assert(out@ =~= old(out)@ + dec3(n as int));
        }
    } else {
        out.append(digit_str(n / 100));
        out.append(digit_str((n / 10) % 10));
        out.append(digit_str(n % 10));
        proof {
            assert(out@ =~= old(out)@ + dec3(n as int));
        }
    }
}

} // verus!
