//! Laws of the kernel, stated and proved over the same spec functions the
//! executable contracts use.
use vstd::prelude::*;
use vstd::arithmetic::div_mod::lemma_div_basics;
use crate::fx::{
    fmul, fdiv, tdiv, sqrt_fx, lemma_tdiv_exact, lemma_tdiv_neg, lemma_sqrt_fx_unique,
    lemma_tdiv_decompose,
};
use crate::vec::{Vec3, Color, in_b, dot_s, len_sq_s, len_s, lemma_fmul_neg_left};
use crate::ray::Ray;
use crate::sphere::{Sphere, root1_s, root2_s, hit_t_s, disc_s, half_b_s, quad_c_s};

verus! {

/// Multiplying by one on the grid is exact in either position, and a zero
/// factor gives zero.
proof fn lemma_fmul_unit(t: int)
    ensures
        fmul(t, 65536) == t,
        fmul(t, -65536) == -t,
        fmul(t, 0) == 0,
        fmul(65536, t) == t,
        fmul(-65536, t) == -t,
        fmul(0, t) == 0,
{
    lemma_tdiv_exact(t, 65536);
    lemma_tdiv_neg(t * 65536, 65536);
    assert((-t) * 65536 == -(t * 65536)) by (nonlinear_arith);
    assert(t * (-65536) == -(t * 65536)) by (nonlinear_arith);
    assert(65536 * t == t * 65536) by (nonlinear_arith);
    assert((-65536) * t == -(t * 65536)) by (nonlinear_arith);
    assert(t * 0 == 0) by (nonlinear_arith);
    assert(0 * t == 0) by (nonlinear_arith);
    lemma_div_basics(65536);
    assert(tdiv(0, 65536) == 0);
}

/// Component-wise color multiplication is commutative.
pub proof fn lemma_color_mul_commutative(a: Color, b: Color)
    ensures
        fmul(a.x as int, b.x as int) == fmul(b.x as int, a.x as int),
        fmul(a.y as int, b.y as int) == fmul(b.y as int, a.y as int),
        fmul(a.z as int, b.z as int) == fmul(b.z as int, a.z as int),
{
    assert((a.x as int) * (b.x as int) == (b.x as int) * (a.x as int)) by (nonlinear_arith);
    assert((a.y as int) * (b.y as int) == (b.y as int) * (a.y as int)) by (nonlinear_arith);
    assert((a.z as int) * (b.z as int) == (b.z as int) * (a.z as int)) by (nonlinear_arith);
}

/// The all-ones color is the identity of component-wise multiplication.
pub proof fn lemma_color_mul_identity(a: Color)
    ensures
        fmul(a.x as int, 65536) == a.x,
        fmul(a.y as int, 65536) == a.y,
        fmul(a.z as int, 65536) == a.z,
        fmul(65536, a.x as int) == a.x,
        fmul(65536, a.y as int) == a.y,
        fmul(65536, a.z as int) == a.z,
{
    lemma_fmul_unit(a.x as int);
    lemma_fmul_unit(a.y as int);
    lemma_fmul_unit(a.z as int);
}

/// A unit vector — one whose grid length is exactly one — normalizes to
/// itself, so the length of its normalization is exactly one.
pub proof fn lemma_normalize_unit(v: Vec3)
    requires
        len_s(v) == 65536,
    ensures
        fdiv(v.x as int, len_s(v)) == v.x,
        fdiv(v.y as int, len_s(v)) == v.y,
        fdiv(v.z as int, len_s(v)) == v.z,
        forall|u: Vec3|
            u.x == fdiv(v.x as int, len_s(v)) && u.y == fdiv(v.y as int, len_s(v)) && u.z == fdiv(
                v.z as int,
                len_s(v),
            ) ==> #[trigger] len_s(u) == 65536,
{
    lemma_tdiv_exact(v.x as int, 65536);
    lemma_tdiv_exact(v.y as int, 65536);
    lemma_tdiv_exact(v.z as int, 65536);
    assert forall|u: Vec3|
        u.x == fdiv(v.x as int, len_s(v)) && u.y == fdiv(v.y as int, len_s(v)) && u.z == fdiv(
            v.z as int,
            len_s(v),
        ) implies #[trigger] len_s(u) == 65536 by {
        assert(u == v);
    }
}

/// The normal is one of the six axis unit vectors.
pub open spec fn axis_unit(n: Vec3) -> bool {
    ||| (n.x == 65536 || n.x == -65536) && n.y == 0 && n.z == 0
    ||| n.x == 0 && (n.y == 65536 || n.y == -65536) && n.z == 0
    ||| n.x == 0 && n.y == 0 && (n.z == 65536 || n.z == -65536)
}

pub open spec fn reflect_x(v: Vec3, n: Vec3) -> int {
    v.x - fmul(n.x as int, 2 * dot_s(v, n))
}

pub open spec fn reflect_y(v: Vec3, n: Vec3) -> int {
    v.y - fmul(n.y as int, 2 * dot_s(v, n))
}

pub open spec fn reflect_z(v: Vec3, n: Vec3) -> int {
    v.z - fmul(n.z as int, 2 * dot_s(v, n))
}

/// The component of `w` orthogonal to the unit normal, per axis.
pub open spec fn perp_x(w: Vec3, n: Vec3) -> int {
    w.x - fmul(n.x as int, dot_s(w, n))
}

pub open spec fn perp_y(w: Vec3, n: Vec3) -> int {
    w.y - fmul(n.y as int, dot_s(w, n))
}

pub open spec fn perp_z(w: Vec3, n: Vec3) -> int {
    w.z - fmul(n.z as int, dot_s(w, n))
}

/// The reflection law about an axis unit normal: the reflected vector's
/// component along the normal is the negation of the incident one's, and
/// the component orthogonal to the normal is unchanged. On the grid this is
/// exact for the axis normals, where no product rounds.
pub proof fn lemma_reflect_law(v: Vec3, n: Vec3, w: Vec3)
    requires
        axis_unit(n),
        in_b(v, 0x3FFF_FFFF_FFFF_FFFF),
        w.x == reflect_x(v, n),
        w.y == reflect_y(v, n),
        w.z == reflect_z(v, n),
    ensures
        dot_s(w, n) == -dot_s(v, n),
        perp_x(w, n) == perp_x(v, n),
        perp_y(w, n) == perp_y(v, n),
        perp_z(w, n) == perp_z(v, n),
{
    lemma_fmul_unit(v.x as int);
    lemma_fmul_unit(v.y as int);
    lemma_fmul_unit(v.z as int);
    lemma_fmul_unit(dot_s(v, n));
    lemma_fmul_unit(2 * dot_s(v, n));
    lemma_fmul_unit(w.x as int);
    lemma_fmul_unit(w.y as int);
    lemma_fmul_unit(w.z as int);
    lemma_fmul_unit(dot_s(w, n));
}

/// Rounding a sum's product is within two grid units of rounding the
/// products separately.
proof fn lemma_fmul_split(x: int, y: int, c: int)
    ensures
        fmul(x, c) + fmul(y, c) - 2 <= fmul(x + y, c) <= fmul(x, c) + fmul(y, c) + 2,
{
    lemma_tdiv_decompose(x * c, 65536);
    lemma_tdiv_decompose(y * c, 65536);
    lemma_tdiv_decompose((x + y) * c, 65536);
    assert((x + y) * c == x * c + y * c) by (nonlinear_arith);
    let fa = tdiv(x * c, 65536);
    let fb = tdiv(y * c, 65536);
    let fc = tdiv((x + y) * c, 65536);
    let ra = x * c - fa * 65536;
    let rb = y * c - fb * 65536;
    let rc = (x + y) * c - fc * 65536;
    assert((fc - fa - fb) * 65536 == ra + rb - rc) by (nonlinear_arith)
        requires
            ra == x * c - fa * 65536,
            rb == y * c - fb * 65536,
            rc == (x + y) * c - fc * 65536,
            (x + y) * c == x * c + y * c,
    ;
    assert(-3 * 65536 < (fc - fa - fb) * 65536 < 3 * 65536);
}

/// The reflection law about any normal of near-unit grid length, in its
/// along-normal half and up to grid rounding: the reflected vector's
/// component along the normal is the negation of the incident one's, within
/// 131 grid units (two thousandths). The six axis normals obey the law
/// exactly; see the lemma above.
pub proof fn lemma_reflect_law_general(v: Vec3, n: Vec3, w: Vec3)
    requires
        in_b(v, 0x30000),
        in_b(n, 0x30000),
        65527 <= len_sq_s(n) <= 65561,
        -131072 <= dot_s(v, n) <= 131072,
        w.x == reflect_x(v, n),
        w.y == reflect_y(v, n),
        w.z == reflect_z(v, n),
    ensures
        -131 <= dot_s(w, n) + dot_s(v, n) <= 131,
{
    let d = dot_s(v, n);
    let n1 = n.x as int;
    let n2 = n.y as int;
    let n3 = n.z as int;
    let v1 = v.x as int;
    let v2 = v.y as int;
    let v3 = v.z as int;
    let i1 = fmul(n1, 2 * d);
    let i2 = fmul(n2, 2 * d);
    let i3 = fmul(n3, 2 * d);
    // each reflected component's product splits with error two
    lemma_fmul_split(v1, -i1, n1);
    lemma_fmul_split(v2, -i2, n2);
    lemma_fmul_split(v3, -i3, n3);
    lemma_fmul_neg_left(i1, n1);
    lemma_fmul_neg_left(i2, n2);
    lemma_fmul_neg_left(i3, n3);
    let t1 = fmul(i1, n1);
    let t2 = fmul(i2, n2);
    let t3 = fmul(i3, n3);
    assert(d - (t1 + t2 + t3) - 6 <= dot_s(w, n) <= d - (t1 + t2 + t3) + 6);
    // each t approximates twice d times the normal's squared component
    let m1 = fmul(n1, n1);
    let m2 = fmul(n2, n2);
    let m3 = fmul(n3, n3);
    lemma_reflect_term(n1, d);
    lemma_reflect_term(n2, d);
    lemma_reflect_term(n3, d);
    let s2 = 65536int * 65536;
    assert((t1 + t2 + t3) * s2 - 2 * d * 65536 * (m1 + m2 + m3) >= -3 * (4 * s2 + 2 * 131072
        * 65536) && (t1 + t2 + t3) * s2 - 2 * d * 65536 * (m1 + m2 + m3) <= 3 * (4 * s2 + 2
        * 131072 * 65536)) by (nonlinear_arith)
        requires
            -(4 * (65536int * 65536) + 2 * 131072 * 65536) <= t1 * (65536int * 65536) - fmul(
                n.x as int,
                n.x as int,
            ) * (2 * d * 65536) <= 4 * (65536int * 65536) + 2 * 131072 * 65536,
            -(4 * (65536int * 65536) + 2 * 131072 * 65536) <= t2 * (65536int * 65536) - fmul(
                n.y as int,
                n.y as int,
            ) * (2 * d * 65536) <= 4 * (65536int * 65536) + 2 * 131072 * 65536,
            -(4 * (65536int * 65536) + 2 * 131072 * 65536) <= t3 * (65536int * 65536) - fmul(
                n.z as int,
                n.z as int,
            ) * (2 * d * 65536) <= 4 * (65536int * 65536) + 2 * 131072 * 65536,
            t1 == fmul(fmul(n.x as int, 2 * dot_s(v, n)), n.x as int),
            t2 == fmul(fmul(n.y as int, 2 * dot_s(v, n)), n.y as int),
            t3 == fmul(fmul(n.z as int, 2 * dot_s(v, n)), n.z as int),
            s2 == 65536int * 65536,
            m1 == fmul(n.x as int, n.x as int),
            m2 == fmul(n.y as int, n.y as int),
            m3 == fmul(n.z as int, n.z as int),
            d == dot_s(v, n),
    ;
    // the normal's squared length is one up to a small offset
    let ln = len_sq_s(n);
    assert(m1 + m2 + m3 == ln);
    assert(2 * d * 65536 * ln - 2 * d * s2 == 2 * d * 65536 * (ln - 65536)) by (nonlinear_arith)
        requires
            s2 == 65536int * 65536,
    ;
    assert(-2 * 131072 * 65536 * 25 <= 2 * d * 65536 * (ln - 65536) <= 2 * 131072 * 65536 * 25)
        by (nonlinear_arith)
        requires
            -131072 <= d <= 131072,
            -9 <= ln - 65536 <= 25,
    ;
    // altogether the three terms sum to twice d, within 124 grid units
    let err = (t1 + t2 + t3) - 2 * d;
    assert(err * s2 == (t1 + t2 + t3) * s2 - 2 * d * 65536 * (m1 + m2 + m3) + 2 * d * 65536 * (ln
        - 65536)) by (nonlinear_arith)
        requires
            err == (t1 + t2 + t3) - 2 * d,
            s2 == 65536int * 65536,
            ln == m1 + m2 + m3,
            2 * d * 65536 * ln - 2 * d * s2 == 2 * d * 65536 * (ln - 65536),
    ;
    assert(-124 * s2 <= err * s2 <= 124 * s2);
    assert(-124 <= err <= 124) by (nonlinear_arith)
        requires
            -124 * (65536int * 65536) <= err * (65536int * 65536) <= 124 * (65536int * 65536),
            s2 == 65536int * 65536,
    ;
}

/// One term of the along-normal reflection sum: rounding twice, the term is
/// the squared component times twice the incident dot, within the stated
/// scaled error.
proof fn lemma_reflect_term(ni: int, d: int)
    requires
        -0x30000 <= ni <= 0x30000,
        -131072 <= d <= 131072,
    ensures
        -(4 * (65536int * 65536) + 2 * 131072 * 65536) <= fmul(fmul(ni, 2 * d), ni) * (65536int
            * 65536) - fmul(ni, ni) * (2 * d * 65536) <= 4 * (65536int * 65536) + 2 * 131072
            * 65536,
{
    lemma_tdiv_decompose(ni * (2 * d), 65536);
    let ii = tdiv(ni * (2 * d), 65536);
    let r1 = ni * (2 * d) - ii * 65536;
    lemma_tdiv_decompose(ii * ni, 65536);
    let tt = tdiv(ii * ni, 65536);
    let r2 = ii * ni - tt * 65536;
    lemma_tdiv_decompose(ni * ni, 65536);
    let mm = tdiv(ni * ni, 65536);
    let r3 = ni * ni - mm * 65536;
    assert(tt * (65536int * 65536) - mm * (2 * d * 65536) == -(r1 * ni) - r2 * 65536 + r3 * (2
        * d)) by (nonlinear_arith)
        requires
            r1 == ni * (2 * d) - ii * 65536,
            r2 == ii * ni - tt * 65536,
            r3 == ni * ni - mm * 65536,
    ;
    assert(-(65535int * 0x30000) <= r1 * ni <= 65535int * 0x30000) by (nonlinear_arith)
        requires
            -65535 <= r1 <= 65535,
            -0x30000 <= ni <= 0x30000,
    ;
    assert(-(65535int * 65536) <= r2 * 65536 <= 65535int * 65536) by (nonlinear_arith)
        requires
            -65535 <= r2 <= 65535,
    ;
    assert(-(65535int * 2 * 131072) <= r3 * (2 * d) <= 65535int * 2 * 131072) by (nonlinear_arith)
        requires
            -65535 <= r3 <= 65535,
            -131072 <= d <= 131072,
    ;
}

/// Fired down the axis through a sphere's center from outside, a ray meets
/// the sphere at distance-minus-radius, and the far root lies at
/// distance-plus-radius; both are exact on the grid for whole-unit
/// distances and radii.
pub proof fn lemma_sphere_axis_roots(dist: int, rad: int, s: Sphere, r: Ray)
    requires
        1 <= rad < dist <= 0x4000,
        s.center.x == 0 && s.center.y == 0 && s.center.z == -dist * 65536,
        s.radius == rad * 65536,
        r.orig.x == 0 && r.orig.y == 0 && r.orig.z == 0,
        r.dir.x == 0 && r.dir.y == 0 && r.dir.z == -65536,
    ensures
        root1_s(s, r) == (dist - rad) * 65536,
        root2_s(s, r) == (dist + rad) * 65536,
        hit_t_s(s, r, 66, 0x20_0000_0000) == Some((dist - rad) * 65536),
{
    lemma_fmul_unit(0);
    // the quadratic's coefficients
    assert((-65536int) * (-65536int) == 65536int * 65536) by (nonlinear_arith);
    lemma_tdiv_exact(65536, 65536);
    assert(len_sq_s(r.dir) == 65536);
    let ocz = dist * 65536;
    assert((s.center.z as int) == -ocz);
    assert(0int - (s.center.z as int) == ocz);
    // half_b = fmul(ocz, -65536) = -ocz
    lemma_fmul_unit(ocz);
    assert(half_b_s(s, r) == -ocz);
    // d3(oc, oc) = fmul(ocz, ocz) = dist * dist * 65536
    assert(ocz * ocz == (dist * dist * 65536) * 65536) by (nonlinear_arith)
        requires
            ocz == dist * 65536,
    ;
    lemma_tdiv_exact(dist * dist * 65536, 65536);
    assert(fmul(ocz, ocz) == dist * dist * 65536);
    // fmul(rad * 65536, rad * 65536) = rad * rad * 65536
    assert((rad * 65536) * (rad * 65536) == (rad * rad * 65536) * 65536) by (nonlinear_arith);
    lemma_tdiv_exact(rad * rad * 65536, 65536);
    assert(fmul(rad * 65536, rad * 65536) == rad * rad * 65536);
    assert(quad_c_s(s, r) == dist * dist * 65536 - rad * rad * 65536);
    // disc = fmul(-ocz, -ocz) - fmul(65536, c) = rad * rad * 65536
    assert((-ocz) * (-ocz) == ocz * ocz) by (nonlinear_arith);
    assert(fmul(-ocz, -ocz) == dist * dist * 65536);
    lemma_fmul_unit(quad_c_s(s, r));
    assert(disc_s(s, r) == rad * rad * 65536);
    // its square root is rad * 65536 exactly
    assert((rad * 65536) * (rad * 65536) == disc_s(s, r) * 65536) by (nonlinear_arith)
        requires
            disc_s(s, r) == rad * rad * 65536,
    ;
    assert(disc_s(s, r) * 65536 < (rad * 65536 + 1) * (rad * 65536 + 1)) by (nonlinear_arith)
        requires
            disc_s(s, r) == rad * rad * 65536,
            1 <= rad,
    ;
    assert(0 <= rad * 65536) by (nonlinear_arith)
        requires
            1 <= rad,
    ;
    lemma_sqrt_fx_unique(disc_s(s, r), rad * 65536);
    // the roots divide exactly
    assert(-half_b_s(s, r) - sqrt_fx(disc_s(s, r)) == (dist - rad) * 65536) by (nonlinear_arith)
        requires
            half_b_s(s, r) == -(dist * 65536),
            sqrt_fx(disc_s(s, r)) == rad * 65536,
    ;
    assert(-half_b_s(s, r) + sqrt_fx(disc_s(s, r)) == (dist + rad) * 65536) by (nonlinear_arith)
        requires
            half_b_s(s, r) == -(dist * 65536),
            sqrt_fx(disc_s(s, r)) == rad * 65536,
    ;
    assert(((dist - rad) * 65536) * 65536 == ((dist - rad) * 65536) * 65536);
    lemma_tdiv_exact((dist - rad) * 65536, 65536);
    lemma_tdiv_exact((dist + rad) * 65536, 65536);
    assert(root1_s(s, r) == (dist - rad) * 65536);
    assert(root2_s(s, r) == (dist + rad) * 65536);
    // the near root lies inside the tracer's window
    assert(66 < (dist - rad) * 65536 < 0x20_0000_0000) by (nonlinear_arith)
        requires
            1 <= dist - rad,
            dist <= 0x4000,
            rad >= 1,
    ;
}

} // verus!
