//! Scalar fixed-point arithmetic. A stored `i64` value `x` stands for the
//! real number `x / 65536`; products and quotients are rounded toward zero.
use vstd::prelude::*;
use vstd::arithmetic::div_mod::{
    lemma_div_multiples_vanish, lemma_div_is_ordered, lemma_div_pos_is_pos,
    lemma_div_is_ordered_by_denominator, lemma_div_basics, lemma_fundamental_div_mod,
    lemma_mod_division_less_than_divisor,
};

verus! {

/// One on the fixed-point grid: the stored value that stands for the real 1.
pub const FX_ONE: i64 = 65536;

/// Magnitude of an integer.
pub open spec fn iabs(x: int) -> int {
    if x >= 0 { x } else { -x }
}

/// Quotient rounded toward zero (the grid's rounding rule).
pub open spec fn tdiv(x: int, d: int) -> int
    recommends
        d > 0,
{
    if x >= 0 { x / d } else { -((-x) / d) }
}

/// Product of two grid values, rounded back onto the grid.
pub open spec fn fmul(a: int, b: int) -> int {
    tdiv(a * b, 65536)
}

/// Quotient of two grid values, rounded back onto the grid.
pub open spec fn fdiv(a: int, b: int) -> int
    recommends
        b > 0,
{
    tdiv(a * 65536, b)
}

/// Rounding toward zero is exact on multiples of the divisor.
pub proof fn lemma_tdiv_exact(a: int, d: int)
    requires
        0 < d,
    ensures
        tdiv(a * d, d) == a,
{
    lemma_div_multiples_vanish(a, d);
    assert(a * d == d * a) by (nonlinear_arith);
    if a >= 0 {
        assert(a * d >= 0) by (nonlinear_arith)
            requires
                a >= 0,
                d > 0,
        ;
    } else {
        assert(a * d < 0) by (nonlinear_arith)
            requires
                a < 0,
                d > 0,
        ;
        assert(-(a * d) == (-a) * d) by (nonlinear_arith);
        lemma_div_multiples_vanish(-a, d);
        assert((-a) * d == d * (-a)) by (nonlinear_arith);
    }
}

/// Rounding toward zero is an odd function of the numerator.
pub proof fn lemma_tdiv_neg(x: int, d: int)
    requires
        0 < d,
    ensures
        tdiv(-x, d) == -tdiv(x, d),
{
    if x == 0 {
        assert(tdiv(0int, d) == 0int / d);
        assert(0int / d == 0) by {
            lemma_div_multiples_vanish(0, d);
            assert(d * 0 == 0) by (nonlinear_arith);
        }
    }
}

/// Rounding toward zero keeps the quotient within a scaled bound.
pub proof fn lemma_tdiv_bound(x: int, m: int, d: int)
    requires
        0 < d,
        0 <= m,
        -(m * d) <= x <= m * d,
    ensures
        -m <= tdiv(x, d) <= m,
{
    lemma_div_multiples_vanish(m, d);
    assert(m * d == d * m) by (nonlinear_arith);
    if x >= 0 {
        lemma_div_is_ordered(x, m * d, d);
        lemma_div_pos_is_pos(x, d);
    } else {
        lemma_div_is_ordered(-x, m * d, d);
        lemma_div_pos_is_pos(-x, d);
    }
}

/// Rounding toward zero preserves order of the numerators.
pub proof fn lemma_tdiv_mono(x: int, y: int, d: int)
    requires
        0 < d,
        x <= y,
    ensures
        tdiv(x, d) <= tdiv(y, d),
{
    if x >= 0 {
        lemma_div_is_ordered(x, y, d);
    } else if y >= 0 {
        lemma_div_pos_is_pos(y, d);
        lemma_div_pos_is_pos(-x, d);
    } else {
        lemma_div_is_ordered(-y, -x, d);
    }
}

/// What rounding toward zero leaves behind: the remainder stays within the
/// divisor, on the numerator's side of zero.
pub proof fn lemma_tdiv_decompose(x: int, d: int)
    requires
        0 < d,
    ensures
        x >= 0 ==> 0 <= x - tdiv(x, d) * d < d,
        x < 0 ==> -d < x - tdiv(x, d) * d <= 0,
{
    if x >= 0 {
        let q = x / d;
        lemma_fundamental_div_mod(x, d);
        lemma_mod_division_less_than_divisor(x, d);
        assert(x == d * q + x % d);
        assert(q * d == d * q) by (nonlinear_arith);
    } else {
        let q = (-x) / d;
        lemma_fundamental_div_mod(-x, d);
        lemma_mod_division_less_than_divisor(-x, d);
        assert(-x == d * q + (-x) % d);
        assert(tdiv(x, d) == -q);
        assert((-q) * d == -(d * q)) by (nonlinear_arith);
    }
}

/// A nonnegative numerator gives a nonnegative quotient.
pub proof fn lemma_tdiv_nonneg(x: int, d: int)
    requires
        0 < d,
        0 <= x,
    ensures
        0 <= tdiv(x, d),
{
    lemma_div_pos_is_pos(x, d);
}

fn mag(a: i64) -> (r: u128)
    ensures
        r == iabs(a as int),
{
    if a < 0 {
        (-(a as i128)) as u128
    } else {
        a as u128
    }
}

/// Grid product: `r` stands for the product of the reals `a` and `b` stand
/// for, rounded toward zero onto the grid.
pub fn mul_fx(a: i64, b: i64) -> (r: i64)
    requires
        -0x4000_0000_0000_0000_0000 <= (a as int) * (b as int) <= 0x4000_0000_0000_0000_0000,
    ensures
        r == fmul(a as int, b as int),
        -0x4000_0000_0000_0000 <= r <= 0x4000_0000_0000_0000,
{
    let neg: bool = (a < 0) != (b < 0);
    let ma: u128 = mag(a);
    let mb: u128 = mag(b);
    proof {
        assert(ma * mb <= 0x8000_0000_0000_0000 * 0x8000_0000_0000_0000) by (nonlinear_arith)
            requires
                ma <= 0x8000_0000_0000_0000,
                mb <= 0x8000_0000_0000_0000,
        ;
        assert(iabs((a as int) * (b as int)) == iabs(a as int) * iabs(b as int))
            by (nonlinear_arith);
    }
    let p: u128 = ma * mb;
    let q: u128 = p / 65536;
    proof {
        lemma_div_is_ordered(p as int, 0x4000_0000_0000_0000_0000, 65536);
        lemma_div_pos_is_pos(p as int, 65536);
        assert(0x4000_0000_0000_0000_0000int / 65536 == 0x4000_0000_0000_0000);
        let ab = (a as int) * (b as int);
        assert(a < 0 && b > 0 ==> (a as int) * (b as int) < 0) by (nonlinear_arith);
        assert(a > 0 && b < 0 ==> (a as int) * (b as int) < 0) by (nonlinear_arith);
        assert(a >= 0 && b >= 0 ==> (a as int) * (b as int) >= 0) by (nonlinear_arith);
        assert(a <= 0 && b <= 0 ==> (a as int) * (b as int) >= 0) by (nonlinear_arith);
        assert(a == 0 || b == 0 ==> (a as int) * (b as int) == 0) by (nonlinear_arith);
        lemma_div_basics(65536);
        if ab >= 0 {
            assert(p == ab);
            if neg {
                assert(ab == 0);
            }
        } else {
            assert(p == -ab);
            assert(neg);
        }
    }
    if neg {
        -(q as i64)
    } else {
        q as i64
    }
}

/// Grid quotient: `r` stands for the quotient of the reals `a` and `b` stand
/// for, rounded toward zero onto the grid. The divisor must be positive.
pub fn div_fx(a: i64, b: i64) -> (r: i64)
    requires
        0 < b,
        -0x3FFF_FFFF_FFFF <= a <= 0x3FFF_FFFF_FFFF,
    ensures
        r == fdiv(a as int, b as int),
        -0x3FFF_FFFF_FFFF_0000 <= r <= 0x3FFF_FFFF_FFFF_0000,
{
    let neg: bool = a < 0;
    let p: u128 = mag(a) * 65536;
    proof {
        assert(iabs(a as int) * 65536 == iabs((a as int) * 65536)) by (nonlinear_arith);
        assert(iabs((a as int) * 65536) <= 0x3FFF_FFFF_FFFF * 65536) by (nonlinear_arith)
            requires
                -0x3FFF_FFFF_FFFF <= a <= 0x3FFF_FFFF_FFFF,
        ;
    }
    let q: u128 = p / (b as u128);
    proof {
        lemma_div_is_ordered(p as int, 0x3FFF_FFFF_FFFFint * 65536, b as int);
        lemma_div_is_ordered_by_denominator(0x3FFF_FFFF_FFFFint * 65536, 1, b as int);
        lemma_div_basics(0x3FFF_FFFF_FFFFint * 65536);
        lemma_div_pos_is_pos(p as int, b as int);
        let as64 = (a as int) * 65536;
        assert(a < 0 ==> (a as int) * 65536 < 0) by (nonlinear_arith);
        assert(a >= 0 ==> (a as int) * 65536 >= 0) by (nonlinear_arith);
        if as64 >= 0 {
            assert(p == as64);
            assert(!neg);
        } else {
            assert(p == -as64);
            assert(neg);
        }
    }
    if neg {
        -(q as i64)
    } else {
        q as i64
    }
}

/// The grid value of the square root of a nonnegative grid value: the unique
/// `r` with `r * r <= a * 65536 < (r + 1) * (r + 1)`.
pub open spec fn sqrt_fx(a: int) -> int {
    choose|r: int| #![trigger r * r] 0 <= r && r * r <= a * 65536 < (r + 1) * (r + 1)
}

/// Every nonnegative integer has a floor square root.
pub proof fn lemma_sqrt_exists(n: int)
    requires
        0 <= n,
    ensures
        exists|r: int| #![trigger r * r] 0 <= r && r * r <= n < (r + 1) * (r + 1),
    decreases n,
{
    if n == 0 {
        assert(0 <= 0int && 0int * 0int <= n < (0int + 1) * (0int + 1)) by (nonlinear_arith)
            requires
                n == 0,
        ;
    } else {
        lemma_sqrt_exists(n - 1);
        let r = choose|r: int| #![trigger r * r] 0 <= r && r * r <= n - 1 < (r + 1) * (r + 1);
        if (r + 1) * (r + 1) <= n {
            assert((r + 1) * (r + 1) <= n < (r + 2) * (r + 2)) by (nonlinear_arith)
                requires
                    0 <= r,
                    n - 1 < (r + 1) * (r + 1) <= n,
            ;
            assert(0 <= r + 1 && (r + 1) * (r + 1) <= n < ((r + 1) + 1) * ((r + 1) + 1));
        } else {
            assert(0 <= r && r * r <= n < (r + 1) * (r + 1));
        }
    }
}

/// The bracketing properties of `sqrt_fx` on a nonnegative argument.
pub proof fn lemma_sqrt_fx_props(a: int)
    requires
        0 <= a,
    ensures
        0 <= sqrt_fx(a),
        sqrt_fx(a) * sqrt_fx(a) <= a * 65536 < (sqrt_fx(a) + 1) * (sqrt_fx(a) + 1),
{
    assert(a * 65536 >= 0) by (nonlinear_arith)
        requires
            0 <= a,
    ;
    lemma_sqrt_exists(a * 65536);
}

/// The square-root bracketing pins its value down.
pub proof fn lemma_sqrt_fx_unique(a: int, r: int)
    requires
        0 <= r,
        r * r <= a * 65536 < (r + 1) * (r + 1),
    ensures
        sqrt_fx(a) == r,
{
    assert(exists|q: int| #![trigger q * q] 0 <= q && q * q <= a * 65536 < (q + 1) * (q + 1)) by {
        assert(0 <= r && r * r <= a * 65536 < (r + 1) * (r + 1));
    }
    let s = sqrt_fx(a);
    assert(0 <= s && s * s <= a * 65536 < (s + 1) * (s + 1));
    assert(s == r) by (nonlinear_arith)
        requires
            0 <= r,
            0 <= s,
            r * r <= a * 65536 < (r + 1) * (r + 1),
            s * s <= a * 65536 < (s + 1) * (s + 1),
    ;
}

fn sqrt_floor(n: u128) -> (r: u64)
    requires
        n < 0x4000_0000_0000_0000_0000_0000_0000_0000,
    ensures
        (r as int) * (r as int) <= n < (r as int + 1) * (r as int + 1),
        r < 0x8000_0000_0000_0000,
{
    let mut lo: u64 = 0;
    let mut hi: u64 = 0x8000_0000_0000_0000;
    proof {
        assert((0x8000_0000_0000_0000 as int) * (0x8000_0000_0000_0000 as int)
            == 0x4000_0000_0000_0000_0000_0000_0000_0000) by (nonlinear_arith);
    }
    while hi - lo > 1
        invariant
            lo < hi,
            hi <= 0x8000_0000_0000_0000,
            (lo as int) * (lo as int) <= n,
            n < (hi as int) * (hi as int),
        decreases hi - lo,
    {
        let mid: u64 = lo + (hi - lo) / 2;
        proof {
            assert((mid as int) * (mid as int) <= 0x4000_0000_0000_0000_0000_0000_0000_0000)
                by (nonlinear_arith)
                requires
                    mid <= 0x8000_0000_0000_0000,
            ;
        }
        if (mid as u128) * (mid as u128) <= n {
            lo = mid;
        } else {
            hi = mid;
        }
    }
    lo
}

/// Square root of a nonnegative grid value, rounded down onto the grid.
pub fn fx_sqrt(a: i64) -> (r: i64)
    requires
        0 <= a,
    ensures
        r == sqrt_fx(a as int),
        0 <= r < 0x8000_0000_0000_0000,
        (r as int) * (r as int) <= (a as int) * 65536 < (r as int + 1) * (r as int + 1),
{
    let n: u128 = (a as u128) * 65536;
    let s: u64 = sqrt_floor(n);
    proof {
        lemma_sqrt_fx_unique(a as int, s as int);
    }
    s as i64
}

} // verus!
