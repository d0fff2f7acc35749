//! Division rounded toward zero, and the facts about products and roots that
//! the bounds proofs of the physics use.
use crate::geometry::{cube, is_icbrt, is_isqrt};
use vstd::prelude::*;

verus! {

/// Quotient of `a` by a positive `b`, rounded toward zero, so that
/// `tdiv(-a, b) == -tdiv(a, b)`.
pub open spec fn tdiv(a: int, b: int) -> int {
    if a >= 0 {
        a / b
    } else {
        -((-a) / b)
    }
}

pub open spec fn abs(a: int) -> int {
    if a >= 0 {
        a
    } else {
        -a
    }
}

/// The integer square root of a non-negative `n`, rounded down.
pub open spec fn root(n: int) -> int {
    choose|r: int| is_isqrt(n, r)
}

/// The integer cube root of a non-negative `v`, rounded down.
pub open spec fn cube_root(v: int) -> int {
    choose|r: int| is_icbrt(v, r)
}

pub proof fn lemma_tdiv_neg(a: int, b: int)
    requires
        b > 0,
    ensures
        tdiv(-a, b) == -tdiv(a, b),
{
    if a == 0 {
        assert(0int / b == 0) by (nonlinear_arith)
            requires
                b > 0;
    }
}

pub proof fn lemma_tdiv_bound(a: int, b: int)
    requires
        b > 0,
    ensures
        abs(tdiv(a, b)) <= abs(a),
{
    if a >= 0 {
        assert(0 <= a / b <= a) by (nonlinear_arith)
            requires
                a >= 0, b > 0;
    } else {
        assert(0 <= (-a) / b <= -a) by (nonlinear_arith)
            requires
                a < 0, b > 0;
    }
}

/// Multiplying back a quotient rounded toward zero misses the dividend by
/// less than the divisor.
pub proof fn lemma_tdiv_remainder(a: int, b: int)
    requires
        b > 0,
    ensures
        abs(a - b * tdiv(a, b)) < b,
{
    if a >= 0 {
        assert(0 <= a - b * (a / b) < b) by (nonlinear_arith)
            requires
                a >= 0, b > 0;
    } else {
        assert(0 <= (-a) - b * ((-a) / b) < b) by (nonlinear_arith)
            requires
                a < 0, b > 0;
        assert(a - b * (-((-a) / b)) == -((-a) - b * ((-a) / b))) by (nonlinear_arith);
    }
}

/// An integer square root is unique, so `root` names the one that `isqrt`
/// computes.
pub proof fn lemma_root_unique(n: int, r: int)
    requires
        is_isqrt(n, r),
    ensures
        root(n) == r,
{
    let s = root(n);
    assert(is_isqrt(n, s));
    if s < r {
        assert((s + 1) * (s + 1) <= r * r) by (nonlinear_arith)
            requires
                0 <= s, s + 1 <= r;
    } else if r < s {
        assert((r + 1) * (r + 1) <= s * s) by (nonlinear_arith)
            requires
                0 <= r, r + 1 <= s;
    }
}

/// Every non-negative volume has an integer cube root.
pub proof fn lemma_cube_root_exists(v: int)
    requires
        v >= 0,
    ensures
        is_icbrt(v, cube_root(v)),
    decreases v,
{
    if v == 0 {
        assert(is_icbrt(0, 0));
    } else {
        lemma_cube_root_exists(v - 1);
        let r = cube_root(v - 1);
        if cube(r + 1) <= v {
            assert(cube(r + 1) < cube(r + 2)) by (nonlinear_arith)
                requires
                    r >= 0;
            assert(is_icbrt(v, r + 1));
        } else {
            assert(is_icbrt(v, r));
        }
    }
}

/// An integer cube root is unique, so `cube_root` names the one that
/// `inverse_volume_of_sphere` computes.
pub proof fn lemma_cube_root_unique(v: int, r: int)
    requires
        is_icbrt(v, r),
    ensures
        cube_root(v) == r,
{
    let s = cube_root(v);
    assert(is_icbrt(v, s));
    if s < r {
        assert(cube(s + 1) <= cube(r)) by (nonlinear_arith)
            requires
                0 <= s, s + 1 <= r;
    } else if r < s {
        assert(cube(r + 1) <= cube(s)) by (nonlinear_arith)
            requires
                0 <= r, r + 1 <= s;
    }
}

/// Quotient of `a` by a positive `b`, rounded toward zero.
pub fn trunc_div(a: i128, b: i128) -> (q: i128)
    requires
        b > 0,
        a > i128::MIN,
    ensures
        q == tdiv(a as int, b as int),
{
    if a >= 0 {
        let ua: u128 = a as u128;
        let ub: u128 = b as u128;
        let q = ua / ub;
        assert(q <= ua) by (nonlinear_arith)
            requires
                q == ua / ub, ub > 0;
        q as i128
    } else {
        let na: u128 = (-a) as u128;
        let ub: u128 = b as u128;
        let q = na / ub;
        assert(q <= na) by (nonlinear_arith)
            requires
                q == na / ub, ub > 0;
        -(q as i128)
    }
}

} // verus!
