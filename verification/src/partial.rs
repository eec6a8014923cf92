//! Bounded ("partial") extended-GCD reduction for continued-fraction
//! stepping.
//!
//! A state `(r1, r0, c1, c0)` with `r1 >= r0 >= 0` is reduced by Euclidean
//! steps until the smaller remainder is at most the bound.  Both the
//! remainder vector and the cofactor vector are transformed by the same
//! unimodular matrix, which is what the contract states: the new state is
//! an integer-matrix image (determinant `+-1`) of the old one, the gcd of
//! the remainder pair is unchanged, and the exact cofactor weight
//! `|c0|*r1 + |c1|*r0` is carried across the call, which is what keeps
//! every intermediate cofactor representable.

use vstd::prelude::*;
use vstd::math::abs;

use crate::arith::gcd_int;
use crate::euclid::{lemma_cofactor_step, lemma_combo_step, quot_u64, quot_u32, quot_u128,
    QuotMethod};
use crate::types::{PartialXgcdI32, PartialXgcdI64, PartialXgcdI128};

verus! {

/// The contract every bounded reduction step sequence meets, stated over
/// the old and new `(r1, r0, c1, c0)` states.
pub open spec fn partial_ok(
    o_r1: int,
    o_r0: int,
    o_c1: int,
    o_c0: int,
    r1: int,
    r0: int,
    c1: int,
    c0: int,
    bound: int,
) -> bool {
    &&& (o_r0 <= bound ==> r1 == o_r1 && r0 == o_r0 && c1 == o_c1 && c0 == o_c0)
    &&& (o_r0 > bound ==> 0 <= r0 <= bound && bound < r1)
    &&& 0 <= r0 <= r1
    &&& gcd_int(r1, r0) == gcd_int(o_r1, o_r0)
    &&& c1 * c0 <= 0
    &&& abs(c0) * r1 + abs(c1) * r0 == abs(o_c0) * o_r1 + abs(o_c1) * o_r0
    &&& exists|m11: int, m10: int, m01: int, m00: int|
        {
            &&& r1 == #[trigger] (m11 * o_r1) + #[trigger] (m10 * o_r0)
            &&& r0 == #[trigger] (m01 * o_r1) + #[trigger] (m00 * o_r0)
            &&& c1 == m11 * o_c1 + m10 * o_c0
            &&& c0 == m01 * o_c1 + m00 * o_c0
            &&& (m11 * m00 - m10 * m01 == 1 || m11 * m00 - m10 * m01 == -1)
        }
}

/// One determinant flip per Euclidean step.
proof fn lemma_det_step(m11: int, m10: int, m01: int, m00: int, q: int, d: int)
    requires
        m11 * m00 - m10 * m01 == d,
    ensures
        m01 * (m10 - q * m00) - m00 * (m11 - q * m01) == -d,
{
    assert(m01 * (m10 - q * m00) - m00 * (m11 - q * m01) == -d) by (nonlinear_arith)
        requires
            m11 * m00 - m10 * m01 == d,
    ;
}

/// A nonnegative product bound transfers through a positive factor.
proof fn lemma_scale_bound(x: int, r: int, w: int, cap: int)
    requires
        x >= 0,
        r >= 1,
        x * r <= w,
        w <= r * cap,
        cap >= 0,
    ensures
        x <= cap,
{
    assert(x <= cap) by (nonlinear_arith)
        requires
            x >= 0,
            r >= 1,
            x * r <= w,
            w <= r * cap,
            cap >= 0,
    ;
}

/// The shared bounded reduction over a 64-bit state.
fn partial_core_i64(state: PartialXgcdI64, bound: i64, method: QuotMethod) -> (res: (
    u64,
    PartialXgcdI64,
))
    requires
        0 <= state.r0 <= state.r1,
        bound >= 0,
        state.c1 * state.c0 <= 0,
        abs(state.c0 as int) * state.r1 + abs(state.c1 as int) * state.r0 <= i64::MAX,
    ensures
        partial_ok(state.r1 as int, state.r0 as int, state.c1 as int, state.c0 as int,
            res.1.r1 as int, res.1.r0 as int, res.1.c1 as int, res.1.c0 as int, bound as int),
        res.0 == 0 <==> state.r0 <= bound,
{
    let ghost o_r1: int = state.r1 as int;
    let ghost o_r0: int = state.r0 as int;
    let ghost o_c1: int = state.c1 as int;
    let ghost o_c0: int = state.c0 as int;
    let ghost w: int = abs(o_c0) * o_r1 + abs(o_c1) * o_r0;
    let mut r1: i64 = state.r1;
    let mut r0: i64 = state.r0;
    let mut c1: i64 = state.c1;
    let mut c0: i64 = state.c0;
    let mut steps: u64 = 0;
    let ghost mut m11: int = 1;
    let ghost mut m10: int = 0;
    let ghost mut m01: int = 0;
    let ghost mut m00: int = 1;
    proof {
        assert(w >= 0 && w == abs(c0 as int) * r1 + abs(c1 as int) * r0) by (nonlinear_arith)
            requires
                w == abs(o_c0) * o_r1 + abs(o_c1) * o_r0,
                o_r1 >= 0,
                o_r0 >= 0,
                r1 == o_r1,
                r0 == o_r0,
                c1 == o_c1,
                c0 == o_c0,
        ;
    }
    while r0 > bound
        invariant
            bound >= 0,
            0 <= r0 <= r1,
            r1 as int == m11 * o_r1 + m10 * o_r0,
            r0 as int == m01 * o_r1 + m00 * o_r0,
            c1 as int == m11 * o_c1 + m10 * o_c0,
            c0 as int == m01 * o_c1 + m00 * o_c0,
            m11 * m00 - m10 * m01 == 1 || m11 * m00 - m10 * m01 == -1,
            c1 * c0 <= 0,
            abs(c0 as int) * r1 + abs(c1 as int) * r0 == w,
            w == abs(o_c0) * o_r1 + abs(o_c1) * o_r0,
            w <= i64::MAX,
            gcd_int(r1 as int, r0 as int) == gcd_int(o_r1, o_r0),
            (r1 == state.r1 && r0 == state.r0 && c1 == state.c1 && c0 == state.c0 && steps == 0)
                || (r1 > bound && steps >= 1),
            steps >= 1 ==> state.r0 > bound,
        decreases r0,
    {
        let qr = quot_u64(r1 as u64, r0 as u64, method);
        let q: i64 = qr.0 as i64;
        let r2: i64 = qr.1 as i64;
        proof {
            vstd::arithmetic::div_mod::lemma_fundamental_div_mod(r1 as int, r0 as int);
            lemma_cofactor_step(r1 as int, r0 as int, r2 as int, q as int, c1 as int, c0 as int,
                w);
            lemma_combo_step(o_r1, o_r0, q as int, m11, m01, m10, m00, r1 as int, r0 as int);
            lemma_combo_step(o_c1, o_c0, q as int, m11, m01, m10, m00, c1 as int, c0 as int);
            lemma_det_step(m11, m10, m01, m00, q as int, m11 * m00 - m10 * m01);
            // the fresh cofactor and the intermediate product stay in range
            assert(abs(c0 as int) * (r2 as int) >= 0 && w >= 0) by (nonlinear_arith)
                requires
                    r2 >= 0,
                    abs(c1 as int - q * c0) * r0 + abs(c0 as int) * r2 == w,
                    abs(c1 as int - q * c0) >= 0,
                    r0 >= 1,
            ;
            assert(w <= (r0 as int) * w) by (nonlinear_arith)
                requires
                    r0 >= 1,
                    w >= 0,
            ;
            lemma_scale_bound(abs(c1 as int - q * c0) as int, r0 as int, w, w);
            assert(gcd_int(r0 as int, r2 as int) == gcd_int(r1 as int, r0 as int)) by {
                assert(crate::arith::gcd_nat(r1 as nat, r0 as nat) == crate::arith::gcd_nat(
                    r0 as nat,
                    r2 as nat,
                ));
            }
        }
        let t: i64 = c1 - q * c0;
        r1 = r0;
        r0 = r2;
        c1 = c0;
        c0 = t;
        if steps < u64::MAX {
            steps = steps + 1;
        }
        proof {
            let n11 = m01;
            let n10 = m00;
            let n01 = m11 - q * m01;
            let n00 = m10 - q * m00;
            m11 = n11;
            m10 = n10;
            m01 = n01;
            m00 = n00;
        }
    }
    proof {
        assert(r1 as int == m11 * o_r1 + m10 * o_r0);
        assert(r0 as int == m01 * o_r1 + m00 * o_r0);
        assert(partial_ok(o_r1, o_r0, o_c1, o_c0, r1 as int, r0 as int, c1 as int, c0 as int,
            bound as int));
    }
    (steps, PartialXgcdI64 { r1, r0, c1, c0 })
}

/// Bounded reduction with classical division steps.
pub fn xgcd_partial_divrem_i64(state: PartialXgcdI64, bound: i64) -> (res: PartialXgcdI64)
    requires
        0 <= state.r0 <= state.r1,
        bound >= 0,
        state.c1 * state.c0 <= 0,
        abs(state.c0 as int) * state.r1 + abs(state.c1 as int) * state.r0 <= i64::MAX,
    ensures
        partial_ok(state.r1 as int, state.r0 as int, state.c1 as int, state.c0 as int,
            res.r1 as int, res.r0 as int, res.c1 as int, res.c0 as int, bound as int),
{
    let (_, res) = partial_core_i64(state, bound, QuotMethod::Division);
    res
}

/// Bounded reduction with left-to-right binary (shifted-subtraction)
/// steps; also reports the number of reduction steps taken.
pub fn xgcd_partial_binary_l2r_i64(state: PartialXgcdI64, bound: i64) -> (res: (
    u64,
    PartialXgcdI64,
))
    requires
        0 <= state.r0 <= state.r1,
        bound >= 0,
        state.c1 * state.c0 <= 0,
        abs(state.c0 as int) * state.r1 + abs(state.c1 as int) * state.r0 <= i64::MAX,
    ensures
        partial_ok(state.r1 as int, state.r0 as int, state.c1 as int, state.c0 as int,
            res.1.r1 as int, res.1.r0 as int, res.1.c1 as int, res.1.c0 as int, bound as int),
        res.0 == 0 <==> state.r0 <= bound,
{
    partial_core_i64(state, bound, QuotMethod::BinaryL2r)
}

/// Bounded reduction with Brent-style doubling-chain steps.
pub fn xgcd_partial_brent_i64(state: PartialXgcdI64, bound: i64) -> (res: PartialXgcdI64)
    requires
        0 <= state.r0 <= state.r1,
        bound >= 0,
        state.c1 * state.c0 <= 0,
        abs(state.c0 as int) * state.r1 + abs(state.c1 as int) * state.r0 <= i64::MAX,
    ensures
        partial_ok(state.r1 as int, state.r0 as int, state.c1 as int, state.c0 as int,
            res.r1 as int, res.r0 as int, res.c1 as int, res.c0 as int, bound as int),
{
    let (_, res) = partial_core_i64(state, bound, QuotMethod::Doubling);
    res
}

/// The shared bounded reduction over a 32-bit state.
fn partial_core_i32(state: PartialXgcdI32, bound: i32, method: QuotMethod) -> (res: (
    u32,
    PartialXgcdI32,
))
    requires
        0 <= state.r0 <= state.r1,
        bound >= 0,
        state.c1 * state.c0 <= 0,
        abs(state.c0 as int) * state.r1 + abs(state.c1 as int) * state.r0 <= i32::MAX,
    ensures
        partial_ok(state.r1 as int, state.r0 as int, state.c1 as int, state.c0 as int,
            res.1.r1 as int, res.1.r0 as int, res.1.c1 as int, res.1.c0 as int, bound as int),
        res.0 == 0 <==> state.r0 <= bound,
{
    let ghost o_r1: int = state.r1 as int;
    let ghost o_r0: int = state.r0 as int;
    let ghost o_c1: int = state.c1 as int;
    let ghost o_c0: int = state.c0 as int;
    let ghost w: int = abs(o_c0) * o_r1 + abs(o_c1) * o_r0;
    let mut r1: i32 = state.r1;
    let mut r0: i32 = state.r0;
    let mut c1: i32 = state.c1;
    let mut c0: i32 = state.c0;
    let mut steps: u32 = 0;
    let ghost mut m11: int = 1;
    let ghost mut m10: int = 0;
    let ghost mut m01: int = 0;
    let ghost mut m00: int = 1;
    proof {
        assert(w >= 0 && w == abs(c0 as int) * r1 + abs(c1 as int) * r0) by (nonlinear_arith)
            requires
                w == abs(o_c0) * o_r1 + abs(o_c1) * o_r0,
                o_r1 >= 0,
                o_r0 >= 0,
                r1 == o_r1,
                r0 == o_r0,
                c1 == o_c1,
                c0 == o_c0,
        ;
    }
    while r0 > bound
        invariant
            bound >= 0,
            0 <= r0 <= r1,
            r1 as int == m11 * o_r1 + m10 * o_r0,
            r0 as int == m01 * o_r1 + m00 * o_r0,
            c1 as int == m11 * o_c1 + m10 * o_c0,
            c0 as int == m01 * o_c1 + m00 * o_c0,
            m11 * m00 - m10 * m01 == 1 || m11 * m00 - m10 * m01 == -1,
            c1 * c0 <= 0,
            abs(c0 as int) * r1 + abs(c1 as int) * r0 == w,
            w == abs(o_c0) * o_r1 + abs(o_c1) * o_r0,
            w <= i32::MAX,
            gcd_int(r1 as int, r0 as int) == gcd_int(o_r1, o_r0),
            (r1 == state.r1 && r0 == state.r0 && c1 == state.c1 && c0 == state.c0 && steps == 0)
                || (r1 > bound && steps >= 1),
            steps >= 1 ==> state.r0 > bound,
        decreases r0,
    {
        let qr = quot_u32(r1 as u32, r0 as u32, method);
        let q: i32 = qr.0 as i32;
        let r2: i32 = qr.1 as i32;
        proof {
            vstd::arithmetic::div_mod::lemma_fundamental_div_mod(r1 as int, r0 as int);
            lemma_cofactor_step(r1 as int, r0 as int, r2 as int, q as int, c1 as int, c0 as int,
                w);
            lemma_combo_step(o_r1, o_r0, q as int, m11, m01, m10, m00, r1 as int, r0 as int);
            lemma_combo_step(o_c1, o_c0, q as int, m11, m01, m10, m00, c1 as int, c0 as int);
            lemma_det_step(m11, m10, m01, m00, q as int, m11 * m00 - m10 * m01);
            // the fresh cofactor and the intermediate product stay in range
            assert(abs(c0 as int) * (r2 as int) >= 0 && w >= 0) by (nonlinear_arith)
                requires
                    r2 >= 0,
                    abs(c1 as int - q * c0) * r0 + abs(c0 as int) * r2 == w,
                    abs(c1 as int - q * c0) >= 0,
                    r0 >= 1,
            ;
            assert(w <= (r0 as int) * w) by (nonlinear_arith)
                requires
                    r0 >= 1,
                    w >= 0,
            ;
            lemma_scale_bound(abs(c1 as int - q * c0) as int, r0 as int, w, w);
            assert(gcd_int(r0 as int, r2 as int) == gcd_int(r1 as int, r0 as int)) by {
                assert(crate::arith::gcd_nat(r1 as nat, r0 as nat) == crate::arith::gcd_nat(
                    r0 as nat,
                    r2 as nat,
                ));
            }
        }
        let t: i32 = c1 - q * c0;
        r1 = r0;
        r0 = r2;
        c1 = c0;
        c0 = t;
        if steps < u32::MAX {
            steps = steps + 1;
        }
        proof {
            let n11 = m01;
            let n10 = m00;
            let n01 = m11 - q * m01;
            let n00 = m10 - q * m00;
            m11 = n11;
            m10 = n10;
            m01 = n01;
            m00 = n00;
        }
    }
    proof {
        assert(r1 as int == m11 * o_r1 + m10 * o_r0);
        assert(r0 as int == m01 * o_r1 + m00 * o_r0);
        assert(partial_ok(o_r1, o_r0, o_c1, o_c0, r1 as int, r0 as int, c1 as int, c0 as int,
            bound as int));
    }
    (steps, PartialXgcdI32 { r1, r0, c1, c0 })
}

/// Bounded reduction with classical division steps.
pub fn xgcd_partial_divrem_i32(state: PartialXgcdI32, bound: i32) -> (res: PartialXgcdI32)
    requires
        0 <= state.r0 <= state.r1,
        bound >= 0,
        state.c1 * state.c0 <= 0,
        abs(state.c0 as int) * state.r1 + abs(state.c1 as int) * state.r0 <= i32::MAX,
    ensures
        partial_ok(state.r1 as int, state.r0 as int, state.c1 as int, state.c0 as int,
            res.r1 as int, res.r0 as int, res.c1 as int, res.c0 as int, bound as int),
{
    let (_, res) = partial_core_i32(state, bound, QuotMethod::Division);
    res
}

/// Bounded reduction with left-to-right binary (shifted-subtraction)
/// steps; also reports the number of reduction steps taken.
pub fn xgcd_partial_binary_l2r_i32(state: PartialXgcdI32, bound: i32) -> (res: (
    u32,
    PartialXgcdI32,
))
    requires
        0 <= state.r0 <= state.r1,
        bound >= 0,
        state.c1 * state.c0 <= 0,
        abs(state.c0 as int) * state.r1 + abs(state.c1 as int) * state.r0 <= i32::MAX,
    ensures
        partial_ok(state.r1 as int, state.r0 as int, state.c1 as int, state.c0 as int,
            res.1.r1 as int, res.1.r0 as int, res.1.c1 as int, res.1.c0 as int, bound as int),
        res.0 == 0 <==> state.r0 <= bound,
{
    partial_core_i32(state, bound, QuotMethod::BinaryL2r)
}

/// Bounded reduction with Brent-style doubling-chain steps.
pub fn xgcd_partial_brent_i32(state: PartialXgcdI32, bound: i32) -> (res: PartialXgcdI32)
    requires
        0 <= state.r0 <= state.r1,
        bound >= 0,
        state.c1 * state.c0 <= 0,
        abs(state.c0 as int) * state.r1 + abs(state.c1 as int) * state.r0 <= i32::MAX,
    ensures
        partial_ok(state.r1 as int, state.r0 as int, state.c1 as int, state.c0 as int,
            res.r1 as int, res.r0 as int, res.c1 as int, res.c0 as int, bound as int),
{
    let (_, res) = partial_core_i32(state, bound, QuotMethod::Doubling);
    res
}


/// The shared bounded reduction over a 128-bit state with 64-bit
/// cofactors.  The weight precondition is what machine width forces: the
/// cofactors a reduction down to `bound` can produce must fit 64 bits.
fn partial_core_i128(state: PartialXgcdI128, bound: i64, method: QuotMethod) -> (res: (
    u64,
    PartialXgcdI128,
))
    requires
        0 <= state.r0 <= state.r1,
        bound >= 0,
        state.c1 * state.c0 <= 0,
        abs(state.c0 as int) * state.r1 + abs(state.c1 as int) * state.r0 <= (bound + 1)
            * i64::MAX,
    ensures
        partial_ok(state.r1 as int, state.r0 as int, state.c1 as int, state.c0 as int,
            res.1.r1 as int, res.1.r0 as int, res.1.c1 as int, res.1.c0 as int, bound as int),
        res.0 == 0 <==> state.r0 <= bound,
{
    let ghost o_r1: int = state.r1 as int;
    let ghost o_r0: int = state.r0 as int;
    let ghost o_c1: int = state.c1 as int;
    let ghost o_c0: int = state.c0 as int;
    let ghost w: int = abs(o_c0) * o_r1 + abs(o_c1) * o_r0;
    let mut r1: i128 = state.r1;
    let mut r0: i128 = state.r0;
    let mut c1: i64 = state.c1;
    let mut c0: i64 = state.c0;
    let mut steps: u64 = 0;
    let ghost mut m11: int = 1;
    let ghost mut m10: int = 0;
    let ghost mut m01: int = 0;
    let ghost mut m00: int = 1;
    proof {
        assert(w >= 0 && w == abs(c0 as int) * r1 + abs(c1 as int) * r0) by (nonlinear_arith)
            requires
                w == abs(o_c0) * o_r1 + abs(o_c1) * o_r0,
                o_r1 >= 0,
                o_r0 >= 0,
                r1 == o_r1,
                r0 == o_r0,
                c1 == o_c1,
                c0 == o_c0,
        ;
    }
    while r0 > bound as i128
        invariant
            bound >= 0,
            0 <= r0 <= r1,
            r1 as int == m11 * o_r1 + m10 * o_r0,
            r0 as int == m01 * o_r1 + m00 * o_r0,
            c1 as int == m11 * o_c1 + m10 * o_c0,
            c0 as int == m01 * o_c1 + m00 * o_c0,
            m11 * m00 - m10 * m01 == 1 || m11 * m00 - m10 * m01 == -1,
            c1 * c0 <= 0,
            abs(c0 as int) * r1 + abs(c1 as int) * r0 == w,
            w == abs(o_c0) * o_r1 + abs(o_c1) * o_r0,
            w <= (bound + 1) * i64::MAX,
            w >= 0,
            gcd_int(r1 as int, r0 as int) == gcd_int(o_r1, o_r0),
            (r1 == state.r1 && r0 == state.r0 && c1 == state.c1 && c0 == state.c0 && steps == 0)
                || (r1 > bound && steps >= 1),
            steps >= 1 ==> state.r0 > bound,
        decreases r0,
    {
        let qr = quot_u128(r1 as u128, r0 as u128, method);
        let q: i128 = qr.0 as i128;
        let r2: i128 = qr.1 as i128;
        proof {
            vstd::arithmetic::div_mod::lemma_fundamental_div_mod(r1 as int, r0 as int);
            lemma_cofactor_step(r1 as int, r0 as int, r2 as int, q as int, c1 as int, c0 as int,
                w);
            lemma_combo_step(o_r1, o_r0, q as int, m11, m01, m10, m00, r1 as int, r0 as int);
            lemma_combo_step(o_c1, o_c0, q as int, m11, m01, m10, m00, c1 as int, c0 as int);
            lemma_det_step(m11, m10, m01, m00, q as int, m11 * m00 - m10 * m01);
            // the fresh cofactor (and so the intermediate product) fits 64 bits
            assert(abs(c0 as int) * (r2 as int) >= 0) by (nonlinear_arith)
                requires
                    r2 >= 0,
                    abs(c0 as int) >= 0,
            ;
            assert(w <= (r0 as int) * (i64::MAX as int)) by (nonlinear_arith)
                requires
                    w <= (bound + 1) * i64::MAX,
                    r0 >= bound + 1,
                    bound >= 0,
            ;
            lemma_scale_bound(abs(c1 as int - q * c0) as int, r0 as int, w, i64::MAX as int);
            assert(gcd_int(r0 as int, r2 as int) == gcd_int(r1 as int, r0 as int)) by {
                assert(crate::arith::gcd_nat(r1 as nat, r0 as nat) == crate::arith::gcd_nat(
                    r0 as nat,
                    r2 as nat,
                ));
            }
        }
        let t_wide: i128 = (c1 as i128) - q * (c0 as i128);
        let t: i64 = t_wide as i64;
        r1 = r0;
        r0 = r2;
        c1 = c0;
        c0 = t;
        if steps < u64::MAX {
            steps = steps + 1;
        }
        proof {
            let n11 = m01;
            let n10 = m00;
            let n01 = m11 - q * m01;
            let n00 = m10 - q * m00;
            m11 = n11;
            m10 = n10;
            m01 = n01;
            m00 = n00;
        }
    }
    proof {
        assert(r1 as int == m11 * o_r1 + m10 * o_r0);
        assert(r0 as int == m01 * o_r1 + m00 * o_r0);
        assert(partial_ok(o_r1, o_r0, o_c1, o_c0, r1 as int, r0 as int, c1 as int, c0 as int,
            bound as int));
    }
    (steps, PartialXgcdI128 { r1, r0, c1, c0 })
}

/// Bounded 128-bit reduction with left-to-right binary steps; also
/// reports the number of reduction steps.
pub fn xgcd_shortpartial_binary_l2r_i128(state: PartialXgcdI128, bound: i64) -> (res: (
    u64,
    PartialXgcdI128,
))
    requires
        0 <= state.r0 <= state.r1,
        bound >= 0,
        state.c1 * state.c0 <= 0,
        abs(state.c0 as int) * state.r1 + abs(state.c1 as int) * state.r0 <= (bound + 1)
            * i64::MAX,
    ensures
        partial_ok(state.r1 as int, state.r0 as int, state.c1 as int, state.c0 as int,
            res.1.r1 as int, res.1.r0 as int, res.1.c1 as int, res.1.c0 as int, bound as int),
        res.0 == 0 <==> state.r0 <= bound,
{
    partial_core_i128(state, bound, QuotMethod::BinaryL2r)
}

/// Bounded 128-bit reduction with Brent-style doubling-chain steps.
pub fn xgcd_shortpartial_brent_i128(state: PartialXgcdI128, bound: i64) -> (res: PartialXgcdI128)
    requires
        0 <= state.r0 <= state.r1,
        bound >= 0,
        state.c1 * state.c0 <= 0,
        abs(state.c0 as int) * state.r1 + abs(state.c1 as int) * state.r0 <= (bound + 1)
            * i64::MAX,
    ensures
        partial_ok(state.r1 as int, state.r0 as int, state.c1 as int, state.c0 as int,
            res.r1 as int, res.r0 as int, res.c1 as int, res.c0 as int, bound as int),
{
    let (_, res) = partial_core_i128(state, bound, QuotMethod::Doubling);
    res
}

/// Bounded 128-bit reduction with classical division steps.
pub fn xgcd_shortpartial_divrem_i128(state: PartialXgcdI128, bound: i64) -> (res: PartialXgcdI128)
    requires
        0 <= state.r0 <= state.r1,
        bound >= 0,
        state.c1 * state.c0 <= 0,
        abs(state.c0 as int) * state.r1 + abs(state.c1 as int) * state.r0 <= (bound + 1)
            * i64::MAX,
    ensures
        partial_ok(state.r1 as int, state.r0 as int, state.c1 as int, state.c0 as int,
            res.r1 as int, res.r0 as int, res.c1 as int, res.c0 as int, bound as int),
{
    let (_, res) = partial_core_i128(state, bound, QuotMethod::Division);
    res
}

/// Bounded 128-bit reduction, Lehmer narrowing to 64-bit division.
pub fn xgcd_shortpartial_lehmer_i128_eea64(state: PartialXgcdI128, bound: i64) -> (res:
    PartialXgcdI128)
    requires
        0 <= state.r0 <= state.r1,
        bound >= 0,
        state.c1 * state.c0 <= 0,
        abs(state.c0 as int) * state.r1 + abs(state.c1 as int) * state.r0 <= (bound + 1)
            * i64::MAX,
    ensures
        partial_ok(state.r1 as int, state.r0 as int, state.c1 as int, state.c0 as int,
            res.r1 as int, res.r0 as int, res.c1 as int, res.c0 as int, bound as int),
{
    let (_, res) = partial_core_i128(state, bound, QuotMethod::Narrow64);
    res
}

/// Bounded 128-bit reduction, Lehmer narrowing to 64-bit doubling chains.
pub fn xgcd_shortpartial_lehmer_i128_brent64(state: PartialXgcdI128, bound: i64) -> (res:
    PartialXgcdI128)
    requires
        0 <= state.r0 <= state.r1,
        bound >= 0,
        state.c1 * state.c0 <= 0,
        abs(state.c0 as int) * state.r1 + abs(state.c1 as int) * state.r0 <= (bound + 1)
            * i64::MAX,
    ensures
        partial_ok(state.r1 as int, state.r0 as int, state.c1 as int, state.c0 as int,
            res.r1 as int, res.r0 as int, res.c1 as int, res.c0 as int, bound as int),
{
    let (_, res) = partial_core_i128(state, bound, QuotMethod::Narrow64Doubling);
    res
}

/// Bounded 128-bit reduction, Lehmer narrowing to 64-bit shifted
/// subtraction.
pub fn xgcd_shortpartial_lehmer_i128_l2r64(state: PartialXgcdI128, bound: i64) -> (res:
    PartialXgcdI128)
    requires
        0 <= state.r0 <= state.r1,
        bound >= 0,
        state.c1 * state.c0 <= 0,
        abs(state.c0 as int) * state.r1 + abs(state.c1 as int) * state.r0 <= (bound + 1)
            * i64::MAX,
    ensures
        partial_ok(state.r1 as int, state.r0 as int, state.c1 as int, state.c0 as int,
            res.r1 as int, res.r0 as int, res.c1 as int, res.c0 as int, bound as int),
{
    let (_, res) = partial_core_i128(state, bound, QuotMethod::Narrow64L2r);
    res
}

} // verus!
