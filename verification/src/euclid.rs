//! Extended Euclidean cores.
//!
//! One core per operand width computes `(g, s, t)` with
//! `g == gcd_nat(a, b)` and `s*a + t*b == g`.  The loop carries, besides the
//! two Bezout combinations, a sign-alternation fact and an exact identity
//! `|s1|*r0 + |s0|*r1 == b` (resp. `== a` for the `t` side), which bounds
//! every cofactor the loop ever stores by half of the corresponding input.
//! The final division step, whose discarded cofactor may not fit the width,
//! is never performed: the loop returns as soon as the remainder vanishes.

use vstd::prelude::*;
use vstd::arithmetic::div_mod::lemma_div_is_ordered_by_denominator;
use vstd::math::abs;

use crate::arith::gcd_nat;

verus! {

/// One Euclidean rotation step `(r0, r1) -> (r1, r2)` on a cofactor pair:
/// sign alternation and the exact cofactor identity are preserved, and the
/// freshly produced cofactor (with all intermediate products) stays within
/// half of the identity constant `w` while the remainder is nonzero.
pub proof fn lemma_cofactor_step(r0: int, r1: int, r2: int, q: int, c0: int, c1: int, w: int)
    requires
        r0 >= 1,
        r1 >= 1,
        0 <= r2 < r1,
        r2 == r0 - q * r1,
        q >= 0,
        c0 * c1 <= 0,
        abs(c1) * r0 + abs(c0) * r1 == w,
    ensures
        c1 * (c0 - q * c1) <= 0,
        abs(c0 - q * c1) == abs(c0) + q * abs(c1),
        abs(c0 - q * c1) * r1 + abs(c1) * r2 == w,
        abs(q * c1) == q * abs(c1),
        abs(q * c1) <= abs(c0 - q * c1),
        r2 >= 1 ==> 2 * abs(c0 - q * c1) <= w,
{
    let a0 = abs(c0) as int;
    let a1 = abs(c1) as int;
    let c2 = c0 - q * c1;
    assert((if c2 < 0 { -c2 } else { c2 }) == a0 + q * a1 && c1 * c2 <= 0 && (if q * c1 < 0 {
        -(q * c1)
    } else {
        q * c1
    }) == q * a1) by (nonlinear_arith)
        requires
            c0 * c1 <= 0,
            q >= 0,
            c2 == c0 - q * c1,
            (c0 >= 0 ==> a0 == c0) && (c0 < 0 ==> a0 == -c0),
            (c1 >= 0 ==> a1 == c1) && (c1 < 0 ==> a1 == -c1),
    ;
    assert(abs(c2) == a0 + q * a1);
    assert((a0 + q * a1) * r1 + a1 * r2 == w) by (nonlinear_arith)
        requires
            r2 == r0 - q * r1,
            a1 * r0 + a0 * r1 == w,
    ;
    if r2 >= 1 {
        assert(2 * (a0 + q * a1) <= w) by (nonlinear_arith)
            requires
                (a0 + q * a1) * r1 + a1 * r2 == w,
                r1 >= 2,
                r2 >= 0,
                a0 >= 0,
                a1 >= 0,
                q >= 0,
        ;
    }
}

/// The two Bezout combinations follow the remainders through a step.
pub proof fn lemma_combo_step(
    a: int,
    b: int,
    q: int,
    s0: int,
    s1: int,
    t0: int,
    t1: int,
    r0: int,
    r1: int,
)
    requires
        s0 * a + t0 * b == r0,
        s1 * a + t1 * b == r1,
    ensures
        (s0 - q * s1) * a + (t0 - q * t1) * b == r0 - q * r1,
{
    assert((s0 - q * s1) * a + (t0 - q * t1) * b == r0 - q * r1) by (nonlinear_arith)
        requires
            s0 * a + t0 * b == r0,
            s1 * a + t1 * b == r1,
    ;
}

/// How one Euclidean quotient is obtained inside the extended cores.
/// The reduction is the same; the kernels differ only here.
#[derive(Clone, Copy)]
pub(crate) enum QuotMethod {
    /// The machine division instruction.
    Division,
    /// Most-significant-bit-first shifted subtraction.
    BinaryL2r,
    /// Repeated largest power-of-two multiple subtraction.
    Doubling,
    /// Hardware division in 16-bit precision once both remainders fit.
    Narrow16,
    /// Hardware division in 32-bit precision once both remainders fit.
    Narrow32,
    /// Hardware division in 64-bit precision once both remainders fit.
    Narrow64,
    /// Shifted subtraction in 64-bit precision once both remainders fit.
    Narrow64L2r,
    /// Doubling-chain quotients in 64-bit precision once both remainders
    /// fit.
    Narrow64Doubling,
    /// At most the given number of plain subtractions, falling back to
    /// division when the quotient is larger.
    SmallQ(u64),
}


/// Quotient and remainder for one Euclidean step over `u64`, by the
/// requested method.  Every method returns the exact pair.
pub(crate) fn quot_u64(r0: u64, r1: u64, method: QuotMethod) -> (qr: (u64, u64))
    requires
        r1 >= 1,
    ensures
        qr.0 == r0 as int / r1 as int,
        qr.1 == r0 as int % r1 as int,
{
    match method {
        QuotMethod::BinaryL2r => crate::reduce::divrem_l2r_u64(r0, r1),
        QuotMethod::Doubling => crate::reduce::divrem_doubling_u64(r0, r1),
        QuotMethod::Narrow32 => {
            if r0 <= u32::MAX as u64 && r1 <= u32::MAX as u64 {
                let q: u32 = (r0 as u32) / (r1 as u32);
                let r: u32 = (r0 as u32) % (r1 as u32);
                (q as u64, r as u64)
            } else {
                (r0 / r1, r0 % r1)
            }
        },
        QuotMethod::SmallQ(cap) => {
            let mut r: u64 = r0;
            let mut q: u64 = 0;
            while r >= r1 && q < cap
                invariant
                    r1 >= 1,
                    q * r1 + r == r0,
                    q <= cap,
                decreases r,
            {
                proof {
                    assert((q + 1) * r1 + (r - r1) == q * r1 + r) by (nonlinear_arith);
                }
                r = r - r1;
                q = q + 1;
            }
            if r >= r1 {
                (r0 / r1, r0 % r1)
            } else {
                proof {
                    crate::arith::lemma_div_mod_unique(r0 as int, r1 as int, q as int, r as int);
                }
                (q, r)
            }
        },
        _ => (r0 / r1, r0 % r1),
    }
}

/// The extended-Euclid main loop over `u64`, entered on a valid
/// intermediate state; see the invariants in `requires`.
pub(crate) fn xgcd_loop_u64(
    a: u64,
    b: u64,
    r0: u64,
    r1: u64,
    s0: i64,
    s1: i64,
    t0: i64,
    t1: i64,
    method: QuotMethod,
) -> (res: (u64, i64, i64))
    requires
        1 <= r0,
        1 <= r1,
        s0 * a + t0 * b == r0,
        s1 * a + t1 * b == r1,
        s0 * s1 <= 0,
        t0 * t1 <= 0,
        abs(s1 as int) * r0 + abs(s0 as int) * r1 == b,
        abs(t1 as int) * r0 + abs(t0 as int) * r1 == a,
        abs(s1 as int) <= 1 || 2 * abs(s1 as int) <= b,
        abs(t1 as int) <= 1 || 2 * abs(t1 as int) <= a,
        gcd_nat(r0 as nat, r1 as nat) == gcd_nat(a as nat, b as nat),
    ensures
        res.0 == gcd_nat(a as nat, b as nat),
        res.1 * a + res.2 * b == res.0,
        abs(res.1 as int) <= 1 || 2 * abs(res.1 as int) <= b,
        abs(res.2 as int) <= 1 || 2 * abs(res.2 as int) <= a,
{
    let mut r0 = r0;
    let mut r1 = r1;
    let mut s0 = s0;
    let mut s1 = s1;
    let mut t0 = t0;
    let mut t1 = t1;
    loop
        invariant
            1 <= r0,
            1 <= r1,
            s0 * a + t0 * b == r0,
            s1 * a + t1 * b == r1,
            s0 * s1 <= 0,
            t0 * t1 <= 0,
            abs(s1 as int) * r0 + abs(s0 as int) * r1 == b,
            abs(t1 as int) * r0 + abs(t0 as int) * r1 == a,
            abs(s1 as int) <= 1 || 2 * abs(s1 as int) <= b,
            abs(t1 as int) <= 1 || 2 * abs(t1 as int) <= a,
            gcd_nat(r0 as nat, r1 as nat) == gcd_nat(a as nat, b as nat),
        decreases r1,
    {
        let qr = quot_u64(r0, r1, method);
        let q = qr.0;
        let r2 = qr.1;
        proof {
            vstd::arithmetic::div_mod::lemma_fundamental_div_mod(r0 as int, r1 as int);
        }
        if r2 == 0 {
            proof {
                assert(gcd_nat(r0 as nat, r1 as nat) == gcd_nat(r1 as nat, 0));
            }
            return (r1, s1, t1);
        }
        proof {
            lemma_combo_step(a as int, b as int, q as int, s0 as int, s1 as int, t0 as int,
                t1 as int, r0 as int, r1 as int);
            lemma_cofactor_step(r0 as int, r1 as int, r2 as int, q as int, s0 as int, s1 as int,
                b as int);
            lemma_cofactor_step(r0 as int, r1 as int, r2 as int, q as int, t0 as int, t1 as int,
                a as int);
            lemma_div_is_ordered_by_denominator(r0 as int, 2, r1 as int);
            assert(gcd_nat(r0 as nat, r1 as nat) == gcd_nat(r1 as nat, r2 as nat));
        }
        let qi = q as i64;
        let s2 = s0 - qi * s1;
        let t2 = t0 - qi * t1;
        r0 = r1;
        r1 = r2;
        s0 = s1;
        s1 = s2;
        t0 = t1;
        t1 = t2;
    }
}

/// Extended Euclid over `u64`, with `i64` cofactors.
///
/// Convention: `xgcd(a, 0) == (a, 1, 0)` (hence `xgcd(0, 0) == (0, 1, 0)`)
/// and `xgcd(0, b) == (b, 0, 1)`.
pub(crate) fn xgcd_u64(a: u64, b: u64, method: QuotMethod) -> (res: (u64, i64, i64))
    ensures
        res.0 == gcd_nat(a as nat, b as nat),
        res.1 * a + res.2 * b == res.0,
        abs(res.1 as int) <= 1 || 2 * abs(res.1 as int) <= b,
        abs(res.2 as int) <= 1 || 2 * abs(res.2 as int) <= a,
{
    if b == 0 {
        return (a, 1, 0);
    }
    if a == 0 {
        proof {
            assert(gcd_nat(a as nat, b as nat) == gcd_nat(b as nat, 0));
        }
        return (b, 0, 1);
    }
    xgcd_loop_u64(a, b, a, b, 1, 0, 0, 1, method)
}

/// Quotient and remainder for one Euclidean step over `u32`, by the
/// requested method.  Every method returns the exact pair.
pub(crate) fn quot_u32(r0: u32, r1: u32, method: QuotMethod) -> (qr: (u32, u32))
    requires
        r1 >= 1,
    ensures
        qr.0 == r0 as int / r1 as int,
        qr.1 == r0 as int % r1 as int,
{
    match method {
        QuotMethod::BinaryL2r => crate::reduce::divrem_l2r_u32(r0, r1),
        QuotMethod::Doubling => crate::reduce::divrem_doubling_u32(r0, r1),
        QuotMethod::Narrow16 => {
            if r0 <= u16::MAX as u32 && r1 <= u16::MAX as u32 {
                let q: u16 = (r0 as u16) / (r1 as u16);
                let r: u16 = (r0 as u16) % (r1 as u16);
                (q as u32, r as u32)
            } else {
                (r0 / r1, r0 % r1)
            }
        },
        QuotMethod::SmallQ(cap) => {
            let mut r: u32 = r0;
            let mut q: u32 = 0;
            while r >= r1 && (q as u64) < cap
                invariant
                    r1 >= 1,
                    q * r1 + r == r0,
                    q <= cap,
                decreases r,
            {
                proof {
                    assert((q + 1) * r1 + (r - r1) == q * r1 + r) by (nonlinear_arith);
                    assert(q + 1 <= r0) by (nonlinear_arith)
                        requires
                            (q + 1) * r1 + (r - r1) == r0,
                            r1 >= 1,
                            r >= r1,
                    ;
                }
                r = r - r1;
                q = q + 1;
            }
            if r >= r1 {
                (r0 / r1, r0 % r1)
            } else {
                proof {
                    crate::arith::lemma_div_mod_unique(r0 as int, r1 as int, q as int, r as int);
                }
                (q, r)
            }
        },
        _ => (r0 / r1, r0 % r1),
    }
}

/// The extended-Euclid main loop over `u32`, entered on a valid
/// intermediate state; see the invariants in `requires`.
pub(crate) fn xgcd_loop_u32(
    a: u32,
    b: u32,
    r0: u32,
    r1: u32,
    s0: i32,
    s1: i32,
    t0: i32,
    t1: i32,
    method: QuotMethod,
) -> (res: (u32, i32, i32))
    requires
        1 <= r0,
        1 <= r1,
        s0 * a + t0 * b == r0,
        s1 * a + t1 * b == r1,
        s0 * s1 <= 0,
        t0 * t1 <= 0,
        abs(s1 as int) * r0 + abs(s0 as int) * r1 == b,
        abs(t1 as int) * r0 + abs(t0 as int) * r1 == a,
        abs(s1 as int) <= 1 || 2 * abs(s1 as int) <= b,
        abs(t1 as int) <= 1 || 2 * abs(t1 as int) <= a,
        gcd_nat(r0 as nat, r1 as nat) == gcd_nat(a as nat, b as nat),
    ensures
        res.0 == gcd_nat(a as nat, b as nat),
        res.1 * a + res.2 * b == res.0,
        abs(res.1 as int) <= 1 || 2 * abs(res.1 as int) <= b,
        abs(res.2 as int) <= 1 || 2 * abs(res.2 as int) <= a,
{
    let mut r0 = r0;
    let mut r1 = r1;
    let mut s0 = s0;
    let mut s1 = s1;
    let mut t0 = t0;
    let mut t1 = t1;
    loop
        invariant
            1 <= r0,
            1 <= r1,
            s0 * a + t0 * b == r0,
            s1 * a + t1 * b == r1,
            s0 * s1 <= 0,
            t0 * t1 <= 0,
            abs(s1 as int) * r0 + abs(s0 as int) * r1 == b,
            abs(t1 as int) * r0 + abs(t0 as int) * r1 == a,
            abs(s1 as int) <= 1 || 2 * abs(s1 as int) <= b,
            abs(t1 as int) <= 1 || 2 * abs(t1 as int) <= a,
            gcd_nat(r0 as nat, r1 as nat) == gcd_nat(a as nat, b as nat),
        decreases r1,
    {
        let qr = quot_u32(r0, r1, method);
        let q = qr.0;
        let r2 = qr.1;
        proof {
            vstd::arithmetic::div_mod::lemma_fundamental_div_mod(r0 as int, r1 as int);
        }
        if r2 == 0 {
            proof {
                assert(gcd_nat(r0 as nat, r1 as nat) == gcd_nat(r1 as nat, 0));
            }
            return (r1, s1, t1);
        }
        proof {
            lemma_combo_step(a as int, b as int, q as int, s0 as int, s1 as int, t0 as int,
                t1 as int, r0 as int, r1 as int);
            lemma_cofactor_step(r0 as int, r1 as int, r2 as int, q as int, s0 as int, s1 as int,
                b as int);
            lemma_cofactor_step(r0 as int, r1 as int, r2 as int, q as int, t0 as int, t1 as int,
                a as int);
            lemma_div_is_ordered_by_denominator(r0 as int, 2, r1 as int);
            assert(gcd_nat(r0 as nat, r1 as nat) == gcd_nat(r1 as nat, r2 as nat));
        }
        let qi = q as i32;
        let s2 = s0 - qi * s1;
        let t2 = t0 - qi * t1;
        r0 = r1;
        r1 = r2;
        s0 = s1;
        s1 = s2;
        t0 = t1;
        t1 = t2;
    }
}

/// Extended Euclid over `u32`, with `i32` cofactors.
///
/// Convention: `xgcd(a, 0) == (a, 1, 0)` (hence `xgcd(0, 0) == (0, 1, 0)`)
/// and `xgcd(0, b) == (b, 0, 1)`.
pub(crate) fn xgcd_u32(a: u32, b: u32, method: QuotMethod) -> (res: (u32, i32, i32))
    ensures
        res.0 == gcd_nat(a as nat, b as nat),
        res.1 * a + res.2 * b == res.0,
        abs(res.1 as int) <= 1 || 2 * abs(res.1 as int) <= b,
        abs(res.2 as int) <= 1 || 2 * abs(res.2 as int) <= a,
{
    if b == 0 {
        return (a, 1, 0);
    }
    if a == 0 {
        proof {
            assert(gcd_nat(a as nat, b as nat) == gcd_nat(b as nat, 0));
        }
        return (b, 0, 1);
    }
    xgcd_loop_u32(a, b, a, b, 1, 0, 0, 1, method)
}

/// Quotient and remainder for one Euclidean step over `u128`, by the
/// requested method.  Every method returns the exact pair.
pub(crate) fn quot_u128(r0: u128, r1: u128, method: QuotMethod) -> (qr: (u128, u128))
    requires
        r1 >= 1,
    ensures
        qr.0 == r0 as int / r1 as int,
        qr.1 == r0 as int % r1 as int,
{
    match method {
        QuotMethod::BinaryL2r => crate::reduce::divrem_l2r_u128(r0, r1),
        QuotMethod::Doubling => crate::reduce::divrem_doubling_u128(r0, r1),
        QuotMethod::Narrow32 => {
            if r0 <= u32::MAX as u128 && r1 <= u32::MAX as u128 {
                let q: u32 = (r0 as u32) / (r1 as u32);
                let r: u32 = (r0 as u32) % (r1 as u32);
                (q as u128, r as u128)
            } else {
                (r0 / r1, r0 % r1)
            }
        },
        QuotMethod::Narrow64 => {
            if r0 <= u64::MAX as u128 && r1 <= u64::MAX as u128 {
                let q: u64 = (r0 as u64) / (r1 as u64);
                let r: u64 = (r0 as u64) % (r1 as u64);
                (q as u128, r as u128)
            } else {
                (r0 / r1, r0 % r1)
            }
        },
        QuotMethod::Narrow64L2r => {
            if r0 <= u64::MAX as u128 && r1 <= u64::MAX as u128 {
                let qr = crate::reduce::divrem_l2r_u64(r0 as u64, r1 as u64);
                (qr.0 as u128, qr.1 as u128)
            } else {
                (r0 / r1, r0 % r1)
            }
        },
        QuotMethod::Narrow64Doubling => {
            if r0 <= u64::MAX as u128 && r1 <= u64::MAX as u128 {
                let qr = crate::reduce::divrem_doubling_u64(r0 as u64, r1 as u64);
                (qr.0 as u128, qr.1 as u128)
            } else {
                (r0 / r1, r0 % r1)
            }
        },
        QuotMethod::SmallQ(cap) => {
            let mut r: u128 = r0;
            let mut q: u128 = 0;
            while r >= r1 && (q as u128) < cap as u128
                invariant
                    r1 >= 1,
                    q * r1 + r == r0,
                    q <= cap,
                decreases r,
            {
                proof {
                    assert((q + 1) * r1 + (r - r1) == q * r1 + r) by (nonlinear_arith);
                }
                r = r - r1;
                q = q + 1;
            }
            if r >= r1 {
                (r0 / r1, r0 % r1)
            } else {
                proof {
                    crate::arith::lemma_div_mod_unique(r0 as int, r1 as int, q as int, r as int);
                }
                (q, r)
            }
        },
        _ => (r0 / r1, r0 % r1),
    }
}

/// The extended-Euclid main loop over `u128`, entered on a valid
/// intermediate state; see the invariants in `requires`.
pub(crate) fn xgcd_loop_u128(
    a: u128,
    b: u128,
    r0: u128,
    r1: u128,
    s0: i128,
    s1: i128,
    t0: i128,
    t1: i128,
    method: QuotMethod,
) -> (res: (u128, i128, i128))
    requires
        1 <= r0,
        1 <= r1,
        s0 * a + t0 * b == r0,
        s1 * a + t1 * b == r1,
        s0 * s1 <= 0,
        t0 * t1 <= 0,
        abs(s1 as int) * r0 + abs(s0 as int) * r1 == b,
        abs(t1 as int) * r0 + abs(t0 as int) * r1 == a,
        abs(s1 as int) <= 1 || 2 * abs(s1 as int) <= b,
        abs(t1 as int) <= 1 || 2 * abs(t1 as int) <= a,
        gcd_nat(r0 as nat, r1 as nat) == gcd_nat(a as nat, b as nat),
    ensures
        res.0 == gcd_nat(a as nat, b as nat),
        res.1 * a + res.2 * b == res.0,
        abs(res.1 as int) <= 1 || 2 * abs(res.1 as int) <= b,
        abs(res.2 as int) <= 1 || 2 * abs(res.2 as int) <= a,
{
    let mut r0 = r0;
    let mut r1 = r1;
    let mut s0 = s0;
    let mut s1 = s1;
    let mut t0 = t0;
    let mut t1 = t1;
    loop
        invariant
            1 <= r0,
            1 <= r1,
            s0 * a + t0 * b == r0,
            s1 * a + t1 * b == r1,
            s0 * s1 <= 0,
            t0 * t1 <= 0,
            abs(s1 as int) * r0 + abs(s0 as int) * r1 == b,
            abs(t1 as int) * r0 + abs(t0 as int) * r1 == a,
            abs(s1 as int) <= 1 || 2 * abs(s1 as int) <= b,
            abs(t1 as int) <= 1 || 2 * abs(t1 as int) <= a,
            gcd_nat(r0 as nat, r1 as nat) == gcd_nat(a as nat, b as nat),
        decreases r1,
    {
        let qr = quot_u128(r0, r1, method);
        let q = qr.0;
        let r2 = qr.1;
        proof {
            vstd::arithmetic::div_mod::lemma_fundamental_div_mod(r0 as int, r1 as int);
        }
        if r2 == 0 {
            proof {
                assert(gcd_nat(r0 as nat, r1 as nat) == gcd_nat(r1 as nat, 0));
            }
            return (r1, s1, t1);
        }
        proof {
            lemma_combo_step(a as int, b as int, q as int, s0 as int, s1 as int, t0 as int,
                t1 as int, r0 as int, r1 as int);
            lemma_cofactor_step(r0 as int, r1 as int, r2 as int, q as int, s0 as int, s1 as int,
                b as int);
            lemma_cofactor_step(r0 as int, r1 as int, r2 as int, q as int, t0 as int, t1 as int,
                a as int);
            lemma_div_is_ordered_by_denominator(r0 as int, 2, r1 as int);
            assert(gcd_nat(r0 as nat, r1 as nat) == gcd_nat(r1 as nat, r2 as nat));
        }
        let qi = q as i128;
        let s2 = s0 - qi * s1;
        let t2 = t0 - qi * t1;
        r0 = r1;
        r1 = r2;
        s0 = s1;
        s1 = s2;
        t0 = t1;
        t1 = t2;
    }
}

/// Extended Euclid over `u128`, with `i128` cofactors.
///
/// Convention: `xgcd(a, 0) == (a, 1, 0)` (hence `xgcd(0, 0) == (0, 1, 0)`)
/// and `xgcd(0, b) == (b, 0, 1)`.
pub(crate) fn xgcd_u128(a: u128, b: u128, method: QuotMethod) -> (res: (u128, i128, i128))
    ensures
        res.0 == gcd_nat(a as nat, b as nat),
        res.1 * a + res.2 * b == res.0,
        abs(res.1 as int) <= 1 || 2 * abs(res.1 as int) <= b,
        abs(res.2 as int) <= 1 || 2 * abs(res.2 as int) <= a,
{
    if b == 0 {
        return (a, 1, 0);
    }
    if a == 0 {
        proof {
            assert(gcd_nat(a as nat, b as nat) == gcd_nat(b as nat, 0));
        }
        return (b, 0, 1);
    }
    xgcd_loop_u128(a, b, a, b, 1, 0, 0, 1, method)
}
} // verus!
