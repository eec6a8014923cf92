//! Division-free quotient helpers and plain (coefficient-free) gcd
//! reductions, one family per operand width.
//!
//! The quotient helpers compute an exact Euclidean quotient/remainder pair
//! with shifted subtractions only; the gcd reductions implement the binary
//! (left-to-right and Stein), blocked-Stein and Shallit-style recurrences.

use vstd::prelude::*;
use vstd::arithmetic::power2::pow2;
use vstd::arithmetic::power2::lemma_pow2_unfold;
use vstd::arithmetic::power2::lemma_pow2_pos;

use crate::arith::{
    gcd_nat, lemma_gcd_nat_comm, lemma_gcd_nat_basics, lemma_gcd_nat_double_both,
    lemma_gcd_nat_halve_even, lemma_gcd_nat_sub, lemma_gcd_nat_sub_multiple,
    lemma_gcd_nat_zero_left, lemma_div_mod_unique,
};

verus! {

/// Quotient and remainder of `n / d`, most-significant-bit first: one
/// doubling chain aligns `d` under `n`, one halving chain subtracts.
pub fn divrem_l2r_u64(n: u64, d: u64) -> (qr: (u64, u64))
    requires
        d >= 1,
    ensures
        qr.0 == n as int / d as int,
        qr.1 == n as int % d as int,
{
    let mut q: u64 = 0;
    let mut r: u64 = n;
    let mut w: u64 = d;
    let mut p: u64 = 1;
    let ghost mut j: nat = 0;
    proof {
        assert(pow2(0) == 1) by {
            vstd::arithmetic::power2::lemma2_to64();
        }
    }
    while w <= r / 2
        invariant
            d >= 1,
            r == n,
            w == d * p,
            p == pow2(j),
            p >= 1,
            w >= 1,
        decreases n - w,
    {
        proof {
            lemma_pow2_unfold(j + 1);
            assert((d * p) * 2 == d * (p * 2)) by (nonlinear_arith);
            assert(p <= w) by (nonlinear_arith)
                requires
                    w == d * p,
                    d >= 1,
                    p >= 1,
            ;
        }
        w = w * 2;
        p = p * 2;
        proof {
            j = j + 1;
        }
    }
    loop
        invariant
            d >= 1,
            w == d * p,
            p == pow2(j),
            p >= 1,
            w >= 1,
            q * d + r == n,
            r < 2 * w,
        decreases p,
    {
        if r >= w {
            proof {
                assert((q + p) * d + (r - w) == n) by (nonlinear_arith)
                    requires
                        q * d + r == n,
                        w == d * p,
                ;
                assert(q + p <= n) by (nonlinear_arith)
                    requires
                        (q + p) * d + (r - w) == n,
                        d >= 1,
                        q >= 0,
                        p >= 1,
                        r >= w,
                ;
            }
            r = r - w;
            q = q + p;
        }
        if p == 1 {
            proof {
                assert(w == d * 1);
                assert(r < w);
                lemma_div_mod_unique(n as int, d as int, q as int, r as int);
            }
            return (q, r);
        }
        proof {
            assert(j >= 1) by {
                if j == 0 {
                    assert(pow2(0) == 1) by {
                        vstd::arithmetic::power2::lemma2_to64();
                    }
                }
            }
            lemma_pow2_unfold(j);
            lemma_pow2_pos((j - 1) as nat);
            assert((d * p) / 2 == d * (p / 2) && (d * p) % 2 == 0 && d * p >= 2)
                by (nonlinear_arith)
                requires
                    p % 2 == 0,
                    p >= 2,
                    d >= 1,
                    w == d * p,
            ;
        }
        w = w / 2;
        p = p / 2;
        proof {
            j = (j - 1) as nat;
        }
    }
}

/// Quotient and remainder of `n / d` by repeatedly subtracting the largest
/// power-of-two multiple of `d` that still fits under the remainder.
pub fn divrem_doubling_u64(n: u64, d: u64) -> (qr: (u64, u64))
    requires
        d >= 1,
    ensures
        qr.0 == n as int / d as int,
        qr.1 == n as int % d as int,
{
    let mut q: u64 = 0;
    let mut r: u64 = n;
    while r >= d
        invariant
            d >= 1,
            q * d + r == n,
        decreases r,
    {
        let mut w: u64 = d;
        let mut p: u64 = 1;
        while w <= r / 2
            invariant
                d >= 1,
                w == d * p,
                p >= 1,
                w <= r,
            decreases r - w,
        {
            proof {
                assert((d * p) * 2 == d * (p * 2)) by (nonlinear_arith);
                assert(p <= w) by (nonlinear_arith)
                    requires
                        w == d * p,
                        d >= 1,
                        p >= 1,
                ;
            }
            w = w * 2;
            p = p * 2;
        }
        proof {
            assert((q + p) * d + (r - w) == n) by (nonlinear_arith)
                requires
                    q * d + r == n,
                    w == d * p,
            ;
            assert(q + p <= n) by (nonlinear_arith)
                requires
                    (q + p) * d + (r - w) == n,
                    d >= 1,
                    q >= 0,
                    p >= 1,
                    r >= w,
            ;
        }
        r = r - w;
        q = q + p;
    }
    proof {
        lemma_div_mod_unique(n as int, d as int, q as int, r as int);
    }
    (q, r)
}

/// Left-to-right binary gcd: each round subtracts from the larger operand
/// the largest power-of-two multiple of the smaller that still fits.
pub fn gcd_binary_l2r_u64(a: u64, b: u64) -> (g: u64)
    ensures
        g == gcd_nat(a as nat, b as nat),
{
    if a == 0 {
        proof {
            lemma_gcd_nat_zero_left(b as nat);
        }
        return b;
    }
    if b == 0 {
        return a;
    }
    let mut u: u64 = a;
    let mut v: u64 = b;
    loop
        invariant
            u >= 1,
            v >= 1,
            gcd_nat(u as nat, v as nat) == gcd_nat(a as nat, b as nat),
        decreases u + v,
    {
        if u < v {
            proof {
                lemma_gcd_nat_comm(u as nat, v as nat);
            }
            let x: u64 = u;
            u = v;
            v = x;
        }
        let mut w: u64 = v;
        let mut p: u64 = 1;
        while w <= u / 2
            invariant
                v >= 1,
                p >= 1,
                w == v * p,
                w <= u,
                w >= 1,
            decreases u - w,
        {
            proof {
                assert((v * p) * 2 == v * (p * 2)) by (nonlinear_arith);
                assert(p <= w) by (nonlinear_arith)
                    requires
                        w == v * p,
                        v >= 1,
                        p >= 1,
                ;
            }
            w = w * 2;
            p = p * 2;
        }
        proof {
            lemma_gcd_nat_sub_multiple(u as nat, w as nat, v as nat, p as nat);
        }
        u = u - w;
        if u == 0 {
            proof {
                lemma_gcd_nat_zero_left(v as nat);
            }
            return v;
        }
    }
}

/// Stein's right-to-left binary gcd: strip common twos, keep both operands
/// odd, subtract, halve.
pub fn gcd_stein_u64(a: u64, b: u64) -> (g: u64)
    ensures
        g == gcd_nat(a as nat, b as nat),
{
    if a == 0 {
        proof {
            lemma_gcd_nat_zero_left(b as nat);
        }
        return b;
    }
    if b == 0 {
        return a;
    }
    proof {
        lemma_gcd_nat_basics(a as nat, b as nat);
    }
    let mut u: u64 = a;
    let mut v: u64 = b;
    // m carries the common power of two stripped from both operands
    let mut m: u64 = 1;
    while u % 2 == 0 && v % 2 == 0
        invariant
            u >= 1,
            v >= 1,
            m >= 1,
            m * gcd_nat(u as nat, v as nat) == gcd_nat(a as nat, b as nat),
            gcd_nat(a as nat, b as nat) <= a,
        decreases u,
    {
        proof {
            lemma_gcd_nat_double_both((u / 2) as nat, (v / 2) as nat);
            lemma_gcd_nat_basics((u / 2) as nat, (v / 2) as nat);
            assert((m * 2) * gcd_nat((u / 2) as nat, (v / 2) as nat) == m * (2 * gcd_nat(
                (u / 2) as nat,
                (v / 2) as nat,
            ))) by (nonlinear_arith);
            assert(m * 2 <= (m * 2) * gcd_nat((u / 2) as nat, (v / 2) as nat)) by (nonlinear_arith)
                requires
                    m >= 1,
                    gcd_nat((u / 2) as nat, (v / 2) as nat) >= 1,
            ;
        }
        u = u / 2;
        v = v / 2;
        m = m * 2;
    }
    while u % 2 == 0
        invariant
            u >= 1,
            v >= 1,
            m >= 1,
            u % 2 == 1 || v % 2 == 1,
            m * gcd_nat(u as nat, v as nat) == gcd_nat(a as nat, b as nat),
            gcd_nat(a as nat, b as nat) <= a,
        decreases u,
    {
        proof {
            lemma_gcd_nat_halve_even((u / 2) as nat, v as nat);
        }
        u = u / 2;
    }
    while v % 2 == 0
        invariant
            u >= 1,
            v >= 1,
            m >= 1,
            u % 2 == 1,
            m * gcd_nat(u as nat, v as nat) == gcd_nat(a as nat, b as nat),
            gcd_nat(a as nat, b as nat) <= a,
        decreases v,
    {
        proof {
            lemma_gcd_nat_comm(u as nat, v as nat);
            lemma_gcd_nat_halve_even((v / 2) as nat, u as nat);
            lemma_gcd_nat_comm((v / 2) as nat, u as nat);
        }
        v = v / 2;
    }
    loop
        invariant
            u >= 1,
            v >= 1,
            m >= 1,
            u % 2 == 1,
            v % 2 == 1,
            m * gcd_nat(u as nat, v as nat) == gcd_nat(a as nat, b as nat),
            gcd_nat(a as nat, b as nat) <= a,
        decreases u + v,
    {
        if u == v {
            proof {
                assert(u as nat % v as nat == 0) by {
                    vstd::arithmetic::div_mod::lemma_mod_self_0(v as int);
                }
                assert(gcd_nat(u as nat, v as nat) == gcd_nat(v as nat, 0));
                assert(v * m == m * v) by (nonlinear_arith);
                assert(v * m == m * gcd_nat(u as nat, v as nat));
            }
            return v * m;
        }
        let ghost sum0: int = u + v;
        if u > v {
            proof {
                lemma_gcd_nat_sub(u as nat, v as nat);
            }
            u = u - v;
            while u % 2 == 0
                invariant
                    u >= 1,
                    v >= 1,
                    m >= 1,
                    v % 2 == 1,
                    u + v < sum0,
                    m * gcd_nat(u as nat, v as nat) == gcd_nat(a as nat, b as nat),
                    gcd_nat(a as nat, b as nat) <= a,
                decreases u,
            {
                proof {
                    lemma_gcd_nat_halve_even((u / 2) as nat, v as nat);
                }
                u = u / 2;
            }
        } else {
            proof {
                lemma_gcd_nat_comm(u as nat, v as nat);
                lemma_gcd_nat_sub(v as nat, u as nat);
                lemma_gcd_nat_comm((v - u) as nat, u as nat);
            }
            v = v - u;
            while v % 2 == 0
                invariant
                    u >= 1,
                    v >= 1,
                    m >= 1,
                    u % 2 == 1,
                    u + v < sum0,
                    m * gcd_nat(u as nat, v as nat) == gcd_nat(a as nat, b as nat),
                    gcd_nat(a as nat, b as nat) <= a,
                decreases v,
            {
                proof {
                    lemma_gcd_nat_comm(u as nat, v as nat);
                    lemma_gcd_nat_halve_even((v / 2) as nat, u as nat);
                    lemma_gcd_nat_comm((v / 2) as nat, u as nat);
                }
                v = v / 2;
            }
        }
    }
}

/// Shallit-style subtractive binary gcd: twos are stripped eagerly from
/// whichever operand is even, one at a time, between subtractions.
pub fn gcd_shallit_u64(a: u64, b: u64) -> (g: u64)
    ensures
        g == gcd_nat(a as nat, b as nat),
{
    if a == 0 {
        proof {
            lemma_gcd_nat_zero_left(b as nat);
        }
        return b;
    }
    if b == 0 {
        return a;
    }
    proof {
        lemma_gcd_nat_basics(a as nat, b as nat);
    }
    let mut u: u64 = a;
    let mut v: u64 = b;
    let mut m: u64 = 1;
    loop
        invariant
            u >= 1,
            v >= 1,
            m >= 1,
            m * gcd_nat(u as nat, v as nat) == gcd_nat(a as nat, b as nat),
            gcd_nat(a as nat, b as nat) <= a,
        decreases u + v,
    {
        if u % 2 == 0 && v % 2 == 0 {
            proof {
                lemma_gcd_nat_double_both((u / 2) as nat, (v / 2) as nat);
                lemma_gcd_nat_basics((u / 2) as nat, (v / 2) as nat);
                assert((m * 2) * gcd_nat((u / 2) as nat, (v / 2) as nat) == m * (2 * gcd_nat(
                    (u / 2) as nat,
                    (v / 2) as nat,
                ))) by (nonlinear_arith);
                assert(m * 2 <= (m * 2) * gcd_nat((u / 2) as nat, (v / 2) as nat))
                    by (nonlinear_arith)
                    requires
                        m >= 1,
                        gcd_nat((u / 2) as nat, (v / 2) as nat) >= 1,
                ;
            }
            u = u / 2;
            v = v / 2;
            m = m * 2;
        } else if u % 2 == 0 {
            proof {
                lemma_gcd_nat_halve_even((u / 2) as nat, v as nat);
            }
            u = u / 2;
        } else if v % 2 == 0 {
            proof {
                lemma_gcd_nat_comm(u as nat, v as nat);
                lemma_gcd_nat_halve_even((v / 2) as nat, u as nat);
                lemma_gcd_nat_comm((v / 2) as nat, u as nat);
            }
            v = v / 2;
        } else if u == v {
            proof {
                assert(u as nat % v as nat == 0) by {
                    vstd::arithmetic::div_mod::lemma_mod_self_0(v as int);
                }
                assert(gcd_nat(u as nat, v as nat) == gcd_nat(v as nat, 0));
                assert(v * m == m * v) by (nonlinear_arith);
                assert(v * m == m * gcd_nat(u as nat, v as nat));
            }
            return v * m;
        } else if u > v {
            proof {
                lemma_gcd_nat_sub(u as nat, v as nat);
            }
            u = u - v;
        } else {
            proof {
                lemma_gcd_nat_comm(u as nat, v as nat);
                lemma_gcd_nat_sub(v as nat, u as nat);
                lemma_gcd_nat_comm((v - u) as nat, u as nat);
            }
            v = v - u;
        }
    }
}

/// Blocked Stein gcd: per round at most `block` factors of two are
/// stripped from the even operand before an odd-odd subtraction.
pub fn gcd_blockstein_u64(a: u64, b: u64, block: usize) -> (g: u64)
    requires
        block >= 1,
    ensures
        g == gcd_nat(a as nat, b as nat),
{
    if a == 0 {
        proof {
            lemma_gcd_nat_zero_left(b as nat);
        }
        return b;
    }
    if b == 0 {
        return a;
    }
    proof {
        lemma_gcd_nat_basics(a as nat, b as nat);
    }
    let mut u: u64 = a;
    let mut v: u64 = b;
    let mut m: u64 = 1;
    while u % 2 == 0 && v % 2 == 0
        invariant
            u >= 1,
            v >= 1,
            m >= 1,
            m * gcd_nat(u as nat, v as nat) == gcd_nat(a as nat, b as nat),
            gcd_nat(a as nat, b as nat) <= a,
        decreases u,
    {
        proof {
            lemma_gcd_nat_double_both((u / 2) as nat, (v / 2) as nat);
            lemma_gcd_nat_basics((u / 2) as nat, (v / 2) as nat);
            assert((m * 2) * gcd_nat((u / 2) as nat, (v / 2) as nat) == m * (2 * gcd_nat(
                (u / 2) as nat,
                (v / 2) as nat,
            ))) by (nonlinear_arith);
            assert(m * 2 <= (m * 2) * gcd_nat((u / 2) as nat, (v / 2) as nat)) by (nonlinear_arith)
                requires
                    m >= 1,
                    gcd_nat((u / 2) as nat, (v / 2) as nat) >= 1,
            ;
        }
        u = u / 2;
        v = v / 2;
        m = m * 2;
    }
    loop
        invariant
            u >= 1,
            v >= 1,
            m >= 1,
            block >= 1,
            u % 2 == 1 || v % 2 == 1,
            m * gcd_nat(u as nat, v as nat) == gcd_nat(a as nat, b as nat),
            gcd_nat(a as nat, b as nat) <= a,
        decreases u + v,
    {
        let ghost sum0: int = u + v;
        if u % 2 == 0 {
            proof {
                lemma_gcd_nat_halve_even((u / 2) as nat, v as nat);
            }
            u = u / 2;
            let mut i: usize = 1;
            while i < block && u % 2 == 0
                invariant
                    u >= 1,
                    v >= 1,
                    m >= 1,
                    v % 2 == 1,
                    u + v < sum0,
                    m * gcd_nat(u as nat, v as nat) == gcd_nat(a as nat, b as nat),
                decreases block - i,
            {
                proof {
                    lemma_gcd_nat_halve_even((u / 2) as nat, v as nat);
                }
                u = u / 2;
                i = i + 1;
            }
        } else if v % 2 == 0 {
            proof {
                lemma_gcd_nat_comm(u as nat, v as nat);
                lemma_gcd_nat_halve_even((v / 2) as nat, u as nat);
                lemma_gcd_nat_comm((v / 2) as nat, u as nat);
            }
            v = v / 2;
            let mut i: usize = 1;
            while i < block && v % 2 == 0
                invariant
                    u >= 1,
                    v >= 1,
                    m >= 1,
                    u % 2 == 1,
                    u + v < sum0,
                    m * gcd_nat(u as nat, v as nat) == gcd_nat(a as nat, b as nat),
                decreases block - i,
            {
                proof {
                    lemma_gcd_nat_comm(u as nat, v as nat);
                    lemma_gcd_nat_halve_even((v / 2) as nat, u as nat);
                    lemma_gcd_nat_comm((v / 2) as nat, u as nat);
                }
                v = v / 2;
                i = i + 1;
            }
        } else if u == v {
            proof {
                assert(u as nat % v as nat == 0) by {
                    vstd::arithmetic::div_mod::lemma_mod_self_0(v as int);
                }
                assert(gcd_nat(u as nat, v as nat) == gcd_nat(v as nat, 0));
                assert(v * m == m * v) by (nonlinear_arith);
                assert(v * m == m * gcd_nat(u as nat, v as nat));
            }
            return v * m;
        } else if u > v {
            proof {
                lemma_gcd_nat_sub(u as nat, v as nat);
            }
            u = u - v;
        } else {
            proof {
                lemma_gcd_nat_comm(u as nat, v as nat);
                lemma_gcd_nat_sub(v as nat, u as nat);
                lemma_gcd_nat_comm((v - u) as nat, u as nat);
            }
            v = v - u;
        }
    }
}

/// Quotient and remainder of `n / d`, most-significant-bit first: one
/// doubling chain aligns `d` under `n`, one halving chain subtracts.
pub fn divrem_l2r_u32(n: u32, d: u32) -> (qr: (u32, u32))
    requires
        d >= 1,
    ensures
        qr.0 == n as int / d as int,
        qr.1 == n as int % d as int,
{
    let mut q: u32 = 0;
    let mut r: u32 = n;
    let mut w: u32 = d;
    let mut p: u32 = 1;
    let ghost mut j: nat = 0;
    proof {
        assert(pow2(0) == 1) by {
            vstd::arithmetic::power2::lemma2_to64();
        }
    }
    while w <= r / 2
        invariant
            d >= 1,
            r == n,
            w == d * p,
            p == pow2(j),
            p >= 1,
            w >= 1,
        decreases n - w,
    {
        proof {
            lemma_pow2_unfold(j + 1);
            assert((d * p) * 2 == d * (p * 2)) by (nonlinear_arith);
            assert(p <= w) by (nonlinear_arith)
                requires
                    w == d * p,
                    d >= 1,
                    p >= 1,
            ;
        }
        w = w * 2;
        p = p * 2;
        proof {
            j = j + 1;
        }
    }
    loop
        invariant
            d >= 1,
            w == d * p,
            p == pow2(j),
            p >= 1,
            w >= 1,
            q * d + r == n,
            r < 2 * w,
        decreases p,
    {
        if r >= w {
            proof {
                assert((q + p) * d + (r - w) == n) by (nonlinear_arith)
                    requires
                        q * d + r == n,
                        w == d * p,
                ;
                assert(q + p <= n) by (nonlinear_arith)
                    requires
                        (q + p) * d + (r - w) == n,
                        d >= 1,
                        q >= 0,
                        p >= 1,
                        r >= w,
                ;
            }
            r = r - w;
            q = q + p;
        }
        if p == 1 {
            proof {
                assert(w == d * 1);
                assert(r < w);
                lemma_div_mod_unique(n as int, d as int, q as int, r as int);
            }
            return (q, r);
        }
        proof {
            assert(j >= 1) by {
                if j == 0 {
                    assert(pow2(0) == 1) by {
                        vstd::arithmetic::power2::lemma2_to64();
                    }
                }
            }
            lemma_pow2_unfold(j);
            lemma_pow2_pos((j - 1) as nat);
            assert((d * p) / 2 == d * (p / 2) && (d * p) % 2 == 0 && d * p >= 2)
                by (nonlinear_arith)
                requires
                    p % 2 == 0,
                    p >= 2,
                    d >= 1,
                    w == d * p,
            ;
        }
        w = w / 2;
        p = p / 2;
        proof {
            j = (j - 1) as nat;
        }
    }
}

/// Quotient and remainder of `n / d` by repeatedly subtracting the largest
/// power-of-two multiple of `d` that still fits under the remainder.
pub fn divrem_doubling_u32(n: u32, d: u32) -> (qr: (u32, u32))
    requires
        d >= 1,
    ensures
        qr.0 == n as int / d as int,
        qr.1 == n as int % d as int,
{
    let mut q: u32 = 0;
    let mut r: u32 = n;
    while r >= d
        invariant
            d >= 1,
            q * d + r == n,
        decreases r,
    {
        let mut w: u32 = d;
        let mut p: u32 = 1;
        while w <= r / 2
            invariant
                d >= 1,
                w == d * p,
                p >= 1,
                w <= r,
            decreases r - w,
        {
            proof {
                assert((d * p) * 2 == d * (p * 2)) by (nonlinear_arith);
                assert(p <= w) by (nonlinear_arith)
                    requires
                        w == d * p,
                        d >= 1,
                        p >= 1,
                ;
            }
            w = w * 2;
            p = p * 2;
        }
        proof {
            assert((q + p) * d + (r - w) == n) by (nonlinear_arith)
                requires
                    q * d + r == n,
                    w == d * p,
            ;
            assert(q + p <= n) by (nonlinear_arith)
                requires
                    (q + p) * d + (r - w) == n,
                    d >= 1,
                    q >= 0,
                    p >= 1,
                    r >= w,
            ;
        }
        r = r - w;
        q = q + p;
    }
    proof {
        lemma_div_mod_unique(n as int, d as int, q as int, r as int);
    }
    (q, r)
}

/// Left-to-right binary gcd: each round subtracts from the larger operand
/// the largest power-of-two multiple of the smaller that still fits.
pub fn gcd_binary_l2r_u32(a: u32, b: u32) -> (g: u32)
    ensures
        g == gcd_nat(a as nat, b as nat),
{
    if a == 0 {
        proof {
            lemma_gcd_nat_zero_left(b as nat);
        }
        return b;
    }
    if b == 0 {
        return a;
    }
    let mut u: u32 = a;
    let mut v: u32 = b;
    loop
        invariant
            u >= 1,
            v >= 1,
            gcd_nat(u as nat, v as nat) == gcd_nat(a as nat, b as nat),
        decreases u + v,
    {
        if u < v {
            proof {
                lemma_gcd_nat_comm(u as nat, v as nat);
            }
            let x: u32 = u;
            u = v;
            v = x;
        }
        let mut w: u32 = v;
        let mut p: u32 = 1;
        while w <= u / 2
            invariant
                v >= 1,
                p >= 1,
                w == v * p,
                w <= u,
                w >= 1,
            decreases u - w,
        {
            proof {
                assert((v * p) * 2 == v * (p * 2)) by (nonlinear_arith);
                assert(p <= w) by (nonlinear_arith)
                    requires
                        w == v * p,
                        v >= 1,
                        p >= 1,
                ;
            }
            w = w * 2;
            p = p * 2;
        }
        proof {
            lemma_gcd_nat_sub_multiple(u as nat, w as nat, v as nat, p as nat);
        }
        u = u - w;
        if u == 0 {
            proof {
                lemma_gcd_nat_zero_left(v as nat);
            }
            return v;
        }
    }
}

/// Stein's right-to-left binary gcd: strip common twos, keep both operands
/// odd, subtract, halve.
pub fn gcd_stein_u32(a: u32, b: u32) -> (g: u32)
    ensures
        g == gcd_nat(a as nat, b as nat),
{
    if a == 0 {
        proof {
            lemma_gcd_nat_zero_left(b as nat);
        }
        return b;
    }
    if b == 0 {
        return a;
    }
    proof {
        lemma_gcd_nat_basics(a as nat, b as nat);
    }
    let mut u: u32 = a;
    let mut v: u32 = b;
    // m carries the common power of two stripped from both operands
    let mut m: u32 = 1;
    while u % 2 == 0 && v % 2 == 0
        invariant
            u >= 1,
            v >= 1,
            m >= 1,
            m * gcd_nat(u as nat, v as nat) == gcd_nat(a as nat, b as nat),
            gcd_nat(a as nat, b as nat) <= a,
        decreases u,
    {
        proof {
            lemma_gcd_nat_double_both((u / 2) as nat, (v / 2) as nat);
            lemma_gcd_nat_basics((u / 2) as nat, (v / 2) as nat);
            assert((m * 2) * gcd_nat((u / 2) as nat, (v / 2) as nat) == m * (2 * gcd_nat(
                (u / 2) as nat,
                (v / 2) as nat,
            ))) by (nonlinear_arith);
            assert(m * 2 <= (m * 2) * gcd_nat((u / 2) as nat, (v / 2) as nat)) by (nonlinear_arith)
                requires
                    m >= 1,
                    gcd_nat((u / 2) as nat, (v / 2) as nat) >= 1,
            ;
        }
        u = u / 2;
        v = v / 2;
        m = m * 2;
    }
    while u % 2 == 0
        invariant
            u >= 1,
            v >= 1,
            m >= 1,
            u % 2 == 1 || v % 2 == 1,
            m * gcd_nat(u as nat, v as nat) == gcd_nat(a as nat, b as nat),
            gcd_nat(a as nat, b as nat) <= a,
        decreases u,
    {
        proof {
            lemma_gcd_nat_halve_even((u / 2) as nat, v as nat);
        }
        u = u / 2;
    }
    while v % 2 == 0
        invariant
            u >= 1,
            v >= 1,
            m >= 1,
            u % 2 == 1,
            m * gcd_nat(u as nat, v as nat) == gcd_nat(a as nat, b as nat),
            gcd_nat(a as nat, b as nat) <= a,
        decreases v,
    {
        proof {
            lemma_gcd_nat_comm(u as nat, v as nat);
            lemma_gcd_nat_halve_even((v / 2) as nat, u as nat);
            lemma_gcd_nat_comm((v / 2) as nat, u as nat);
        }
        v = v / 2;
    }
    loop
        invariant
            u >= 1,
            v >= 1,
            m >= 1,
            u % 2 == 1,
            v % 2 == 1,
            m * gcd_nat(u as nat, v as nat) == gcd_nat(a as nat, b as nat),
            gcd_nat(a as nat, b as nat) <= a,
        decreases u + v,
    {
        if u == v {
            proof {
                assert(u as nat % v as nat == 0) by {
                    vstd::arithmetic::div_mod::lemma_mod_self_0(v as int);
                }
                assert(gcd_nat(u as nat, v as nat) == gcd_nat(v as nat, 0));
                assert(v * m == m * v) by (nonlinear_arith);
                assert(v * m == m * gcd_nat(u as nat, v as nat));
            }
            return v * m;
        }
        let ghost sum0: int = u + v;
        if u > v {
            proof {
                lemma_gcd_nat_sub(u as nat, v as nat);
            }
            u = u - v;
            while u % 2 == 0
                invariant
                    u >= 1,
                    v >= 1,
                    m >= 1,
                    v % 2 == 1,
                    u + v < sum0,
                    m * gcd_nat(u as nat, v as nat) == gcd_nat(a as nat, b as nat),
                    gcd_nat(a as nat, b as nat) <= a,
                decreases u,
            {
                proof {
                    lemma_gcd_nat_halve_even((u / 2) as nat, v as nat);
                }
                u = u / 2;
            }
        } else {
            proof {
                lemma_gcd_nat_comm(u as nat, v as nat);
                lemma_gcd_nat_sub(v as nat, u as nat);
                lemma_gcd_nat_comm((v - u) as nat, u as nat);
            }
            v = v - u;
            while v % 2 == 0
                invariant
                    u >= 1,
                    v >= 1,
                    m >= 1,
                    u % 2 == 1,
                    u + v < sum0,
                    m * gcd_nat(u as nat, v as nat) == gcd_nat(a as nat, b as nat),
                    gcd_nat(a as nat, b as nat) <= a,
                decreases v,
            {
                proof {
                    lemma_gcd_nat_comm(u as nat, v as nat);
                    lemma_gcd_nat_halve_even((v / 2) as nat, u as nat);
                    lemma_gcd_nat_comm((v / 2) as nat, u as nat);
                }
                v = v / 2;
            }
        }
    }
}

/// Shallit-style subtractive binary gcd: twos are stripped eagerly from
/// whichever operand is even, one at a time, between subtractions.
pub fn gcd_shallit_u32(a: u32, b: u32) -> (g: u32)
    ensures
        g == gcd_nat(a as nat, b as nat),
{
    if a == 0 {
        proof {
            lemma_gcd_nat_zero_left(b as nat);
        }
        return b;
    }
    if b == 0 {
        return a;
    }
    proof {
        lemma_gcd_nat_basics(a as nat, b as nat);
    }
    let mut u: u32 = a;
    let mut v: u32 = b;
    let mut m: u32 = 1;
    loop
        invariant
            u >= 1,
            v >= 1,
            m >= 1,
            m * gcd_nat(u as nat, v as nat) == gcd_nat(a as nat, b as nat),
            gcd_nat(a as nat, b as nat) <= a,
        decreases u + v,
    {
        if u % 2 == 0 && v % 2 == 0 {
            proof {
                lemma_gcd_nat_double_both((u / 2) as nat, (v / 2) as nat);
                lemma_gcd_nat_basics((u / 2) as nat, (v / 2) as nat);
                assert((m * 2) * gcd_nat((u / 2) as nat, (v / 2) as nat) == m * (2 * gcd_nat(
                    (u / 2) as nat,
                    (v / 2) as nat,
                ))) by (nonlinear_arith);
                assert(m * 2 <= (m * 2) * gcd_nat((u / 2) as nat, (v / 2) as nat))
                    by (nonlinear_arith)
                    requires
                        m >= 1,
                        gcd_nat((u / 2) as nat, (v / 2) as nat) >= 1,
                ;
            }
            u = u / 2;
            v = v / 2;
            m = m * 2;
        } else if u % 2 == 0 {
            proof {
                lemma_gcd_nat_halve_even((u / 2) as nat, v as nat);
            }
            u = u / 2;
        } else if v % 2 == 0 {
            proof {
                lemma_gcd_nat_comm(u as nat, v as nat);
                lemma_gcd_nat_halve_even((v / 2) as nat, u as nat);
                lemma_gcd_nat_comm((v / 2) as nat, u as nat);
            }
            v = v / 2;
        } else if u == v {
            proof {
                assert(u as nat % v as nat == 0) by {
                    vstd::arithmetic::div_mod::lemma_mod_self_0(v as int);
                }
                assert(gcd_nat(u as nat, v as nat) == gcd_nat(v as nat, 0));
                assert(v * m == m * v) by (nonlinear_arith);
                assert(v * m == m * gcd_nat(u as nat, v as nat));
            }
            return v * m;
        } else if u > v {
            proof {
                lemma_gcd_nat_sub(u as nat, v as nat);
            }
            u = u - v;
        } else {
            proof {
                lemma_gcd_nat_comm(u as nat, v as nat);
                lemma_gcd_nat_sub(v as nat, u as nat);
                lemma_gcd_nat_comm((v - u) as nat, u as nat);
            }
            v = v - u;
        }
    }
}

/// Blocked Stein gcd: per round at most `block` factors of two are
/// stripped from the even operand before an odd-odd subtraction.
pub fn gcd_blockstein_u32(a: u32, b: u32, block: usize) -> (g: u32)
    requires
        block >= 1,
    ensures
        g == gcd_nat(a as nat, b as nat),
{
    if a == 0 {
        proof {
            lemma_gcd_nat_zero_left(b as nat);
        }
        return b;
    }
    if b == 0 {
        return a;
    }
    proof {
        lemma_gcd_nat_basics(a as nat, b as nat);
    }
    let mut u: u32 = a;
    let mut v: u32 = b;
    let mut m: u32 = 1;
    while u % 2 == 0 && v % 2 == 0
        invariant
            u >= 1,
            v >= 1,
            m >= 1,
            m * gcd_nat(u as nat, v as nat) == gcd_nat(a as nat, b as nat),
            gcd_nat(a as nat, b as nat) <= a,
        decreases u,
    {
        proof {
            lemma_gcd_nat_double_both((u / 2) as nat, (v / 2) as nat);
            lemma_gcd_nat_basics((u / 2) as nat, (v / 2) as nat);
            assert((m * 2) * gcd_nat((u / 2) as nat, (v / 2) as nat) == m * (2 * gcd_nat(
                (u / 2) as nat,
                (v / 2) as nat,
            ))) by (nonlinear_arith);
            assert(m * 2 <= (m * 2) * gcd_nat((u / 2) as nat, (v / 2) as nat)) by (nonlinear_arith)
                requires
                    m >= 1,
                    gcd_nat((u / 2) as nat, (v / 2) as nat) >= 1,
            ;
        }
        u = u / 2;
        v = v / 2;
        m = m * 2;
    }
    loop
        invariant
            u >= 1,
            v >= 1,
            m >= 1,
            block >= 1,
            u % 2 == 1 || v % 2 == 1,
            m * gcd_nat(u as nat, v as nat) == gcd_nat(a as nat, b as nat),
            gcd_nat(a as nat, b as nat) <= a,
        decreases u + v,
    {
        let ghost sum0: int = u + v;
        if u % 2 == 0 {
            proof {
                lemma_gcd_nat_halve_even((u / 2) as nat, v as nat);
            }
            u = u / 2;
            let mut i: usize = 1;
            while i < block && u % 2 == 0
                invariant
                    u >= 1,
                    v >= 1,
                    m >= 1,
                    v % 2 == 1,
                    u + v < sum0,
                    m * gcd_nat(u as nat, v as nat) == gcd_nat(a as nat, b as nat),
                decreases block - i,
            {
                proof {
                    lemma_gcd_nat_halve_even((u / 2) as nat, v as nat);
                }
                u = u / 2;
                i = i + 1;
            }
        } else if v % 2 == 0 {
            proof {
                lemma_gcd_nat_comm(u as nat, v as nat);
                lemma_gcd_nat_halve_even((v / 2) as nat, u as nat);
                lemma_gcd_nat_comm((v / 2) as nat, u as nat);
            }
            v = v / 2;
            let mut i: usize = 1;
            while i < block && v % 2 == 0
                invariant
                    u >= 1,
                    v >= 1,
                    m >= 1,
                    u % 2 == 1,
                    u + v < sum0,
                    m * gcd_nat(u as nat, v as nat) == gcd_nat(a as nat, b as nat),
                decreases block - i,
            {
                proof {
                    lemma_gcd_nat_comm(u as nat, v as nat);
                    lemma_gcd_nat_halve_even((v / 2) as nat, u as nat);
                    lemma_gcd_nat_comm((v / 2) as nat, u as nat);
                }
                v = v / 2;
                i = i + 1;
            }
        } else if u == v {
            proof {
                assert(u as nat % v as nat == 0) by {
                    vstd::arithmetic::div_mod::lemma_mod_self_0(v as int);
                }
                assert(gcd_nat(u as nat, v as nat) == gcd_nat(v as nat, 0));
                assert(v * m == m * v) by (nonlinear_arith);
                assert(v * m == m * gcd_nat(u as nat, v as nat));
            }
            return v * m;
        } else if u > v {
            proof {
                lemma_gcd_nat_sub(u as nat, v as nat);
            }
            u = u - v;
        } else {
            proof {
                lemma_gcd_nat_comm(u as nat, v as nat);
                lemma_gcd_nat_sub(v as nat, u as nat);
                lemma_gcd_nat_comm((v - u) as nat, u as nat);
            }
            v = v - u;
        }
    }
}

/// Quotient and remainder of `n / d`, most-significant-bit first: one
/// doubling chain aligns `d` under `n`, one halving chain subtracts.
pub fn divrem_l2r_u128(n: u128, d: u128) -> (qr: (u128, u128))
    requires
        d >= 1,
    ensures
        qr.0 == n as int / d as int,
        qr.1 == n as int % d as int,
{
    let mut q: u128 = 0;
    let mut r: u128 = n;
    let mut w: u128 = d;
    let mut p: u128 = 1;
    let ghost mut j: nat = 0;
    proof {
        assert(pow2(0) == 1) by {
            vstd::arithmetic::power2::lemma2_to64();
        }
    }
    while w <= r / 2
        invariant
            d >= 1,
            r == n,
            w == d * p,
            p == pow2(j),
            p >= 1,
            w >= 1,
        decreases n - w,
    {
        proof {
            lemma_pow2_unfold(j + 1);
            assert((d * p) * 2 == d * (p * 2)) by (nonlinear_arith);
            assert(p <= w) by (nonlinear_arith)
                requires
                    w == d * p,
                    d >= 1,
                    p >= 1,
            ;
        }
        w = w * 2;
        p = p * 2;
        proof {
            j = j + 1;
        }
    }
    loop
        invariant
            d >= 1,
            w == d * p,
            p == pow2(j),
            p >= 1,
            w >= 1,
            q * d + r == n,
            r < 2 * w,
        decreases p,
    {
        if r >= w {
            proof {
                assert((q + p) * d + (r - w) == n) by (nonlinear_arith)
                    requires
                        q * d + r == n,
                        w == d * p,
                ;
                assert(q + p <= n) by (nonlinear_arith)
                    requires
                        (q + p) * d + (r - w) == n,
                        d >= 1,
                        q >= 0,
                        p >= 1,
                        r >= w,
                ;
            }
            r = r - w;
            q = q + p;
        }
        if p == 1 {
            proof {
                assert(w == d * 1);
                assert(r < w);
                lemma_div_mod_unique(n as int, d as int, q as int, r as int);
            }
            return (q, r);
        }
        proof {
            assert(j >= 1) by {
                if j == 0 {
                    assert(pow2(0) == 1) by {
                        vstd::arithmetic::power2::lemma2_to64();
                    }
                }
            }
            lemma_pow2_unfold(j);
            lemma_pow2_pos((j - 1) as nat);
            assert((d * p) / 2 == d * (p / 2) && (d * p) % 2 == 0 && d * p >= 2)
                by (nonlinear_arith)
                requires
                    p % 2 == 0,
                    p >= 2,
                    d >= 1,
                    w == d * p,
            ;
        }
        w = w / 2;
        p = p / 2;
        proof {
            j = (j - 1) as nat;
        }
    }
}

/// Quotient and remainder of `n / d` by repeatedly subtracting the largest
/// power-of-two multiple of `d` that still fits under the remainder.
pub fn divrem_doubling_u128(n: u128, d: u128) -> (qr: (u128, u128))
    requires
        d >= 1,
    ensures
        qr.0 == n as int / d as int,
        qr.1 == n as int % d as int,
{
    let mut q: u128 = 0;
    let mut r: u128 = n;
    while r >= d
        invariant
            d >= 1,
            q * d + r == n,
        decreases r,
    {
        let mut w: u128 = d;
        let mut p: u128 = 1;
        while w <= r / 2
            invariant
                d >= 1,
                w == d * p,
                p >= 1,
                w <= r,
            decreases r - w,
        {
            proof {
                assert((d * p) * 2 == d * (p * 2)) by (nonlinear_arith);
                assert(p <= w) by (nonlinear_arith)
                    requires
                        w == d * p,
                        d >= 1,
                        p >= 1,
                ;
            }
            w = w * 2;
            p = p * 2;
        }
        proof {
            assert((q + p) * d + (r - w) == n) by (nonlinear_arith)
                requires
                    q * d + r == n,
                    w == d * p,
            ;
            assert(q + p <= n) by (nonlinear_arith)
                requires
                    (q + p) * d + (r - w) == n,
                    d >= 1,
                    q >= 0,
                    p >= 1,
                    r >= w,
            ;
        }
        r = r - w;
        q = q + p;
    }
    proof {
        lemma_div_mod_unique(n as int, d as int, q as int, r as int);
    }
    (q, r)
}

/// Left-to-right binary gcd: each round subtracts from the larger operand
/// the largest power-of-two multiple of the smaller that still fits.
pub fn gcd_binary_l2r_u128(a: u128, b: u128) -> (g: u128)
    ensures
        g == gcd_nat(a as nat, b as nat),
{
    if a == 0 {
        proof {
            lemma_gcd_nat_zero_left(b as nat);
        }
        return b;
    }
    if b == 0 {
        return a;
    }
    let mut u: u128 = a;
    let mut v: u128 = b;
    loop
        invariant
            u >= 1,
            v >= 1,
            gcd_nat(u as nat, v as nat) == gcd_nat(a as nat, b as nat),
        decreases u + v,
    {
        if u < v {
            proof {
                lemma_gcd_nat_comm(u as nat, v as nat);
            }
            let x: u128 = u;
            u = v;
            v = x;
        }
        let mut w: u128 = v;
        let mut p: u128 = 1;
        while w <= u / 2
            invariant
                v >= 1,
                p >= 1,
                w == v * p,
                w <= u,
                w >= 1,
            decreases u - w,
        {
            proof {
                assert((v * p) * 2 == v * (p * 2)) by (nonlinear_arith);
                assert(p <= w) by (nonlinear_arith)
                    requires
                        w == v * p,
                        v >= 1,
                        p >= 1,
                ;
            }
            w = w * 2;
            p = p * 2;
        }
        proof {
            lemma_gcd_nat_sub_multiple(u as nat, w as nat, v as nat, p as nat);
        }
        u = u - w;
        if u == 0 {
            proof {
                lemma_gcd_nat_zero_left(v as nat);
            }
            return v;
        }
    }
}

/// Stein's right-to-left binary gcd: strip common twos, keep both operands
/// odd, subtract, halve.
pub fn gcd_stein_u128(a: u128, b: u128) -> (g: u128)
    ensures
        g == gcd_nat(a as nat, b as nat),
{
    if a == 0 {
        proof {
            lemma_gcd_nat_zero_left(b as nat);
        }
        return b;
    }
    if b == 0 {
        return a;
    }
    proof {
        lemma_gcd_nat_basics(a as nat, b as nat);
    }
    let mut u: u128 = a;
    let mut v: u128 = b;
    // m carries the common power of two stripped from both operands
    let mut m: u128 = 1;
    while u % 2 == 0 && v % 2 == 0
        invariant
            u >= 1,
            v >= 1,
            m >= 1,
            m * gcd_nat(u as nat, v as nat) == gcd_nat(a as nat, b as nat),
            gcd_nat(a as nat, b as nat) <= a,
        decreases u,
    {
        proof {
            lemma_gcd_nat_double_both((u / 2) as nat, (v / 2) as nat);
            lemma_gcd_nat_basics((u / 2) as nat, (v / 2) as nat);
            assert((m * 2) * gcd_nat((u / 2) as nat, (v / 2) as nat) == m * (2 * gcd_nat(
                (u / 2) as nat,
                (v / 2) as nat,
            ))) by (nonlinear_arith);
            assert(m * 2 <= (m * 2) * gcd_nat((u / 2) as nat, (v / 2) as nat)) by (nonlinear_arith)
                requires
                    m >= 1,
                    gcd_nat((u / 2) as nat, (v / 2) as nat) >= 1,
            ;
        }
        u = u / 2;
        v = v / 2;
        m = m * 2;
    }
    while u % 2 == 0
        invariant
            u >= 1,
            v >= 1,
            m >= 1,
            u % 2 == 1 || v % 2 == 1,
            m * gcd_nat(u as nat, v as nat) == gcd_nat(a as nat, b as nat),
            gcd_nat(a as nat, b as nat) <= a,
        decreases u,
    {
        proof {
            lemma_gcd_nat_halve_even((u / 2) as nat, v as nat);
        }
        u = u / 2;
    }
    while v % 2 == 0
        invariant
            u >= 1,
            v >= 1,
            m >= 1,
            u % 2 == 1,
            m * gcd_nat(u as nat, v as nat) == gcd_nat(a as nat, b as nat),
            gcd_nat(a as nat, b as nat) <= a,
        decreases v,
    {
        proof {
            lemma_gcd_nat_comm(u as nat, v as nat);
            lemma_gcd_nat_halve_even((v / 2) as nat, u as nat);
            lemma_gcd_nat_comm((v / 2) as nat, u as nat);
        }
        v = v / 2;
    }
    loop
        invariant
            u >= 1,
            v >= 1,
            m >= 1,
            u % 2 == 1,
            v % 2 == 1,
            m * gcd_nat(u as nat, v as nat) == gcd_nat(a as nat, b as nat),
            gcd_nat(a as nat, b as nat) <= a,
        decreases u + v,
    {
        if u == v {
            proof {
                assert(u as nat % v as nat == 0) by {
                    vstd::arithmetic::div_mod::lemma_mod_self_0(v as int);
                }
                assert(gcd_nat(u as nat, v as nat) == gcd_nat(v as nat, 0));
                assert(v * m == m * v) by (nonlinear_arith);
                assert(v * m == m * gcd_nat(u as nat, v as nat));
            }
            return v * m;
        }
        let ghost sum0: int = u + v;
        if u > v {
            proof {
                lemma_gcd_nat_sub(u as nat, v as nat);
            }
            u = u - v;
            while u % 2 == 0
                invariant
                    u >= 1,
                    v >= 1,
                    m >= 1,
                    v % 2 == 1,
                    u + v < sum0,
                    m * gcd_nat(u as nat, v as nat) == gcd_nat(a as nat, b as nat),
                    gcd_nat(a as nat, b as nat) <= a,
                decreases u,
            {
                proof {
                    lemma_gcd_nat_halve_even((u / 2) as nat, v as nat);
                }
                u = u / 2;
            }
        } else {
            proof {
                lemma_gcd_nat_comm(u as nat, v as nat);
                lemma_gcd_nat_sub(v as nat, u as nat);
                lemma_gcd_nat_comm((v - u) as nat, u as nat);
            }
            v = v - u;
            while v % 2 == 0
                invariant
                    u >= 1,
                    v >= 1,
                    m >= 1,
                    u % 2 == 1,
                    u + v < sum0,
                    m * gcd_nat(u as nat, v as nat) == gcd_nat(a as nat, b as nat),
                    gcd_nat(a as nat, b as nat) <= a,
                decreases v,
            {
                proof {
                    lemma_gcd_nat_comm(u as nat, v as nat);
                    lemma_gcd_nat_halve_even((v / 2) as nat, u as nat);
                    lemma_gcd_nat_comm((v / 2) as nat, u as nat);
                }
                v = v / 2;
            }
        }
    }
}

/// Shallit-style subtractive binary gcd: twos are stripped eagerly from
/// whichever operand is even, one at a time, between subtractions.
pub fn gcd_shallit_u128(a: u128, b: u128) -> (g: u128)
    ensures
        g == gcd_nat(a as nat, b as nat),
{
    if a == 0 {
        proof {
            lemma_gcd_nat_zero_left(b as nat);
        }
        return b;
    }
    if b == 0 {
        return a;
    }
    proof {
        lemma_gcd_nat_basics(a as nat, b as nat);
    }
    let mut u: u128 = a;
    let mut v: u128 = b;
    let mut m: u128 = 1;
    loop
        invariant
            u >= 1,
            v >= 1,
            m >= 1,
            m * gcd_nat(u as nat, v as nat) == gcd_nat(a as nat, b as nat),
            gcd_nat(a as nat, b as nat) <= a,
        decreases u + v,
    {
        if u % 2 == 0 && v % 2 == 0 {
            proof {
                lemma_gcd_nat_double_both((u / 2) as nat, (v / 2) as nat);
                lemma_gcd_nat_basics((u / 2) as nat, (v / 2) as nat);
                assert((m * 2) * gcd_nat((u / 2) as nat, (v / 2) as nat) == m * (2 * gcd_nat(
                    (u / 2) as nat,
                    (v / 2) as nat,
                ))) by (nonlinear_arith);
                assert(m * 2 <= (m * 2) * gcd_nat((u / 2) as nat, (v / 2) as nat))
                    by (nonlinear_arith)
                    requires
                        m >= 1,
                        gcd_nat((u / 2) as nat, (v / 2) as nat) >= 1,
                ;
            }
            u = u / 2;
            v = v / 2;
            m = m * 2;
        } else if u % 2 == 0 {
            proof {
                lemma_gcd_nat_halve_even((u / 2) as nat, v as nat);
            }
            u = u / 2;
        } else if v % 2 == 0 {
            proof {
                lemma_gcd_nat_comm(u as nat, v as nat);
                lemma_gcd_nat_halve_even((v / 2) as nat, u as nat);
                lemma_gcd_nat_comm((v / 2) as nat, u as nat);
            }
            v = v / 2;
        } else if u == v {
            proof {
                assert(u as nat % v as nat == 0) by {
                    vstd::arithmetic::div_mod::lemma_mod_self_0(v as int);
                }
                assert(gcd_nat(u as nat, v as nat) == gcd_nat(v as nat, 0));
                assert(v * m == m * v) by (nonlinear_arith);
                assert(v * m == m * gcd_nat(u as nat, v as nat));
            }
            return v * m;
        } else if u > v {
            proof {
                lemma_gcd_nat_sub(u as nat, v as nat);
            }
            u = u - v;
        } else {
            proof {
                lemma_gcd_nat_comm(u as nat, v as nat);
                lemma_gcd_nat_sub(v as nat, u as nat);
                lemma_gcd_nat_comm((v - u) as nat, u as nat);
            }
            v = v - u;
        }
    }
}

/// Blocked Stein gcd: per round at most `block` factors of two are
/// stripped from the even operand before an odd-odd subtraction.
pub fn gcd_blockstein_u128(a: u128, b: u128, block: usize) -> (g: u128)
    requires
        block >= 1,
    ensures
        g == gcd_nat(a as nat, b as nat),
{
    if a == 0 {
        proof {
            lemma_gcd_nat_zero_left(b as nat);
        }
        return b;
    }
    if b == 0 {
        return a;
    }
    proof {
        lemma_gcd_nat_basics(a as nat, b as nat);
    }
    let mut u: u128 = a;
    let mut v: u128 = b;
    let mut m: u128 = 1;
    while u % 2 == 0 && v % 2 == 0
        invariant
            u >= 1,
            v >= 1,
            m >= 1,
            m * gcd_nat(u as nat, v as nat) == gcd_nat(a as nat, b as nat),
            gcd_nat(a as nat, b as nat) <= a,
        decreases u,
    {
        proof {
            lemma_gcd_nat_double_both((u / 2) as nat, (v / 2) as nat);
            lemma_gcd_nat_basics((u / 2) as nat, (v / 2) as nat);
            assert((m * 2) * gcd_nat((u / 2) as nat, (v / 2) as nat) == m * (2 * gcd_nat(
                (u / 2) as nat,
                (v / 2) as nat,
            ))) by (nonlinear_arith);
            assert(m * 2 <= (m * 2) * gcd_nat((u / 2) as nat, (v / 2) as nat)) by (nonlinear_arith)
                requires
                    m >= 1,
                    gcd_nat((u / 2) as nat, (v / 2) as nat) >= 1,
            ;
        }
        u = u / 2;
        v = v / 2;
        m = m * 2;
    }
    loop
        invariant
            u >= 1,
            v >= 1,
            m >= 1,
            block >= 1,
            u % 2 == 1 || v % 2 == 1,
            m * gcd_nat(u as nat, v as nat) == gcd_nat(a as nat, b as nat),
            gcd_nat(a as nat, b as nat) <= a,
        decreases u + v,
    {
        let ghost sum0: int = u + v;
        if u % 2 == 0 {
            proof {
                lemma_gcd_nat_halve_even((u / 2) as nat, v as nat);
            }
            u = u / 2;
            let mut i: usize = 1;
            while i < block && u % 2 == 0
                invariant
                    u >= 1,
                    v >= 1,
                    m >= 1,
                    v % 2 == 1,
                    u + v < sum0,
                    m * gcd_nat(u as nat, v as nat) == gcd_nat(a as nat, b as nat),
                decreases block - i,
            {
                proof {
                    lemma_gcd_nat_halve_even((u / 2) as nat, v as nat);
                }
                u = u / 2;
                i = i + 1;
            }
        } else if v % 2 == 0 {
            proof {
                lemma_gcd_nat_comm(u as nat, v as nat);
                lemma_gcd_nat_halve_even((v / 2) as nat, u as nat);
                lemma_gcd_nat_comm((v / 2) as nat, u as nat);
            }
            v = v / 2;
            let mut i: usize = 1;
            while i < block && v % 2 == 0
                invariant
                    u >= 1,
                    v >= 1,
                    m >= 1,
                    u % 2 == 1,
                    u + v < sum0,
                    m * gcd_nat(u as nat, v as nat) == gcd_nat(a as nat, b as nat),
                decreases block - i,
            {
                proof {
                    lemma_gcd_nat_comm(u as nat, v as nat);
                    lemma_gcd_nat_halve_even((v / 2) as nat, u as nat);
                    lemma_gcd_nat_comm((v / 2) as nat, u as nat);
                }
                v = v / 2;
                i = i + 1;
            }
        } else if u == v {
            proof {
                assert(u as nat % v as nat == 0) by {
                    vstd::arithmetic::div_mod::lemma_mod_self_0(v as int);
                }
                assert(gcd_nat(u as nat, v as nat) == gcd_nat(v as nat, 0));
                assert(v * m == m * v) by (nonlinear_arith);
                assert(v * m == m * gcd_nat(u as nat, v as nat));
            }
            return v * m;
        } else if u > v {
            proof {
                lemma_gcd_nat_sub(u as nat, v as nat);
            }
            u = u - v;
        } else {
            proof {
                lemma_gcd_nat_comm(u as nat, v as nat);
                lemma_gcd_nat_sub(v as nat, u as nat);
                lemma_gcd_nat_comm((v - u) as nat, u as nat);
            }
            v = v - u;
        }
    }
}

} // verus!
