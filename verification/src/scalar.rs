//! Scalar division, square root and modular arithmetic helpers.

use vstd::prelude::*;
use vstd::math::abs;
use vstd::arithmetic::div_mod::{
    lemma_fundamental_div_mod, lemma_fundamental_div_mod_converse,
    lemma_mod_division_less_than_divisor,
};
use vstd::arithmetic::power::pow;

use crate::bits::{abs_i32, abs_i64};

verus! {

/// Truncating (round-toward-zero) integer quotient.
pub open spec fn trunc_div(n: int, d: int) -> int {
    if (n < 0) != (d < 0) {
        -((abs(n) / abs(d)) as int)
    } else {
        (abs(n) / abs(d)) as int
    }
}

/// The remainder paired with [`trunc_div`]: same sign as the dividend.
pub open spec fn trunc_rem(n: int, d: int) -> int {
    n - trunc_div(n, d) * d
}

/// Fold an unbounded integer into the 64-bit two's-complement range.
pub open spec fn wrap_to_i64(v: int) -> int {
    ((v + 0x8000_0000_0000_0000) % 0x1_0000_0000_0000_0000) - 0x8000_0000_0000_0000
}

/// The nonnegative residue of a signed value: `r == n mod m`, `0 <= r < m`.
fn emod_i64(n: i64, m: u64) -> (r: u64)
    requires
        m >= 1,
    ensures
        r == (n as int) % (m as int),
        r < m,
{
    if n >= 0 {
        (n as u64) % m
    } else {
        let k: u64 = (-(n as i128)) as u64;
        let xm: u64 = k % m;
        proof {
            lemma_fundamental_div_mod(k as int, m as int);
            let q = k as int / m as int;
            if xm == 0 {
                assert(n as int == (-q) * (m as int) + 0) by (nonlinear_arith)
                    requires
                        k as int == (m as int) * q + xm,
                        xm == 0,
                        n as int == -(k as int),
                ;
                lemma_fundamental_div_mod_converse(n as int, m as int, -q, 0);
            } else {
                assert(n as int == (-q - 1) * (m as int) + (m - xm)) by (nonlinear_arith)
                    requires
                        k as int == (m as int) * q + xm,
                        n as int == -(k as int),
                ;
                lemma_fundamental_div_mod_converse(n as int, m as int, -q - 1, m - xm);
            }
        }
        if xm == 0 {
            0
        } else {
            m - xm
        }
    }
}

/// The nonnegative residue of a signed 128-bit value modulo a 64-bit one.
fn emod_i128(n: i128, m: u64) -> (r: u64)
    requires
        m >= 1,
    ensures
        r == (n as int) % (m as int),
        r < m,
{
    if n >= 0 {
        ((n as u128) % (m as u128)) as u64
    } else {
        let k: u128 = if n == i128::MIN {
            0x8000_0000_0000_0000_0000_0000_0000_0000u128
        } else {
            (-n) as u128
        };
        let xm: u64 = (k % (m as u128)) as u64;
        proof {
            lemma_fundamental_div_mod(k as int, m as int);
            let q = k as int / m as int;
            if xm == 0 {
                assert(n as int == (-q) * (m as int) + 0) by (nonlinear_arith)
                    requires
                        k as int == (m as int) * q + xm,
                        xm == 0,
                        n as int == -(k as int),
                ;
                lemma_fundamental_div_mod_converse(n as int, m as int, -q, 0);
            } else {
                assert(n as int == (-q - 1) * (m as int) + (m - xm)) by (nonlinear_arith)
                    requires
                        k as int == (m as int) * q + xm,
                        n as int == -(k as int),
                ;
                lemma_fundamental_div_mod_converse(n as int, m as int, -q - 1, m - xm);
            }
        }
        if xm == 0 {
            0
        } else {
            m - xm
        }
    }
}

/// `(x + y) mod |m|`, canonical in `[0, |m|)`.
pub fn addmod_i32(x: i32, y: i32, m: i32) -> (r: i32)
    requires
        m != 0,
    ensures
        r == (x + y) % (abs(m as int) as int),
        0 <= r < abs(m as int),
{
    let mm: u64 = abs_i32(m) as u64;
    let s: i64 = x as i64 + y as i64;
    emod_i64(s, mm) as i32
}

/// `(x + y) mod |m|`, canonical in `[0, |m|)`.
pub fn addmod_i64(x: i64, y: i64, m: i64) -> (r: i64)
    requires
        m != 0,
    ensures
        r == (x + y) % (abs(m as int) as int),
        0 <= r < abs(m as int),
{
    let mm: u64 = abs_i64(m);
    let s: i128 = x as i128 + y as i128;
    emod_i128(s, mm) as i64
}

/// `(x - y) mod |m|`, canonical in `[0, |m|)`.
pub fn submod_i32(x: i32, y: i32, m: i32) -> (r: i32)
    requires
        m != 0,
    ensures
        r == (x - y) % (abs(m as int) as int),
        0 <= r < abs(m as int),
{
    let mm: u64 = abs_i32(m) as u64;
    let s: i64 = x as i64 - y as i64;
    emod_i64(s, mm) as i32
}

/// `(x - y) mod |m|`, canonical in `[0, |m|)`.
pub fn submod_i64(x: i64, y: i64, m: i64) -> (r: i64)
    requires
        m != 0,
    ensures
        r == (x - y) % (abs(m as int) as int),
        0 <= r < abs(m as int),
{
    let mm: u64 = abs_i64(m);
    let s: i128 = x as i128 - y as i128;
    emod_i128(s, mm) as i64
}

/// `(x * y) mod m`, canonical in `[0, m)`.
pub fn mulmod_u32(x: u32, y: u32, m: u32) -> (r: u32)
    requires
        m != 0,
    ensures
        r == (x * y) % (m as int),
        0 <= r < m,
{
    proof {
        assert(x as int * y as int <= 0xffff_ffff * 0xffff_ffff) by (nonlinear_arith)
            requires
                x <= 0xffff_ffffu32,
                y <= 0xffff_ffffu32,
        ;
    }
    let p: u64 = (x as u64) * (y as u64);
    (p % (m as u64)) as u32
}

/// `(x * y) mod m`, canonical in `[0, m)`.
pub fn mulmod_u64(x: u64, y: u64, m: u64) -> (r: u64)
    requires
        m != 0,
    ensures
        r == (x * y) % (m as int),
        0 <= r < m,
{
    proof {
        assert(x as int * y as int <= 0xffff_ffff_ffff_ffff * 0xffff_ffff_ffff_ffff)
            by (nonlinear_arith)
            requires
                x <= 0xffff_ffff_ffff_ffffu64,
                y <= 0xffff_ffff_ffff_ffffu64,
        ;
    }
    let p: u128 = (x as u128) * (y as u128);
    (p % (m as u128)) as u64
}

/// `(x * y) mod |m|`, canonical in `[0, |m|)`.
pub fn mulmod_i32(x: i32, y: i32, m: i32) -> (r: i32)
    requires
        m != 0,
    ensures
        r == (x * y) % (abs(m as int) as int),
        0 <= r < abs(m as int),
{
    let mm: u64 = abs_i32(m) as u64;
    proof {
        assert(-0x4000_0000_0000_0000 <= x as int * y as int <= 0x4000_0000_0000_0000)
            by (nonlinear_arith)
            requires
                -0x8000_0000 <= x <= 0x7fff_ffff,
                -0x8000_0000 <= y <= 0x7fff_ffff,
        ;
    }
    let p: i64 = (x as i64) * (y as i64);
    emod_i64(p, mm) as i32
}

/// `(x * y) mod |m|`, canonical in `[0, |m|)`.
pub fn mulmod_i64(x: i64, y: i64, m: i64) -> (r: i64)
    requires
        m != 0,
    ensures
        r == (x * y) % (abs(m as int) as int),
        0 <= r < abs(m as int),
{
    let mm: u64 = abs_i64(m);
    proof {
        assert(-0x4000_0000_0000_0000_0000_0000_0000_0000
            <= x as int * y as int
            <= 0x4000_0000_0000_0000_0000_0000_0000_0000) by (nonlinear_arith)
            requires
                -0x8000_0000_0000_0000 <= x <= 0x7fff_ffff_ffff_ffff,
                -0x8000_0000_0000_0000 <= y <= 0x7fff_ffff_ffff_ffff,
        ;
    }
    let p: i128 = (x as i128) * (y as i128);
    emod_i128(p, mm) as i64
}

/// Truncating quotient and remainder of unsigned words.
pub fn divrem_u32(n: u32, d: u32) -> (qr: (u32, u32))
    requires
        d != 0,
    ensures
        qr.0 == n as int / d as int,
        qr.1 == n as int % d as int,
{
    (n / d, n % d)
}

/// Truncating quotient and remainder of unsigned words.
pub fn divrem_u64(n: u64, d: u64) -> (qr: (u64, u64))
    requires
        d != 0,
    ensures
        qr.0 == n as int / d as int,
        qr.1 == n as int % d as int,
{
    (n / d, n % d)
}

/// Truncating quotient and remainder of signed words: `q*d + r == n`,
/// `|r| < |d|`, and the remainder takes the dividend's sign.
pub fn divrem_i32(n: i32, d: i32) -> (qr: (i32, i32))
    requires
        d != 0,
        !(n == i32::MIN && d == -1),
    ensures
        qr.0 == trunc_div(n as int, d as int),
        qr.0 * d + qr.1 == n,
        abs(qr.1 as int) < abs(d as int),
        n >= 0 ==> qr.1 >= 0,
        n <= 0 ==> qr.1 <= 0,
{
    let nm: u32 = abs_i32(n);
    let dm: u32 = abs_i32(d);
    let qm: u32 = nm / dm;
    let rm: u32 = nm % dm;
    let neg_q: bool = (n < 0) != (d < 0);
    proof {
        lemma_fundamental_div_mod(nm as int, dm as int);
        lemma_mod_division_less_than_divisor(nm as int, dm as int);
        vstd::arithmetic::div_mod::lemma_div_pos_is_pos(nm as int, dm as int);
        vstd::arithmetic::div_mod::lemma_div_nonincreasing(nm as int, dm as int);
        if !neg_q && n == i32::MIN {
            // both operands negative and the divisor is not -1, so dm >= 2
            vstd::arithmetic::div_mod::lemma_div_is_ordered_by_denominator(nm as int, 2,
                dm as int);
        }
    }
    let q: i32 = if neg_q {
        (-(qm as i64)) as i32
    } else {
        qm as i32
    };
    let r: i32 = if n < 0 {
        -(rm as i32)
    } else {
        rm as i32
    };
    proof {
        crate::arith::lemma_trunc_divrem(n as int, d as int, nm as int, dm as int, qm as int,
            rm as int, q as int, r as int);
    }
    (q, r)
}

/// Truncating quotient and remainder of signed words: `q*d + r == n`,
/// `|r| < |d|`, and the remainder takes the dividend's sign.
pub fn divrem_i64(n: i64, d: i64) -> (qr: (i64, i64))
    requires
        d != 0,
        !(n == i64::MIN && d == -1),
    ensures
        qr.0 == trunc_div(n as int, d as int),
        qr.0 * d + qr.1 == n,
        abs(qr.1 as int) < abs(d as int),
        n >= 0 ==> qr.1 >= 0,
        n <= 0 ==> qr.1 <= 0,
{
    let nm: u64 = abs_i64(n);
    let dm: u64 = abs_i64(d);
    let qm: u64 = nm / dm;
    let rm: u64 = nm % dm;
    let neg_q: bool = (n < 0) != (d < 0);
    proof {
        lemma_fundamental_div_mod(nm as int, dm as int);
        lemma_mod_division_less_than_divisor(nm as int, dm as int);
        vstd::arithmetic::div_mod::lemma_div_pos_is_pos(nm as int, dm as int);
        vstd::arithmetic::div_mod::lemma_div_nonincreasing(nm as int, dm as int);
        if !neg_q && n == i64::MIN {
            // both operands negative and the divisor is not -1, so dm >= 2
            vstd::arithmetic::div_mod::lemma_div_is_ordered_by_denominator(nm as int, 2,
                dm as int);
        }
    }
    let q: i64 = if neg_q {
        (-(qm as i128)) as i64
    } else {
        qm as i64
    };
    let r: i64 = if n < 0 {
        -(rm as i64)
    } else {
        rm as i64
    };
    proof {
        crate::arith::lemma_trunc_divrem(n as int, d as int, nm as int, dm as int, qm as int,
            rm as int, q as int, r as int);
    }
    (q, r)
}

/// Floor of the exact square root.
pub fn sqrt_u64(x: u64) -> (r: u64)
    ensures
        r * r <= x,
        (r + 1) * (r + 1) > x,
        r <= 0xffff_ffffu64,
{
    let mut lo: u64 = 0;
    let mut hi: u64 = if x >= 0xffff_ffffu64 {
        0xffff_ffffu64
    } else {
        x
    };
    proof {
        assert((hi + 1) * (hi + 1) > x) by (nonlinear_arith)
            requires
                hi == 0xffff_ffffu64 && x <= u64::MAX || hi == x && x < 0xffff_ffffu64,
        ;
    }
    while lo < hi
        invariant
            lo <= hi,
            hi <= 0xffff_ffffu64,
            lo * lo <= x,
            (hi + 1) * (hi + 1) > x,
        decreases hi - lo,
    {
        let mid: u64 = lo + (hi - lo + 1) / 2;
        proof {
            assert(mid as int * mid as int <= 0xffff_ffff * 0xffff_ffff) by (nonlinear_arith)
                requires
                    mid <= 0xffff_ffffu64,
            ;
        }
        let sq: u128 = (mid as u128) * (mid as u128);
        if sq <= x as u128 {
            lo = mid;
        } else {
            hi = mid - 1;
        }
    }
    lo
}

/// Floor of the exact square root.
pub fn sqrt_u32(x: u32) -> (r: u32)
    ensures
        r * r <= x,
        (r + 1) * (r + 1) > x,
{
    let r64 = sqrt_u64(x as u64);
    proof {
        assert(r64 < 0x1_0000) by (nonlinear_arith)
            requires
                r64 * r64 <= x,
                x < 0x1_0000_0000,
                r64 <= 0xffff_ffffu64,
        ;
    }
    r64 as u32
}

/// Whether `x` is a perfect square.
pub fn is_square_u64(x: u64) -> (r: bool)
    ensures
        r <==> exists|y: int| 0 <= y && #[trigger] (y * y) == x,
{
    let s = sqrt_u64(x);
    let sq: u128 = (s as u128) * (s as u128);
    let res = sq == x as u128;
    proof {
        if res {
            assert((s as int) * (s as int) == x);
        } else {
            assert forall|y: int| 0 <= y && #[trigger] (y * y) == x implies false by {
                if y <= s {
                    assert(y * y <= s * s) by (nonlinear_arith)
                        requires
                            0 <= y <= s,
                    ;
                } else {
                    assert(y * y >= (s + 1) * (s + 1)) by (nonlinear_arith)
                        requires
                            y >= s + 1,
                            s >= 0,
                    ;
                }
            }
        }
    }
    res
}

/// Whether `x` is a perfect square; negative values never are.
pub fn is_square_i64(x: i64) -> (r: bool)
    ensures
        r <==> exists|y: int| 0 <= y && #[trigger] (y * y) == x,
{
    if x < 0 {
        proof {
            assert forall|y: int| 0 <= y && #[trigger] (y * y) == x implies false by {
                assert(y * y >= 0) by (nonlinear_arith);
            }
        }
        false
    } else {
        is_square_u64(x as u64)
    }
}

/// `a^e mod m`, canonical in `[0, m)`; correct for exponent zero.
pub fn expmod_u64(a: u64, e: u64, m: u64) -> (r: u64)
    requires
        m != 0,
    ensures
        r == pow(a as int, e as nat) % (m as int),
        0 <= r < m,
{
    let mut base: u64 = a % m;
    let mut exp: u64 = e;
    let mut acc: u64 = 1 % m;
    proof {
        vstd::arithmetic::power::lemma_pow_mod_noop(a as int, e as nat, m as int);
        vstd::arithmetic::div_mod::lemma_mul_mod_noop_general(1, pow(base as int, exp as nat),
            m as int);
        vstd::arithmetic::div_mod::lemma_mod_twice(pow(base as int, exp as nat), m as int);
        assert((1int * pow(base as int, exp as nat)) == pow(base as int, exp as nat));
        vstd::arithmetic::div_mod::lemma_mod_division_less_than_divisor(1, m as int);
    }
    while exp > 0
        invariant
            m >= 1,
            acc < m,
            base < m,
            (acc * pow(base as int, exp as nat)) % (m as int) == pow(a as int, e as nat) % (
            m as int),
        decreases exp,
    {
        proof {
            lemma_square_multiply_step(acc as int, base as int, exp as nat, m as int, pow(
                a as int,
                e as nat,
            ));
        }
        proof {
            assert(acc as int * base as int <= 0xffff_ffff_ffff_ffff * 0xffff_ffff_ffff_ffff
                && base as int * base as int <= 0xffff_ffff_ffff_ffff * 0xffff_ffff_ffff_ffff)
                by (nonlinear_arith)
                requires
                    acc <= 0xffff_ffff_ffff_ffffu64,
                    base <= 0xffff_ffff_ffff_ffffu64,
            ;
        }
        if exp % 2 == 1 {
            acc = (((acc as u128) * (base as u128)) % (m as u128)) as u64;
        }
        base = (((base as u128) * (base as u128)) % (m as u128)) as u64;
        exp = exp / 2;
    }
    proof {
        vstd::arithmetic::power::lemma_pow0(base as int);
        assert(acc * pow(base as int, 0) == acc);
        vstd::arithmetic::div_mod::lemma_small_mod(acc as nat, m as nat);
    }
    acc
}

/// One square-and-multiply step preserves the accumulator relation.
proof fn lemma_square_multiply_step(acc: int, base: int, exp: nat, m: int, target: int)
    requires
        m >= 1,
        (acc * pow(base, exp)) % m == target % m,
        exp > 0,
    ensures
        exp % 2 == 1 ==> ((((acc * base) % m) * pow((base * base) % m, (exp / 2) as nat)) % m
            == target % m),
        exp % 2 == 0 ==> ((acc * pow((base * base) % m, (exp / 2) as nat)) % m == target % m),
{
    let h = (exp / 2) as nat;
    vstd::arithmetic::power::lemma_pow_multiplies(base, 2, h);
    vstd::arithmetic::power::lemma_pow_adds(base, 1, 1);
    vstd::arithmetic::power::lemma_pow1(base);
    assert(pow(base, 2) == base * base);
    vstd::arithmetic::power::lemma_pow_mod_noop(base * base, h, m);
    if exp % 2 == 1 {
        assert(exp == 2 * h + 1);
        vstd::arithmetic::power::lemma_pow_adds(base, (2 * h) as nat, 1);
        vstd::arithmetic::power::lemma_pow1(base);
        // acc * base^(2h+1) == (acc*base) * (base^2)^h
        assert(acc * pow(base, exp) == (acc * base) * pow(base * base, h)) by (nonlinear_arith)
            requires
                pow(base, exp) == pow(base, (2 * h) as nat) * pow(base, 1nat),
                pow(base, (2 * h) as nat) == pow(base * base, h),
                pow(base, 1nat) == base,
        ;
        vstd::arithmetic::div_mod::lemma_mul_mod_noop_general(acc * base, pow(base * base, h), m);
        vstd::arithmetic::div_mod::lemma_mul_mod_noop_general(
            acc * base,
            pow((base * base) % m, h),
            m,
        );
    } else {
        assert(exp == 2 * h);
        assert(acc * pow(base, exp) == acc * pow(base * base, h)) by (nonlinear_arith)
            requires
                pow(base, (2 * h) as nat) == pow(base * base, h),
                exp == 2 * h,
        ;
        vstd::arithmetic::div_mod::lemma_mul_mod_noop_general(acc, pow(base * base, h), m);
        vstd::arithmetic::div_mod::lemma_mul_mod_noop_general(acc, pow((base * base) % m, h), m);
    }
}

/// `n mod m` for an unsigned wide dividend and narrow modulus.
pub fn mod_u32_u64_u32(n: u64, m: u32) -> (r: u32)
    requires
        m != 0,
    ensures
        r == n as int % m as int,
        r < m,
{
    (n % (m as u64)) as u32
}

/// Canonical residue in `[0, m)` of a signed wide dividend; the modulus
/// must leave room for the result in the signed return type.
pub fn mod_i32_i64_u32(n: i64, m: u32) -> (r: i32)
    requires
        m != 0,
        m <= i32::MAX as u32,
    ensures
        r == n as int % m as int,
        0 <= r < m,
{
    emod_i64(n, m as u64) as i32
}

/// `f1*f2 + f3*f4` evaluated in 64 bits with wraparound.
pub fn muladdmul_i64_4i32(f1: i32, f2: i32, f3: i32, f4: i32) -> (r: i64)
    ensures
        r == wrap_to_i64(f1 * f2 + f3 * f4),
{
    proof {
        assert(-0x4000_0000_0000_0000 <= f1 as int * f2 as int <= 0x4000_0000_0000_0000
            && -0x4000_0000_0000_0000 <= f3 as int * f4 as int <= 0x4000_0000_0000_0000)
            by (nonlinear_arith)
            requires
                -0x8000_0000 <= f1 <= 0x7fff_ffff,
                -0x8000_0000 <= f2 <= 0x7fff_ffff,
                -0x8000_0000 <= f3 <= 0x7fff_ffff,
                -0x8000_0000 <= f4 <= 0x7fff_ffff,
        ;
    }
    let p1: i64 = (f1 as i64) * (f2 as i64);
    let p2: i64 = (f3 as i64) * (f4 as i64);
    let r = p1.wrapping_add(p2);
    proof {
        lemma_wrap_to_i64_agrees(p1 as int + p2 as int);
    }
    r
}

/// The vstd wrapping fold and [`wrap_to_i64`] agree on sums that exceed
/// the range by at most one fold.
proof fn lemma_wrap_to_i64_agrees(v: int)
    requires
        -0x1_0000_0000_0000_0000 < v < 0x1_0000_0000_0000_0000,
    ensures
        i64::MIN <= v <= i64::MAX ==> wrap_to_i64(v) == v,
        v > i64::MAX ==> wrap_to_i64(v) == v - 0x1_0000_0000_0000_0000,
        v < i64::MIN ==> wrap_to_i64(v) == v + 0x1_0000_0000_0000_0000,
{
    let w = 0x1_0000_0000_0000_0000int;
    let h = 0x8000_0000_0000_0000int;
    if i64::MIN <= v <= i64::MAX {
        vstd::arithmetic::div_mod::lemma_small_mod((v + h) as nat, w as nat);
    } else if v > i64::MAX {
        vstd::arithmetic::div_mod::lemma_mod_sub_multiples_vanish(v + h, w);
        vstd::arithmetic::div_mod::lemma_small_mod((v + h - w) as nat, w as nat);
        assert((v + h) % w == (v + h - w) % w);
    } else {
        vstd::arithmetic::div_mod::lemma_mod_add_multiples_vanish(v + h, w);
        vstd::arithmetic::div_mod::lemma_small_mod((v + h + w) as nat, w as nat);
        assert((v + h) % w == (v + h + w) % w);
    }
}

/// `(f1*f2 + f3*f4) / d` with the product sum taken exactly (128 bits),
/// the truncating quotient folded into 64 bits.
pub fn muladdmuldiv_i64(f1: i64, f2: i64, f3: i64, f4: i64, d: i64) -> (r: i64)
    requires
        d != 0,
        f1 * f2 + f3 * f4 <= 0x7fff_ffff_ffff_ffff_ffff_ffff_ffff_ffff,
    ensures
        r == wrap_to_i64(trunc_div(f1 * f2 + f3 * f4, d as int)),
{
    proof {
        assert(-0x4000_0000_0000_0000_0000_0000_0000_0000
            <= f1 as int * f2 as int
            <= 0x4000_0000_0000_0000_0000_0000_0000_0000
            && -0x4000_0000_0000_0000_0000_0000_0000_0000
            <= f3 as int * f4 as int
            <= 0x4000_0000_0000_0000_0000_0000_0000_0000) by (nonlinear_arith)
            requires
                -0x8000_0000_0000_0000 <= f1 <= 0x7fff_ffff_ffff_ffff,
                -0x8000_0000_0000_0000 <= f2 <= 0x7fff_ffff_ffff_ffff,
                -0x8000_0000_0000_0000 <= f3 <= 0x7fff_ffff_ffff_ffff,
                -0x8000_0000_0000_0000 <= f4 <= 0x7fff_ffff_ffff_ffff,
        ;
    }
    let p1: i128 = (f1 as i128) * (f2 as i128);
    let p2: i128 = (f3 as i128) * (f4 as i128);
    let n: i128 = p1 + p2;
    let nm: u128 = if n >= 0 {
        n as u128
    } else if n == i128::MIN {
        0x8000_0000_0000_0000_0000_0000_0000_0000u128
    } else {
        (-n) as u128
    };
    let dm: u128 = abs_i64(d) as u128;
    let qm: u128 = nm / dm;
    let neg: bool = (n < 0) != (d < 0);
    proof {
        lemma_fundamental_div_mod(nm as int, dm as int);
        lemma_mod_division_less_than_divisor(nm as int, dm as int);
        vstd::arithmetic::div_mod::lemma_div_pos_is_pos(nm as int, dm as int);
        crate::arith::lemma_trunc_divrem(n as int, d as int, nm as int, dm as int, qm as int,
            (nm % dm) as int, (if neg { -(qm as int) } else { qm as int }),
            (if n < 0 { -((nm % dm) as int) } else { (nm % dm) as int }));
    }
    wrap_magnitude_to_i64(qm, neg)
}

/// Fold the signed value `(-1)^neg * mag` into 64 bits, two's-complement
/// style.
fn wrap_magnitude_to_i64(mag: u128, neg: bool) -> (r: i64)
    ensures
        !neg ==> r == wrap_to_i64(mag as int),
        neg ==> r == wrap_to_i64(-(mag as int)),
{
    let wu: u128 = 0x1_0000_0000_0000_0000u128;
    let low: u64 = (mag % wu) as u64;
    let f: u64 = if neg {
        if low == 0 {
            0
        } else {
            ((wu - (low as u128)) as u64)
        }
    } else {
        low
    };
    let ghost v: int = if neg {
        -(mag as int)
    } else {
        mag as int
    };
    proof {
        let w = 0x1_0000_0000_0000_0000int;
        lemma_fundamental_div_mod(mag as int, w);
        let kk = mag as int / w;
        if neg {
            if low == 0 {
                assert(v == (-kk) * w + 0) by (nonlinear_arith)
                    requires
                        mag as int == w * kk + low,
                        low == 0,
                        v == -(mag as int),
                        w == 0x1_0000_0000_0000_0000,
                ;
                lemma_fundamental_div_mod_converse(v, w, -kk, 0);
            } else {
                assert(v == (-kk - 1) * w + (w - low)) by (nonlinear_arith)
                    requires
                        mag as int == w * kk + low,
                        v == -(mag as int),
                        w == 0x1_0000_0000_0000_0000,
                ;
                lemma_fundamental_div_mod_converse(v, w, -kk - 1, w - low);
            }
        } else {
            assert(v == kk * w + low) by (nonlinear_arith)
                requires
                    mag as int == w * kk + low,
                    v == mag as int,
            ;
            lemma_fundamental_div_mod_converse(v, w, kk, low as int);
        }
        assert(f == v % w);
        lemma_wrap_from_residue(v, f as int);
    }
    if f >= 0x8000_0000_0000_0000u64 {
        -((u64::MAX - f) as i64) - 1
    } else {
        f as i64
    }
}

/// [`wrap_to_i64`] read off the canonical residue modulo `2^64`.
proof fn lemma_wrap_from_residue(v: int, f: int)
    requires
        0 <= f < 0x1_0000_0000_0000_0000,
        f == v % 0x1_0000_0000_0000_0000,
    ensures
        wrap_to_i64(v) == (if f >= 0x8000_0000_0000_0000 {
            f - 0x1_0000_0000_0000_0000
        } else {
            f
        }),
{
    let w = 0x1_0000_0000_0000_0000int;
    let h = 0x8000_0000_0000_0000int;
    vstd::arithmetic::div_mod::lemma_add_mod_noop(v, h, w);
    vstd::arithmetic::div_mod::lemma_small_mod(h as nat, w as nat);
    vstd::arithmetic::div_mod::lemma_small_mod(f as nat, w as nat);
    if f >= h {
        vstd::arithmetic::div_mod::lemma_mod_sub_multiples_vanish(f + h, w);
        vstd::arithmetic::div_mod::lemma_small_mod((f + h - w) as nat, w as nat);
    } else {
        vstd::arithmetic::div_mod::lemma_small_mod((f + h) as nat, w as nat);
    }
}

} // verus!
