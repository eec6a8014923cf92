//! Software 128-bit arithmetic: the two-limb representation, its exact
//! conversions, wrapping add/sub/mul, shifts, division, square root, and
//! divisibility tests.
//!
//! A 128-bit value is carried as two 64-bit limbs, low limb unsigned and
//! high limb unsigned (`U128Parts`) or signed (`S128Parts`); the value is
//! `v1 * 2^64 + v0` in both cases.  The conversions to and from the native
//! 128-bit types are exact for every representable value.

use vstd::prelude::*;
use vstd::math::abs;
use vstd::arithmetic::div_mod::{
    lemma_fundamental_div_mod, lemma_fundamental_div_mod_converse,
    lemma_mod_division_less_than_divisor,
};
use vstd::arithmetic::power2::pow2;

use crate::arith::{gcd_nat, gcd_int, lemma_gcd_nat_basics, lemma_divides_iff_mod, divides};

verus! {

/// Two unsigned limbs holding an unsigned 128-bit value.
#[derive(Debug, Clone, Copy, PartialEq, Eq)]
pub struct U128Parts {
    pub v0: u64,
    pub v1: u64,
}

/// Low unsigned limb and high signed limb holding a signed 128-bit value.
#[derive(Debug, Clone, Copy, PartialEq, Eq)]
pub struct S128Parts {
    pub v0: u64,
    pub v1: i64,
}

/// The value a limb pair stands for.
pub open spec fn u128_parts_value(p: U128Parts) -> int {
    p.v1 * 0x1_0000_0000_0000_0000 + p.v0
}

/// The value a signed limb pair stands for.
pub open spec fn s128_parts_value(p: S128Parts) -> int {
    p.v1 * 0x1_0000_0000_0000_0000 + p.v0
}

/// Split an unsigned 128-bit value into limbs; exact for every value.
pub fn to_u128_t(x: u128) -> (p: U128Parts)
    ensures
        u128_parts_value(p) == x,
{
    let p = U128Parts {
        v0: (x % 0x1_0000_0000_0000_0000u128) as u64,
        v1: (x / 0x1_0000_0000_0000_0000u128) as u64,
    };
    proof {
        lemma_fundamental_div_mod(x as int, 0x1_0000_0000_0000_0000);
    }
    p
}

/// Reassemble an unsigned 128-bit value from limbs; exact for every pair.
pub fn from_u128_t(p: U128Parts) -> (x: u128)
    ensures
        x == u128_parts_value(p),
{
    (p.v1 as u128) * 0x1_0000_0000_0000_0000u128 + (p.v0 as u128)
}

/// Split a signed 128-bit value into limbs; exact for every value,
/// including both extremes and zero.
pub fn to_s128_t(x: i128) -> (p: S128Parts)
    ensures
        s128_parts_value(p) == x,
{
    if x >= 0 {
        let u: u128 = x as u128;
        let p = S128Parts {
            v0: (u % 0x1_0000_0000_0000_0000u128) as u64,
            v1: (u / 0x1_0000_0000_0000_0000u128) as u64 as i64,
        };
        proof {
            lemma_fundamental_div_mod(u as int, 0x1_0000_0000_0000_0000);
        }
        p
    } else {
        // two's-complement image of x in 128 unsigned bits
        let u: u128 = u128::MAX - ((-(x + 1)) as u128);
        let v0: u64 = (u % 0x1_0000_0000_0000_0000u128) as u64;
        let vh: u64 = (u / 0x1_0000_0000_0000_0000u128) as u64;
        proof {
            lemma_fundamental_div_mod(u as int, 0x1_0000_0000_0000_0000);
            assert(u as int == x as int + 0x1_0000_0000_0000_0000_0000_0000_0000_0000int);
            assert(vh >= 0x8000_0000_0000_0000u64);
        }
        let v1: i64 = -((u64::MAX - vh) as i64) - 1;
        S128Parts { v0, v1 }
    }
}

/// Reassemble a signed 128-bit value from limbs; exact for every pair.
pub fn from_s128_t(p: S128Parts) -> (x: i128)
    ensures
        x == s128_parts_value(p),
{
    (p.v1 as i128) * 0x1_0000_0000_0000_0000i128 + (p.v0 as i128)
}

/// Limb conversion as used at the bignum boundary: identical to
/// [`to_s128_t`], named separately so the boundary call sites read as such.
pub fn to_s128_t_for_gmp(x: i128) -> (p: S128Parts)
    ensures
        s128_parts_value(p) == x,
{
    to_s128_t(x)
}

/// Limb conversion as used at the bignum boundary: identical to
/// [`from_s128_t`].
pub fn from_s128_t_for_gmp(p: S128Parts) -> (x: i128)
    ensures
        x == s128_parts_value(p),
{
    from_s128_t(p)
}

/// The unsigned limb round trip is the identity, in both directions.
pub proof fn lemma_u128_round_trip(x: u128, p: U128Parts)
    ensures
        u128_parts_value(p) == x ==> p == (U128Parts {
            v0: (x % 0x1_0000_0000_0000_0000) as u64,
            v1: (x / 0x1_0000_0000_0000_0000) as u64,
        }),
{
    if u128_parts_value(p) == x {
        lemma_fundamental_div_mod_converse(x as int, 0x1_0000_0000_0000_0000, p.v1 as int,
            p.v0 as int);
    }
}

/// The signed limb round trip is the identity: distinct limb pairs stand
/// for distinct values.
pub proof fn lemma_s128_round_trip(p: S128Parts, q: S128Parts)
    ensures
        s128_parts_value(p) == s128_parts_value(q) ==> p == q,
{
    if s128_parts_value(p) == s128_parts_value(q) {
        let w = 0x1_0000_0000_0000_0000int;
        let v = s128_parts_value(p);
        lemma_fundamental_div_mod_converse(v, w, p.v1 as int, p.v0 as int);
        lemma_fundamental_div_mod_converse(v, w, q.v1 as int, q.v0 as int);
    }
}

/// Wrapping 128-bit addition.
pub fn add_u128(a: u128, b: u128) -> (r: u128)
    ensures
        r == (a + b) % 0x1_0000_0000_0000_0000_0000_0000_0000_0000int,
{
    let r = a.wrapping_add(b);
    proof {
        let f = 0x1_0000_0000_0000_0000_0000_0000_0000_0000int;
        if a + b > u128::MAX {
            vstd::arithmetic::div_mod::lemma_mod_sub_multiples_vanish(a + b, f);
            vstd::arithmetic::div_mod::lemma_small_mod((a + b - f) as nat, f as nat);
        } else {
            vstd::arithmetic::div_mod::lemma_small_mod((a + b) as nat, f as nat);
        }
    }
    r
}

/// Wrapping 128-bit subtraction.
pub fn sub_u128(a: u128, b: u128) -> (r: u128)
    ensures
        r == (a - b) % 0x1_0000_0000_0000_0000_0000_0000_0000_0000int,
{
    let r = a.wrapping_sub(b);
    proof {
        let f = 0x1_0000_0000_0000_0000_0000_0000_0000_0000int;
        if a < b {
            vstd::arithmetic::div_mod::lemma_mod_add_multiples_vanish(a - b, f);
            vstd::arithmetic::div_mod::lemma_small_mod((a - b + f) as nat, f as nat);
        } else {
            vstd::arithmetic::div_mod::lemma_small_mod((a - b) as nat, f as nat);
        }
    }
    r
}

/// Wrapping 128-bit multiplication, limb by limb: the low 128 bits of the
/// true product.
pub fn mul_u128(a: u128, b: u128) -> (r: u128)
    ensures
        r == (a * b) % 0x1_0000_0000_0000_0000_0000_0000_0000_0000int,
{
    let w: u128 = 0x1_0000_0000_0000_0000u128;
    let a0: u64 = (a % w) as u64;
    let a1: u64 = (a / w) as u64;
    let b0: u64 = (b % w) as u64;
    let b1: u64 = (b / w) as u64;
    proof {
        lemma_limb_bound(a0 as int, b0 as int);
        lemma_limb_bound(a0 as int, b1 as int);
        lemma_limb_bound(a1 as int, b0 as int);
    }
    let low: u128 = (a0 as u128) * (b0 as u128);
    let c1: u128 = (a0 as u128) * (b1 as u128);
    let c2: u128 = (a1 as u128) * (b0 as u128);
    let crossl: u64 = ((c1 % w) as u64).wrapping_add((c2 % w) as u64);
    let r = low.wrapping_add((crossl as u128) * w);
    proof {
        lemma_mul_u128_correct(a as int, b as int, a0 as int, a1 as int, b0 as int, b1 as int,
            low as int, crossl as int, r as int);
    }
    r
}

/// Limb products stay under `2^128`.
proof fn lemma_limb_bound(x: int, y: int)
    requires
        0 <= x < 0x1_0000_0000_0000_0000,
        0 <= y < 0x1_0000_0000_0000_0000,
    ensures
        x * y <= 0xffff_ffff_ffff_ffff * 0xffff_ffff_ffff_ffff,
        x * y >= 0,
{
    assert(x * y <= 0xffff_ffff_ffff_ffff * 0xffff_ffff_ffff_ffff && x * y >= 0)
        by (nonlinear_arith)
        requires
            0 <= x <= 0xffff_ffff_ffff_ffff,
            0 <= y <= 0xffff_ffff_ffff_ffff,
    ;
}

/// The limb recombination computes the true product modulo `2^128`.
proof fn lemma_mul_u128_correct(
    a: int,
    b: int,
    a0: int,
    a1: int,
    b0: int,
    b1: int,
    low: int,
    crossl: int,
    r: int,
)
    requires
        0 <= a0 < 0x1_0000_0000_0000_0000,
        0 <= b0 < 0x1_0000_0000_0000_0000,
        0 <= a1 < 0x1_0000_0000_0000_0000,
        0 <= b1 < 0x1_0000_0000_0000_0000,
        a == a1 * 0x1_0000_0000_0000_0000 + a0,
        b == b1 * 0x1_0000_0000_0000_0000 + b0,
        low == a0 * b0,
        crossl == ((a0 * b1) % 0x1_0000_0000_0000_0000 + (a1 * b0) % 0x1_0000_0000_0000_0000)
            % 0x1_0000_0000_0000_0000,
        r == (low + crossl * 0x1_0000_0000_0000_0000)
            % 0x1_0000_0000_0000_0000_0000_0000_0000_0000int,
    ensures
        r == (a * b) % 0x1_0000_0000_0000_0000_0000_0000_0000_0000int,
{
    let w = 0x1_0000_0000_0000_0000int;
    let f = 0x1_0000_0000_0000_0000_0000_0000_0000_0000int;
    let c = a0 * b1 + a1 * b0;
    vstd::arithmetic::div_mod::lemma_add_mod_noop(a0 * b1, a1 * b0, w);
    assert(crossl == c % w);
    lemma_fundamental_div_mod(c, w);
    let ch = c / w;
    // expand the product limb by limb
    assert(a * b == (a1 * w) * (b1 * w) + (a1 * w) * b0 + a0 * (b1 * w) + a0 * b0)
        by (nonlinear_arith)
        requires
            a == a1 * w + a0,
            b == b1 * w + b0,
    ;
    assert((a1 * w) * (b1 * w) == (a1 * b1) * (w * w)) by (nonlinear_arith);
    assert((a1 * w) * b0 == (a1 * b0) * w && a0 * (b1 * w) == (a0 * b1) * w) by (nonlinear_arith);
    assert((a0 * b1) * w + (a1 * b0) * w == c * w) by (nonlinear_arith)
        requires
            c == a0 * b1 + a1 * b0,
    ;
    // fold the carry of the cross terms into the top limb
    assert(c * w == ch * (w * w) + crossl * w) by (nonlinear_arith)
        requires
            c == w * ch + crossl,
    ;
    assert((a1 * b1) * (w * w) + ch * (w * w) == (a1 * b1 + ch) * (w * w)) by (nonlinear_arith);
    assert(a * b == (a1 * b1 + ch) * f + (crossl * w + low));
    vstd::arithmetic::div_mod::lemma_mod_multiples_vanish(a1 * b1 + ch, crossl * w + low, f);
    assert(f * (a1 * b1 + ch) == (a1 * b1 + ch) * f) by (nonlinear_arith);
}

/// Left shift by `c & 127` bit positions (the count is masked, as in the
/// reference semantics), wrapping.
pub fn shl_u128(x: u128, c: i32) -> (r: u128)
    ensures
        r == (x * pow2((c & 127) as nat)) % 0x1_0000_0000_0000_0000_0000_0000_0000_0000int,
{
    proof {
        assert(0 <= c & 127 < 128) by (bit_vector);
    }
    let k: u32 = (c & 127) as u32;
    let mut r: u128 = x;
    let mut i: u32 = 0;
    proof {
        assert(pow2(0) == 1) by {
            vstd::arithmetic::power2::lemma2_to64();
        }
        vstd::arithmetic::div_mod::lemma_small_mod(
            x as nat,
            0x1_0000_0000_0000_0000_0000_0000_0000_0000nat,
        );
        assert(x * pow2(0) == x) by (nonlinear_arith)
            requires
                pow2(0) == 1,
        ;
    }
    while i < k
        invariant
            i <= k,
            k < 128,
            r == (x * pow2(i as nat)) % 0x1_0000_0000_0000_0000_0000_0000_0000_0000int,
        decreases k - i,
    {
        let ghost f: int = 0x1_0000_0000_0000_0000_0000_0000_0000_0000int;
        proof {
            vstd::arithmetic::power2::lemma_pow2_unfold((i + 1) as nat);
            // 2 * (x * 2^i) == x * 2^(i+1)
            assert(2 * (x * pow2(i as nat)) == x * pow2((i + 1) as nat)) by (nonlinear_arith)
                requires
                    pow2((i + 1) as nat) == 2 * pow2(i as nat),
            ;
            vstd::arithmetic::div_mod::lemma_mul_mod_noop_right(2, x * pow2(i as nat) as int, f);
            if 2 * (r as int) >= f {
                vstd::arithmetic::div_mod::lemma_mod_sub_multiples_vanish(2 * (r as int), f);
                vstd::arithmetic::div_mod::lemma_small_mod((2 * (r as int) - f) as nat, f as nat);
            } else {
                vstd::arithmetic::div_mod::lemma_small_mod((2 * (r as int)) as nat, f as nat);
            }
        }
        r = r.wrapping_add(r);
        i = i + 1;
    }
    r
}

/// Right shift by `c & 127` bit positions (the count is masked, as in the
/// reference semantics).
pub fn shr_u128(x: u128, c: i32) -> (r: u128)
    ensures
        r == x as nat / pow2((c & 127) as nat),
{
    proof {
        assert(0 <= c & 127 < 128) by (bit_vector);
    }
    let k: u32 = (c & 127) as u32;
    let mut r: u128 = x;
    let mut i: u32 = 0;
    proof {
        assert(pow2(0) == 1) by {
            vstd::arithmetic::power2::lemma2_to64();
        }
    }
    while i < k
        invariant
            i <= k,
            k < 128,
            r == x as nat / pow2(i as nat),
        decreases k - i,
    {
        proof {
            vstd::arithmetic::power2::lemma_pow2_unfold((i + 1) as nat);
            vstd::arithmetic::power2::lemma_pow2_pos(i as nat);
            vstd::arithmetic::div_mod::lemma_div_denominator(x as int, pow2(i as nat) as int, 2);
        }
        r = r / 2;
        i = i + 1;
    }
    r
}

/// Index of the most significant set bit, or -1 for zero.
pub fn msb_u128(x: u128) -> (r: i32)
    ensures
        x == 0 ==> r == -1,
        x > 0 ==> 0 <= r < 128 && pow2(r as nat) <= x < pow2((r + 1) as nat),
{
    if x == 0 {
        return -1;
    }
    let mut i: i32 = 0;
    let mut p: u128 = 1;
    let ghost mut j: nat = 0;
    proof {
        assert(pow2(0) == 1) by {
            vstd::arithmetic::power2::lemma2_to64();
        }
    }
    while p <= x / 2
        invariant
            x >= 1,
            0 <= i < 128,
            i == j,
            p == pow2(j),
            p >= 1,
            p <= x,
        decreases x - p,
    {
        proof {
            vstd::arithmetic::power2::lemma_pow2_unfold(j + 1);
            vstd::arithmetic::power2::lemma2_to64_rest();
            assert(pow2(64) == 0x1_0000_0000_0000_0000) by {
                vstd::arithmetic::power2::lemma2_to64_rest();
            }
            assert(pow2(127) == 0x8000_0000_0000_0000 * 0x1_0000_0000_0000_0000) by {
                vstd::arithmetic::power2::lemma_pow2_adds(63, 64);
            }
            if j >= 127 {
                if j > 127 {
                    vstd::arithmetic::power2::lemma_pow2_strictly_increases(127, j);
                }
                assert(false);
            }
        }
        p = p * 2;
        i = i + 1;
        proof {
            j = j + 1;
        }
    }
    proof {
        vstd::arithmetic::power2::lemma_pow2_unfold(j + 1);
    }
    i
}

/// Plain Euclidean gcd of unsigned 128-bit values.
pub fn gcd_u128(a: u128, b: u128) -> (g: u128)
    ensures
        g == gcd_int(a as int, b as int),
{
    let mut r0: u128 = a;
    let mut r1: u128 = b;
    while r1 != 0
        invariant
            gcd_nat(r0 as nat, r1 as nat) == gcd_nat(a as nat, b as nat),
        decreases r1,
    {
        let r2: u128 = r0 % r1;
        proof {
            assert(gcd_nat(r0 as nat, r1 as nat) == gcd_nat(r1 as nat, r2 as nat));
        }
        r0 = r1;
        r1 = r2;
    }
    r0
}

/// Left-to-right binary gcd of unsigned 128-bit values.
pub fn gcd_binary_u128(a: u128, b: u128) -> (g: u128)
    ensures
        g == gcd_int(a as int, b as int),
{
    crate::reduce::gcd_binary_l2r_u128(a, b)
}

/// The signed 128-bit inputs whose gcd fits the signed range.
pub open spec fn gcd_fits_i128(a: i128, b: i128) -> bool {
    !(a == i128::MIN && (b == i128::MIN || b == 0)) && !(a == 0 && b == i128::MIN)
}

proof fn lemma_gcd_fits_i128(a: i128, b: i128)
    requires
        gcd_fits_i128(a, b),
    ensures
        gcd_int(a as int, b as int) <= i128::MAX,
        gcd_int(a as int, b as int) == gcd_nat(abs(a as int), abs(b as int)),
{
    lemma_gcd_nat_basics(abs(a as int), abs(b as int));
}

/// The unsigned magnitude of a signed 128-bit value.
fn abs_i128(x: i128) -> (r: u128)
    ensures
        r == abs(x as int),
{
    if x >= 0 {
        x as u128
    } else if x == i128::MIN {
        0x8000_0000_0000_0000_0000_0000_0000_0000u128
    } else {
        (-x) as u128
    }
}

/// Plain gcd of signed 128-bit values (via their magnitudes).
pub fn gcd_i128(a: i128, b: i128) -> (g: i128)
    requires
        gcd_fits_i128(a, b),
    ensures
        g == gcd_int(a as int, b as int),
        g >= 0,
{
    let am = abs_i128(a);
    let bm = abs_i128(b);
    proof {
        lemma_gcd_fits_i128(a, b);
    }
    gcd_u128(am, bm) as i128
}

/// Floor of the exact square root of an unsigned 128-bit value.
pub fn sqrt_u128(x: u128) -> (r: u128)
    ensures
        r * r <= x,
        (r + 1) * (r + 1) > x,
        r <= 0xffff_ffff_ffff_ffffu128,
{
    let mut lo: u128 = 0;
    let mut hi: u128 = if x >= 0xffff_ffff_ffff_ffffu128 {
        0xffff_ffff_ffff_ffffu128
    } else {
        x
    };
    proof {
        assert((hi + 1) * (hi + 1) > x) by (nonlinear_arith)
            requires
                hi == 0xffff_ffff_ffff_ffffu128 && x <= u128::MAX || hi == x && x
                    < 0xffff_ffff_ffff_ffffu128,
        ;
    }
    while lo < hi
        invariant
            lo <= hi,
            hi <= 0xffff_ffff_ffff_ffffu128,
            lo * lo <= x,
            (hi + 1) * (hi + 1) > x,
        decreases hi - lo,
    {
        let mid: u128 = lo + (hi - lo + 1) / 2;
        proof {
            lemma_limb_bound(mid as int, mid as int);
        }
        let sq: u128 = mid * mid;
        if sq <= x {
            lo = mid;
        } else {
            hi = mid - 1;
        }
    }
    lo
}

/// Floor of the exact square root of the magnitude of a signed value.
pub fn sqrt_i128(x: i128) -> (r: i128)
    ensures
        r * r <= abs(x as int),
        (r + 1) * (r + 1) > abs(x as int),
        r >= 0,
{
    let m = abs_i128(x);
    sqrt_u128(m) as i128
}

/// Truncating quotient and remainder of unsigned 128-bit values.
pub fn divrem_u128(n: u128, d: u128) -> (qr: (u128, u128))
    requires
        d != 0,
    ensures
        qr.0 == n as int / d as int,
        qr.1 == n as int % d as int,
{
    (n / d, n % d)
}

/// Whether `y` divides `x` exactly.
pub fn is_divisible_i128_i128(x: i128, y: i128) -> (r: bool)
    requires
        y != 0,
    ensures
        r == divides(y as int, x as int),
{
    let xm = abs_i128(x);
    let ym = abs_i128(y);
    let rem = xm % ym;
    proof {
        lemma_divides_iff_mod(ym as int, xm as int);
        crate::arith::lemma_divides_abs(ym as int, x as int);
        crate::arith::lemma_divides_abs(y as int, x as int);
    }
    rem == 0
}

/// Whether `y` divides `x` exactly.
pub fn is_divisible_i128_i64(x: i128, y: i64) -> (r: bool)
    requires
        y != 0,
    ensures
        r == divides(y as int, x as int),
{
    is_divisible_i128_i128(x, y as i128)
}

/// Whether `y` divides `x` exactly.
pub fn is_divisible_i128_u64(x: i128, y: u64) -> (r: bool)
    requires
        y != 0,
    ensures
        r == divides(y as int, x as int),
{
    is_divisible_i128_i128(x, y as i128)
}

/// Truncating signed quotient.
pub fn div_s128_i128_i128(n: i128, d: i128) -> (q: i128)
    requires
        d != 0,
        !(n == i128::MIN && d == -1),
    ensures
        q == crate::scalar::trunc_div(n as int, d as int),
{
    let nm = abs_i128(n);
    let dm = abs_i128(d);
    let qm: u128 = nm / dm;
    let rm: u128 = nm % dm;
    let neg_q: bool = (n < 0) != (d < 0);
    proof {
        lemma_fundamental_div_mod(nm as int, dm as int);
        lemma_mod_division_less_than_divisor(nm as int, dm as int);
        vstd::arithmetic::div_mod::lemma_div_pos_is_pos(nm as int, dm as int);
        vstd::arithmetic::div_mod::lemma_div_nonincreasing(nm as int, dm as int);
        if !neg_q && n == i128::MIN {
            vstd::arithmetic::div_mod::lemma_div_is_ordered_by_denominator(nm as int, 2,
                dm as int);
        }
    }
    let q: i128 = if neg_q {
        if qm >= 0x8000_0000_0000_0000_0000_0000_0000_0000u128 {
            i128::MIN
        } else {
            -(qm as i128)
        }
    } else {
        qm as i128
    };
    let ghost r_ghost: int = if n < 0 {
        -(rm as int)
    } else {
        rm as int
    };
    proof {
        crate::arith::lemma_trunc_divrem(n as int, d as int, nm as int, dm as int, qm as int,
            rm as int, q as int, r_ghost);
    }
    q
}

/// Truncating signed quotient with a 64-bit divisor.
pub fn div_s128_i128_i64(n: i128, d: i64) -> (q: i128)
    requires
        d != 0,
        !(n == i128::MIN && d == -1),
    ensures
        q == crate::scalar::trunc_div(n as int, d as int),
{
    div_s128_i128_i128(n, d as i128)
}

/// Truncating signed remainder (the dividend's sign).
pub fn mod_i128_i128_i128(n: i128, d: i128) -> (r: i128)
    requires
        d != 0,
    ensures
        r == n - crate::scalar::trunc_div(n as int, d as int) * d,
        abs(r as int) < abs(d as int),
        n >= 0 ==> r >= 0,
        n <= 0 ==> r <= 0,
{
    let nm = abs_i128(n);
    let dm = abs_i128(d);
    let qm: u128 = nm / dm;
    let rm: u128 = nm % dm;
    let neg_q: bool = (n < 0) != (d < 0);
    proof {
        lemma_fundamental_div_mod(nm as int, dm as int);
        lemma_mod_division_less_than_divisor(nm as int, dm as int);
        vstd::arithmetic::div_mod::lemma_div_pos_is_pos(nm as int, dm as int);
    }
    let r: i128 = if n < 0 {
        -(rm as i128)
    } else {
        rm as i128
    };
    proof {
        let ghost q_ghost: int = if neg_q {
            -(qm as int)
        } else {
            qm as int
        };
        crate::arith::lemma_trunc_divrem(n as int, d as int, nm as int, dm as int, qm as int,
            rm as int, q_ghost, r as int);
    }
    r
}

/// Truncating signed remainder with a 64-bit divisor, returned narrow.
pub fn mod_i64_i128_i64(n: i128, d: i64) -> (r: i64)
    requires
        d != 0,
    ensures
        r == n - crate::scalar::trunc_div(n as int, d as int) * d,
        abs(r as int) < abs(d as int),
        n >= 0 ==> r >= 0,
        n <= 0 ==> r <= 0,
{
    let wide = mod_i128_i128_i128(n, d as i128);
    wide as i64
}

/// Truncating signed remainder with an unsigned 64-bit divisor; the
/// divisor must leave room for the signed narrow result.
pub fn mod_i64_i128_u64(n: i128, d: u64) -> (r: i64)
    requires
        d != 0,
        d <= i64::MAX as u64,
    ensures
        r == n - crate::scalar::trunc_div(n as int, d as int) * d,
        abs(r as int) < d,
        n >= 0 ==> r >= 0,
        n <= 0 ==> r <= 0,
{
    let wide = mod_i128_i128_i128(n, d as i128);
    wide as i64
}

} // verus!
