//! Bit and sign primitives.
//!
//! The conditional swap and negate helpers keep the mask-based, branch-free
//! dataflow of classical constant-time code: a comparison is turned into an
//! all-ones/all-zeros mask once, and the mask then selects via xor and
//! subtract, never via a data-dependent branch on the values being swapped.

use vstd::prelude::*;
use vstd::arithmetic::power2::pow2;
use vstd::arithmetic::power2::lemma_pow2_pos;
use vstd::arithmetic::power2::lemma_pow2_unfold;
use vstd::math::abs;

verus! {

/// The smallest power of two that is at least `x`.
pub fn ceil_pow2_u32(x: u32) -> (r: u32)
    requires
        1 <= x <= 0x8000_0000u32,
    ensures
        exists|k: nat| r == pow2(k),
        x <= r < 2 * x,
{
    let mut r: u32 = 1;
    let ghost mut j: nat = 0;
    proof {
        assert(pow2(0) == 1) by {
            vstd::arithmetic::power2::lemma2_to64();
        }
    }
    while r < x
        invariant
            x <= 0x8000_0000u32,
            r == pow2(j),
            r >= 1,
            r < 2 * x,
        decreases 2 * x - r,
    {
        proof {
            lemma_pow2_unfold(j + 1);
        }
        r = r * 2;
        proof {
            j = j + 1;
        }
    }
    proof {
        assert(r == pow2(j));
    }
    r
}

/// Wrapping `a - b` together with an all-ones/all-zeros borrow mask.
pub fn sub_with_mask_u32(a: u32, b: u32) -> (mr: (u32, u32))
    ensures
        mr.0 == (if a < b {
            u32::MAX as int
        } else {
            0int
        }),
        mr.1 as int % 0x1_0000_0000 == (a - b) % 0x1_0000_0000,
{
    let d: u32 = (a < b) as u32;
    let m: u32 = 0u32.wrapping_sub(d);
    let r: u32 = a.wrapping_sub(b);
    (m, r)
}

/// Wrapping `a - b` on signed operands, with the same borrow mask as the
/// unsigned comparison `a < b`.
pub fn sub_with_mask_i32(a: i32, b: i32) -> (mr: (u32, i32))
    ensures
        mr.0 == (if a < b {
            u32::MAX as int
        } else {
            0int
        }),
        mr.1 as int % 0x1_0000_0000 == (a - b) % 0x1_0000_0000,
{
    let d: u32 = (a < b) as u32;
    let m: u32 = 0u32.wrapping_sub(d);
    let r: i32 = a.wrapping_sub(b);
    (m, r)
}

/// Wrapping `a - b` reinterpreted as a signed word, with borrow mask.
pub fn sub_with_mask_u64(a: u64, b: u64) -> (mr: (u64, i64))
    ensures
        mr.0 == (if a < b {
            u64::MAX as int
        } else {
            0int
        }),
        mr.1 as int % 0x1_0000_0000_0000_0000 == (a - b) % 0x1_0000_0000_0000_0000,
{
    let d: u64 = (a < b) as u64;
    let m: u64 = 0u64.wrapping_sub(d);
    let w: u64 = a.wrapping_sub(b);
    let r: i64 = if w <= i64::MAX as u64 {
        w as i64
    } else {
        -((u64::MAX - w) as i64) - 1
    };
    (m, r)
}

/// Wrapping `a - b` on signed words, with borrow mask for `a < b`.
pub fn sub_with_mask_i64(a: i64, b: i64) -> (mr: (u64, i64))
    ensures
        mr.0 == (if a < b {
            u64::MAX as int
        } else {
            0int
        }),
        mr.1 as int % 0x1_0000_0000_0000_0000 == (a - b) % 0x1_0000_0000_0000_0000,
{
    let d: u64 = (a < b) as u64;
    let m: u64 = 0u64.wrapping_sub(d);
    let r: i64 = a.wrapping_sub(b);
    (m, r)
}

/// Unconditional exchange.
pub fn swap_u32(a: u32, b: u32) -> (r: (u32, u32))
    ensures
        r == (b, a),
{
    (b, a)
}

/// Unconditional exchange.
pub fn swap_i32(a: i32, b: i32) -> (r: (i32, i32))
    ensures
        r == (b, a),
{
    (b, a)
}

/// Unconditional exchange.
pub fn swap_i64(a: i64, b: i64) -> (r: (i64, i64))
    ensures
        r == (b, a),
{
    (b, a)
}

/// Mask-selected exchange: `m` must be all ones (swap) or all zeros (keep).
fn mask_swap_i32(m: i32, x: i32, y: i32) -> (r: (i32, i32))
    requires
        m == 0 || m == -1,
    ensures
        m == 0 ==> r == (x, y),
        m == -1 ==> r == (y, x),
{
    proof {
        assert(x ^ ((x ^ y) & -1i32) == y && y ^ ((x ^ y) & -1i32) == x && (x ^ ((x ^ y) & 0i32))
            == x && (y ^ ((x ^ y) & 0i32)) == y) by (bit_vector);
    }
    let z: i32 = (x ^ y) & m;
    (x ^ z, y ^ z)
}

/// Mask-selected exchange: `m` must be all ones (swap) or all zeros (keep).
fn mask_swap_i64(m: i64, x: i64, y: i64) -> (r: (i64, i64))
    requires
        m == 0 || m == -1,
    ensures
        m == 0 ==> r == (x, y),
        m == -1 ==> r == (y, x),
{
    proof {
        assert(x ^ ((x ^ y) & -1i64) == y && y ^ ((x ^ y) & -1i64) == x && (x ^ ((x ^ y) & 0i64))
            == x && (y ^ ((x ^ y) & 0i64)) == y) by (bit_vector);
    }
    let z: i64 = (x ^ y) & m;
    (x ^ z, y ^ z)
}

/// Mask-selected exchange: `m` must be all ones (swap) or all zeros (keep).
fn mask_swap_u64(m: u64, x: u64, y: u64) -> (r: (u64, u64))
    requires
        m == 0 || m == u64::MAX,
    ensures
        m == 0 ==> r == (x, y),
        m == u64::MAX ==> r == (y, x),
{
    proof {
        assert(x ^ ((x ^ y) & 0xffff_ffff_ffff_ffffu64) == y && y ^ ((x ^ y)
            & 0xffff_ffff_ffff_ffffu64) == x && (x ^ ((x ^ y) & 0u64)) == x && (y ^ ((x ^ y)
            & 0u64)) == y) by (bit_vector);
    }
    let z: u64 = (x ^ y) & m;
    (x ^ z, y ^ z)
}

/// Exchange the operands when `a < b`, so that the larger comes first.
pub fn cond_swap_i32(a: i32, b: i32) -> (r: (i32, i32))
    ensures
        a < b ==> r == (b, a),
        a >= b ==> r == (a, b),
{
    let m: i32 = -((a < b) as i32);
    mask_swap_i32(m, a, b)
}

/// Exchange the operands when `a < b`, so that the larger comes first.
pub fn cond_swap_i64(a: i64, b: i64) -> (r: (i64, i64))
    ensures
        a < b ==> r == (b, a),
        a >= b ==> r == (a, b),
{
    let m: i64 = -((a < b) as i64);
    mask_swap_i64(m, a, b)
}

/// Exchange the pairs when `u2 < v2` (the second components are the keys).
pub fn cond_swap2_i32(u1: i32, u2: i32, v1: i32, v2: i32) -> (r: ((i32, i32), (i32, i32)))
    ensures
        u2 < v2 ==> r == ((v1, v2), (u1, u2)),
        u2 >= v2 ==> r == ((u1, u2), (v1, v2)),
{
    let m: i32 = -((u2 < v2) as i32);
    let p1 = mask_swap_i32(m, u1, v1);
    let p2 = mask_swap_i32(m, u2, v2);
    ((p1.0, p2.0), (p1.1, p2.1))
}

/// Exchange the pairs when `u2 < v2` (the second components are the keys).
pub fn cond_swap2_i64(u1: i64, u2: i64, v1: i64, v2: i64) -> (r: ((i64, i64), (i64, i64)))
    ensures
        u2 < v2 ==> r == ((v1, v2), (u1, u2)),
        u2 >= v2 ==> r == ((u1, u2), (v1, v2)),
{
    let m: i64 = -((u2 < v2) as i64);
    let p1 = mask_swap_i64(m, u1, v1);
    let p2 = mask_swap_i64(m, u2, v2);
    ((p1.0, p2.0), (p1.1, p2.1))
}

/// Exchange the triples when `u3 < v3`; the returned mask is all ones
/// exactly when the exchange happened.
pub fn cond_swap3_i32(u1: i32, u2: i32, u3: i32, v1: i32, v2: i32, v3: i32) -> (r: (
    u32,
    (i32, i32, i32),
    (i32, i32, i32),
))
    ensures
        r.0 == (if u3 < v3 {
            u32::MAX as int
        } else {
            0int
        }),
        u3 < v3 ==> r.1 == (v1, v2, v3) && r.2 == (u1, u2, u3),
        u3 >= v3 ==> r.1 == (u1, u2, u3) && r.2 == (v1, v2, v3),
{
    let c: bool = u3 < v3;
    let m: i32 = -(c as i32);
    let mu: u32 = 0u32.wrapping_sub(c as u32);
    let p1 = mask_swap_i32(m, u1, v1);
    let p2 = mask_swap_i32(m, u2, v2);
    let p3 = mask_swap_i32(m, u3, v3);
    (mu, (p1.0, p2.0, p3.0), (p1.1, p2.1, p3.1))
}

/// Exchange the triples when `u3 < v3`; the returned mask is all ones
/// exactly when the exchange happened.
pub fn cond_swap3_i64(u1: i64, u2: i64, u3: i64, v1: i64, v2: i64, v3: i64) -> (r: (
    u64,
    (i64, i64, i64),
    (i64, i64, i64),
))
    ensures
        r.0 == (if u3 < v3 {
            u64::MAX as int
        } else {
            0int
        }),
        u3 < v3 ==> r.1 == (v1, v2, v3) && r.2 == (u1, u2, u3),
        u3 >= v3 ==> r.1 == (u1, u2, u3) && r.2 == (v1, v2, v3),
{
    let c: bool = u3 < v3;
    let m: i64 = -(c as i64);
    let mu: u64 = 0u64.wrapping_sub(c as u64);
    let p1 = mask_swap_i64(m, u1, v1);
    let p2 = mask_swap_i64(m, u2, v2);
    let p3 = mask_swap_i64(m, u3, v3);
    (mu, (p1.0, p2.0, p3.0), (p1.1, p2.1, p3.1))
}

/// Exchange the mixed triples when the unsigned third components compare
/// `u3 < v3`.
pub fn cond_swap3_i64_mixed(u1: i64, u2: i64, u3: u64, v1: i64, v2: i64, v3: u64) -> (r: (
    (i64, i64, u64),
    (i64, i64, u64),
))
    ensures
        u3 < v3 ==> r == ((v1, v2, v3), (u1, u2, u3)),
        u3 >= v3 ==> r == ((u1, u2, u3), (v1, v2, v3)),
{
    let c: bool = u3 < v3;
    let m: i64 = -(c as i64);
    let mu: u64 = 0u64.wrapping_sub(c as u64);
    let p1 = mask_swap_i64(m, u1, v1);
    let p2 = mask_swap_i64(m, u2, v2);
    let p3 = mask_swap_u64(mu, u3, v3);
    ((p1.0, p2.0, p3.0), (p1.1, p2.1, p3.1))
}

/// Exchange the quadruples when the last components compare `u.3 < v.3`.
pub fn cond_swap4_i32(u: (i32, i32, i32, i32), v: (i32, i32, i32, i32)) -> (r: (
    (i32, i32, i32, i32),
    (i32, i32, i32, i32),
))
    ensures
        u.3 < v.3 ==> r == (v, u),
        u.3 >= v.3 ==> r == (u, v),
{
    let m: i32 = -((u.3 < v.3) as i32);
    let p1 = mask_swap_i32(m, u.0, v.0);
    let p2 = mask_swap_i32(m, u.1, v.1);
    let p3 = mask_swap_i32(m, u.2, v.2);
    let p4 = mask_swap_i32(m, u.3, v.3);
    ((p1.0, p2.0, p3.0, p4.0), (p1.1, p2.1, p3.1, p4.1))
}

/// Two's-complement negation selected by an all-ones/all-zeros mask.
pub fn negate_using_mask_i32(m: u32, x: i32) -> (r: i32)
    requires
        m == 0 || m == u32::MAX,
        x > i32::MIN,
    ensures
        m == 0 ==> r == x,
        m == u32::MAX ==> r == -x,
{
    let mi: i32 = if m == 0 {
        0
    } else {
        -1
    };
    proof {
        assert((x ^ 0i32) == x) by (bit_vector);
        assert(x > i32::MIN ==> ((x ^ -1i32) == -x - 1)) by (bit_vector);
    }
    (x ^ mi).wrapping_sub(mi)
}

/// Two's-complement negation selected by an all-ones/all-zeros mask.
pub fn negate_using_mask_i64(m: u64, x: i64) -> (r: i64)
    requires
        m == 0 || m == u64::MAX,
        x > i64::MIN,
    ensures
        m == 0 ==> r == x,
        m == u64::MAX ==> r == -x,
{
    let mi: i64 = if m == 0 {
        0
    } else {
        -1
    };
    proof {
        assert((x ^ 0i64) == x) by (bit_vector);
        assert(x > i64::MIN ==> ((x ^ -1i64) == -x - 1)) by (bit_vector);
    }
    (x ^ mi).wrapping_sub(mi)
}

/// Negate `x` exactly when `cond` is negative.
pub fn cond_negate_i32(cond: i32, x: i32) -> (r: i32)
    requires
        x > i32::MIN,
    ensures
        cond < 0 ==> r == -x,
        cond >= 0 ==> r == x,
{
    let m: u32 = if cond < 0 {
        u32::MAX
    } else {
        0
    };
    negate_using_mask_i32(m, x)
}

/// Negate `x` exactly when `cond` is negative.
pub fn cond_negate_i64(cond: i64, x: i64) -> (r: i64)
    requires
        x > i64::MIN,
    ensures
        cond < 0 ==> r == -x,
        cond >= 0 ==> r == x,
{
    let m: u64 = if cond < 0 {
        u64::MAX
    } else {
        0
    };
    negate_using_mask_i64(m, x)
}

/// The unsigned magnitude of `x`, exact also for the minimum value.
pub fn abs_i32(x: i32) -> (r: u32)
    ensures
        r == abs(x as int),
{
    if x >= 0 {
        x as u32
    } else {
        (-(x as i64)) as u32
    }
}

/// The unsigned magnitude of `x`, exact also for the minimum value.
pub fn abs_i64(x: i64) -> (r: u64)
    ensures
        r == abs(x as int),
{
    if x >= 0 {
        x as u64
    } else {
        (-(x as i128)) as u64
    }
}

/// Whether a 64-bit signed value fits in 32 signed bits.
pub fn s64_fits_i32(x: i64) -> (r: bool)
    ensures
        r == (i32::MIN <= x <= i32::MAX),
{
    i32::MIN as i64 <= x && x <= i32::MAX as i64
}

/// Index of the most significant set bit, or -1 for zero.
pub fn msb_u32(x: u32) -> (r: i32)
    ensures
        x == 0 ==> r == -1,
        x > 0 ==> 0 <= r < 32 && pow2(r as nat) <= x < pow2((r + 1) as nat),
{
    let r = msb_u64(x as u64);
    proof {
        if x > 0 {
            vstd::arithmetic::power2::lemma2_to64();
            assert(pow2(32) == 0x1_0000_0000);
            if r >= 32 {
                if r > 32 {
                    vstd::arithmetic::power2::lemma_pow2_strictly_increases(32, r as nat);
                }
                assert(false);
            }
        }
    }
    r
}

/// Index of the most significant set bit, or -1 for zero.
pub fn msb_u64(x: u64) -> (r: i32)
    ensures
        x == 0 ==> r == -1,
        x > 0 ==> 0 <= r < 64 && pow2(r as nat) <= x < pow2((r + 1) as nat),
{
    if x == 0 {
        return -1;
    }
    let mut i: i32 = 0;
    let mut p: u64 = 1;
    let ghost mut j: nat = 0;
    proof {
        assert(pow2(0) == 1) by {
            vstd::arithmetic::power2::lemma2_to64();
        }
    }
    while p <= x / 2
        invariant
            x >= 1,
            0 <= i < 64,
            i == j,
            p == pow2(j),
            p >= 1,
            p <= x,
        decreases x - p,
    {
        proof {
            lemma_pow2_unfold(j + 1);
            vstd::arithmetic::power2::lemma2_to64_rest();
            assert(pow2(63) == 0x8000_0000_0000_0000);
            if j >= 63 {
                if j > 63 {
                    vstd::arithmetic::power2::lemma_pow2_strictly_increases(63, j);
                }
                assert(false);
            }
        }
        p = p * 2;
        i = i + 1;
        proof {
            j = j + 1;
        }
    }
    proof {
        lemma_pow2_unfold(j + 1);
    }
    i
}

/// Index of the least significant set bit, or -1 for zero.
pub fn lsb_u64(x: u64) -> (r: i32)
    ensures
        x == 0 ==> r == -1,
        x > 0 ==> 0 <= r < 64 && (x as nat) % pow2(r as nat) == 0 && ((x as nat) / pow2(
            r as nat,
        )) % 2 == 1,
{
    if x == 0 {
        return -1;
    }
    let mut v: u64 = x;
    let mut i: i32 = 0;
    let ghost mut j: nat = 0;
    proof {
        assert(pow2(0) == 1) by {
            vstd::arithmetic::power2::lemma2_to64();
        }
    }
    while v % 2 == 0
        invariant
            x >= 1,
            v >= 1,
            0 <= i < 64,
            i == j,
            x == v * pow2(j),
        decreases v,
    {
        proof {
            lemma_pow2_unfold(j + 1);
            assert((v / 2) * (pow2(j) * 2) == v * pow2(j)) by (nonlinear_arith)
                requires
                    v % 2 == 0,
                    v >= 2,
            ;
            lemma_pow2_pos(j + 1);
            assert((v / 2) * pow2(j + 1) >= pow2(j + 1)) by (nonlinear_arith)
                requires
                    v / 2 >= 1,
                    pow2(j + 1) >= 1,
            ;
            vstd::arithmetic::power2::lemma2_to64_rest();
            assert(pow2(63) == 0x8000_0000_0000_0000);
            if j >= 63 {
                if j > 63 {
                    vstd::arithmetic::power2::lemma_pow2_strictly_increases(63, j);
                }
                lemma_pow2_pos(j);
                assert(x >= pow2(j) * 1 && pow2(j) * 1 > u64::MAX) by (nonlinear_arith)
                    requires
                        x as int == (v as int) * (pow2(j) as int),
                        v >= 1,
                        pow2(j) >= 0x8000_0000_0000_0000 * 2,
                ;
                assert(false);
            }
        }
        v = v / 2;
        i = i + 1;
        proof {
            j = j + 1;
        }
    }
    proof {
        lemma_pow2_pos(j);
        vstd::arithmetic::div_mod::lemma_mod_multiples_basic(v as int, pow2(j) as int);
        vstd::arithmetic::div_mod::lemma_div_multiples_vanish(v as int, pow2(j) as int);
        assert(pow2(j) * v == v * pow2(j)) by (nonlinear_arith);
    }
    i
}

/// Index of the least significant set bit, or -1 for zero.
pub fn lsb_u32(x: u32) -> (r: i32)
    ensures
        x == 0 ==> r == -1,
        x > 0 ==> 0 <= r < 32 && (x as nat) % pow2(r as nat) == 0 && ((x as nat) / pow2(
            r as nat,
        )) % 2 == 1,
{
    let r = lsb_u64(x as u64);
    proof {
        if x > 0 {
            vstd::arithmetic::power2::lemma2_to64();
            vstd::arithmetic::power2::lemma2_to64_rest();
            assert(pow2(32) == 0x1_0000_0000);
            if r >= 32 {
                lemma_pow2_pos(r as nat);
                if r > 32 {
                    vstd::arithmetic::power2::lemma_pow2_strictly_increases(32, r as nat);
                }
                vstd::arithmetic::div_mod::lemma_small_mod(x as nat, pow2(r as nat));
                assert(false);
            }
        }
    }
    r
}

/// Index of the least significant set bit of the two's-complement word,
/// which equals that of the magnitude; -1 for zero.
pub fn lsb_i32(x: i32) -> (r: i32)
    ensures
        x == 0 ==> r == -1,
        x != 0 ==> 0 <= r < 32 && (abs(x as int)) % pow2(r as nat) == 0 && ((abs(x as int)) / pow2(
            r as nat,
        )) % 2 == 1,
{
    let m: u32 = abs_i32(x);
    lsb_u32(m)
}

/// Index of the least significant set bit of the two's-complement word,
/// which equals that of the magnitude; -1 for zero.
pub fn lsb_i64(x: i64) -> (r: i32)
    ensures
        x == 0 ==> r == -1,
        x != 0 ==> 0 <= r < 64 && (abs(x as int)) % pow2(r as nat) == 0 && ((abs(x as int)) / pow2(
            r as nat,
        )) % 2 == 1,
{
    let m: u64 = abs_i64(x);
    lsb_u64(m)
}

/// Set bit `i` of `x`.
pub fn setbit_u32(x: u32, i: i32) -> (r: u32)
    requires
        0 <= i < 32,
    ensures
        forall|j: u32|
            j < 32 ==> (r >> j) & 1 == (if j == i {
                1u32
            } else {
                (x >> j) & 1
            }),
{
    let iu: u32 = i as u32;
    proof {
        assert(forall|j: u32, xx: u32, ii: u32|
            (j < 32 && ii < 32) ==> ((xx | (1u32 << ii)) >> j) & 1 == (if j == ii {
                1u32
            } else {
                (xx >> j) & 1
            })) by (bit_vector);
    }
    x | (1u32 << iu)
}

/// Set bit `i` of `x`.
pub fn setbit_u64(x: u64, i: i32) -> (r: u64)
    requires
        0 <= i < 64,
    ensures
        forall|j: u64|
            j < 64 ==> (r >> j) & 1 == (if j == i {
                1u64
            } else {
                (x >> j) & 1
            }),
{
    let iu: u64 = i as u64;
    proof {
        assert(forall|j: u64, xx: u64, ii: u64|
            (j < 64 && ii < 64) ==> ((xx | (1u64 << ii)) >> j) & 1 == (if j == ii {
                1u64
            } else {
                (xx >> j) & 1
            })) by (bit_vector);
    }
    x | (1u64 << iu)
}

/// Clear bit `i` of `x`.
pub fn clrbit_u32(x: u32, i: i32) -> (r: u32)
    requires
        0 <= i < 32,
    ensures
        forall|j: u32|
            j < 32 ==> (r >> j) & 1 == (if j == i {
                0u32
            } else {
                (x >> j) & 1
            }),
{
    let iu: u32 = i as u32;
    proof {
        assert(forall|j: u32, xx: u32, ii: u32|
            (j < 32 && ii < 32) ==> ((xx & !(1u32 << ii)) >> j) & 1 == (if j == ii {
                0u32
            } else {
                (xx >> j) & 1
            })) by (bit_vector);
    }
    x & !(1u32 << iu)
}

/// Clear bit `i` of `x`.
pub fn clrbit_u64(x: u64, i: i32) -> (r: u64)
    requires
        0 <= i < 64,
    ensures
        forall|j: u64|
            j < 64 ==> (r >> j) & 1 == (if j == i {
                0u64
            } else {
                (x >> j) & 1
            }),
{
    let iu: u64 = i as u64;
    proof {
        assert(forall|j: u64, xx: u64, ii: u64|
            (j < 64 && ii < 64) ==> ((xx & !(1u64 << ii)) >> j) & 1 == (if j == ii {
                0u64
            } else {
                (xx >> j) & 1
            })) by (bit_vector);
    }
    x & !(1u64 << iu)
}

/// Number of significant bits: `msb + 1`, and 0 for the value 0.
pub fn numbits_u32(x: u32) -> (r: i32)
    ensures
        x == 0 ==> r == 0,
        x > 0 ==> 1 <= r <= 32 && pow2((r - 1) as nat) <= x < pow2(r as nat),
{
    msb_u32(x) + 1
}

/// Number of significant bits of the magnitude: 0 for the value 0.
pub fn numbits_i32(x: i32) -> (r: i32)
    ensures
        x == 0 ==> r == 0,
        x != 0 ==> 1 <= r <= 32 && pow2((r - 1) as nat) <= abs(x as int) < pow2(r as nat),
{
    let m: u32 = abs_i32(x);
    msb_u32(m) + 1
}

/// Number of significant bits of the magnitude: 0 for the value 0.
pub fn numbits_i64(x: i64) -> (r: i32)
    ensures
        x == 0 ==> r == 0,
        x != 0 ==> 1 <= r <= 64 && pow2((r - 1) as nat) <= abs(x as int) < pow2(r as nat),
{
    let m: u64 = abs_i64(x);
    msb_u64(m) + 1
}

} // verus!
