//! The 64-bit GCD and extended-GCD kernels.
//!
//! Every extended kernel meets the same contract, [`crate::arith::xgcd_ok`]:
//! the returned `gcd` is `gcd_int(a, b)` and `s*a + t*b == gcd` exactly.
//! The kernels differ in how the Euclidean quotients are obtained and in
//! how signs are handled; the cofactor recursion itself is the shared,
//! verified loop of [`crate::euclid`].
//!
//! Sign convention: the coefficients returned for `(|a|, |b|)` are those of
//! the shared loop, with signs flipped to match negative inputs;
//! `xgcd(a, 0)` gives `(|a|, sgn(a), 0)` and `xgcd(0, b)` gives
//! `(|b|, 0, sgn(b))`, so `xgcd(0, 0) == (0, 0, 0)` up to that convention.

use vstd::prelude::*;
use vstd::math::abs;

use crate::arith::{gcd_int, gcd_nat, xgcd_ok, lemma_gcd_nat_basics, lemma_sign_product};
use crate::bits::{abs_i64, cond_negate_i64};
use crate::euclid::{xgcd_u64, xgcd_loop_u64, QuotMethod};
use crate::reduce::{gcd_binary_l2r_u64, gcd_stein_u64, gcd_shallit_u64, gcd_blockstein_u64};
use crate::types::{XgcdI64, LeftXgcdI64, SmallQCase, XgcdCoreI64};

verus! {

/// The 64-bit signed inputs on which the (nonnegative) gcd itself fits in
/// an `i64`.  Only the three pairs built from `i64::MIN` and `0` are out:
/// their gcd is `2^63`.
pub open spec fn gcd_fits_i64(a: i64, b: i64) -> bool {
    !(a == i64::MIN && (b == i64::MIN || b == 0)) && !(a == 0 && b == i64::MIN)
}

proof fn lemma_gcd_fits_i64(a: i64, b: i64)
    requires
        gcd_fits_i64(a, b),
    ensures
        gcd_int(a as int, b as int) <= i64::MAX,
        gcd_int(a as int, b as int) == gcd_nat(abs(a as int), abs(b as int)),
{
    lemma_gcd_nat_basics(abs(a as int), abs(b as int));
}

/// Shared signed driver: reduce to magnitudes, run the requested kernel,
/// flip the coefficient signs back with plain branches.
fn xgcd_signed_branching_i64(a: i64, b: i64, method: QuotMethod) -> (r: XgcdI64)
    requires
        gcd_fits_i64(a, b),
    ensures
        xgcd_ok(a as int, b as int, r.gcd as int, r.s as int, r.t as int),
        r.gcd >= 0,
{
    let am: u64 = abs_i64(a);
    let bm: u64 = abs_i64(b);
    proof {
        lemma_gcd_fits_i64(a, b);
    }
    let (g, sm, tm) = xgcd_u64(am, bm, method);
    let s: i64 = if a < 0 {
        -sm
    } else {
        sm
    };
    let t: i64 = if b < 0 {
        -tm
    } else {
        tm
    };
    proof {
        lemma_sign_product(s as int, a as int, sm as int, am as int);
        lemma_sign_product(t as int, b as int, tm as int, bm as int);
    }
    XgcdI64 { gcd: g as i64, s, t }
}

/// Shared signed driver with mask-based (branch-free) sign restoration.
fn xgcd_signed_masked_i64(a: i64, b: i64, method: QuotMethod) -> (r: XgcdI64)
    requires
        gcd_fits_i64(a, b),
    ensures
        xgcd_ok(a as int, b as int, r.gcd as int, r.s as int, r.t as int),
        r.gcd >= 0,
{
    let am: u64 = abs_i64(a);
    let bm: u64 = abs_i64(b);
    proof {
        lemma_gcd_fits_i64(a, b);
    }
    let (g, sm, tm) = xgcd_u64(am, bm, method);
    let s: i64 = cond_negate_i64(a, sm);
    let t: i64 = cond_negate_i64(b, tm);
    proof {
        lemma_sign_product(s as int, a as int, sm as int, am as int);
        lemma_sign_product(t as int, b as int, tm as int, bm as int);
    }
    XgcdI64 { gcd: g as i64, s, t }
}

/// Left-to-right binary gcd of two unsigned words.
pub fn gcd_binary_u64(a: u64, b: u64) -> (g: u64)
    ensures
        g == gcd_int(a as int, b as int),
{
    gcd_binary_l2r_u64(a, b)
}

/// Stein (right-to-left binary) gcd of two signed words.
pub fn gcd_stein_i64(a: i64, b: i64) -> (g: i64)
    requires
        gcd_fits_i64(a, b),
    ensures
        g == gcd_int(a as int, b as int),
        g >= 0,
{
    let am: u64 = abs_i64(a);
    let bm: u64 = abs_i64(b);
    proof {
        lemma_gcd_fits_i64(a, b);
    }
    gcd_stein_u64(am, bm) as i64
}

/// Extended gcd, left-to-right binary quotients, mask-based sign handling.
pub fn xgcd_binary_i64(a: i64, b: i64) -> (r: XgcdI64)
    requires
        gcd_fits_i64(a, b),
    ensures
        xgcd_ok(a as int, b as int, r.gcd as int, r.s as int, r.t as int),
        r.gcd >= 0,
{
    xgcd_signed_masked_i64(a, b, QuotMethod::BinaryL2r)
}

/// Extended gcd, left-to-right binary quotients, explicit branches for the
/// sign handling (kept alongside the mask-based kernel for comparison).
pub fn xgcd_binary_i64_branching(a: i64, b: i64) -> (r: XgcdI64)
    requires
        gcd_fits_i64(a, b),
    ensures
        xgcd_ok(a as int, b as int, r.gcd as int, r.s as int, r.t as int),
        r.gcd >= 0,
{
    xgcd_signed_branching_i64(a, b, QuotMethod::BinaryL2r)
}

/// Left extended gcd: only the coefficient of `a` is returned.
pub fn xgcd_left_binary_i64(a: i64, b: i64) -> (r: LeftXgcdI64)
    requires
        gcd_fits_i64(a, b),
    ensures
        r.gcd == gcd_int(a as int, b as int),
        exists|t: int| r.s * a + #[trigger] (t * b) == r.gcd,
        r.gcd >= 0,
{
    let full = xgcd_signed_masked_i64(a, b, QuotMethod::BinaryL2r);
    proof {
        assert(full.s * a + (full.t as int) * (b as int) == full.gcd);
    }
    LeftXgcdI64 { gcd: full.gcd, s: full.s }
}

/// Extended Stein gcd: the gcd comes from the right-to-left binary
/// reduction, the Bezout pair from the shared verified loop.
pub fn xgcd_stein_i64(a: i64, b: i64) -> (r: XgcdI64)
    requires
        gcd_fits_i64(a, b),
    ensures
        xgcd_ok(a as int, b as int, r.gcd as int, r.s as int, r.t as int),
        r.gcd >= 0,
{
    let am: u64 = abs_i64(a);
    let bm: u64 = abs_i64(b);
    proof {
        lemma_gcd_fits_i64(a, b);
    }
    let g = gcd_stein_u64(am, bm);
    let full = xgcd_signed_branching_i64(a, b, QuotMethod::Division);
    XgcdI64 { gcd: g as i64, s: full.s, t: full.t }
}

/// Extended Shallit-style gcd: the gcd comes from the eager-stripping
/// subtractive reduction, the Bezout pair from the shared verified loop.
pub fn xgcd_shallit_i64(a: i64, b: i64) -> (r: XgcdI64)
    requires
        gcd_fits_i64(a, b),
    ensures
        xgcd_ok(a as int, b as int, r.gcd as int, r.s as int, r.t as int),
        r.gcd >= 0,
{
    let am: u64 = abs_i64(a);
    let bm: u64 = abs_i64(b);
    proof {
        lemma_gcd_fits_i64(a, b);
    }
    let g = gcd_shallit_u64(am, bm);
    let full = xgcd_signed_branching_i64(a, b, QuotMethod::Division);
    XgcdI64 { gcd: g as i64, s: full.s, t: full.t }
}

/// Extended blocked-Stein gcd with the given block width.
fn xgcd_blockstein_i64(a: i64, b: i64, block: usize) -> (r: XgcdI64)
    requires
        gcd_fits_i64(a, b),
        block >= 1,
    ensures
        xgcd_ok(a as int, b as int, r.gcd as int, r.s as int, r.t as int),
        r.gcd >= 0,
{
    let am: u64 = abs_i64(a);
    let bm: u64 = abs_i64(b);
    proof {
        lemma_gcd_fits_i64(a, b);
    }
    let g = gcd_blockstein_u64(am, bm, block);
    let full = xgcd_signed_branching_i64(a, b, QuotMethod::Division);
    XgcdI64 { gcd: g as i64, s: full.s, t: full.t }
}

/// Extended blocked-Stein gcd, two bits per block.
pub fn xgcd_blockstein2_i64(a: i64, b: i64) -> (r: XgcdI64)
    requires
        gcd_fits_i64(a, b),
    ensures
        xgcd_ok(a as int, b as int, r.gcd as int, r.s as int, r.t as int),
        r.gcd >= 0,
{
    xgcd_blockstein_i64(a, b, 2)
}

/// Extended blocked-Stein gcd, three bits per block.
pub fn xgcd_blockstein3_i64(a: i64, b: i64) -> (r: XgcdI64)
    requires
        gcd_fits_i64(a, b),
    ensures
        xgcd_ok(a as int, b as int, r.gcd as int, r.s as int, r.t as int),
        r.gcd >= 0,
{
    xgcd_blockstein_i64(a, b, 3)
}

/// Extended blocked-Stein gcd, four bits per block.
pub fn xgcd_blockstein4_i64(a: i64, b: i64) -> (r: XgcdI64)
    requires
        gcd_fits_i64(a, b),
    ensures
        xgcd_ok(a as int, b as int, r.gcd as int, r.s as int, r.t as int),
        r.gcd >= 0,
{
    xgcd_blockstein_i64(a, b, 4)
}

/// Extended blocked-Stein gcd, five bits per block.
pub fn xgcd_blockstein5_i64(a: i64, b: i64) -> (r: XgcdI64)
    requires
        gcd_fits_i64(a, b),
    ensures
        xgcd_ok(a as int, b as int, r.gcd as int, r.s as int, r.t as int),
        r.gcd >= 0,
{
    xgcd_blockstein_i64(a, b, 5)
}

/// Extended gcd by classical Euclidean division.
pub fn xgcd_divrem_i64(a: i64, b: i64) -> (r: XgcdI64)
    requires
        gcd_fits_i64(a, b),
    ensures
        xgcd_ok(a as int, b as int, r.gcd as int, r.s as int, r.t as int),
        r.gcd >= 0,
{
    xgcd_signed_branching_i64(a, b, QuotMethod::Division)
}

/// Left extended gcd by classical Euclidean division.
pub fn xgcd_left_divrem_i64(a: i64, b: i64) -> (r: LeftXgcdI64)
    requires
        gcd_fits_i64(a, b),
    ensures
        r.gcd == gcd_int(a as int, b as int),
        exists|t: int| r.s * a + #[trigger] (t * b) == r.gcd,
        r.gcd >= 0,
{
    let full = xgcd_signed_branching_i64(a, b, QuotMethod::Division);
    proof {
        assert(full.s * a + (full.t as int) * (b as int) == full.gcd);
    }
    LeftXgcdI64 { gcd: full.gcd, s: full.s }
}

/// Extended gcd with Brent-style quotients: each quotient is assembled by
/// repeated doubling instead of a division instruction.
pub fn xgcd_brent_i64(a: i64, b: i64) -> (r: XgcdI64)
    requires
        gcd_fits_i64(a, b),
    ensures
        xgcd_ok(a as int, b as int, r.gcd as int, r.s as int, r.t as int),
        r.gcd >= 0,
{
    xgcd_signed_branching_i64(a, b, QuotMethod::Doubling)
}

/// Extended gcd with Lehmer-style narrowing: once both remainders fit in
/// 32 bits the quotients are computed in 32-bit precision.
pub fn xgcd_lehmer_i64(a: i64, b: i64) -> (r: XgcdI64)
    requires
        gcd_fits_i64(a, b),
    ensures
        xgcd_ok(a as int, b as int, r.gcd as int, r.s as int, r.t as int),
        r.gcd >= 0,
{
    xgcd_signed_branching_i64(a, b, QuotMethod::Narrow32)
}

/// Extended gcd in the style of the reference library: operands are
/// ordered by magnitude before the division loop, and the coefficients are
/// swapped back.
pub fn xgcd_flint_i64(a: i64, b: i64) -> (r: XgcdI64)
    requires
        gcd_fits_i64(a, b),
    ensures
        xgcd_ok(a as int, b as int, r.gcd as int, r.s as int, r.t as int),
        r.gcd >= 0,
{
    let am: u64 = abs_i64(a);
    let bm: u64 = abs_i64(b);
    proof {
        lemma_gcd_fits_i64(a, b);
    }
    let (g, sm, tm) = if am >= bm {
        xgcd_u64(am, bm, QuotMethod::Division)
    } else {
        let (g2, s2, t2) = xgcd_u64(bm, am, QuotMethod::Division);
        proof {
            crate::arith::lemma_gcd_nat_comm(bm as nat, am as nat);
        }
        (g2, t2, s2)
    };
    let s: i64 = if a < 0 {
        -sm
    } else {
        sm
    };
    let t: i64 = if b < 0 {
        -tm
    } else {
        tm
    };
    proof {
        lemma_sign_product(s as int, a as int, sm as int, am as int);
        lemma_sign_product(t as int, b as int, tm as int, bm as int);
    }
    XgcdI64 { gcd: g as i64, s, t }
}

/// Extended gcd dispatched by kernel selector.
pub fn xgcd_common_i64(core: XgcdCoreI64, a: i64, b: i64) -> (r: XgcdI64)
    requires
        gcd_fits_i64(a, b),
    ensures
        xgcd_ok(a as int, b as int, r.gcd as int, r.s as int, r.t as int),
        r.gcd >= 0,
{
    match core {
        XgcdCoreI64::BinaryL2r => xgcd_binary_i64(a, b),
        XgcdCoreI64::BinaryL2rBranching => xgcd_binary_i64_branching(a, b),
        XgcdCoreI64::Stein => xgcd_stein_i64(a, b),
        XgcdCoreI64::Divrem => xgcd_divrem_i64(a, b),
        XgcdCoreI64::Brent => xgcd_brent_i64(a, b),
        XgcdCoreI64::Lehmer => xgcd_lehmer_i64(a, b),
        XgcdCoreI64::Shallit => xgcd_shallit_i64(a, b),
        XgcdCoreI64::Flint => xgcd_flint_i64(a, b),
        XgcdCoreI64::BlockStein2 => xgcd_blockstein2_i64(a, b),
        XgcdCoreI64::BlockStein3 => xgcd_blockstein3_i64(a, b),
        XgcdCoreI64::BlockStein4 => xgcd_blockstein4_i64(a, b),
        XgcdCoreI64::BlockStein5 => xgcd_blockstein5_i64(a, b),
    }
}

/// The quotient a small-quotient case stands for.
pub open spec fn small_q(case: SmallQCase) -> int {
    match case {
        SmallQCase::Q0 => 0,
        SmallQCase::Q1 => 1,
        SmallQCase::Q2 => 2,
        SmallQCase::Q3 => 3,
        SmallQCase::Q4 => 4,
        SmallQCase::Q5 => 5,
    }
}

/// One fixed-quotient Euclidean step followed by the shared loop: callers
/// promise that `u3 / v3` is exactly the selected quotient, so the first
/// reduction needs no division at all.
pub fn xgcd_smallq_case_i64(case: SmallQCase, u3: i64, v3: i64) -> (r: XgcdI64)
    requires
        0 <= u3,
        1 <= v3,
        u3 as int / v3 as int == small_q(case),
    ensures
        xgcd_ok(u3 as int, v3 as int, r.gcd as int, r.s as int, r.t as int),
        r.gcd >= 0,
{
    let a: u64 = u3 as u64;
    let b: u64 = v3 as u64;
    let q: u64 = match case {
        SmallQCase::Q0 => 0,
        SmallQCase::Q1 => 1,
        SmallQCase::Q2 => 2,
        SmallQCase::Q3 => 3,
        SmallQCase::Q4 => 4,
        SmallQCase::Q5 => 5,
    };
    proof {
        vstd::arithmetic::div_mod::lemma_fundamental_div_mod(a as int, b as int);
        vstd::arithmetic::div_mod::lemma_mod_division_less_than_divisor(a as int, b as int);
        assert(q * b <= a) by (nonlinear_arith)
            requires
                a as int == b as int * (a as int / b as int) + a as int % b as int,
                q == a as int / b as int,
                a as int % b as int >= 0,
                b >= 1,
        ;
    }
    // the specialised step: subtract `v3` exactly `q` times
    let mut r2: u64 = a;
    let mut i: u64 = 0;
    while i < q
        invariant
            i <= q,
            r2 == a - i * b,
            q * b <= a,
            b >= 1,
            q <= 5,
        decreases q - i,
    {
        proof {
            assert((i + 1) * b == i * b + b) by (nonlinear_arith);
            assert(i * b + b <= q * b) by (nonlinear_arith)
                requires
                    i + 1 <= q,
                    b >= 1,
                    (i + 1) * b == i * b + b,
            ;
        }
        r2 = r2 - b;
        i = i + 1;
    }
    proof {
        assert(r2 == a - q * b);
        assert(r2 == a as int % b as int) by (nonlinear_arith)
            requires
                r2 == a - q * b,
                a as int == b as int * (a as int / b as int) + a as int % b as int,
                q == a as int / b as int,
        ;
    }
    if r2 == 0 {
        proof {
            assert(gcd_nat(a as nat, b as nat) == gcd_nat(b as nat, 0));
        }
        return XgcdI64 { gcd: v3, s: 0, t: 1 };
    }
    proof {
        // the state after one Euclidean step of the shared loop
        assert(1int * a + (-(q as int)) * b == r2) by (nonlinear_arith)
            requires
                r2 == a - q * b,
        ;
        assert(abs(1int) == 1 && abs(0int) == 0);
        assert(abs(1int) * (b as int) + abs(0int) * (r2 as int) == b) by (nonlinear_arith)
            requires
                abs(1int) == 1 && abs(0int) == 0,
        ;
        assert(abs(-(q as int)) * (b as int) + abs(1int) * (r2 as int) == a) by (nonlinear_arith)
            requires
                r2 == a - q * b,
                q >= 0,
                b >= 1,
                r2 >= 0,
        ;
        assert(gcd_nat(a as nat, b as nat) == gcd_nat(b as nat, r2 as nat));
        if q >= 1 {
            assert(b >= 2) by {
                if b == 1 {
                    assert(a as int % 1int == 0) by {
                        vstd::arithmetic::div_mod::lemma_mod_self_0(1int);
                        vstd::arithmetic::div_mod::lemma_mod_multiples_basic(a as int, 1int);
                    }
                }
            }
            assert(2 * q <= a) by (nonlinear_arith)
                requires
                    q * b <= a,
                    b >= 2,
                    q >= 1,
            ;
        }
    }
    let qi: i64 = q as i64;
    let (g, sm, tm) = xgcd_loop_u64(a, b, b, r2, 0, 1, 1, -qi, QuotMethod::Division);
    proof {
        lemma_gcd_nat_basics(a as nat, b as nat);
    }
    XgcdI64 { gcd: g as i64, s: sm, t: tm }
}

/// Small-quotient loop entry: each quotient is sought by at most the
/// selected number of subtractions before falling back to division.
pub fn xgcd_smallq_loop_i64(case: SmallQCase, u3: i64, v3: i64) -> (r: XgcdI64)
    requires
        0 <= u3,
        0 <= v3,
    ensures
        xgcd_ok(u3 as int, v3 as int, r.gcd as int, r.s as int, r.t as int),
        r.gcd >= 0,
{
    let cap: u64 = match case {
        SmallQCase::Q0 => 0,
        SmallQCase::Q1 => 1,
        SmallQCase::Q2 => 2,
        SmallQCase::Q3 => 3,
        SmallQCase::Q4 => 4,
        SmallQCase::Q5 => 5,
    };
    xgcd_signed_branching_i64(u3, v3, QuotMethod::SmallQ(cap))
}

} // verus!
