//! The 128-bit extended-GCD kernels, mirroring the 64-bit family on
//! software 128-bit values.
//!
//! All kernels meet [`crate::arith::xgcd_ok`]; they differ in how the
//! Euclidean quotients are obtained: machine division, shifted
//! subtraction, doubling chains, or Lehmer-style narrowing to 32- or
//! 64-bit division once the remainders fit.

use vstd::prelude::*;
use vstd::math::abs;

use crate::arith::{gcd_int, gcd_nat, xgcd_ok, lemma_gcd_nat_basics, lemma_sign_product};
use crate::euclid::{xgcd_u128, QuotMethod};
use crate::int128::gcd_fits_i128;
use crate::reduce::{gcd_stein_u128, gcd_shallit_u128};
use crate::types::{XgcdI128, LeftXgcdI128};

verus! {

proof fn lemma_gcd_fits_i128x(a: i128, b: i128)
    requires
        gcd_fits_i128(a, b),
    ensures
        gcd_int(a as int, b as int) <= i128::MAX,
        gcd_int(a as int, b as int) == gcd_nat(abs(a as int), abs(b as int)),
{
    lemma_gcd_nat_basics(abs(a as int), abs(b as int));
}

/// The unsigned magnitude of a signed 128-bit value.
fn mag_i128(x: i128) -> (r: u128)
    ensures
        r == abs(x as int),
{
    if x >= 0 {
        x as u128
    } else if x == i128::MIN {
        0x8000_0000_0000_0000_0000_0000_0000_0000u128
    } else {
        (-x) as u128
    }
}

/// Shared signed driver: reduce to magnitudes, run the requested kernel,
/// flip the coefficient signs back.
fn xgcd_signed_i128(a: i128, b: i128, method: QuotMethod) -> (r: XgcdI128)
    requires
        gcd_fits_i128(a, b),
    ensures
        xgcd_ok(a as int, b as int, r.gcd as int, r.s as int, r.t as int),
        r.gcd >= 0,
{
    let am: u128 = mag_i128(a);
    let bm: u128 = mag_i128(b);
    proof {
        lemma_gcd_fits_i128x(a, b);
    }
    let (g, sm, tm) = xgcd_u128(am, bm, method);
    let s: i128 = if a < 0 {
        -sm
    } else {
        sm
    };
    let t: i128 = if b < 0 {
        -tm
    } else {
        tm
    };
    proof {
        lemma_sign_product(s as int, a as int, sm as int, am as int);
        lemma_sign_product(t as int, b as int, tm as int, bm as int);
    }
    XgcdI128 { gcd: g as i128, s, t }
}

/// Extended gcd, left-to-right binary quotients.
pub fn xgcd_binary_i128(a: i128, b: i128) -> (r: XgcdI128)
    requires
        gcd_fits_i128(a, b),
    ensures
        xgcd_ok(a as int, b as int, r.gcd as int, r.s as int, r.t as int),
        r.gcd >= 0,
{
    xgcd_signed_i128(a, b, QuotMethod::BinaryL2r)
}

/// Left extended gcd: only the coefficient of `a` is returned.
pub fn xgcd_left_binary_i128(a: i128, b: i128) -> (r: LeftXgcdI128)
    requires
        gcd_fits_i128(a, b),
    ensures
        r.gcd == gcd_int(a as int, b as int),
        exists|t: int| r.s * a + #[trigger] (t * b) == r.gcd,
        r.gcd >= 0,
{
    let full = xgcd_signed_i128(a, b, QuotMethod::BinaryL2r);
    proof {
        assert(full.s * a + (full.t as int) * (b as int) == full.gcd);
    }
    LeftXgcdI128 { gcd: full.gcd, s: full.s }
}

/// Extended gcd by classical Euclidean division.
pub fn xgcd_divrem_i128(a: i128, b: i128) -> (r: XgcdI128)
    requires
        gcd_fits_i128(a, b),
    ensures
        xgcd_ok(a as int, b as int, r.gcd as int, r.s as int, r.t as int),
        r.gcd >= 0,
{
    xgcd_signed_i128(a, b, QuotMethod::Division)
}

/// Extended Stein gcd: the gcd from the right-to-left binary reduction,
/// the Bezout pair from the shared verified loop.
pub fn xgcd_stein_i128(a: i128, b: i128) -> (r: XgcdI128)
    requires
        gcd_fits_i128(a, b),
    ensures
        xgcd_ok(a as int, b as int, r.gcd as int, r.s as int, r.t as int),
        r.gcd >= 0,
{
    let am: u128 = mag_i128(a);
    let bm: u128 = mag_i128(b);
    proof {
        lemma_gcd_fits_i128x(a, b);
    }
    let g = gcd_stein_u128(am, bm);
    let full = xgcd_signed_i128(a, b, QuotMethod::Division);
    XgcdI128 { gcd: g as i128, s: full.s, t: full.t }
}

/// Extended Shallit-style gcd: the gcd from the eager-stripping
/// subtractive reduction, the Bezout pair from the shared verified loop.
pub fn xgcd_shallit_i128(a: i128, b: i128) -> (r: XgcdI128)
    requires
        gcd_fits_i128(a, b),
    ensures
        xgcd_ok(a as int, b as int, r.gcd as int, r.s as int, r.t as int),
        r.gcd >= 0,
{
    let am: u128 = mag_i128(a);
    let bm: u128 = mag_i128(b);
    proof {
        lemma_gcd_fits_i128x(a, b);
    }
    let g = gcd_shallit_u128(am, bm);
    let full = xgcd_signed_i128(a, b, QuotMethod::Division);
    XgcdI128 { gcd: g as i128, s: full.s, t: full.t }
}

/// Extended gcd with Brent-style doubling-chain quotients.
pub fn xgcd_brent_i128(a: i128, b: i128) -> (r: XgcdI128)
    requires
        gcd_fits_i128(a, b),
    ensures
        xgcd_ok(a as int, b as int, r.gcd as int, r.s as int, r.t as int),
        r.gcd >= 0,
{
    xgcd_signed_i128(a, b, QuotMethod::Doubling)
}

/// Extended gcd with Lehmer-style narrowing to 64-bit division.
pub fn xgcd_lehmer_i128(a: i128, b: i128) -> (r: XgcdI128)
    requires
        gcd_fits_i128(a, b),
    ensures
        xgcd_ok(a as int, b as int, r.gcd as int, r.s as int, r.t as int),
        r.gcd >= 0,
{
    xgcd_signed_i128(a, b, QuotMethod::Narrow64)
}

/// Lehmer narrowing with a 32-bit inner division.
pub fn xgcd_lehmer_i128_s32eea(a: i128, b: i128) -> (r: XgcdI128)
    requires
        gcd_fits_i128(a, b),
    ensures
        xgcd_ok(a as int, b as int, r.gcd as int, r.s as int, r.t as int),
        r.gcd >= 0,
{
    xgcd_signed_i128(a, b, QuotMethod::Narrow32)
}

/// Lehmer narrowing with a 64-bit inner division.
pub fn xgcd_lehmer_i128_s64eea(a: i128, b: i128) -> (r: XgcdI128)
    requires
        gcd_fits_i128(a, b),
    ensures
        xgcd_ok(a as int, b as int, r.gcd as int, r.s as int, r.t as int),
        r.gcd >= 0,
{
    xgcd_signed_i128(a, b, QuotMethod::Narrow64)
}

/// Lehmer narrowing with a 64-bit left-to-right binary inner step.
pub fn xgcd_lehmer_i128_s64l2r(a: i128, b: i128) -> (r: XgcdI128)
    requires
        gcd_fits_i128(a, b),
    ensures
        xgcd_ok(a as int, b as int, r.gcd as int, r.s as int, r.t as int),
        r.gcd >= 0,
{
    xgcd_signed_i128(a, b, QuotMethod::Narrow64L2r)
}

} // verus!
