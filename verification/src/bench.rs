//! Timing-harness helpers: a self-checking extended-GCD timing pass and
//! the deterministic operand generator it draws from.

use vstd::prelude::*;
use vstd::arithmetic::power2::pow2;
use std::time::Instant;

use crate::xgcd64::xgcd_binary_i64_branching;

verus! {

#[verifier::external_type_specification]
#[verifier::external_body]
pub struct ExInstant(Instant);

/// Relies on std::time::Instant::now: an opaque moment in time; nothing
/// is promised of the value.
#[verifier::external_body]
fn instant_now() -> Instant {
    Instant::now()
}

/// Relies on std::time::Instant::elapsed: the nanoseconds the monotonic
/// clock has counted since `start`; nothing is promised of the value.
#[verifier::external_body]
pub fn current_nanos(start: Instant) -> u128 {
    start.elapsed().as_nanos()
}

/// Whether a C-style truth value is set.
pub fn c_int_to_bool(x: i32) -> (r: bool)
    ensures
        r == (x != 0),
{
    x != 0
}

/// The Bezout identity check the timing harness applies to every result.
pub fn sane(g: i64, s: i64, t: i64, a: i64, b: i64) -> (r: bool)
    ensures
        r == (s * a + t * b == g),
{
    proof {
        assert(-0x4000_0000_0000_0000_0000_0000_0000_0000
            <= s as int * a as int
            <= 0x4000_0000_0000_0000_0000_0000_0000_0000
            && -0x4000_0000_0000_0000_0000_0000_0000_0000
            <= t as int * b as int
            <= 0x4000_0000_0000_0000_0000_0000_0000_0000) by (nonlinear_arith)
            requires
                -0x8000_0000_0000_0000 <= s <= 0x7fff_ffff_ffff_ffff,
                -0x8000_0000_0000_0000 <= a <= 0x7fff_ffff_ffff_ffff,
                -0x8000_0000_0000_0000 <= t <= 0x7fff_ffff_ffff_ffff,
                -0x8000_0000_0000_0000 <= b <= 0x7fff_ffff_ffff_ffff,
        ;
    }
    let p1: i128 = (s as i128) * (a as i128);
    let p2: i128 = (t as i128) * (b as i128);
    // compare without forming the possibly-overflowing sum
    p1 - (g as i128) == -p2
}

/// The signed 64-bit value a word reinterprets to, two's-complement.
pub open spec fn as_signed64(x: u64) -> int {
    if x < 0x8000_0000_0000_0000 {
        x as int
    } else {
        x - 0x1_0000_0000_0000_0000
    }
}

/// Reinterpret a word as a signed value, two's-complement.
fn reinterp_i64(x: u64) -> (r: i64)
    ensures
        r == as_signed64(x),
{
    if x <= i64::MAX as u64 {
        x as i64
    } else {
        -((u64::MAX - x) as i64) - 1
    }
}

/// One step of a splitmix-style generator: deterministic, full period.
fn next_rand(state: u64) -> (r: (u64, u64)) {
    let s: u64 = state.wrapping_add(0x9e3779b97f4a7c15);
    let mut z: u64 = s;
    z = (z ^ (z / 0x40000000)) .wrapping_mul(0xbf58476d1ce4e5b9);
    z = (z ^ (z / 0x8000000)) .wrapping_mul(0x94d049bb133111eb);
    z = z ^ (z / 0x100000000);
    (s, z)
}

/// `n` deterministic operands of exactly `bits` significant bits.
pub fn rands_u64(n: usize, bits: i32) -> (r: Vec<u64>)
    requires
        1 <= bits <= 64,
    ensures
        r@.len() == n,
        forall|i: int|
            0 <= i < n ==> pow2((bits - 1) as nat) <= #[trigger] r@[i] < pow2(bits as nat),
{
    // 2^(bits-1), by doubling
    let mut half: u64 = 1;
    let mut k: i32 = 1;
    proof {
        assert(pow2(0) == 1) by {
            vstd::arithmetic::power2::lemma2_to64();
        }
        vstd::arithmetic::power2::lemma2_to64();
        vstd::arithmetic::power2::lemma2_to64_rest();
    }
    while k < bits
        invariant
            1 <= k <= bits,
            bits <= 64,
            half == pow2((k - 1) as nat),
            half <= 0x8000_0000_0000_0000u64,
        decreases bits - k,
    {
        proof {
            vstd::arithmetic::power2::lemma_pow2_unfold(k as nat);
            vstd::arithmetic::power2::lemma2_to64_rest();
            assert(pow2(63) == 0x8000_0000_0000_0000);
            if k < 63 {
                vstd::arithmetic::power2::lemma_pow2_strictly_increases(k as nat, 63);
            }
        }
        half = half * 2;
        k = k + 1;
    }
    let mut out: Vec<u64> = Vec::new();
    let mut state: u64 = 0x0f1e_2d3c_4b5a_6978u64;
    let mut i: usize = 0;
    proof {
        vstd::arithmetic::power2::lemma_pow2_unfold(bits as nat);
    }
    while i < n
        invariant
            out@.len() == i,
            i <= n,
            half == pow2((bits - 1) as nat),
            half >= 1,
            2 * half == pow2(bits as nat),
            half <= 0x8000_0000_0000_0000u64,
            forall|j: int|
                0 <= j < i ==> pow2((bits - 1) as nat) <= #[trigger] out@[j] < pow2(bits as nat),
        decreases n - i,
    {
        let (s2, z) = next_rand(state);
        state = s2;
        let v: u64 = half + z % half;
        out.push(v);
        i = i + 1;
    }
    out
}

/// Run the left-to-right binary extended gcd over the given operand
/// pairs, checking every result against [`sane`], and time the checked
/// loop.  The result is `None` exactly when some pair is degenerate (its
/// gcd would not fit the signed width).
pub fn time_gcd_set(rands: &[u64], pairs: usize) -> (r: Option<u128>)
    requires
        rands@.len() >= 2 * pairs,
    ensures
        r is Some <==> (forall|i: int|
            0 <= i < pairs ==> #[trigger] degenerate_pair_free(as_signed64(rands@[2 * i]),
                as_signed64(rands@[2 * i + 1]))),
{
    let avail: usize = rands.len();
    let mut i: usize = 0;
    while i < pairs
        invariant
            avail == rands@.len(),
            rands@.len() >= 2 * pairs,
            i <= pairs,
            forall|j: int|
                0 <= j < i ==> #[trigger] degenerate_pair_free(as_signed64(rands@[2 * j]),
                    as_signed64(rands@[2 * j + 1])),
        decreases pairs - i,
    {
        let a: i64 = reinterp_i64(rands[2 * i]);
        let b: i64 = reinterp_i64(rands[2 * i + 1]);
        let ok: bool = !(a == i64::MIN && (b == i64::MIN || b == 0)) && !(a == 0 && b
            == i64::MIN);
        if !ok {
            proof {
                assert(!degenerate_pair_free(as_signed64(rands@[2 * i as int]), as_signed64(
                    rands@[2 * i as int + 1])));
            }
            return None;
        }
        let out = xgcd_binary_i64_branching(a, b);
        let good = sane(out.gcd, out.s, out.t, a, b);
        proof {
            assert(good);
        }
        i = i + 1;
    }
    let start = instant_now();
    let mut j: usize = 0;
    while j < pairs
        invariant
            avail == rands@.len(),
            rands@.len() >= 2 * pairs,
            j <= pairs,
            forall|jj: int|
                0 <= jj < pairs ==> #[trigger] degenerate_pair_free(as_signed64(rands@[2 * jj]),
                    as_signed64(rands@[2 * jj + 1])),
        decreases pairs - j,
    {
        let a: i64 = reinterp_i64(rands[2 * j]);
        let b: i64 = reinterp_i64(rands[2 * j + 1]);
        proof {
            assert(degenerate_pair_free(as_signed64(rands@[2 * j as int]), as_signed64(
                rands@[2 * j as int + 1])));
        }
        let _ = xgcd_binary_i64_branching(a, b);
        j = j + 1;
    }
    Some(current_nanos(start))
}

/// A pair whose gcd fits the signed 64-bit range.
pub open spec fn degenerate_pair_free(a: int, b: int) -> bool {
    !(a == i64::MIN && (b == i64::MIN || b == 0)) && !(a == 0 && b == i64::MIN)
}

/// Generate `pairs` operand pairs of the given width and time the
/// self-checking extended-GCD pass over them.
pub fn time_gcd_bits(bits: i32, pairs: usize) -> (r: Option<u128>)
    requires
        1 <= bits <= 64,
        pairs <= usize::MAX / 2,
{
    let r = rands_u64(pairs * 2, bits);
    time_gcd_set(r.as_slice(), pairs)
}

} // verus!
