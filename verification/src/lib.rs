//! Fixed-width GCD and extended-GCD kernels, with the software 128-bit
//! arithmetic several of them build on.
//!
//! Every kernel of one width meets one shared contract: the returned gcd
//! is the mathematical gcd of the inputs and the coefficients satisfy
//! Bezout's identity exactly.  The many algorithmic variants (binary,
//! Stein, blocked Stein, Euclidean division, Brent-style doubling,
//! Lehmer-style narrowing, Shallit-style subtraction) are therefore
//! interchangeable by construction; see [`laws`] for the cross-kernel
//! statements.

pub mod arith;
pub mod bench;
pub mod bits;
pub mod decimal;
pub mod euclid;
pub mod int128;
pub mod laws;
pub mod partial;
pub mod primes;
pub mod reduce;
pub mod scalar;
pub mod types;
pub mod xgcd32;
pub mod xgcd128;
pub mod xgcd64;

pub use types::{
    XgcdU32, XgcdI32, XgcdI64, XgcdI128, LeftXgcdI32, LeftXgcdI64, LeftXgcdI128, PartialXgcdI32,
    PartialXgcdI64, PartialXgcdI128, SmallQCase, XgcdCoreI64, ParseMpzError, PathError,
    TwoThreeTerm, FactoredTwoThreeTerm16, QuadI32,
};
pub use bits::{
    ceil_pow2_u32, sub_with_mask_u32, sub_with_mask_i32, sub_with_mask_u64, sub_with_mask_i64,
    swap_u32, swap_i32, swap_i64, cond_swap_i32, cond_swap_i64, cond_swap2_i32, cond_swap2_i64,
    cond_swap3_i32, cond_swap3_i64, cond_swap3_i64_mixed, cond_swap4_i32, negate_using_mask_i32,
    negate_using_mask_i64, cond_negate_i32, cond_negate_i64, abs_i32, abs_i64, s64_fits_i32,
    msb_u32, msb_u64, lsb_u32, lsb_u64, lsb_i32, lsb_i64, setbit_u32, setbit_u64, clrbit_u32,
    clrbit_u64, numbits_u32, numbits_i32, numbits_i64,
};
pub use scalar::{
    addmod_i32, addmod_i64, submod_i32, submod_i64, mulmod_u32, mulmod_u64, mulmod_i32,
    mulmod_i64, divrem_u32, divrem_i32, divrem_u64, divrem_i64, sqrt_u32, sqrt_u64, is_square_u64,
    is_square_i64, expmod_u64, mod_u32_u64_u32, mod_i32_i64_u32, muladdmul_i64_4i32,
    muladdmuldiv_i64,
};
pub use xgcd32::{
    gcd_binary_u32, gcd_stein_i32, xgcd_binary_i32, xgcd_left_binary_i32, xgcd_stein_i32,
    xgcd_blockstein2_i32, xgcd_blockstein3_i32, xgcd_blockstein4_i32, xgcd_blockstein5_i32,
    xgcd_divrem_u32, xgcd_divrem_i32, xgcd_left_divrem_i32, xgcd_brent_i32, xgcd_lehmer_i32,
    xgcd_flint_i32, xgcd_shallit_i32, xgcd_smallq_case_i32, xgcd_smallq_loop_i32,
};
pub use xgcd64::{
    gcd_binary_u64, gcd_stein_i64, xgcd_binary_i64, xgcd_binary_i64_branching,
    xgcd_left_binary_i64, xgcd_stein_i64, xgcd_blockstein2_i64, xgcd_blockstein3_i64,
    xgcd_blockstein4_i64, xgcd_blockstein5_i64, xgcd_divrem_i64, xgcd_left_divrem_i64,
    xgcd_brent_i64, xgcd_lehmer_i64, xgcd_flint_i64, xgcd_shallit_i64, xgcd_common_i64,
    xgcd_smallq_case_i64, xgcd_smallq_loop_i64,
};
pub use xgcd128::{
    xgcd_binary_i128, xgcd_left_binary_i128, xgcd_divrem_i128, xgcd_stein_i128, xgcd_brent_i128,
    xgcd_lehmer_i128, xgcd_lehmer_i128_s32eea, xgcd_lehmer_i128_s64eea, xgcd_lehmer_i128_s64l2r,
    xgcd_shallit_i128,
};
pub use int128::{
    U128Parts, S128Parts, to_u128_t, from_u128_t, to_s128_t, from_s128_t, to_s128_t_for_gmp,
    from_s128_t_for_gmp, add_u128, sub_u128, mul_u128, shl_u128, shr_u128, msb_u128, gcd_u128,
    gcd_binary_u128, gcd_i128, sqrt_u128, sqrt_i128, divrem_u128, is_divisible_i128_i128,
    is_divisible_i128_i64, is_divisible_i128_u64, div_s128_i128_i128, div_s128_i128_i64,
    mod_i128_i128_i128, mod_i64_i128_i64, mod_i64_i128_u64,
};
pub use partial::{
    xgcd_partial_divrem_i32, xgcd_partial_binary_l2r_i32, xgcd_partial_brent_i32,
    xgcd_partial_divrem_i64, xgcd_partial_binary_l2r_i64, xgcd_partial_brent_i64,
    xgcd_shortpartial_binary_l2r_i128, xgcd_shortpartial_brent_i128, xgcd_shortpartial_divrem_i128,
    xgcd_shortpartial_lehmer_i128_eea64, xgcd_shortpartial_lehmer_i128_brent64,
    xgcd_shortpartial_lehmer_i128_l2r64,
};
pub use decimal::{to_decstr_u128, from_decstr_u128};
pub use primes::{primes_up_to, prime_index_at_least};
pub use bench::{c_int_to_bool, current_nanos, sane, rands_u64, time_gcd_set, time_gcd_bits};
