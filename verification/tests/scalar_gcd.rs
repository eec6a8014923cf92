use optarith::{
    ceil_pow2_u32, divrem_i64, divrem_u32, gcd_binary_u32, gcd_binary_u64, gcd_stein_i32,
    gcd_stein_i64, is_square_i64, is_square_u64, prime_index_at_least, primes_up_to, sqrt_u32,
    sqrt_u64, xgcd_binary_i32, xgcd_binary_i64, xgcd_blockstein2_i32, xgcd_blockstein2_i64,
    xgcd_blockstein3_i32, xgcd_blockstein3_i64, xgcd_blockstein4_i32, xgcd_blockstein4_i64,
    xgcd_blockstein5_i32, xgcd_blockstein5_i64, xgcd_brent_i32, xgcd_brent_i64, xgcd_divrem_i32,
    xgcd_divrem_i64, xgcd_lehmer_i32, xgcd_lehmer_i64, xgcd_shallit_i32, xgcd_shallit_i64,
    xgcd_stein_i32, xgcd_stein_i64, XgcdI32, XgcdI64,
};

fn check_i32(a: i32, b: i32, out: XgcdI32) {
    let lhs = out.s as i128 * a as i128 + out.t as i128 * b as i128;
    assert_eq!(lhs, out.gcd as i128);
}

fn check_i64(a: i64, b: i64, out: XgcdI64) {
    let lhs = out.s as i128 * a as i128 + out.t as i128 * b as i128;
    assert_eq!(lhs, out.gcd as i128);
}

#[test]
fn binary_gcd_matches_known_values() {
    assert_eq!(gcd_binary_u32(48, 18), 6);
    assert_eq!(gcd_binary_u64(4096, 512), 512);
}

#[test]
fn stein_gcd_matches_known_values() {
    assert_eq!(gcd_stein_i32(48, 18), 6);
    assert_eq!(gcd_stein_i64(4096, 512), 512);
}

#[test]
fn xgcd_identities_hold() {
    let a32 = 252;
    let b32 = 198;
    for out in [
        xgcd_binary_i32(a32, b32),
        xgcd_stein_i32(a32, b32),
        xgcd_divrem_i32(a32, b32),
        xgcd_brent_i32(a32, b32),
        xgcd_lehmer_i32(a32, b32),
        xgcd_shallit_i32(a32, b32),
        xgcd_blockstein2_i32(a32, b32),
        xgcd_blockstein3_i32(a32, b32),
        xgcd_blockstein4_i32(a32, b32),
        xgcd_blockstein5_i32(a32, b32),
    ] {
        check_i32(a32, b32, out);
    }

    let a64 = 1_234_567_890_123_i64;
    let b64 = 9_876_543_210_i64;
    for out in [
        xgcd_binary_i64(a64, b64),
        xgcd_stein_i64(a64, b64),
        xgcd_divrem_i64(a64, b64),
        xgcd_brent_i64(a64, b64),
        xgcd_lehmer_i64(a64, b64),
        xgcd_shallit_i64(a64, b64),
        xgcd_blockstein2_i64(a64, b64),
        xgcd_blockstein3_i64(a64, b64),
        xgcd_blockstein4_i64(a64, b64),
        xgcd_blockstein5_i64(a64, b64),
    ] {
        check_i64(a64, b64, out);
    }
}

#[test]
fn scalar_helpers_work() {
    assert_eq!(ceil_pow2_u32(17), 32);
    assert_eq!(sqrt_u32(10_000), 100);
    assert_eq!(sqrt_u64(10_000), 100);
    assert!(is_square_u64(10_000));
    assert!(is_square_i64(10_000));
    assert_eq!(divrem_u32(1000, 33), (30, 10));
    assert_eq!(divrem_i64(1000, 33), (30, 10));
}

#[test]
fn prime_helpers_work() {
    assert_eq!(prime_index_at_least(97), 24);
    assert_eq!(primes_up_to(100), 25);
}
