use optarith::{
    divrem_u128, gcd_binary_u128, gcd_i128, gcd_u128, mul_u128, sqrt_i128, sqrt_u128,
    xgcd_binary_i128, xgcd_brent_i128, xgcd_divrem_i128, xgcd_lehmer_i128,
    xgcd_lehmer_i128_s32eea, xgcd_lehmer_i128_s64eea, xgcd_lehmer_i128_s64l2r,
    xgcd_shallit_i128, xgcd_shortpartial_binary_l2r_i128, xgcd_shortpartial_brent_i128,
    xgcd_shortpartial_divrem_i128, xgcd_shortpartial_lehmer_i128_brent64,
    xgcd_shortpartial_lehmer_i128_eea64, xgcd_shortpartial_lehmer_i128_l2r64, xgcd_stein_i128,
    PartialXgcdI128,
};

#[test]
fn u128_ops_work() {
    assert_eq!(gcd_binary_u128(48, 18), 6);
    assert_eq!(gcd_u128(48, 18), 6);
    assert_eq!(gcd_i128(-48, 18), 6);
    assert_eq!(sqrt_u128(10_000), 100);
    assert_eq!(sqrt_i128(-10_000), 100);
    assert_eq!(mul_u128(123, 456), 123_u128.wrapping_mul(456));
    let (q, r) = divrem_u128(1000, 33);
    assert_eq!(q, 30);
    assert_eq!(r, 10);
}

#[test]
fn xgcd_i128_identity_holds() {
    let a = 123_456_789_123_456_789_i128;
    let b = 98_765_432_100_000_003_i128;
    for out in [
        xgcd_binary_i128(a, b),
        xgcd_divrem_i128(a, b),
        xgcd_stein_i128(a, b),
        xgcd_brent_i128(a, b),
        xgcd_lehmer_i128(a, b),
        xgcd_lehmer_i128_s32eea(a, b),
        xgcd_lehmer_i128_s64eea(a, b),
        xgcd_lehmer_i128_s64l2r(a, b),
        xgcd_shallit_i128(a, b),
    ] {
        assert_eq!(out.s * a + out.t * b, out.gcd);
    }
}

#[test]
fn partial_paths_update_state() {
    let state = PartialXgcdI128 {
        r1: 987_654_321,
        r0: 123_456_789,
        c1: 0,
        c0: -1,
    };
    let (_steps, state) = xgcd_shortpartial_binary_l2r_i128(state, 64);
    let state = xgcd_shortpartial_brent_i128(state, 64);
    let state = xgcd_shortpartial_divrem_i128(state, 64);
    let state = xgcd_shortpartial_lehmer_i128_eea64(state, 64);
    let state = xgcd_shortpartial_lehmer_i128_brent64(state, 64);
    let state = xgcd_shortpartial_lehmer_i128_l2r64(state, 64);
    let _ = state;
}
