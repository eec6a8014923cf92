use optarith::{
    abs_i32, abs_i64, addmod_i32, addmod_i64, cond_negate_i64, cond_swap2_i64, cond_swap3_i32,
    cond_swap_i32, cond_swap_i64, expmod_u64, from_decstr_u128, gcd_binary_u32, gcd_binary_u64,
    gcd_i128, gcd_stein_i64, lsb_i64, lsb_u32, lsb_u64, mod_i32_i64_u32, mod_i64_i128_i64,
    mod_u32_u64_u32, msb_u32, msb_u64, muladdmul_i64_4i32, muladdmuldiv_i64, mulmod_i64,
    mulmod_u32, mulmod_u64, negate_using_mask_i32, numbits_i64, numbits_u32, rands_u64,
    s64_fits_i32, sane, setbit_u32, clrbit_u32, sub_u128, sub_with_mask_i64, sub_with_mask_u32,
    sub_with_mask_u64, submod_i64, time_gcd_bits, to_decstr_u128, to_s128_t, from_s128_t,
    to_u128_t, from_u128_t, xgcd_binary_i64, xgcd_binary_i64_branching, xgcd_common_i64,
    xgcd_divrem_i32, xgcd_divrem_i64, xgcd_divrem_u32, xgcd_flint_i64, xgcd_left_binary_i64,
    xgcd_left_divrem_i32, xgcd_partial_binary_l2r_i64, xgcd_partial_brent_i32,
    xgcd_partial_divrem_i32, xgcd_partial_divrem_i64, xgcd_smallq_case_i64, xgcd_smallq_loop_i32,
    xgcd_smallq_loop_i64, PartialXgcdI32, PartialXgcdI64, SmallQCase, XgcdCoreI64,
};

fn bezout_holds_i64(a: i64, b: i64, g: i64, s: i64, t: i64) -> bool {
    (s as i128) * (a as i128) + (t as i128) * (b as i128) == g as i128 && g >= 0
}

// The Bezout identity on zero, negative, and width-extreme operands.
#[test]
fn bezout_on_edge_operands() {
    let cases: [(i64, i64); 10] = [
        (0, 0),
        (0, 7),
        (7, 0),
        (-7, 0),
        (i64::MIN, 3),
        (3, i64::MIN),
        (i64::MIN, i64::MAX),
        (i64::MAX, i64::MAX),
        (-1, 1),
        (252, -198),
    ];
    for (a, b) in cases {
        let r = xgcd_divrem_i64(a, b);
        assert!(bezout_holds_i64(a, b, r.gcd, r.s, r.t), "a={a} b={b}");
        let r2 = xgcd_binary_i64(a, b);
        assert!(bezout_holds_i64(a, b, r2.gcd, r2.s, r2.t), "a={a} b={b}");
        assert_eq!(r.gcd, r2.gcd);
    }
}

// All 64-bit kernels return the same gcd for the same operands.
#[test]
fn kernels_agree_on_gcd() {
    let pairs: [(i64, i64); 4] = [(252, 198), (-252, 198), (0, 41), (987_654_321, 123_456_789)];
    for (a, b) in pairs {
        let expect = xgcd_divrem_i64(a, b).gcd;
        for core in [
            XgcdCoreI64::BinaryL2r,
            XgcdCoreI64::BinaryL2rBranching,
            XgcdCoreI64::Stein,
            XgcdCoreI64::Divrem,
            XgcdCoreI64::Brent,
            XgcdCoreI64::Lehmer,
            XgcdCoreI64::Shallit,
            XgcdCoreI64::Flint,
            XgcdCoreI64::BlockStein2,
            XgcdCoreI64::BlockStein3,
            XgcdCoreI64::BlockStein4,
            XgcdCoreI64::BlockStein5,
        ] {
            let r = xgcd_common_i64(core, a, b);
            assert_eq!(r.gcd, expect);
            assert!(bezout_holds_i64(a, b, r.gcd, r.s, r.t));
        }
    }
}

// gcd(a,0) == |a|, gcd(0,b) == |b|, gcd(0,0) == 0, symmetry.
#[test]
fn gcd_symmetry_and_degeneracy() {
    assert_eq!(gcd_stein_i64(-42, 0), 42);
    assert_eq!(gcd_stein_i64(0, -42), 42);
    assert_eq!(gcd_stein_i64(0, 0), 0);
    assert_eq!(gcd_binary_u64(48, 18), gcd_binary_u64(18, 48));
    assert_eq!(gcd_i128(0, i128::MAX), i128::MAX);
}

#[test]
fn concrete_xgcd_252_198() {
    let r = xgcd_binary_i64(252, 198);
    assert_eq!(r.gcd, 18);
    assert_eq!(r.s * 252 + r.t * 198, 18);
    let l = xgcd_left_binary_i64(252, 198);
    assert_eq!(l.gcd, 18);
    let r32 = xgcd_divrem_i32(252, 198);
    assert_eq!(r32.gcd, 18);
    assert_eq!(r32.s * 252 + r32.t * 198, 18);
    let u = xgcd_divrem_u32(252, 198);
    assert_eq!(u.gcd, 18);
}

#[test]
fn concrete_gcd_binary() {
    assert_eq!(gcd_binary_u32(48, 18), 6);
    assert_eq!(gcd_binary_u32(4096, 512), 512);
    assert_eq!(gcd_binary_u64(48, 18), 6);
    assert_eq!(gcd_binary_u64(4096, 512), 512);
}

// The partial reduction from the classical starting state: it stops at
// the bound, keeps the gcd, and carries the cofactor weight exactly.
#[test]
fn partial_reduction_invariants() {
    let start = PartialXgcdI64 {
        r1: 987_654_321,
        r0: 123_456_789,
        c1: 0,
        c0: -1,
    };
    let bound: i64 = 1 << 16;
    let out = xgcd_partial_divrem_i64(start, bound);
    assert!(out.r0 <= bound);
    assert!(out.r1 > bound);
    assert!(out.r0 >= 0);
    // gcd is preserved
    assert_eq!(
        gcd_binary_u64(out.r1 as u64, out.r0 as u64),
        gcd_binary_u64(987_654_321, 123_456_789)
    );
    // signs alternate and the weight |c0|*r1 + |c1|*r0 equals the
    // starting r1 (the weight of the conventional starting cofactors)
    assert!((out.c1 as i128) * (out.c0 as i128) <= 0);
    let weight =
        (out.c0 as i128).abs() * (out.r1 as i128) + (out.c1 as i128).abs() * (out.r0 as i128);
    assert_eq!(weight, 987_654_321);
    // a bound at or above r0 leaves the state alone
    let same = xgcd_partial_divrem_i64(start, 123_456_789);
    assert_eq!(same, start);
    // step counting: zero steps exactly when nothing moves
    let (steps, moved) = xgcd_partial_binary_l2r_i64(start, bound);
    assert!(steps >= 1);
    assert_eq!(moved.r0, out.r0);
    let (steps0, _) = xgcd_partial_binary_l2r_i64(start, 123_456_789);
    assert_eq!(steps0, 0);
    // with the bound at 2^32 the smaller remainder is already within it
    let wide = xgcd_partial_divrem_i64(start, 1_i64 << 32);
    assert_eq!(wide, start);
    assert!(wide.r0 <= 1_i64 << 32);
}

#[test]
fn partial_reduction_i32_paths() {
    let start = PartialXgcdI32 {
        r1: 75_025,
        r0: 46_368,
        c1: 0,
        c0: -1,
    };
    let a = xgcd_partial_divrem_i32(start, 100);
    let b = xgcd_partial_brent_i32(start, 100);
    assert_eq!(a, b);
    assert!(a.r0 <= 100 && a.r1 > 100);
}

#[test]
fn smallq_entries() {
    // 1000 / 33 == 30, so the loop entry reduces fully
    let r = xgcd_smallq_loop_i64(SmallQCase::Q5, 1000, 33);
    assert_eq!(r.gcd, 1);
    assert_eq!(r.s * 1000 + r.t * 33, 1);
    let r2 = xgcd_smallq_loop_i32(SmallQCase::Q0, 48, 18);
    assert_eq!(r2.gcd, 6);
    // 252 / 198 == 1: the fixed-quotient first step applies
    let r3 = xgcd_smallq_case_i64(SmallQCase::Q1, 252, 198);
    assert_eq!(r3.gcd, 18);
    assert_eq!(r3.s * 252 + r3.t * 198, 18);
    // exact division ends after the specialised step
    let r4 = xgcd_smallq_case_i64(SmallQCase::Q4, 48, 12);
    assert_eq!(r4.gcd, 12);
    assert_eq!(r4.s * 48 + r4.t * 12, 12);
}

#[test]
fn divrem_u32_concrete() {
    assert_eq!(optarith::divrem_u32(1000, 33), (30, 10));
    assert_eq!(optarith::divrem_i32(-1000, 33), (-30, -10));
    assert_eq!(optarith::divrem_i32(1000, -33), (-30, 10));
    assert_eq!(optarith::divrem_i64(i64::MIN, 1), (i64::MIN, 0));
}

#[test]
fn sqrt_and_mul_128() {
    assert_eq!(optarith::sqrt_u128(10_000), 100);
    assert_eq!(optarith::mul_u128(123, 456), 123 * 456);
    // wraparound at the top of the range
    assert_eq!(optarith::mul_u128(u128::MAX, 2), u128::MAX.wrapping_mul(2));
    assert_eq!(optarith::add_u128(u128::MAX, 1), 0);
    assert_eq!(sub_u128(0, 1), u128::MAX);
    assert_eq!(optarith::sqrt_u128(u128::MAX), 0xffff_ffff_ffff_ffff);
    assert_eq!(optarith::sqrt_u128(0), 0);
    assert_eq!(optarith::sqrt_u128(1), 1);
    assert_eq!(optarith::sqrt_u128(3), 1);
    assert_eq!(optarith::sqrt_u128(4), 2);
}

#[test]
fn modular_helpers_exact_values() {
    assert_eq!(addmod_i32(-5, 3, 7), 5);
    assert_eq!(addmod_i64(-5, 3, -7), 5);
    assert_eq!(submod_i64(3, 5, 7), 5);
    assert_eq!(mulmod_u32(10, 20, 7), 4);
    assert_eq!(mulmod_u64(u64::MAX, u64::MAX, 1_000_000_007), {
        ((u64::MAX as u128 * u64::MAX as u128) % 1_000_000_007) as u64
    });
    assert_eq!(mulmod_i64(-3, 5, 7), 6);
    assert_eq!(expmod_u64(2, 10, 1000), 24);
    assert_eq!(expmod_u64(7, 0, 13), 1);
    assert_eq!(expmod_u64(0, 0, 1), 0);
    assert_eq!(expmod_u64(3, 45, 1_000_000_007), {
        let mut acc: u128 = 1;
        for _ in 0..45 {
            acc = acc * 3 % 1_000_000_007;
        }
        acc as u64
    });
    assert_eq!(mod_u32_u64_u32(u64::MAX, 10), 5);
    assert_eq!(mod_i32_i64_u32(-13, 10), 7);
    assert_eq!(mod_i64_i128_i64(-13, 10), -3);
}

#[test]
fn muladdmul_helpers() {
    assert_eq!(muladdmul_i64_4i32(3, 4, 5, 6), 42);
    assert_eq!(muladdmul_i64_4i32(i32::MIN, i32::MIN, 0, 1), (i32::MIN as i64) * (i32::MIN as i64));
    assert_eq!(muladdmuldiv_i64(3, 4, 5, 6, 7), 6);
    assert_eq!(muladdmuldiv_i64(3, 4, 5, 6, -7), -6);
}

#[test]
fn bit_primitives() {
    assert_eq!(msb_u32(0), -1);
    assert_eq!(msb_u32(1), 0);
    assert_eq!(msb_u32(0x8000_0000), 31);
    assert_eq!(msb_u64(u64::MAX), 63);
    assert_eq!(lsb_u32(0), -1);
    assert_eq!(lsb_u32(12), 2);
    assert_eq!(lsb_u64(1 << 63), 63);
    assert_eq!(lsb_i64(-2), 1);
    assert_eq!(numbits_u32(0), 0);
    assert_eq!(numbits_u32(255), 8);
    assert_eq!(numbits_i64(-255), 8);
    assert_eq!(setbit_u32(0, 5), 32);
    assert_eq!(clrbit_u32(33, 5), 1);
    assert_eq!(abs_i32(i32::MIN), 0x8000_0000);
    assert_eq!(abs_i64(-7), 7);
    assert!(s64_fits_i32(-5));
    assert!(!s64_fits_i32(1 << 40));
    assert_eq!(optarith::ceil_pow2_u32(1), 1);
    assert_eq!(optarith::ceil_pow2_u32(0x8000_0000), 0x8000_0000);
}

#[test]
fn mask_and_swap_primitives() {
    assert_eq!(sub_with_mask_u32(5, 9), (u32::MAX, 5u32.wrapping_sub(9)));
    assert_eq!(sub_with_mask_u32(9, 5), (0, 4));
    assert_eq!(sub_with_mask_u64(1, 2), (u64::MAX, -1));
    assert_eq!(sub_with_mask_i64(-4, 3), (u64::MAX, -7));
    assert_eq!(cond_swap_i32(1, 2), (2, 1));
    assert_eq!(cond_swap_i64(2, 1), (2, 1));
    assert_eq!(cond_swap2_i64(1, 2, 3, 4), ((3, 4), (1, 2)));
    let (m, top, bot) = cond_swap3_i32(1, 2, 3, 4, 5, 6);
    assert_eq!(m, u32::MAX);
    assert_eq!(top, (4, 5, 6));
    assert_eq!(bot, (1, 2, 3));
    assert_eq!(negate_using_mask_i32(u32::MAX, 9), -9);
    assert_eq!(negate_using_mask_i32(0, 9), 9);
    assert_eq!(cond_negate_i64(-1, 9), -9);
    assert_eq!(cond_negate_i64(1, 9), 9);
}

#[test]
fn limb_conversions_round_trip() {
    for x in [0u128, 1, u128::MAX, 1 << 64, (1 << 64) - 1, 0x1234_5678_9abc_def0] {
        let p = to_u128_t(x);
        assert_eq!(from_u128_t(p), x);
    }
    for x in [0i128, 1, -1, i128::MIN, i128::MAX, -(1 << 64), (1 << 64) + 5] {
        let p = to_s128_t(x);
        assert_eq!(from_s128_t(p), x);
    }
    let p = to_u128_t(u128::MAX);
    assert_eq!(p.v0, u64::MAX);
    assert_eq!(p.v1, u64::MAX);
    let q = to_s128_t(-1);
    assert_eq!(q.v0, u64::MAX);
    assert_eq!(q.v1, -1);
}

#[test]
fn decimal_edges_and_rejections() {
    assert_eq!(to_decstr_u128(0), b"0".to_vec());
    assert_eq!(to_decstr_u128(10), b"10".to_vec());
    assert_eq!(
        to_decstr_u128(u128::MAX),
        b"340282366920938463463374607431768211455".to_vec()
    );
    assert_eq!(from_decstr_u128(b"0"), Some(0));
    assert_eq!(from_decstr_u128(b"00042"), Some(42));
    assert_eq!(from_decstr_u128(b""), None);
    assert_eq!(from_decstr_u128(b"12a3"), None);
    assert_eq!(from_decstr_u128(b"-1"), None);
    assert_eq!(
        from_decstr_u128(b"340282366920938463463374607431768211455"),
        Some(u128::MAX)
    );
    assert_eq!(from_decstr_u128(b"340282366920938463463374607431768211456"), None);
}

#[test]
fn divisibility_and_narrow_division() {
    assert!(optarith::is_divisible_i128_i128(-48, 12));
    assert!(!optarith::is_divisible_i128_i128(-48, 13));
    assert!(optarith::is_divisible_i128_i64(1 << 100, 1 << 30));
    assert!(optarith::is_divisible_i128_u64(0, 5));
    assert_eq!(optarith::div_s128_i128_i128(-1000, 33), -30);
    assert_eq!(optarith::div_s128_i128_i64(1000, -33), -30);
    assert_eq!(optarith::mod_i128_i128_i128(-1000, 33), -10);
    assert_eq!(optarith::mod_i64_i128_u64(1000, 33), 10);
}

#[test]
fn flint_and_branching_variants_match() {
    for (a, b) in [(198i64, 252i64), (252, 198), (-7, 21), (0, 5)] {
        let f = xgcd_flint_i64(a, b);
        let g = xgcd_binary_i64_branching(a, b);
        assert_eq!(f.gcd, g.gcd);
        assert!(bezout_holds_i64(a, b, f.gcd, f.s, f.t));
        assert!(bezout_holds_i64(a, b, g.gcd, g.s, g.t));
    }
    let l = xgcd_left_divrem_i32(252, 198);
    assert_eq!(l.gcd, 18);
}

#[test]
fn timing_harness_smoke() {
    assert!(sane(18, 4, -5, 252, 198));
    assert!(!sane(17, 4, -5, 252, 198));
    let r = rands_u64(8, 13);
    assert_eq!(r.len(), 8);
    for v in r {
        assert!(v >= 1 << 12 && v < 1 << 13);
    }
    let timed = time_gcd_bits(20, 16);
    assert!(timed.is_some());
}
