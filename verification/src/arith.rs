//! Divisibility and greatest-common-divisor theory.
//!
//! Everything the extended-GCD kernels promise is stated in terms of
//! [`gcd_nat`] (Euclid's recurrence over naturals) and [`gcd_int`]
//! (its lift to integer magnitudes), together with the exact divisibility
//! predicate [`divides`].

use vstd::prelude::*;
use vstd::arithmetic::div_mod::{lemma_fundamental_div_mod, lemma_fundamental_div_mod_converse};
use vstd::math::abs;

verus! {

/// `d` divides `x` exactly: some integer multiple of `d` equals `x`.
pub open spec fn divides(d: int, x: int) -> bool {
    exists|k: int| x == #[trigger] (d * k)
}

/// Greatest common divisor of two naturals, by Euclid's recurrence.
/// `gcd_nat(a, 0) == a`, so in particular `gcd_nat(0, 0) == 0`.
pub open spec fn gcd_nat(a: nat, b: nat) -> nat
    decreases b,
{
    if b == 0 {
        a
    } else {
        gcd_nat(b, a % b)
    }
}

/// Greatest common divisor of two integers: the gcd of their magnitudes.
pub open spec fn gcd_int(a: int, b: int) -> nat {
    gcd_nat(abs(a), abs(b))
}

pub proof fn lemma_divides_refl(x: int)
    ensures
        divides(x, x),
{
    assert(x == x * 1);
}

pub proof fn lemma_divides_zero(d: int)
    ensures
        divides(d, 0),
{
    assert(0 == d * 0);
}

/// A divisor of `x` and `y` divides every integer linear combination of them.
pub proof fn lemma_divides_linear(d: int, x: int, y: int, m: int, n: int)
    requires
        divides(d, x),
        divides(d, y),
    ensures
        divides(d, m * x + n * y),
{
    let kx = choose|k: int| x == #[trigger] (d * k);
    let ky = choose|k: int| y == #[trigger] (d * k);
    assert(m * x + n * y == d * (m * kx + n * ky)) by (nonlinear_arith)
        requires
            x == d * kx,
            y == d * ky,
    ;
}

/// Divisibility is insensitive to the sign of either argument.
pub proof fn lemma_divides_abs(d: int, x: int)
    ensures
        divides(d, x) <==> divides(d, abs(x) as int),
        divides(d, x) <==> divides(abs(d) as int, x),
{
    if divides(d, x) {
        let k = choose|k: int| x == #[trigger] (d * k);
        assert(-x == d * (-k)) by (nonlinear_arith)
            requires
                x == d * k,
        ;
        assert(x == (-d) * (-k)) by (nonlinear_arith)
            requires
                x == d * k,
        ;
    }
    if divides(d, abs(x) as int) {
        let k = choose|k: int| abs(x) as int == #[trigger] (d * k);
        assert(-(abs(x) as int) == d * (-k)) by (nonlinear_arith)
            requires
                abs(x) as int == d * k,
        ;
    }
    if divides(abs(d) as int, x) {
        let k = choose|k: int| x == #[trigger] ((abs(d) as int) * k);
        assert(x == d * (if d < 0 { -k } else { k })) by (nonlinear_arith)
            requires
                x == (abs(d) as int) * k,
        ;
    }
}

/// A positive multiple is at least as large as the magnitude of its divisor.
pub proof fn lemma_divides_le(d: int, x: int)
    requires
        divides(d, x),
        x > 0,
    ensures
        abs(d) <= x,
        d <= x,
{
    let k = choose|k: int| x == #[trigger] (d * k);
    assert(abs(d) <= x) by (nonlinear_arith)
        requires
            x == d * k,
            x > 0,
    ;
}

/// Two nonnegative integers that divide each other are equal.
pub proof fn lemma_divides_antisym(x: int, y: int)
    requires
        divides(x, y),
        divides(y, x),
        x >= 0,
        y >= 0,
    ensures
        x == y,
{
    if x == 0 {
        let k = choose|k: int| y == #[trigger] (x * k);
        assert(y == 0 * k == 0) by (nonlinear_arith)
            requires
                y == x * k,
                x == 0,
        ;
    } else if y == 0 {
        let k = choose|k: int| x == #[trigger] (y * k);
        assert(x == 0 * k == 0) by (nonlinear_arith)
            requires
                x == y * k,
                y == 0,
        ;
    } else {
        lemma_divides_le(x, y);
        lemma_divides_le(y, x);
    }
}

/// The Euclid gcd divides both of its arguments.
pub proof fn lemma_gcd_nat_divides(a: nat, b: nat)
    ensures
        divides(gcd_nat(a, b) as int, a as int),
        divides(gcd_nat(a, b) as int, b as int),
    decreases b,
{
    if b == 0 {
        lemma_divides_refl(a as int);
        lemma_divides_zero(a as int);
    } else {
        lemma_gcd_nat_divides(b, a % b);
        let g = gcd_nat(b, a % b) as int;
        lemma_fundamental_div_mod(a as int, b as int);
        lemma_divides_linear(g, b as int, (a % b) as int, a as int / b as int, 1);
        assert((a as int / b as int) * (b as int) + 1 * ((a % b) as int) == a) by (nonlinear_arith)
            requires
                a as int == (b as int) * (a as int / b as int) + ((a % b) as int),
        ;
    }
}

/// Bezout's identity: the gcd is an integer combination of its arguments.
pub proof fn lemma_bezout(a: nat, b: nat)
    ensures
        exists|s: int, t: int| #[trigger] (s * a) + #[trigger] (t * b) == gcd_nat(a, b),
    decreases b,
{
    if b == 0 {
        assert(1int * a + 0int * b == gcd_nat(a, b));
    } else {
        lemma_bezout(b, a % b);
        let (s, t) = choose|s: int, t: int| #[trigger] (s * b) + #[trigger] (t * ((a % b) as int)) == gcd_nat(b, a % b);
        lemma_fundamental_div_mod(a as int, b as int);
        let q = a as int / b as int;
        assert(t * a + (s - t * q) * b == gcd_nat(a, b)) by (nonlinear_arith)
            requires
                s * b + t * ((a % b) as int) == gcd_nat(b, a % b),
                a as int == (b as int) * q + ((a % b) as int),
                gcd_nat(a, b) == gcd_nat(b, a % b),
        ;
    }
}

/// Every common divisor of `a` and `b` divides their gcd.
pub proof fn lemma_divides_gcd_nat(d: int, a: nat, b: nat)
    requires
        divides(d, a as int),
        divides(d, b as int),
    ensures
        divides(d, gcd_nat(a, b) as int),
{
    lemma_bezout(a, b);
    let (s, t) = choose|s: int, t: int| #[trigger] (s * a) + #[trigger] (t * b) == gcd_nat(a, b);
    lemma_divides_linear(d, a as int, b as int, s, t);
}

/// Size and zero facts about the gcd.
pub proof fn lemma_gcd_nat_basics(a: nat, b: nat)
    ensures
        a > 0 ==> 1 <= gcd_nat(a, b) <= a,
        b > 0 ==> 1 <= gcd_nat(a, b) <= b,
        gcd_nat(a, b) == 0 <==> (a == 0 && b == 0),
        gcd_nat(a, 0) == a,
{
    lemma_gcd_nat_divides(a, b);
    let g = gcd_nat(a, b) as int;
    if a > 0 {
        lemma_divides_le(g, a as int);
        if g == 0 {
            let k = choose|k: int| a as int == #[trigger] (g * k);
            assert(a as int == 0 * k == 0) by (nonlinear_arith)
                requires
                    a as int == g * k,
                    g == 0,
            ;
        }
    }
    if b > 0 {
        lemma_divides_le(g, b as int);
        if g == 0 {
            let k = choose|k: int| b as int == #[trigger] (g * k);
            assert(b as int == 0 * k == 0) by (nonlinear_arith)
                requires
                    b as int == g * k,
                    g == 0,
            ;
        }
    }
}

/// The gcd is symmetric in its arguments.
pub proof fn lemma_gcd_nat_comm(a: nat, b: nat)
    ensures
        gcd_nat(a, b) == gcd_nat(b, a),
{
    lemma_gcd_nat_divides(a, b);
    lemma_gcd_nat_divides(b, a);
    lemma_divides_gcd_nat(gcd_nat(a, b) as int, b, a);
    lemma_divides_gcd_nat(gcd_nat(b, a) as int, a, b);
    lemma_divides_antisym(gcd_nat(a, b) as int, gcd_nat(b, a) as int);
}

/// Two pairs with the same divisibility behaviour have the same gcd.
proof fn lemma_gcd_nat_mutual(a1: nat, b1: nat, a2: nat, b2: nat)
    requires
        divides(gcd_nat(a1, b1) as int, a2 as int),
        divides(gcd_nat(a1, b1) as int, b2 as int),
        divides(gcd_nat(a2, b2) as int, a1 as int),
        divides(gcd_nat(a2, b2) as int, b1 as int),
    ensures
        gcd_nat(a1, b1) == gcd_nat(a2, b2),
{
    lemma_divides_gcd_nat(gcd_nat(a1, b1) as int, a2, b2);
    lemma_divides_gcd_nat(gcd_nat(a2, b2) as int, a1, b1);
    lemma_divides_antisym(gcd_nat(a1, b1) as int, gcd_nat(a2, b2) as int);
}

/// Adding an integer multiple of `y` onto `x` does not change the gcd.
pub proof fn lemma_gcd_int_add_multiple(x: int, y: int, m: int)
    ensures
        gcd_int(x + m * y, y) == gcd_int(x, y),
{
    let g1 = gcd_int(x, y) as int;
    let g2 = gcd_int(x + m * y, y) as int;
    lemma_gcd_nat_divides(abs(x), abs(y));
    lemma_gcd_nat_divides(abs(x + m * y), abs(y));
    lemma_divides_abs(g1, x);
    lemma_divides_abs(g1, y);
    lemma_divides_abs(g2, x + m * y);
    lemma_divides_abs(g2, y);
    lemma_divides_linear(g1, x, y, 1, m);
    assert(1 * x + m * y == x + m * y);
    lemma_divides_abs(g1, x + m * y);
    lemma_divides_linear(g2, x + m * y, y, 1, -m);
    assert(1 * (x + m * y) + (-m) * y == x) by (nonlinear_arith);
    lemma_divides_abs(g2, x);
    lemma_gcd_nat_mutual(abs(x), abs(y), abs(x + m * y), abs(y));
}

/// The integer gcd is symmetric and insensitive to signs.
pub proof fn lemma_gcd_int_comm(x: int, y: int)
    ensures
        gcd_int(x, y) == gcd_int(y, x),
{
    lemma_gcd_nat_comm(abs(x), abs(y));
}

/// Doubling both arguments doubles the gcd.
pub proof fn lemma_gcd_nat_double_both(a: nat, b: nat)
    ensures
        gcd_nat(2 * a, 2 * b) == 2 * gcd_nat(a, b),
{
    let g = gcd_nat(a, b) as int;
    let h = gcd_nat(2 * a, 2 * b) as int;
    lemma_gcd_nat_divides(a, b);
    lemma_gcd_nat_divides(2 * a, 2 * b);
    // 2g divides 2a and 2b
    let ka = choose|k: int| a as int == #[trigger] (g * k);
    let kb = choose|k: int| b as int == #[trigger] (g * k);
    assert(2 * a as int == (2 * g) * ka && 2 * b as int == (2 * g) * kb) by (nonlinear_arith)
        requires
            a as int == g * ka,
            b as int == g * kb,
    ;
    // h divides 2g, since 2g is a combination of 2a and 2b
    lemma_bezout(a, b);
    let (s, t) = choose|s: int, t: int| #[trigger] (s * a) + #[trigger] (t * b) == gcd_nat(a, b);
    assert(s * (2 * a) + t * (2 * b) == 2 * g) by (nonlinear_arith)
        requires
            s * a + t * b == g,
    ;
    lemma_divides_linear(h, 2 * a as int, 2 * b as int, s, t);
    lemma_divides_gcd_nat(2 * g, 2 * a, 2 * b);
    lemma_divides_antisym(h, 2 * g);
}

/// The parity of a product follows from the parities of its factors.
proof fn lemma_mul_parity(x: int, y: int)
    ensures
        (x * y) % 2 == ((x % 2) * (y % 2)) % 2,
{
    vstd::arithmetic::div_mod::lemma_mul_mod_noop_general(x, y, 2);
}

/// A factor of two on one side vanishes when the other side is odd.
pub proof fn lemma_gcd_nat_halve_even(a: nat, b: nat)
    requires
        b % 2 == 1,
    ensures
        gcd_nat(2 * a, b) == gcd_nat(a, b),
{
    let g = gcd_nat(a, b) as int;
    let h = gcd_nat(2 * a, b) as int;
    lemma_gcd_nat_divides(a, b);
    lemma_gcd_nat_divides(2 * a, b);
    // g divides 2a and b
    let ka = choose|k: int| a as int == #[trigger] (g * k);
    assert(2 * a as int == g * (2 * ka)) by (nonlinear_arith)
        requires
            a as int == g * ka,
    ;
    lemma_divides_gcd_nat(g, 2 * a, b);
    // h divides 2g, via Bezout for (a, b)
    lemma_bezout(a, b);
    let (s, t) = choose|s: int, t: int| #[trigger] (s * a) + #[trigger] (t * b) == gcd_nat(a, b);
    assert(s * (2 * a) + (2 * t) * b == 2 * g) by (nonlinear_arith)
        requires
            s * a + t * b == g,
    ;
    lemma_divides_linear(h, 2 * a as int, b as int, s, 2 * t);
    // h is odd because it divides the odd number b; an odd divisor of 2g divides g
    let kh = choose|k: int| 2 * g == #[trigger] (h * k);
    let kb = choose|k: int| b as int == #[trigger] (h * k);
    lemma_mul_parity(h, kb);
    if h % 2 == 0 {
        assert((h % 2) * (kb % 2) == 0) by (nonlinear_arith)
            requires
                h % 2 == 0,
        ;
        assert(false);
    }
    assert(h % 2 == 1);
    lemma_mul_parity(h, kh);
    if kh % 2 == 1 {
        assert((h % 2) * (kh % 2) == 1) by (nonlinear_arith)
            requires
                h % 2 == 1,
                kh % 2 == 1,
        ;
        assert(false);
    }
    assert((2 * g) % 2 == 0) by {
        vstd::arithmetic::div_mod::lemma_mod_multiples_basic(g, 2);
        assert(g * 2 == 2 * g);
    }
    assert(kh % 2 == 0);
    lemma_fundamental_div_mod(kh, 2);
    assert(g == h * (kh / 2)) by (nonlinear_arith)
        requires
            2 * g == h * kh,
            kh == 2 * (kh / 2),
    ;
    lemma_divides_antisym(g, h);
}

/// What every extended-GCD kernel promises: the first result is the
/// (nonnegative) gcd of the inputs and the other two satisfy Bezout's
/// identity for them, exactly, in unbounded integer arithmetic.
pub open spec fn xgcd_ok(a: int, b: int, g: int, s: int, t: int) -> bool {
    g == gcd_int(a, b) && s * a + t * b == g
}

/// A product is unchanged when both factors are negated together.
pub proof fn lemma_sign_product(x: int, y: int, xm: int, ym: int)
    requires
        (x == xm && y == ym) || (x == -xm && y == -ym),
    ensures
        x * y == xm * ym,
{
    assert(x * y == xm * ym) by (nonlinear_arith)
        requires
            (x == xm && y == ym) || (x == -xm && y == -ym),
    ;
}

/// `gcd_nat(0, v) == v`: the gcd with a zero on the left.
pub proof fn lemma_gcd_nat_zero_left(v: nat)
    ensures
        gcd_nat(0, v) == v,
{
    if v > 0 {
        assert(0nat % v == 0) by {
            vstd::arithmetic::div_mod::lemma_small_mod(0, v);
        }
        assert(gcd_nat(0, v) == gcd_nat(v, 0));
    }
}

/// On nonnegative integers the integer gcd is the natural gcd.
pub proof fn lemma_gcd_int_nonneg(x: int, y: int)
    requires
        x >= 0,
        y >= 0,
    ensures
        gcd_int(x, y) == gcd_nat(x as nat, y as nat),
{
}

/// Subtracting a multiple of `v` from `u` leaves the gcd unchanged.
pub proof fn lemma_gcd_nat_sub_multiple(u: nat, w: nat, v: nat, m: nat)
    requires
        w == v * m,
        w <= u,
    ensures
        gcd_nat((u - w) as nat, v) == gcd_nat(u, v),
{
    lemma_gcd_int_add_multiple(u - w, v as int, m as int);
    assert(u - w + m * v == u) by (nonlinear_arith)
        requires
            w == v * m,
    ;
    lemma_gcd_int_nonneg(u - w, v as int);
    lemma_gcd_int_nonneg(u as int, v as int);
}

/// Subtracting `v` itself from `u` leaves the gcd unchanged.
pub proof fn lemma_gcd_nat_sub(u: nat, v: nat)
    requires
        v <= u,
    ensures
        gcd_nat((u - v) as nat, v) == gcd_nat(u, v),
{
    assert(v == v * 1);
    lemma_gcd_nat_sub_multiple(u, v, v, 1);
}

/// Exact divisibility is the same as a vanishing remainder.
pub proof fn lemma_divides_iff_mod(d: int, x: int)
    requires
        d >= 1,
    ensures
        divides(d, x) <==> x % d == 0,
{
    if x % d == 0 {
        lemma_fundamental_div_mod(x, d);
        assert(x == d * (x / d));
    }
    if divides(d, x) {
        let k = choose|k: int| x == #[trigger] (d * k);
        vstd::arithmetic::div_mod::lemma_mod_multiples_basic(k, d);
        assert(k * d == d * k) by (nonlinear_arith);
    }
}

/// Signed truncating division assembled from magnitude division: the
/// quotient/remainder pair with `|r| < |d|` and `r` on the dividend's side.
pub proof fn lemma_trunc_divrem(
    n: int,
    d: int,
    nm: int,
    dm: int,
    qm: int,
    rm: int,
    q: int,
    r: int,
)
    requires
        d != 0,
        nm == abs(n),
        dm == abs(d),
        nm == dm * qm + rm,
        0 <= rm < dm,
        qm >= 0,
        q == (if (n < 0) != (d < 0) {
            -qm
        } else {
            qm
        }),
        r == (if n < 0 {
            -rm
        } else {
            rm
        }),
    ensures
        q * d + r == n,
        qm == abs(n) / abs(d),
        rm == abs(n) % abs(d),
        abs(r) < abs(d),
        n >= 0 ==> r >= 0,
        n <= 0 ==> r <= 0,
{
    assert(nm == qm * dm + rm) by (nonlinear_arith)
        requires
            nm == dm * qm + rm,
    ;
    lemma_fundamental_div_mod_converse(nm, dm, qm, rm);
    assert(q * d + r == n) by (nonlinear_arith)
        requires
            d != 0,
            (n >= 0 ==> nm == n) && (n < 0 ==> nm == -n),
            (d >= 0 ==> dm == d) && (d < 0 ==> dm == -d),
            nm == dm * qm + rm,
            q == (if (n < 0) != (d < 0) {
                -qm
            } else {
                qm
            }),
            r == (if n < 0 {
                -rm
            } else {
                rm
            }),
    ;
}

/// Characterisation of truncating division by its quotient and remainder,
/// for a nonnegative dividend and positive divisor.
pub proof fn lemma_div_mod_unique(n: int, d: int, q: int, r: int)
    requires
        d >= 1,
        0 <= r < d,
        n == q * d + r,
    ensures
        q == n / d,
        r == n % d,
{
    lemma_fundamental_div_mod_converse(n, d, q, r);
}

} // verus!
