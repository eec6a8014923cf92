//! The library-level laws relating the kernels to one another.
//!
//! Each kernel's own contract pins its result; the lemmas here state the
//! consequences that span kernels: the Bezout identity is satisfiable for
//! every input pair, any two kernels agree on the gcd, and the gcd is
//! symmetric and degenerates as expected on zeros.

use vstd::prelude::*;
use vstd::math::abs;

use crate::arith::{
    gcd_int, gcd_nat, xgcd_ok, lemma_bezout, lemma_gcd_nat_basics, lemma_gcd_nat_comm,
    lemma_gcd_nat_zero_left, lemma_sign_product,
};

verus! {

/// Bezout's identity is satisfiable for every pair of integers: some
/// coefficients combine `a` and `b` into their gcd, exactly.
pub proof fn lemma_bezout_identity(a: int, b: int)
    ensures
        exists|s: int, t: int| #[trigger] (s * a) + #[trigger] (t * b) == gcd_int(a, b),
{
    let am = abs(a) as int;
    let bm = abs(b) as int;
    lemma_bezout(abs(a), abs(b));
    let (s, t) = choose|s: int, t: int|
        #[trigger] (s * am) + #[trigger] (t * bm) == gcd_nat(abs(a), abs(b));
    let s2 = if a < 0 {
        -s
    } else {
        s
    };
    let t2 = if b < 0 {
        -t
    } else {
        t
    };
    lemma_sign_product(s2, a, s, am);
    lemma_sign_product(t2, b, t, bm);
    assert(s2 * a + t2 * b == gcd_int(a, b));
}

/// Any two results that meet the shared extended-GCD contract for the
/// same inputs carry the same gcd, and each satisfies the identity; the
/// coefficient pairs may differ.
pub proof fn lemma_kernels_agree(
    a: int,
    b: int,
    g1: int,
    s1: int,
    t1: int,
    g2: int,
    s2: int,
    t2: int,
)
    requires
        xgcd_ok(a, b, g1, s1, t1),
        xgcd_ok(a, b, g2, s2, t2),
    ensures
        g1 == g2,
        s1 * a + t1 * b == g1,
        s2 * a + t2 * b == g1,
{
}

/// Symmetry and degeneracy of the gcd: zeros give the other magnitude,
/// two zeros give zero, and the argument order never matters.
pub proof fn lemma_gcd_symmetry(a: int, b: int)
    ensures
        gcd_int(a, 0) == abs(a),
        gcd_int(0, b) == abs(b),
        gcd_int(0, 0) == 0,
        gcd_int(a, b) == gcd_int(b, a),
{
    lemma_gcd_nat_basics(abs(a), 0);
    lemma_gcd_nat_zero_left(abs(b));
    lemma_gcd_nat_comm(abs(a), abs(b));
}

} // verus!
