//! Decimal conversion for unsigned 128-bit values, over ASCII digit
//! strings.
//!
//! Formatting produces the canonical representation: nonempty, digits
//! only, no leading zero except for the value zero itself.  Parsing
//! accepts exactly the nonempty all-digit strings whose value fits, and
//! returns their value, so parsing inverts formatting exactly.

use vstd::prelude::*;

verus! {

/// ASCII decimal digit.
pub open spec fn is_dec_digit(c: u8) -> bool {
    48 <= c <= 57
}

/// Every byte of the string is a decimal digit.
pub open spec fn dec_digits(s: Seq<u8>) -> bool {
    forall|i: int| 0 <= i < s.len() ==> is_dec_digit(#[trigger] s[i])
}

/// The value of a big-endian digit string.
pub open spec fn dec_value(s: Seq<u8>) -> nat
    decreases s.len(),
{
    if s.len() == 0 {
        0
    } else {
        (dec_value(s.drop_last()) * 10 + (s.last() - 48)) as nat
    }
}

/// The canonical decimal form: nonempty, all digits, no leading zero
/// unless the string is exactly "0".
pub open spec fn dec_canonical(s: Seq<u8>) -> bool {
    &&& s.len() >= 1
    &&& dec_digits(s)
    &&& (s.len() > 1 ==> s[0] != 48)
}

/// Powers of ten.
pub open spec fn pow10(n: nat) -> nat
    decreases n,
{
    if n == 0 {
        1
    } else {
        10 * pow10((n - 1) as nat)
    }
}

/// The value of a little-endian (least significant first) digit string.
pub open spec fn dec_value_le(s: Seq<u8>) -> nat
    decreases s.len(),
{
    if s.len() == 0 {
        0
    } else {
        ((s[0] - 48) + 10 * dec_value_le(s.subrange(1, s.len() as int))) as nat
    }
}

/// Appending a digit at the end of a little-endian string adds its
/// value at the next power of ten.
proof fn lemma_dec_le_push(s: Seq<u8>, d: u8)
    requires
        48 <= d,
        forall|i: int| 0 <= i < s.len() ==> 48 <= #[trigger] s[i],
    ensures
        dec_value_le(s.push(d)) == dec_value_le(s) + (d - 48) * pow10(s.len()),
    decreases s.len(),
{
    if s.len() == 0 {
        assert(s.push(d)[0] == d);
        assert(s.push(d).subrange(1, 1) =~= Seq::<u8>::empty());
        assert(dec_value_le(Seq::<u8>::empty()) == 0);
        assert(s.push(d).len() == 1);
        assert(dec_value_le(s.push(d)) == ((s.push(d)[0] - 48) + 10 * dec_value_le(
            s.push(d).subrange(1, 1),
        )) as nat);
        assert((d - 48) * 1 == d - 48) by (nonlinear_arith);
        assert(pow10(0) == 1);
        assert(dec_value_le(s) == 0);
    } else {
        let t = s.subrange(1, s.len() as int);
        lemma_dec_le_push(t, d);
        assert(s.push(d).subrange(1, s.push(d).len() as int) =~= t.push(d));
        assert(s.push(d)[0] == s[0]);
        assert(10 * (dec_value_le(t) + (d - 48) * pow10(t.len())) == 10 * dec_value_le(t) + (d
            - 48) * (10 * pow10(t.len()))) by (nonlinear_arith);
    }
}

/// A prefix of a valid digit string is worth no more than the string.
proof fn lemma_dec_value_prefix_le(s: Seq<u8>, i: int)
    requires
        dec_digits(s),
        0 <= i <= s.len(),
    ensures
        dec_value(s.subrange(0, i)) <= dec_value(s),
    decreases s.len() - i,
{
    if i == s.len() {
        assert(s.subrange(0, i) =~= s);
    } else {
        lemma_dec_value_prefix_le(s, i + 1);
        let p = s.subrange(0, i + 1);
        assert(p.drop_last() =~= s.subrange(0, i));
        assert(dec_value(p) == dec_value(s.subrange(0, i)) * 10 + (s[i] - 48));
        assert(dec_value(s.subrange(0, i)) <= dec_value(s.subrange(0, i)) * 10) by (nonlinear_arith);
    }
}

/// Canonical decimal formatting of an unsigned 128-bit value.
pub fn to_decstr_u128(x: u128) -> (r: Vec<u8>)
    ensures
        dec_canonical(r@),
        dec_value(r@) == x,
{
    let mut digits: Vec<u8> = Vec::new();
    let mut v: u128 = x;
    if v == 0 {
        digits.push(48);
        proof {
            assert(digits@.drop_last() =~= Seq::<u8>::empty());
            assert(digits@.last() == 48);
            assert(dec_value(Seq::<u8>::empty()) == 0);
            assert(dec_value(digits@) == (dec_value(Seq::<u8>::empty()) * 10 + (48 - 48)) as nat);
        }
        return digits;
    }
    proof {
        assert(dec_value_le(digits@) == 0);
        assert(pow10(0) == 1);
        assert(v * 1 == x) by (nonlinear_arith)
            requires
                v == x,
        ;
    }
    while v > 0
        invariant
            dec_value_le(digits@) + v * pow10(digits@.len()) == x,
            dec_digits(digits@),
            v == 0 ==> digits@.len() >= 1 && digits@.last() != 48,
            v > 0 || digits@.len() >= 1,
        decreases v,
    {
        let d: u8 = (v % 10) as u8 + 48;
        proof {
            lemma_dec_le_push(digits@, d);
            vstd::arithmetic::div_mod::lemma_fundamental_div_mod(v as int, 10);
            assert((v / 10) * (10 * pow10(digits@.len())) + (v % 10) * pow10(digits@.len()) == v
                * pow10(digits@.len())) by (nonlinear_arith)
                requires
                    v as int == 10 * (v as int / 10) + (v as int % 10),
            ;
        }
        digits.push(d);
        v = v / 10;
    }
    // emit most significant digit first
    let mut out: Vec<u8> = Vec::new();
    let mut i: usize = digits.len();
    proof {
        assert(digits@.subrange(0, digits@.len() as int) =~= digits@);
        assert(dec_value_le(digits@) == x);
    }
    while i > 0
        invariant
            i <= digits@.len(),
            digits@.len() >= 1,
            dec_digits(digits@),
            dec_digits(out@),
            digits@.last() != 48,
            out@.len() + i == digits@.len(),
            i == 0 ==> out@.len() >= 1,
            out@.len() >= 1 ==> out@[0] == digits@.last(),
            dec_value(out@) * pow10(i as nat) + dec_value_le(digits@.subrange(0, i as int)) == x,
        decreases i,
    {
        i = i - 1;
        let d: u8 = digits[i];
        proof {
            assert(is_dec_digit(digits@[i as int]));
            let pre = digits@.subrange(0, i + 1);
            assert(pre.subrange(0, i as int) =~= digits@.subrange(0, i as int));
            // peel the top digit off the little-endian remainder
            lemma_dec_le_push(digits@.subrange(0, i as int), d);
            assert(digits@.subrange(0, i + 1) =~= digits@.subrange(0, i as int).push(d));
            assert(out@.push(d).drop_last() =~= out@);
            assert(out@.push(d).last() == d);
            assert(out@.push(d).len() == out@.len() + 1);
            assert(dec_value(out@.push(d)) == (dec_value(out@) * 10 + (d - 48)) as nat);
            assert((dec_value(out@) * 10 + (d - 48)) * pow10(i as nat) == dec_value(out@) * (10
                * pow10(i as nat)) + (d - 48) * pow10(i as nat)) by (nonlinear_arith);
        }
        out.push(d);
    }
    proof {
        assert(digits@.subrange(0, 0) =~= Seq::<u8>::empty());
        assert(pow10(0) == 1);
        assert(dec_value(out@) * 1 == dec_value(out@));
    }
    out
}

/// Parse a decimal digit string: `Some` exactly on nonempty all-digit
/// strings whose value fits 128 unsigned bits, returning that value.
pub fn from_decstr_u128(s: &[u8]) -> (r: Option<u128>)
    ensures
        r is Some <==> (s@.len() >= 1 && dec_digits(s@) && dec_value(s@) <= u128::MAX),
        r is Some ==> r->Some_0 == dec_value(s@),
{
    if s.len() == 0 {
        return None;
    }
    let mut acc: u128 = 0;
    let mut i: usize = 0;
    while i < s.len()
        invariant
            i <= s@.len(),
            s@.len() >= 1,
            acc == dec_value(s@.subrange(0, i as int)),
            forall|j: int| 0 <= j < i ==> is_dec_digit(#[trigger] s@[j]),
        decreases s@.len() - i,
    {
        let c: u8 = s[i];
        if c < 48 || c > 57 {
            proof {
                assert(!dec_digits(s@));
            }
            return None;
        }
        let d: u128 = (c - 48) as u128;
        if acc > (u128::MAX - d) / 10 {
            proof {
                // the prefix up to i+1 already exceeds the range
                let p = s@.subrange(0, i + 1);
                assert(p.drop_last() =~= s@.subrange(0, i as int));
                assert(dec_value(p) == acc * 10 + d);
                assert(acc * 10 + d > u128::MAX) by (nonlinear_arith)
                    requires
                        acc > (u128::MAX - d) / 10,
                        acc as int == dec_value(s@.subrange(0, i as int)),
                        0 <= d <= 9,
                        u128::MAX - d == 10 * ((u128::MAX - d) as int / 10) + ((u128::MAX
                            - d) as int % 10),
                        0 <= (u128::MAX - d) as int % 10 < 10,
                ;
                if dec_digits(s@) {
                    lemma_dec_value_prefix_le(s@, i + 1);
                }
            }
            proof {
                vstd::arithmetic::div_mod::lemma_fundamental_div_mod((u128::MAX - d) as int, 10);
                vstd::arithmetic::div_mod::lemma_mod_division_less_than_divisor(
                    (u128::MAX - d) as int,
                    10,
                );
            }
            return None;
        }
        proof {
            vstd::arithmetic::div_mod::lemma_fundamental_div_mod((u128::MAX - d) as int, 10);
            vstd::arithmetic::div_mod::lemma_mod_division_less_than_divisor(
                (u128::MAX - d) as int,
                10,
            );
            assert(acc * 10 + d <= u128::MAX) by (nonlinear_arith)
                requires
                    acc <= (u128::MAX - d) as int / 10,
                    (u128::MAX - d) as int == 10 * ((u128::MAX - d) as int / 10) + ((u128::MAX
                        - d) as int % 10),
                    0 <= (u128::MAX - d) as int % 10 < 10,
                    0 <= d <= 9,
            ;
            let p = s@.subrange(0, i + 1);
            assert(p.drop_last() =~= s@.subrange(0, i as int));
            assert(dec_value(p) == acc * 10 + d);
        }
        acc = acc * 10 + d;
        i = i + 1;
    }
    proof {
        assert(s@.subrange(0, s@.len() as int) =~= s@);
    }
    Some(acc)
}


/// A canonical string of two or more digits is worth at least the power
/// of ten of its top position.
proof fn lemma_dec_value_lower(s: Seq<u8>)
    requires
        dec_canonical(s),
        s.len() >= 2,
    ensures
        dec_value(s) >= pow10((s.len() - 1) as nat),
    decreases s.len(),
{
    let p = s.drop_last();
    assert(dec_digits(p));
    if s.len() == 2 {
        assert(p.len() == 1);
        assert(dec_value(p) == (dec_value(p.drop_last()) * 10 + (p.last() - 48)) as nat);
        assert(p.last() == s[0]);
        assert(dec_value(p) >= 1);
        assert(dec_value(s) >= 10) by (nonlinear_arith)
            requires
                dec_value(s) >= dec_value(p) * 10,
                dec_value(p) >= 1,
        ;
    } else {
        lemma_dec_value_lower(p);
        assert(dec_value(s) >= pow10((s.len() - 1) as nat)) by (nonlinear_arith)
            requires
                dec_value(s) >= dec_value(p) * 10,
                dec_value(p) >= pow10((s.len() - 2) as nat),
                pow10((s.len() - 1) as nat) == 10 * pow10((s.len() - 2) as nat),
        ;
    }
}

/// A digit string is worth less than the power of ten of its length.
proof fn lemma_dec_value_upper(s: Seq<u8>)
    requires
        dec_digits(s),
    ensures
        dec_value(s) < pow10(s.len()),
    decreases s.len(),
{
    if s.len() > 0 {
        let p = s.drop_last();
        assert(dec_digits(p));
        lemma_dec_value_upper(p);
        assert(dec_value(p) * 10 + (s.last() - 48) < 10 * pow10(p.len())) by (nonlinear_arith)
            requires
                dec_value(p) < pow10(p.len()),
                s.last() - 48 <= 9,
        ;
    }
}

/// Powers of ten do not shrink as the exponent grows.
proof fn lemma_pow10_increases(a: nat, b: nat)
    requires
        a <= b,
    ensures
        pow10(a) <= pow10(b),
    decreases b,
{
    if a < b {
        lemma_pow10_increases(a, (b - 1) as nat);
        assert(pow10((b - 1) as nat) <= 10 * pow10((b - 1) as nat)) by (nonlinear_arith)
            requires
                pow10((b - 1) as nat) >= 0,
        ;
    }
}

/// Each value has exactly one canonical decimal form, so parsing is
/// injective on canonical strings and formatting is its exact inverse.
pub proof fn lemma_dec_canonical_unique(s1: Seq<u8>, s2: Seq<u8>)
    requires
        dec_canonical(s1),
        dec_canonical(s2),
        dec_value(s1) == dec_value(s2),
    ensures
        s1 == s2,
    decreases s1.len(),
{
    let v = dec_value(s1);
    // equal values force equal lengths
    lemma_dec_value_upper(s1);
    lemma_dec_value_upper(s2);
    if s1.len() < s2.len() {
        lemma_dec_value_lower(s2);
        lemma_pow10_increases(s1.len(), (s2.len() - 1) as nat);
        assert(false);
    }
    if s2.len() < s1.len() {
        lemma_dec_value_lower(s1);
        lemma_pow10_increases(s2.len(), (s1.len() - 1) as nat);
        assert(false);
    }
    if s1.len() == 1 {
        assert(dec_value(s1) == (dec_value(s1.drop_last()) * 10 + (s1.last() - 48)) as nat);
        assert(dec_value(s2) == (dec_value(s2.drop_last()) * 10 + (s2.last() - 48)) as nat);
        assert(s1[0] == s2[0]);
        assert(s1 =~= s2);
    } else {
        let p1 = s1.drop_last();
        let p2 = s2.drop_last();
        let d1 = s1.last() - 48;
        let d2 = s2.last() - 48;
        // the last digit and the prefix value are the residue and the
        // quotient of v by ten
        vstd::arithmetic::div_mod::lemma_fundamental_div_mod_converse(v as int, 10,
            dec_value(p1) as int, d1);
        vstd::arithmetic::div_mod::lemma_fundamental_div_mod_converse(v as int, 10,
            dec_value(p2) as int, d2);
        assert(d1 == d2);
        assert(dec_value(p1) == dec_value(p2));
        assert(dec_canonical(p1));
        assert(dec_canonical(p2));
        lemma_dec_canonical_unique(p1, p2);
        assert forall|i: int| 0 <= i < s1.len() implies s1[i] == s2[i] by {
            if i < s1.len() - 1 {
                assert(s1[i] == p1[i]);
                assert(s2[i] == p2[i]);
            } else {
                assert(s1[i] == s1.last());
                assert(s2[i] == s2.last());
            }
        }
        assert(s1 =~= s2);
    }
}

} // verus!
