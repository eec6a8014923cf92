//! Prime counting helpers.

use vstd::prelude::*;

verus! {

/// Primality by trial division.
pub open spec fn is_prime(n: int) -> bool {
    n >= 2 && forall|d: int| 2 <= d < n ==> #[trigger] (n % d) != 0
}

/// The number of primes up to and including `n`.
pub open spec fn prime_count(n: int) -> nat
    decreases n,
{
    if n < 2 {
        0
    } else {
        prime_count(n - 1) + (if is_prime(n) {
            1nat
        } else {
            0nat
        })
    }
}

/// Trial-division primality test.
fn is_prime_exec(n: u32) -> (r: bool)
    ensures
        r == is_prime(n as int),
{
    if n < 2 {
        return false;
    }
    let mut d: u32 = 2;
    while d < n
        invariant
            2 <= d <= n,
            forall|e: int| 2 <= e < d ==> #[trigger] ((n as int) % e) != 0,
        decreases n - d,
    {
        if n % d == 0 {
            return false;
        }
        d = d + 1;
    }
    true
}

/// The number of primes up to and including `n` (0 for `n < 2`).
pub fn primes_up_to(n: i32) -> (r: i32)
    ensures
        r == prime_count(n as int),
{
    if n < 2 {
        return 0;
    }
    let mut k: i64 = 2;
    let mut cnt: i32 = 0;
    proof {
        assert(prime_count(1) == 0);
    }
    while k <= n as i64
        invariant
            2 <= k <= n + 1,
            n >= 2,
            cnt == prime_count(k - 1),
            cnt <= k - 2,
        decreases n + 1 - k,
    {
        if is_prime_exec(k as u32) {
            cnt = cnt + 1;
        }
        proof {
            assert(prime_count(k as int) == prime_count(k - 1) + (if is_prime(k as int) {
                1nat
            } else {
                0nat
            }));
        }
        k = k + 1;
    }
    cnt
}

/// The zero-based index, in the sequence of all primes, of the first
/// prime that is at least `n`; `-1` when there is no such prime within
/// the 32-bit unsigned range (or its index would not fit the result).
pub fn prime_index_at_least(n: u32) -> (r: i32)
    ensures
        r >= 0 ==> exists|p: int|
            n <= p <= u32::MAX && #[trigger] is_prime(p) && (forall|q: int|
                n <= q < p ==> !is_prime(q)) && r == prime_count(p) - 1,
{
    let mut k: u64 = 2;
    let mut cnt: u64 = 0;
    proof {
        assert(prime_count(1) == 0);
    }
    while k <= u32::MAX as u64
        invariant
            2 <= k <= 0x1_0000_0000u64,
            cnt == prime_count(k - 1),
            cnt <= k,
            forall|q: int| n <= q < k ==> !is_prime(q),
        decreases 0x1_0000_0000u64 - k,
    {
        let pk = is_prime_exec(k as u32);
        proof {
            assert(prime_count(k as int) == prime_count(k - 1) + (if is_prime(k as int) {
                1nat
            } else {
                0nat
            }));
        }
        if pk {
            cnt = cnt + 1;
        }
        if pk && k >= n as u64 {
            if cnt - 1 <= i32::MAX as u64 {
                return (cnt - 1) as i32;
            } else {
                return -1;
            }
        }
        k = k + 1;
    }
    -1
}

} // verus!
