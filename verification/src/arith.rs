//! Primality and radix arithmetic used throughout the library.

use vstd::prelude::*;
use vstd::arithmetic::div_mod::lemma_fundamental_div_mod;
use vstd::arithmetic::div_mod::lemma_mod_multiples_basic;

verus! {

/// `n` is prime: at least 2 and without a divisor strictly between 1 and `n`.
pub open spec fn is_prime(n: int) -> bool {
    n >= 2 && forall|d: int| 2 <= d < n ==> #[trigger] (n % d) != 0
}

/// Some `d` with `2 <= d < bound` divides `n` and satisfies `d * d <= n`.
/// This is exactly the set of witnesses a bounded sieve can discover.
pub open spec fn has_factor_below(n: int, bound: int) -> bool {
    exists|d: int| 2 <= d < bound && d * d <= n && #[trigger] (n % d) == 0
}

/// `b` raised to the power `e`, for positional number systems.
pub open spec fn pow_of(b: int, e: nat) -> int
    decreases e,
{
    if e == 0 {
        1
    } else {
        b * pow_of(b, (e - 1) as nat)
    }
}

/// Powers of a positive base are positive.
pub proof fn lemma_pow_positive(b: int, e: nat)
    requires
        b >= 1,
    ensures
        pow_of(b, e) >= 1,
    decreases e,
{
    if e > 0 {
        lemma_pow_positive(b, (e - 1) as nat);
        assert(pow_of(b, e) == b * pow_of(b, (e - 1) as nat));
        assert(b * pow_of(b, (e - 1) as nat) >= 1) by (nonlinear_arith)
            requires
                b >= 1,
                pow_of(b, (e - 1) as nat) >= 1,
        ;
    }
}

/// Powers of a base of at least 2 grow weakly with the exponent.
pub proof fn lemma_pow_increases(b: int, e1: nat, e2: nat)
    requires
        b >= 2,
        e1 <= e2,
    ensures
        pow_of(b, e1) <= pow_of(b, e2),
    decreases e2,
{
    if e1 < e2 {
        lemma_pow_increases(b, e1, (e2 - 1) as nat);
        lemma_pow_positive(b, (e2 - 1) as nat);
        assert(pow_of(b, e2) == b * pow_of(b, (e2 - 1) as nat));
        assert(b * pow_of(b, (e2 - 1) as nat) >= pow_of(b, (e2 - 1) as nat)) by (nonlinear_arith)
            requires
                b >= 2,
                pow_of(b, (e2 - 1) as nat) >= 1,
        ;
    }
}

/// A composite number has a divisor no larger than its square root.
pub proof fn lemma_composite_has_small_factor(n: int)
    requires
        n >= 2,
        !is_prime(n),
    ensures
        exists|d: int| 2 <= d && d * d <= n && #[trigger] (n % d) == 0,
{
    let d0 = choose|d: int| 2 <= d < n && #[trigger] (n % d) == 0;
    lemma_fundamental_div_mod(n, d0);
    let q = n / d0;
    assert(n == d0 * q);
    assert(q >= 2) by (nonlinear_arith)
        requires
            n == d0 * q,
            2 <= d0 < n,
    ;
    if d0 * d0 <= n {
        assert(2 <= d0 && d0 * d0 <= n && n % d0 == 0);
    } else {
        assert(q * q <= n) by (nonlinear_arith)
            requires
                n == d0 * q,
                d0 * d0 > n,
                2 <= d0,
                2 <= q,
        ;
        lemma_mod_multiples_basic(d0, q);
        assert((d0 * q) % q == 0);
        assert(2 <= q && q * q <= n && n % q == 0);
    }
}

/// A divisor `d` with `2 <= d` and `d * d <= n` shows `n` composite.
pub proof fn lemma_factor_means_composite(n: int, d: int)
    requires
        2 <= d,
        d * d <= n,
        n % d == 0,
    ensures
        !is_prime(n),
{
    assert(2 <= d < n) by (nonlinear_arith)
        requires
            2 <= d,
            d * d <= n,
    ;
}

/// For `n` below `limit * limit`, primality coincides with the absence of a
/// sieve witness below `limit`.
pub proof fn lemma_prime_iff_no_factor(n: int, limit: int)
    requires
        n >= 2,
        limit >= 2,
        n < limit * limit,
    ensures
        is_prime(n) <==> !has_factor_below(n, limit),
{
    if !is_prime(n) {
        lemma_composite_has_small_factor(n);
        let d = choose|d: int| 2 <= d && d * d <= n && #[trigger] (n % d) == 0;
        assert(d < limit) by (nonlinear_arith)
            requires
                2 <= d,
                2 <= limit,
                d * d <= n,
                n < limit * limit,
        ;
        assert(has_factor_below(n, limit));
    }
    if has_factor_below(n, limit) {
        let d = choose|d: int| 2 <= d < limit && d * d <= n && #[trigger] (n % d) == 0;
        lemma_factor_means_composite(n, d);
    }
}

} // verus!
