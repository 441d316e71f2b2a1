//! The prime set of a half-open range, computed with a segmented Sieve of
//! Eratosthenes: an ascending sequence of the primes for scanning, plus a
//! hash index for constant-time membership queries.

use vstd::prelude::*;
use std::collections::HashSet;
use crate::arith::has_factor_below;
use crate::arith::is_prime;
use crate::arith::lemma_prime_iff_no_factor;
use vstd::arithmetic::div_mod::lemma_fundamental_div_mod;
use vstd::arithmetic::div_mod::lemma_mod_multiples_basic;

verus! {

broadcast use vstd::std_specs::hash::group_hash_axioms;

/// All primes in `[min_value, max_value)`: an ascending vector for scanning
/// and a membership index holding exactly the same values.
pub struct Primes {
    /// The primes of the range in strictly ascending order.
    pub vector: Vec<u64>,
    set: HashSet<u64>,
}

impl View for Primes {
    type V = Set<u64>;

    /// The mathematical set of primes held by the membership index.
    closed spec fn view(&self) -> Set<u64> {
        self.set@
    }
}

impl Primes {
    /// The ascending sequence of primes, for scanning.
    pub closed spec fn seq(self) -> Seq<u64> {
        self.vector@
    }

    /// Build the prime set of `[min_value, max_value)` by sieving.  The
    /// resulting membership index and ascending vector hold exactly the
    /// primes of the range.
    pub fn get_between(min_value: u64, max_value: u64) -> (r: Primes)
        requires
            min_value > 1,
            max_value > min_value,
            max_value - min_value <= usize::MAX,
        ensures
            forall|n: u64|
                #[trigger] r@.contains(n) <==> min_value <= n < max_value && is_prime(n as int),
            forall|n: u64|
                #[trigger] r.seq().contains(n) <==> min_value <= n < max_value && is_prime(
                    n as int,
                ),
            forall|i: int, j: int| 0 <= i < j < r.seq().len() ==> r.seq()[i] < r.seq()[j],
            forall|i: int|
                0 <= i < r.seq().len() ==> min_value <= #[trigger] r.seq()[i] < max_value
                    && is_prime(r.seq()[i] as int),
    {
        let array = Self::get_prime_numbers_array(min_value, max_value);
        let r = Self::from_array(&array, min_value, max_value);
        proof {
            assert forall|i: int| 0 <= i < r.seq().len() implies min_value
                <= #[trigger] r.seq()[i] < max_value && is_prime(r.seq()[i] as int) by {
                assert(r.seq().contains(r.seq()[i]));
            }
        }
        r
    }

    /// How many primes the range holds.
    pub fn count(&self) -> (n: usize)
        ensures
            n == self.seq().len(),
    {
        self.vector.len()
    }

    /// The prime at one position of the ascending sequence.
    pub fn prime_at(&self, idx: usize) -> (p: u64)
        requires
            idx < self.seq().len(),
        ensures
            p == self.seq()[idx as int],
    {
        self.vector[idx]
    }

    /// Collect the surviving positions of the sieve array into the ascending
    /// vector and the membership index.
    fn from_array(array: &Vec<bool>, min_value: u64, max_value: u64) -> (r: Primes)
        requires
            min_value >= 2,
            max_value > min_value,
            array@.len() == max_value - min_value,
        ensures
            forall|n: u64|
                r@.contains(n) <==> min_value <= n < max_value && array@[n - min_value],
            forall|n: u64|
                r.vector@.contains(n) <==> min_value <= n < max_value && array@[n - min_value],
            forall|i: int, j: int|
                0 <= i < j < r.vector@.len() ==> r.vector@[i] < r.vector@[j],
    {
        let length = array.len();
        let mut vector: Vec<u64> = Vec::new();
        let mut set: HashSet<u64> = HashSet::new();
        let mut idx: usize = 0;
        while idx < length
            invariant
                0 <= idx <= length,
                length == array@.len() == max_value - min_value,
                min_value >= 2,
                forall|n: u64|
                    set@.contains(n) <==> min_value <= n < min_value + idx && array@[n
                        - min_value],
                forall|n: u64|
                    vector@.contains(n) <==> min_value <= n < min_value + idx && array@[n
                        - min_value],
                forall|i: int|
                    0 <= i < vector@.len() ==> min_value <= #[trigger] vector@[i] < min_value
                        + idx,
                forall|i: int, j: int| 0 <= i < j < vector@.len() ==> vector@[i] < vector@[j],
            decreases length - idx,
        {
            if array[idx] {
                let number = min_value + (idx as u64);
                let ghost old_vector = vector@;
                vector.push(number);
                set.insert(number);
                proof {
                    assert(vector@ == old_vector.push(number));
                    assert forall|n: u64|
                        vector@.contains(n) <==> (min_value <= n < min_value + idx + 1 && array@[n
                            - min_value]) by {
                        if vector@.contains(n) {
                            let k = choose|k: int| 0 <= k < vector@.len() && vector@[k] == n;
                            if k < old_vector.len() {
                                assert(old_vector.contains(n));
                            }
                        }
                        if min_value <= n < min_value + idx + 1 && array@[n - min_value] {
                            if n < min_value + idx {
                                assert(old_vector.contains(n));
                                let k = choose|k: int|
                                    0 <= k < old_vector.len() && old_vector[k] == n;
                                assert(vector@[k] == n);
                            } else {
                                assert(vector@[old_vector.len() as int] == n);
                            }
                        }
                    }
                }
            } else {
                proof {
                    assert forall|n: u64|
                        vector@.contains(n) <==> (min_value <= n < min_value + idx + 1 && array@[n
                            - min_value]) by {
                        if min_value <= n < min_value + idx + 1 && array@[n - min_value] {
                            assert(n != min_value + idx);
                        }
                    }
                }
            }
            idx += 1;
        }
        Primes { vector, set }
    }

    /// The sieve proper: a boolean per number of the range, `true` exactly
    /// for the primes.  Every factor candidate up to the ceiling of the
    /// square root of `max_value` marks its multiples, each factor starting
    /// at the first multiple that is at least `min_value` and at least the
    /// factor's square.
    fn get_prime_numbers_array(min_value: u64, max_value: u64) -> (r: Vec<bool>)
        requires
            min_value >= 2,
            max_value > min_value,
            max_value - min_value <= usize::MAX,
        ensures
            r@.len() == max_value - min_value,
            forall|j: int| 0 <= j < r@.len() ==> r@[j] == is_prime(min_value + j),
    {
        let length = (max_value - min_value) as usize;
        let mut result: Vec<bool> = vec![true; length];
        proof {
            assert forall|j: int| 0 <= j < length implies result@[j] == true by {
                assert(cloned(true, result@[j]));
            }
        }
        let upper_limit = Self::calc_upper_limit(max_value);
        let mut i: u64 = 2;
        while i < upper_limit
            invariant
                2 <= i <= upper_limit,
                min_value >= 2,
                max_value > min_value,
                result@.len() == length == max_value - min_value,
                upper_limit * upper_limit >= max_value,
                (upper_limit - 1) * (upper_limit - 1) < max_value,
                upper_limit <= max_value,
                forall|j: int|
                    0 <= j < length ==> result@[j] == !has_factor_below(min_value + j, i as int),
            decreases upper_limit - i,
        {
            proof {
                assert(i * i < max_value) by (nonlinear_arith)
                    requires
                        2 <= i < upper_limit,
                        (upper_limit - 1) * (upper_limit - 1) < max_value,
                ;
            }
            let skip = Self::find_number_to_skip_until_min_value(min_value, i);
            let start = i + skip;
            proof {
                if min_value > i * i {
                    assert(i * (i + skip - 1) < min_value);
                    assert(i + skip - 1 < min_value) by (nonlinear_arith)
                        requires
                            i >= 2,
                            i + skip - 1 >= 1,
                            i * (i + skip - 1) < min_value,
                    ;
                }
            }
            let mut k = start;
            let bound = (max_value - 1) / i;
            proof {
                lemma_fundamental_div_mod(max_value - 1, i as int);
                assert(i * start >= min_value && i * start >= i * i && start >= i) by {
                    if min_value > i * i {
                        assert(i * (i + skip) >= min_value);
                        assert(i * (i + skip) >= i * i) by (nonlinear_arith)
                            requires
                                i >= 2,
                                skip >= 0,
                        ;
                    } else {
                        assert(skip == 0);
                        assert(i * (i + 0) == i * i) by (nonlinear_arith);
                    }
                }
                assert forall|j: int|
                    0 <= j < length implies result@[j] == !(has_factor_below(
                    min_value + j,
                    i as int,
                ) || (min_value + j >= i * i && (min_value + j) % (i as int) == 0 && min_value + j
                    < i * start)) by {
                    let n = min_value + j;
                    if n >= i * i && n % (i as int) == 0 && n < i * start {
                        lemma_fundamental_div_mod(n, i as int);
                        let q = n / (i as int);
                        assert(n == i * q);
                        assert(q >= i) by (nonlinear_arith)
                            requires
                                i >= 2,
                                n == i * q,
                                n >= i * i,
                        ;
                        if min_value > i * i {
                            assert(i * (start - 1) < min_value <= i * q);
                            assert(q > start - 1) by (nonlinear_arith)
                                requires
                                    i >= 2,
                                    i * (start - 1) < i * q,
                            ;
                        } else {
                            assert(skip == 0 && start == i);
                        }
                        assert(q >= start);
                        assert(i * q >= i * start) by (nonlinear_arith)
                            requires
                                i >= 1,
                                q >= start,
                        ;
                        assert(false);
                    }
                }
            }
            while k <= bound
                invariant
                    2 <= i,
                    min_value >= 2,
                    max_value > min_value,
                    i * i < max_value,
                    start >= i,
                    k >= start,
                    bound == (max_value - 1) as int / i as int,
                    i * start >= min_value,
                    i * start >= i * i,
                    result@.len() == length == max_value - min_value,
                    forall|j: int|
                        0 <= j < length ==> result@[j] == !(has_factor_below(
                            min_value + j,
                            i as int,
                        ) || (min_value + j >= i * i && (min_value + j) % (i as int) == 0
                            && min_value + j < i * k)),
                decreases bound + 1 - k,
            {
                proof {
                    lemma_fundamental_div_mod(max_value - 1, i as int);
                    assert(i * k <= max_value - 1) by (nonlinear_arith)
                        requires
                            i >= 2,
                            k <= (max_value - 1) as int / i as int,
                            i * ((max_value - 1) as int / i as int) <= max_value - 1,
                    ;
                }
                let m = i * k;
                proof {
                    assert(i * k >= i * start) by (nonlinear_arith)
                        requires
                            i >= 1,
                            k >= start,
                    ;
                }
                let idx = (m - min_value) as usize;
                let ghost pre = result@;
                result.set(idx, false);
                proof {
                    lemma_mod_multiples_basic(k as int, i as int);
                    assert((i * k) % (i as int) == 0) by {
                        assert(k * i == i * k) by (nonlinear_arith);
                    }
                    assert(i * k >= i * i) by (nonlinear_arith)
                        requires
                            i >= 1,
                            k >= i,
                    ;
                    assert(i * (k + 1) == i * k + i) by (nonlinear_arith);
                    assert forall|j: int|
                        0 <= j < length implies result@[j] == !(has_factor_below(
                        min_value + j,
                        i as int,
                    ) || (min_value + j >= i * i && (min_value + j) % (i as int) == 0 && min_value
                        + j < i * (k + 1))) by {
                        let n = min_value + j;
                        if j == idx {
                            assert(result@[j] == false);
                            assert(n == i * k);
                        } else {
                            assert(result@[j] == pre[j]);
                            if n >= i * i && n % (i as int) == 0 && i * k <= n < i * (k + 1) {
                                lemma_fundamental_div_mod(n, i as int);
                                let q = n / (i as int);
                                assert(n == i * q);
                                assert(q == k) by (nonlinear_arith)
                                    requires
                                        i >= 1,
                                        n == i * q,
                                        i * k <= n,
                                        n < i * (k + 1),
                                ;
                                assert(false);
                            }
                        }
                    }
                }
                k += 1;
            }
            proof {
                lemma_fundamental_div_mod(max_value - 1, i as int);
                assert(i * k >= max_value) by (nonlinear_arith)
                    requires
                        i >= 2,
                        k > (max_value - 1) as int / i as int,
                        (max_value - 1) == i * ((max_value - 1) as int / i as int) + (max_value
                            - 1) % (i as int),
                        0 <= (max_value - 1) % (i as int) < i,
                ;
                assert forall|j: int|
                    0 <= j < length implies result@[j] == !has_factor_below(
                    min_value + j,
                    i + 1 as int,
                ) by {
                    let n = min_value + j;
                    assert(n < max_value <= i * k);
                    lemma_factor_step(n, i as int);
                }
            }
            i += 1;
        }
        proof {
            assert forall|j: int| 0 <= j < length implies result@[j] == is_prime(
                min_value + j,
            ) by {
                let n = min_value + j;
                assert(n < max_value);
                assert(max_value <= upper_limit * upper_limit);
                lemma_prime_iff_no_factor(n, upper_limit as int);
            }
        }
        result
    }

    /// The smallest number whose square reaches `max_value`: the ceiling of
    /// the square root, the bound of the sieve's factor candidates.
    fn calc_upper_limit(max_value: u64) -> (r: u64)
        requires
            max_value >= 2,
        ensures
            2 <= r <= max_value,
            r * r >= max_value,
            (r - 1) * (r - 1) < max_value,
    {
        let mut u: u64 = 2;
        while u <= (max_value - 1) / u
            invariant
                2 <= u <= max_value,
                (u - 1) * (u - 1) < max_value,
            decreases max_value - u,
        {
            proof {
                lemma_fundamental_div_mod(max_value - 1, u as int);
                assert(u * u <= max_value - 1) by (nonlinear_arith)
                    requires
                        u >= 2,
                        u <= (max_value - 1) as int / u as int,
                        u * ((max_value - 1) as int / u as int) <= max_value - 1,
                ;
                assert(u < max_value) by (nonlinear_arith)
                    requires
                        u >= 2,
                        u * u < max_value,
                ;
            }
            u += 1;
        }
        proof {
            lemma_fundamental_div_mod(max_value - 1, u as int);
            assert(u * u >= max_value) by (nonlinear_arith)
                requires
                    u >= 2,
                    u > (max_value - 1) as int / u as int,
                    (max_value - 1) == u * ((max_value - 1) as int / u as int) + (max_value - 1)
                        % (u as int),
                    0 <= (max_value - 1) % (u as int) < u,
            ;
        }
        u
    }

    /// How many multiples of `i`, counting up from `i * i`, fall below
    /// `min_value` and can be skipped: the sieve of a segment starts marking
    /// at `i * (i + skip)`, the first multiple of `i` at least `min_value`
    /// and at least `i * i`.
    fn find_number_to_skip_until_min_value(min_value: u64, i: u64) -> (skip: u64)
        requires
            i >= 2,
            i * i <= u64::MAX,
        ensures
            min_value <= i * i ==> skip == 0,
            min_value > i * i ==> i * (i + skip) >= min_value && i * (i + skip - 1) < min_value,
            i + skip <= u64::MAX,
    {
        let ii = i * i;
        if min_value > ii {
            let diff = min_value - ii;
            let skip = (diff - 1) / i + 1;
            proof {
                lemma_fundamental_div_mod(diff - 1, i as int);
                let q = (diff - 1) as int / i as int;
                assert(diff - 1 == i * q + (diff - 1) % (i as int));
                assert(skip == q + 1);
                assert(i * (i + skip) == i * i + i * skip) by (nonlinear_arith);
                assert(i * (i + skip - 1) == i * i + i * (skip - 1)) by (nonlinear_arith);
                assert(i * skip == i * q + i) by (nonlinear_arith)
                    requires
                        skip == q + 1,
                ;
                assert(i * skip >= diff);
                assert(i * (skip - 1) == i * q) by (nonlinear_arith)
                    requires
                        skip == q + 1,
                ;
                assert(i * (skip - 1) < diff);
                assert(i + skip <= u64::MAX) by (nonlinear_arith)
                    requires
                        i >= 2,
                        skip >= 1,
                        i * (i + skip - 1) < min_value <= u64::MAX,
                ;
            }
            skip
        } else {
            0
        }
    }

    /// Constant-time membership in the prime set: exactly the values of the
    /// ascending vector.
    pub fn contains(&self, val: &u64) -> (r: bool)
        ensures
            r == self@.contains(*val),
    {
        self.set.contains(val)
    }
}

/// Raising the factor bound by one adds exactly the multiples of the old
/// bound that reach its square.
proof fn lemma_factor_step(n: int, i: int)
    requires
        i >= 2,
    ensures
        has_factor_below(n, i + 1) <==> (has_factor_below(n, i) || (i * i <= n && n % i == 0)),
{
    if has_factor_below(n, i + 1) {
        let d = choose|d: int| 2 <= d < i + 1 && d * d <= n && #[trigger] (n % d) == 0;
        if d < i {
            assert(has_factor_below(n, i));
        } else {
            assert(d == i);
        }
    }
    if has_factor_below(n, i) {
        let d = choose|d: int| 2 <= d < i && d * d <= n && #[trigger] (n % d) == 0;
        assert(2 <= d < i + 1 && d * d <= n && n % d == 0);
    }
    if i * i <= n && n % i == 0 {
        assert(2 <= i < i + 1 && i * i <= n && n % i == 0);
    }
}

} // verus!
