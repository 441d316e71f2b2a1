//! The family search: for each pattern, scan the primes of the range, build
//! the substitution family of each new case, and stop at the first family of
//! exactly the requested size.

use vstd::prelude::*;
use std::collections::HashSet;
use crate::arith::is_prime;
use crate::arith::lemma_pow_increases;
use crate::arith::pow_of;
use crate::combination::bits_value;
use crate::combination::lemma_bits_value_bound;
use crate::combination::lemma_bits_value_injective;
use crate::combination::pop_count;
use crate::combination::PositionCombinations;
use crate::digits::lemma_radix_value_injective;
use crate::digits::lemma_same_case;
use crate::digits::masked;
use crate::digits::radix_value;
use crate::digits::all_below;
use crate::digits::case_key;
use crate::digits::digits_value;
use crate::digits::enough_digits_left;
use crate::digits::lemma_spec_digits_correct;
use crate::digits::lemma_spec_digits_len;
use crate::digits::replace_digits_with_new_digit_according_to_pattern;
use crate::digits::spec_digits;
use crate::digits::subst;
use crate::digits::to_digits;
use crate::primes::Primes;
use vstd::arithmetic::power2::pow2;

verus! {

broadcast use vstd::std_specs::hash::group_hash_axioms;

/// Configuration of one family search over `[min, max)`.
pub struct SearchConfig {
    /// Inclusive lower bound of the search range.
    pub min: u64,
    /// Exclusive upper bound of the search range.
    pub max: u64,
    /// Fixed number of digits of every number in the range.
    pub digit_width: usize,
    /// Smallest admitted number of replaced positions of a pattern.
    pub min_pattern_len: usize,
    /// Largest admitted number of replaced positions of a pattern.
    pub max_pattern_len: usize,
    /// Exact family size the search looks for.
    pub family_size: usize,
}

/// Why a search returned no family.
#[derive(Debug, PartialEq, Eq, Structural)]
pub enum SearchError {
    /// The configuration violates a precondition of the search.
    InvalidConfig,
    /// The configured range exceeds what the arithmetic can represent.
    Overflow,
    /// The exhaustive scan found no family of the requested size.
    NotFound,
}

/// A found family: the primes, ascending by substituted digit, and the
/// pattern that produced them.
#[derive(Debug)]
pub struct FamilyResult {
    /// The members of the family.
    pub primes: Vec<u64>,
    /// The pattern whose substitutions produced the members.
    pub pattern: Vec<bool>,
}

/// The set of primes in `[min, max)`.
pub open spec fn spec_prime_set(min: u64, max: u64) -> Set<u64> {
    Set::new(|n: u64| min <= n < max && is_prime(n as int))
}

/// The family of a base digit sequence under a pattern, built by trying the
/// substituted digits `0 .. d_count` in ascending order and keeping the
/// values that the prime set holds.
pub open spec fn family_upto(ds: Seq<u8>, pat: Seq<bool>, pset: Set<u64>, d_count: int) -> Seq<u64>
    decreases d_count,
{
    if d_count <= 0 {
        Seq::empty()
    } else {
        let prefix = family_upto(ds, pat, pset, d_count - 1);
        let v = digits_value(subst(ds, (d_count - 1) as u8, pat));
        if 0 <= v <= u64::MAX && pset.contains(v as u64) {
            prefix.push(v as u64)
        } else {
            prefix
        }
    }
}

/// The full family of a base digit sequence under a pattern: one try per
/// decimal digit.
pub open spec fn family_of(ds: Seq<u8>, pat: Seq<bool>, pset: Set<u64>) -> Seq<u64> {
    family_upto(ds, pat, pset, 10)
}

/// Every member of a family is held by the prime set that filtered it.
pub proof fn lemma_family_in_prime_set(ds: Seq<u8>, pat: Seq<bool>, pset: Set<u64>, d_count: int)
    ensures
        forall|k: int|
            0 <= k < family_upto(ds, pat, pset, d_count).len() ==> pset.contains(
                #[trigger] family_upto(ds, pat, pset, d_count)[k],
            ),
    decreases d_count,
{
    if d_count > 0 {
        lemma_family_in_prime_set(ds, pat, pset, d_count - 1);
        let fam = family_upto(ds, pat, pset, d_count);
        let prefix = family_upto(ds, pat, pset, d_count - 1);
        assert forall|k: int| 0 <= k < fam.len() implies pset.contains(#[trigger] fam[k]) by {
            if k < prefix.len() {
                assert(fam[k] == prefix[k]);
            }
        }
    }
}

/// Every member of a family is the reassembled value of the base digits with
/// some digit substituted, so all members share the unmarked digits.
pub proof fn lemma_family_members_are_substitutions(
    ds: Seq<u8>,
    pat: Seq<bool>,
    pset: Set<u64>,
    d_count: int,
)
    ensures
        forall|k: int|
            0 <= k < family_upto(ds, pat, pset, d_count).len() ==> exists|d: u8|
                d < d_count && #[trigger] family_upto(ds, pat, pset, d_count)[k] == digits_value(
                    subst(ds, d, pat),
                ),
    decreases d_count,
{
    if d_count > 0 {
        lemma_family_members_are_substitutions(ds, pat, pset, d_count - 1);
        let fam = family_upto(ds, pat, pset, d_count);
        let prefix = family_upto(ds, pat, pset, d_count - 1);
        assert forall|k: int| 0 <= k < fam.len() implies exists|d: u8|
            d < d_count && #[trigger] fam[k] == digits_value(subst(ds, d, pat)) by {
            if k < prefix.len() {
                let d0 = choose|d: u8|
                    d < d_count - 1 && #[trigger] prefix[k] == digits_value(subst(ds, d, pat));
                assert(d0 < d_count && fam[k] == digits_value(subst(ds, d0, pat)));
            } else {
                let dl = (d_count - 1) as u8;
                assert(dl < d_count && fam[k] == digits_value(subst(ds, dl, pat)));
            }
        }
    }
}

/// Digit sequences with the same case under a pattern have exactly the same
/// family: substitution only reads the unmarked digits.
pub proof fn lemma_same_case_same_family(
    ds1: Seq<u8>,
    ds2: Seq<u8>,
    pat: Seq<bool>,
    pset: Set<u64>,
    d_count: int,
)
    requires
        ds1.len() == pat.len(),
        ds2.len() == pat.len(),
        crate::digits::masked(ds1, pat) == crate::digits::masked(ds2, pat),
    ensures
        family_upto(ds1, pat, pset, d_count) == family_upto(ds2, pat, pset, d_count),
    decreases d_count,
{
    crate::digits::lemma_same_case_same_candidates(ds1, ds2, pat);
    if d_count > 0 {
        lemma_same_case_same_family(ds1, ds2, pat, pset, d_count - 1);
        assert(subst(ds1, (d_count - 1) as u8, pat) == subst(ds2, (d_count - 1) as u8, pat));
    }
}

/// Trying more digits never removes members, and each further digit adds at
/// most one: the bound behind the search's pruning step.
pub proof fn lemma_family_upto_len(ds: Seq<u8>, pat: Seq<bool>, pset: Set<u64>, d1: int, d2: int)
    requires
        0 <= d1 <= d2,
    ensures
        family_upto(ds, pat, pset, d1).len() <= family_upto(ds, pat, pset, d2).len(),
        family_upto(ds, pat, pset, d2).len() <= family_upto(ds, pat, pset, d1).len() + (d2 - d1),
    decreases d2,
{
    if d1 < d2 {
        lemma_family_upto_len(ds, pat, pset, d1, d2 - 1);
    }
}

/// A pattern the search must consider: the configured width, with a
/// population count within the configured bounds.
pub open spec fn pattern_qualifies(c: SearchConfig, w: Seq<bool>) -> bool {
    w.len() == c.digit_width && c.min_pattern_len <= pop_count(w) <= c.max_pattern_len
}

/// No base digit sequence yields a family of exactly the requested size
/// under the pattern `w`.
pub open spec fn no_family_of_size(c: SearchConfig, w: Seq<bool>) -> bool {
    forall|ds: Seq<u8>|
        ds.len() == c.digit_width && all_below(ds, 10) ==> #[trigger] family_of(
            ds,
            w,
            spec_prime_set(c.min, c.max),
        ).len() != c.family_size
}

/// The patterns the enumeration has fully dealt with, as a bound on their
/// binary-counter values.
spec fn spec_frontier(combos: PositionCombinations) -> nat {
    if combos.is_finished() {
        pow2(combos.length())
    } else {
        combos.current_value()
    }
}

/// The configuration check the search performs before any expensive work,
/// with the error it reports: bounds and pattern lengths first, then the
/// representable width, then the agreement of range and digit width.
pub open spec fn spec_config_error(c: SearchConfig) -> Option<SearchError> {
    if c.min <= 1 || c.max <= c.min || c.digit_width == 0 || c.min_pattern_len > c.digit_width
        || c.max_pattern_len > c.digit_width {
        Some(SearchError::InvalidConfig)
    } else if c.digit_width > 18 || c.max - c.min > usize::MAX as u64 {
        Some(SearchError::Overflow)
    } else if !(pow_of(10, (c.digit_width - 1) as nat) <= c.min && c.max <= pow_of(
        10,
        c.digit_width as nat,
    )) {
        Some(SearchError::InvalidConfig)
    } else {
        None
    }
}

/// A result the search may report: a pattern of the configured width and
/// population bounds, and the full substitution family of some base digit
/// sequence under it, of exactly the requested size.
pub open spec fn valid_family(c: SearchConfig, f: FamilyResult) -> bool {
    &&& f.pattern@.len() == c.digit_width
    &&& c.min_pattern_len <= pop_count(f.pattern@) <= c.max_pattern_len
    &&& f.primes@.len() == c.family_size
    &&& exists|ds: Seq<u8>|
        ds.len() == c.digit_width && all_below(ds, 10) && f.primes@ == #[trigger] family_of(
            ds,
            f.pattern@,
            spec_prime_set(c.min, c.max),
        )
}

/// The base prime a result was built from: the least prime of the range
/// whose case under the result's pattern yields the members, with every
/// smaller prime's case falling short of (or beyond) the requested size.
pub open spec fn result_from_first_base(c: SearchConfig, f: FamilyResult, p: u64) -> bool {
    &&& c.min <= p < c.max
    &&& is_prime(p as int)
    &&& f.primes@ == family_of(spec_digits(p as int), f.pattern@, spec_prime_set(c.min, c.max))
    &&& forall|q: u64|
        c.min <= q < p && is_prime(q as int) ==> #[trigger] family_of(
            spec_digits(q as int),
            f.pattern@,
            spec_prime_set(c.min, c.max),
        ).len() != c.family_size
}

/// The result was built from some least base prime of its pattern.
pub open spec fn built_from_first_base(c: SearchConfig, f: FamilyResult) -> bool {
    exists|p: u64| #[trigger] result_from_first_base(c, f, p)
}

/// Any two results that both meet the search's guarantees carry the same
/// pattern: a valid family under the first qualifying pattern in counter
/// order leaves no room for a different choice, so the reported pattern is a
/// function of the configuration alone.
pub proof fn lemma_result_pattern_unique(c: SearchConfig, f1: FamilyResult, f2: FamilyResult)
    requires
        c.family_size >= 1,
        valid_family(c, f1),
        valid_family(c, f2),
        forall|w: Seq<bool>|
            pattern_qualifies(c, w) && bits_value(w) < bits_value(f1.pattern@)
                ==> #[trigger] no_family_of_size(c, w),
        forall|w: Seq<bool>|
            pattern_qualifies(c, w) && bits_value(w) < bits_value(f2.pattern@)
                ==> #[trigger] no_family_of_size(c, w),
    ensures
        f1.pattern@ == f2.pattern@,
{
    if bits_value(f1.pattern@) < bits_value(f2.pattern@) {
        assert(no_family_of_size(c, f1.pattern@));
        let ds = choose|ds: Seq<u8>|
            ds.len() == c.digit_width && all_below(ds, 10) && f1.primes@ == #[trigger] family_of(
                ds,
                f1.pattern@,
                spec_prime_set(c.min, c.max),
            );
        assert(family_of(ds, f1.pattern@, spec_prime_set(c.min, c.max)).len() != c.family_size);
        assert(false);
    } else if bits_value(f2.pattern@) < bits_value(f1.pattern@) {
        assert(no_family_of_size(c, f2.pattern@));
        let ds = choose|ds: Seq<u8>|
            ds.len() == c.digit_width && all_below(ds, 10) && f2.primes@ == #[trigger] family_of(
                ds,
                f2.pattern@,
                spec_prime_set(c.min, c.max),
            );
        assert(family_of(ds, f2.pattern@, spec_prime_set(c.min, c.max)).len() != c.family_size);
        assert(false);
    } else {
        lemma_bits_value_injective(f1.pattern@, f2.pattern@);
    }
}

/// Determinism of the search outcome: two results that both meet the
/// search's guarantees — a valid family, the first qualifying pattern in
/// counter order, built from the least base prime of that pattern — are
/// identical, so the outcome is a function of the configuration alone.
pub proof fn lemma_result_unique(
    c: SearchConfig,
    f1: FamilyResult,
    f2: FamilyResult,
    p1: u64,
    p2: u64,
)
    requires
        c.family_size >= 1,
        valid_family(c, f1),
        valid_family(c, f2),
        forall|w: Seq<bool>|
            pattern_qualifies(c, w) && bits_value(w) < bits_value(f1.pattern@)
                ==> #[trigger] no_family_of_size(c, w),
        forall|w: Seq<bool>|
            pattern_qualifies(c, w) && bits_value(w) < bits_value(f2.pattern@)
                ==> #[trigger] no_family_of_size(c, w),
        result_from_first_base(c, f1, p1),
        result_from_first_base(c, f2, p2),
    ensures
        f1.pattern@ == f2.pattern@,
        f1.primes@ == f2.primes@,
        p1 == p2,
{
    lemma_result_pattern_unique(c, f1, f2);
    if p1 < p2 {
        assert(family_of(spec_digits(p1 as int), f2.pattern@, spec_prime_set(c.min, c.max)).len()
            != c.family_size);
        assert(false);
    }
    if p2 < p1 {
        assert(family_of(spec_digits(p2 as int), f1.pattern@, spec_prime_set(c.min, c.max)).len()
            != c.family_size);
        assert(false);
    }
}

/// Ten to the power `e`.
fn pow10(e: usize) -> (r: u64)
    requires
        e <= 19,
    ensures
        r as int == pow_of(10, e as nat),
{
    let mut acc: u64 = 1;
    let mut k: usize = 0;
    while k < e
        invariant
            0 <= k <= e <= 19,
            acc as int == pow_of(10, k as nat),
        decreases e - k,
    {
        proof {
            lemma_pow_increases(10, (k + 1) as nat, 19);
            assert(pow_of(10, 19) == 10_000_000_000_000_000_000) by {
                reveal_with_fuel(pow_of, 20);
            }
        }
        acc = acc * 10;
        k += 1;
    }
    acc
}

/// Search `[config.min, config.max)` for the first family of exactly
/// `config.family_size` primes related by a digit pattern, scanning patterns
/// in binary-counter order and, per pattern, base primes in ascending order.
/// Cases already seen under the current pattern are skipped, and substitution
/// stops early once the target size is out of reach.
///
/// A returned family is a full substitution family of the requested size,
/// and its pattern is the first qualifying pattern in counter order that
/// admits one; a not-found outcome means no qualifying pattern admits a
/// family of that size at all.  Configuration errors are reported before any
/// expensive work, exactly as `spec_config_error` states them.
pub fn search(config: &SearchConfig) -> (r: Result<FamilyResult, SearchError>)
    ensures
        r matches Err(SearchError::InvalidConfig) <==> spec_config_error(*config) == Some(
            SearchError::InvalidConfig,
        ),
        r matches Err(SearchError::Overflow) <==> spec_config_error(*config) == Some(
            SearchError::Overflow,
        ),
        r matches Ok(f) ==> spec_config_error(*config) is None && valid_family(*config, f),
        r matches Err(SearchError::NotFound) ==> spec_config_error(*config) is None,
        r matches Err(SearchError::NotFound) ==> (config.family_size >= 1 ==> forall|w: Seq<bool>|
            pattern_qualifies(*config, w) ==> #[trigger] no_family_of_size(*config, w)),
        r matches Ok(f) ==> (config.family_size >= 1 ==> forall|w: Seq<bool>|
            pattern_qualifies(*config, w) && bits_value(w) < bits_value(f.pattern@)
                ==> #[trigger] no_family_of_size(*config, w)),
        r matches Ok(f) ==> built_from_first_base(*config, f),
{
    if config.min <= 1 || config.max <= config.min || config.digit_width == 0
        || config.min_pattern_len > config.digit_width
        || config.max_pattern_len > config.digit_width {
        return Err(SearchError::InvalidConfig);
    }
    if config.digit_width > 18 || config.max - config.min > usize::MAX as u64 {
        return Err(SearchError::Overflow);
    }
    let low = pow10(config.digit_width - 1);
    let high = pow10(config.digit_width);
    if !(low <= config.min && config.max <= high) {
        return Err(SearchError::InvalidConfig);
    }
    if config.family_size > 10 {
        // A family holds at most one member per decimal digit.
        proof {
            let c = *config;
            assert forall|w: Seq<bool>| pattern_qualifies(c, w) implies #[trigger] no_family_of_size(
                c,
                w,
            ) by {
                assert forall|dsx: Seq<u8>| dsx.len() == c.digit_width && all_below(dsx, 10)
                    implies #[trigger] family_of(dsx, w, spec_prime_set(c.min, c.max)).len()
                    != c.family_size by {
                    lemma_family_upto_len(dsx, w, spec_prime_set(c.min, c.max), 0, 10);
                }
            }
        }
        return Err(SearchError::NotFound);
    }
    let width = config.digit_width;
    let ghost pset = spec_prime_set(config.min, config.max);
    let all_primes = Primes::get_between(config.min, config.max);
    proof {
        assert forall|n: u64| all_primes@.contains(n) == pset.contains(n) by {
            assert(pset.contains(n) == (config.min <= n < config.max && is_prime(n as int)));
        }
        assert(all_primes@ =~= pset);
        vstd::arithmetic::power2::lemma_pow2_pos(width as nat);
    }
    let prime_count = all_primes.count();
    let mut combos = PositionCombinations::new(
        config.min_pattern_len,
        config.max_pattern_len,
        width,
    );
    let mut digits_buf: Vec<u8> = Vec::new();
    let mut family: Vec<u64> = Vec::new();
    loop
        invariant
            combos.length() == width,
            combos.min_len() == config.min_pattern_len,
            combos.max_len() == config.max_pattern_len,
            combos.current_value() < pow2(width as nat),
            width == config.digit_width,
            1 <= width <= 18,
            config.min > 1,
            config.max > config.min,
            config.family_size <= 10,
            pow_of(10, (width - 1) as nat) <= config.min,
            config.max <= pow_of(10, width as nat),
            pset == spec_prime_set(config.min, config.max),
            all_primes@ == pset,
            prime_count == all_primes.seq().len(),
            forall|i: int|
                0 <= i < all_primes.seq().len() ==> config.min <= #[trigger] all_primes.seq()[i]
                    < config.max && is_prime(all_primes.seq()[i] as int),
            forall|n: u64|
                #[trigger] all_primes.seq().contains(n) <==> config.min <= n < config.max
                    && is_prime(n as int),
            forall|i: int, j: int|
                0 <= i < j < all_primes.seq().len() ==> all_primes.seq()[i] < all_primes.seq()[j],
            spec_config_error(*config) is None,
            config.family_size >= 1 ==> forall|w: Seq<bool>|
                pattern_qualifies(*config, w) && bits_value(w) < spec_frontier(combos)
                    ==> #[trigger] no_family_of_size(*config, w),
        decreases (if combos.is_finished() {
            0int
        } else {
            pow2(width as nat) - combos.current_value() + 1
        }),
    {
        let ghost combos_pre = combos;
        let next_pattern = combos.next();
        match next_pattern {
            None => {
                proof {
                    if config.family_size >= 1 {
                        assert forall|w: Seq<bool>| pattern_qualifies(*config, w)
                            implies #[trigger] no_family_of_size(*config, w) by {
                            lemma_bits_value_bound(w);
                            if combos_pre.is_finished() {
                                assert(bits_value(w) < spec_frontier(combos_pre));
                            } else if bits_value(w) < combos_pre.current_value() {
                                assert(bits_value(w) < spec_frontier(combos_pre));
                            } else {
                                assert(!(combos_pre.min_len() <= pop_count(w)
                                    <= combos_pre.max_len()));
                                assert(false);
                            }
                        }
                    }
                }
                return Err(SearchError::NotFound);
            },
            Some(pattern) => {
                proof {
                    if config.family_size >= 1 {
                        assert forall|w: Seq<bool>|
                            pattern_qualifies(*config, w) && bits_value(w) < bits_value(pattern@)
                            implies #[trigger] no_family_of_size(*config, w) by {
                            if bits_value(w) < combos_pre.current_value() {
                                assert(bits_value(w) < spec_frontier(combos_pre));
                            } else {
                                assert(false);
                            }
                        }
                    }
                }
                let mut processed: HashSet<u64> = HashSet::new();
                let mut pi: usize = 0;
                while pi < prime_count
                    invariant
                        0 <= pi <= prime_count,
                        width == config.digit_width,
                        1 <= width <= 18,
                        config.min > 1,
                        config.max > config.min,
                        config.family_size <= 10,
                        pow_of(10, (width - 1) as nat) <= config.min,
                        config.max <= pow_of(10, width as nat),
                        pset == spec_prime_set(config.min, config.max),
                        all_primes@ == pset,
                        prime_count == all_primes.seq().len(),
                        forall|i: int|
                            0 <= i < all_primes.seq().len() ==> config.min
                                <= #[trigger] all_primes.seq()[i] < config.max && is_prime(
                                all_primes.seq()[i] as int,
                            ),
                        forall|n: u64|
                            #[trigger] all_primes.seq().contains(n) <==> config.min <= n
                                < config.max && is_prime(n as int),
                        forall|i: int, j: int|
                            0 <= i < j < all_primes.seq().len() ==> all_primes.seq()[i]
                                < all_primes.seq()[j],
                        pattern@.len() == width,
                        config.min_pattern_len <= pop_count(pattern@) <= config.max_pattern_len,
                        spec_config_error(*config) is None,
                        config.family_size >= 1 ==> forall|w: Seq<bool>|
                            pattern_qualifies(*config, w) && bits_value(w) < bits_value(pattern@)
                                ==> #[trigger] no_family_of_size(*config, w),
                        forall|j: int|
                            0 <= j < pi ==> #[trigger] family_of(
                                spec_digits(all_primes.seq()[j] as int),
                                pattern@,
                                pset,
                            ).len() != config.family_size,
                        forall|n: u64|
                            #[trigger] processed@.contains(n) ==> exists|j: int|
                                0 <= j < pi && n as int == radix_value(
                                    masked(spec_digits(all_primes.seq()[j] as int), pattern@),
                                    11,
                                ),
                    decreases prime_count - pi,
                {
                    let p = all_primes.prime_at(pi);
                    proof {
                        lemma_spec_digits_correct(p as int);
                        lemma_spec_digits_len(p as int, width as nat);
                    }
                    to_digits(p, &mut digits_buf);
                    let ghost ds = digits_buf@;
                    let key = case_key(&digits_buf, &pattern);
                    let ghost processed_pre = processed@;
                    let already_done = processed.contains(&key);
                    if already_done {
                        proof {
                            let j2 = choose|j: int|
                                0 <= j < pi && key as int == radix_value(
                                    masked(spec_digits(all_primes.seq()[j] as int), pattern@),
                                    11,
                                );
                            let q = all_primes.seq()[j2];
                            lemma_spec_digits_correct(q as int);
                            lemma_spec_digits_len(q as int, width as nat);
                            let m1 = masked(ds, pattern@);
                            let m2 = masked(spec_digits(q as int), pattern@);
                            assert(all_below(m1, 11));
                            assert(all_below(m2, 11));
                            assert(radix_value(m1, 11) == radix_value(m2, 11));
                            lemma_radix_value_injective(m1, m2, 11);
                            lemma_same_case_same_family(
                                ds,
                                spec_digits(q as int),
                                pattern@,
                                pset,
                                10,
                            );
                            assert(family_of(
                                spec_digits(all_primes.seq()[j2] as int),
                                pattern@,
                                pset,
                            ).len() != config.family_size);
                            assert(family_of(ds, pattern@, pset) == family_of(
                                spec_digits(q as int),
                                pattern@,
                                pset,
                            ));
                            assert(family_of(ds, pattern@, pset).len() != config.family_size);
                        }
                    } else {
                        processed.insert(key);
                        family.clear();
                        let mut d: usize = 0;
                        let mut pruned: bool = false;
                        while d < 10 && !pruned
                            invariant
                                0 <= d <= 10,
                                width == config.digit_width,
                                1 <= width <= 18,
                                config.family_size <= 10,
                                pset == spec_prime_set(config.min, config.max),
                                all_primes@ == pset,
                                ds == digits_buf@,
                                digits_buf@.len() == width,
                                all_below(digits_buf@, 10),
                                pattern@.len() == width,
                                family@ == family_upto(ds, pattern@, pset, d as int),
                                family@.len() <= d,
                                pruned ==> family_upto(ds, pattern@, pset, 10).len()
                                    < config.family_size,
                            decreases 10 - d, (if pruned {
                                0int
                            } else {
                                1int
                            }),
                        {
                            if !enough_digits_left(d, family.len(), config.family_size) {
                                pruned = true;
                                proof {
                                    lemma_family_upto_len(ds, pattern@, pset, d as int, 10);
                                }
                            } else {
                                let cand = replace_digits_with_new_digit_according_to_pattern(
                                    &digits_buf,
                                    d as u8,
                                    &pattern,
                                );
                                let is_member = all_primes.contains(&cand);
                                if is_member {
                                    family.push(cand);
                                }
                                proof {
                                    let v = digits_value(subst(ds, d as u8, pattern@));
                                    assert(v == cand as int);
                                    assert(0 <= v <= u64::MAX);
                                    assert(family_upto(ds, pattern@, pset, d + 1)
                                        == if pset.contains(cand) {
                                        family_upto(ds, pattern@, pset, d as int).push(cand)
                                    } else {
                                        family_upto(ds, pattern@, pset, d as int)
                                    });
                                }
                                d += 1;
                            }
                        }
                        if family.len() == config.family_size {
                            proof {
                                lemma_family_upto_len(ds, pattern@, pset, d as int, 10);
                                assert(!pruned);
                                assert(d == 10);
                                assert(family@ == family_of(ds, pattern@, pset));
                            }
                            let result = FamilyResult { primes: family, pattern };
                            proof {
                                assert(ds.len() == config.digit_width && all_below(ds, 10)
                                    && result.primes@ == family_of(
                                    ds,
                                    result.pattern@,
                                    spec_prime_set(config.min, config.max),
                                ));
                                assert forall|q: u64|
                                    config.min <= q < p && is_prime(q as int)
                                    implies #[trigger] family_of(
                                    spec_digits(q as int),
                                    result.pattern@,
                                    spec_prime_set(config.min, config.max),
                                ).len() != config.family_size by {
                                    assert(all_primes.seq().contains(q));
                                    let jq = choose|j: int|
                                        0 <= j < all_primes.seq().len() && all_primes.seq()[j]
                                            == q;
                                    assert(jq < pi) by {
                                        if jq > pi {
                                            assert(all_primes.seq()[pi as int]
                                                < all_primes.seq()[jq]);
                                        }
                                    }
                                    assert(family_of(
                                        spec_digits(all_primes.seq()[jq] as int),
                                        pattern@,
                                        pset,
                                    ).len() != config.family_size);
                                }
                                assert(result_from_first_base(*config, result, p));
                                assert(built_from_first_base(*config, result));
                            }
                            return Ok(result);
                        }
                        proof {
                            if !pruned {
                                assert(d == 10);
                            }
                            assert(family_of(ds, pattern@, pset).len() != config.family_size);
                        }
                    }
                    proof {
                        assert(family_of(
                            spec_digits(all_primes.seq()[pi as int] as int),
                            pattern@,
                            pset,
                        ).len() != config.family_size);
                        assert forall|n: u64| #[trigger] processed@.contains(n) implies exists|
                            j: int,
                        |
                            0 <= j < pi + 1 && n as int == radix_value(
                                masked(spec_digits(all_primes.seq()[j] as int), pattern@),
                                11,
                            ) by {
                            if processed_pre.contains(n) {
                                let jw = choose|j: int|
                                    0 <= j < pi && n as int == radix_value(
                                        masked(spec_digits(all_primes.seq()[j] as int), pattern@),
                                        11,
                                    );
                                assert(0 <= jw < pi + 1 && n as int == radix_value(
                                    masked(spec_digits(all_primes.seq()[jw] as int), pattern@),
                                    11,
                                ));
                            } else {
                                assert(n == key);
                                assert(0 <= pi < pi + 1 && n as int == radix_value(
                                    masked(
                                        spec_digits(all_primes.seq()[pi as int] as int),
                                        pattern@,
                                    ),
                                    11,
                                ));
                            }
                        }
                    }
                    pi += 1;
                }
                proof {
                    if config.family_size >= 1 {
                        assert forall|dsx: Seq<u8>|
                            dsx.len() == config.digit_width && all_below(dsx, 10)
                            implies #[trigger] family_of(dsx, pattern@, pset).len()
                            != config.family_size by {
                            if family_of(dsx, pattern@, pset).len() == config.family_size {
                                lemma_family_in_prime_set(dsx, pattern@, pset, 10);
                                lemma_family_members_are_substitutions(dsx, pattern@, pset, 10);
                                let e = family_upto(dsx, pattern@, pset, 10)[0];
                                assert(pset.contains(e));
                                let d0 = choose|dd: u8|
                                    dd < 10 && family_upto(dsx, pattern@, pset, 10)[0]
                                        == digits_value(subst(dsx, dd, pattern@));
                                assert(config.min <= e < config.max && is_prime(e as int));
                                assert(all_primes.seq().contains(e));
                                let j3 = choose|j: int|
                                    0 <= j < all_primes.seq().len() && all_primes.seq()[j] == e;
                                lemma_spec_digits_correct(e as int);
                                lemma_spec_digits_len(e as int, width as nat);
                                let se = subst(dsx, d0, pattern@);
                                assert(all_below(se, 10));
                                assert(radix_value(se, 10) == e as int);
                                lemma_radix_value_injective(spec_digits(e as int), se, 10);
                                assert forall|i: int|
                                    0 <= i < pattern@.len() && !pattern@[i] implies dsx[i]
                                    == spec_digits(e as int)[i] by {
                                    assert(se[i] == dsx[i]);
                                }
                                lemma_same_case(dsx, spec_digits(e as int), pattern@);
                                lemma_same_case_same_family(
                                    dsx,
                                    spec_digits(e as int),
                                    pattern@,
                                    pset,
                                    10,
                                );
                                assert(family_of(
                                    spec_digits(all_primes.seq()[j3] as int),
                                    pattern@,
                                    pset,
                                ).len() != config.family_size);
                                assert(false);
                            }
                        }
                        assert(no_family_of_size(*config, pattern@));
                        assert forall|w: Seq<bool>|
                            pattern_qualifies(*config, w) && bits_value(w) < spec_frontier(combos)
                            implies #[trigger] no_family_of_size(*config, w) by {
                            lemma_bits_value_bound(w);
                            if bits_value(w) < combos_pre.current_value() {
                                assert(bits_value(w) < spec_frontier(combos_pre));
                            } else if bits_value(w) < bits_value(pattern@) {
                                assert(false);
                            } else if bits_value(w) == bits_value(pattern@) {
                                lemma_bits_value_injective(w, pattern@);
                            } else {
                                assert(false);
                            }
                        }
                    }
                }
            },
        }
    }
}

} // verus!
