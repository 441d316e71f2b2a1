//! Fixed-width digit sequences: decomposition, pattern substitution, and
//! case keys for deduplication.

use vstd::prelude::*;
use crate::arith::lemma_pow_increases;
use vstd::string::StringExecFns;
use crate::arith::lemma_pow_positive;
use crate::arith::pow_of;

verus! {

/// Value of a digit sequence, most-significant digit first, in radix `b`.
pub open spec fn radix_value(ds: Seq<u8>, b: int) -> int
    decreases ds.len(),
{
    if ds.len() == 0 {
        0
    } else {
        radix_value(ds.drop_last(), b) * b + ds.last()
    }
}

/// Base-10 value of a digit sequence, most-significant digit first.
pub open spec fn digits_value(ds: Seq<u8>) -> int {
    radix_value(ds, 10)
}

/// The base-10 digit sequence of `n`, most-significant digit first, with no
/// leading zero (the number 0 is the single digit 0).
pub open spec fn spec_digits(n: int) -> Seq<u8>
    decreases n,
{
    if n <= 9 {
        seq![(if 0 <= n { n } else { 0 }) as u8]
    } else {
        spec_digits(n / 10).push((n % 10) as u8)
    }
}

/// All entries of a digit sequence are below the radix `b`.
pub open spec fn all_below(ds: Seq<u8>, b: int) -> bool {
    forall|i: int| 0 <= i < ds.len() ==> ds[i] < b
}

/// Simultaneous substitution: every position marked by `pat` receives the
/// digit `d`; the other positions keep their digit from `ds`.
pub open spec fn subst(ds: Seq<u8>, d: u8, pat: Seq<bool>) -> Seq<u8> {
    Seq::new(ds.len(), |i: int| if pat[i] { d } else { ds[i] })
}

/// The case of `ds` under `pat`: marked positions become the wildcard value
/// 10, the rest keep their digit.  Two digit sequences with the same case
/// generate the same substitution candidates.
pub open spec fn masked(ds: Seq<u8>, pat: Seq<bool>) -> Seq<u8> {
    Seq::new(ds.len(), |i: int| if pat[i] { 10u8 } else { ds[i] })
}

/// The wildcard character of a textual case key.
pub open spec fn wildcard_char() -> char {
    '*'
}

/// The character for a single decimal digit.
pub open spec fn digit_char(d: u8) -> char {
    if d == 0 {
        '0'
    } else if d == 1 {
        '1'
    } else if d == 2 {
        '2'
    } else if d == 3 {
        '3'
    } else if d == 4 {
        '4'
    } else if d == 5 {
        '5'
    } else if d == 6 {
        '6'
    } else if d == 7 {
        '7'
    } else if d == 8 {
        '8'
    } else {
        '9'
    }
}

/// The textual case of `ds` under `pat`: a wildcard at marked positions, the
/// literal digit character elsewhere.
pub open spec fn case_chars(ds: Seq<u8>, pat: Seq<bool>) -> Seq<char> {
    Seq::new(ds.len(), |i: int| if pat[i] { wildcard_char() } else { digit_char(ds[i]) })
}

/// Appending one digit multiplies the value by the radix and adds the digit.
pub proof fn lemma_radix_value_push(ds: Seq<u8>, b: int, d: u8)
    ensures
        radix_value(ds.push(d), b) == radix_value(ds, b) * b + d,
{
    assert(ds.push(d).drop_last() =~= ds);
    assert(ds.push(d).last() == d);
}

/// A digit sequence below radix `b >= 2` has a value below `b ^ len`; if the
/// leading digit is nonzero the value is at least `b ^ (len - 1)`.
pub proof fn lemma_radix_value_bounds(ds: Seq<u8>, b: int)
    requires
        b >= 2,
        all_below(ds, b),
    ensures
        0 <= radix_value(ds, b) < pow_of(b, ds.len()),
        ds.len() >= 1 && ds[0] >= 1 ==> radix_value(ds, b) >= pow_of(b, (ds.len() - 1) as nat),
    decreases ds.len(),
{
    if ds.len() == 0 {
    } else {
        let pre = ds.drop_last();
        assert(all_below(pre, b));
        lemma_radix_value_bounds(pre, b);
        let v = radix_value(pre, b);
        let p = pow_of(b, pre.len());
        assert(pow_of(b, ds.len()) == b * p);
        assert(v * b + ds.last() >= 0);
        assert(v <= p - 1);
        assert(v * b <= (p - 1) * b) by (nonlinear_arith)
            requires
                v <= p - 1,
                b >= 2,
        ;
        assert((p - 1) * b == p * b - b) by (nonlinear_arith);
        assert(v * b + ds.last() < p * b);
        assert(p * b == b * p) by (nonlinear_arith);
        if ds.len() >= 2 && ds[0] >= 1 {
            assert(pre[0] == ds[0]);
            assert(v >= pow_of(b, (pre.len() - 1) as nat));
            lemma_pow_positive(b, (pre.len() - 1) as nat);
            assert(v * b >= pow_of(b, (pre.len() - 1) as nat) * b) by (nonlinear_arith)
                requires
                    v >= pow_of(b, (pre.len() - 1) as nat),
                    b >= 2,
                    pow_of(b, (pre.len() - 1) as nat) >= 1,
            ;
            assert(pow_of(b, (pre.len() - 1) as nat) * b == b * pow_of(
                b,
                (pre.len() - 1) as nat,
            )) by (nonlinear_arith);
            assert(b * pow_of(b, (pre.len() - 1) as nat) == pow_of(b, pre.len()));
            assert(radix_value(ds, b) >= pow_of(b, (ds.len() - 1) as nat));
        }
        if ds.len() == 1 && ds[0] >= 1 {
            assert(radix_value(ds, b) == ds[0]);
            assert(pow_of(b, 0) == 1);
        }
    }
}

/// The digit sequence of `n` has digits below 10, no leading zero for
/// positive `n`, and evaluates back to `n`.
pub proof fn lemma_spec_digits_correct(n: int)
    requires
        n >= 0,
    ensures
        spec_digits(n).len() >= 1,
        all_below(spec_digits(n), 10),
        digits_value(spec_digits(n)) == n,
        n >= 1 ==> spec_digits(n)[0] >= 1,
    decreases n,
{
    if n <= 9 {
        assert(spec_digits(n) == seq![n as u8]);
        assert(radix_value(seq![n as u8], 10) == radix_value(
            seq![n as u8].drop_last(),
            10,
        ) * 10 + n);
        assert(seq![n as u8].drop_last() =~= Seq::<u8>::empty());
    } else {
        let q = n / 10;
        let r = n % 10;
        vstd::arithmetic::div_mod::lemma_fundamental_div_mod(n, 10);
        assert(1 <= q < n);
        lemma_spec_digits_correct(q);
        lemma_radix_value_push(spec_digits(q), 10, r as u8);
        assert(spec_digits(n) == spec_digits(q).push(r as u8));
        assert(spec_digits(n)[0] == spec_digits(q)[0]);
        assert(forall|i: int|
            0 <= i < spec_digits(n).len() ==> spec_digits(n)[i] == if i < spec_digits(q).len() {
                spec_digits(q)[i]
            } else {
                r as u8
            });
    }
}

/// A nonzero number with `w` digits lies between `10 ^ (w - 1)` and `10 ^ w`;
/// conversely those bounds pin the digit count down.
pub proof fn lemma_spec_digits_len(n: int, w: nat)
    requires
        n >= 1,
        w >= 1,
        pow_of(10, (w - 1) as nat) <= n < pow_of(10, w),
    ensures
        spec_digits(n).len() == w,
{
    lemma_spec_digits_correct(n);
    let ds = spec_digits(n);
    lemma_radix_value_bounds(ds, 10);
    let len = ds.len();
    assert(pow_of(10, (len - 1) as nat) <= n < pow_of(10, len));
    if len < w {
        lemma_pow_increases(10, len, (w - 1) as nat);
        assert(false);
    }
    if len > w {
        lemma_pow_increases(10, w, (len - 1) as nat);
        assert(false);
    }
}

/// Two digit sequences that agree on every unmarked position have the same
/// case under the pattern, both as masked digits and as text.
pub proof fn lemma_same_case(ds1: Seq<u8>, ds2: Seq<u8>, pat: Seq<bool>)
    requires
        ds1.len() == pat.len(),
        ds2.len() == pat.len(),
        forall|i: int| 0 <= i < pat.len() && !pat[i] ==> ds1[i] == ds2[i],
    ensures
        masked(ds1, pat) == masked(ds2, pat),
        case_chars(ds1, pat) == case_chars(ds2, pat),
{
    assert(masked(ds1, pat) =~= masked(ds2, pat));
    assert(case_chars(ds1, pat) =~= case_chars(ds2, pat));
}

/// Digit sequences with the same case under a pattern produce exactly the
/// same substitution candidate for every digit: a case identifies its whole
/// search neighborhood.
pub proof fn lemma_same_case_same_candidates(ds1: Seq<u8>, ds2: Seq<u8>, pat: Seq<bool>)
    requires
        ds1.len() == pat.len(),
        ds2.len() == pat.len(),
        masked(ds1, pat) == masked(ds2, pat),
    ensures
        forall|d: u8| subst(ds1, d, pat) == subst(ds2, d, pat),
{
    assert forall|d: u8| subst(ds1, d, pat) == subst(ds2, d, pat) by {
        assert(forall|i: int| 0 <= i < pat.len() ==> masked(ds1, pat)[i] == masked(ds2, pat)[i]);
        assert forall|i: int| 0 <= i < pat.len() && !pat[i] implies ds1[i] == ds2[i] by {
            assert(masked(ds1, pat)[i] == ds1[i]);
            assert(masked(ds2, pat)[i] == ds2[i]);
        }
        assert(subst(ds1, d, pat) =~= subst(ds2, d, pat));
    }
}

/// Decompose `n` into its base-10 digits, most-significant first, replacing
/// the previous contents of `buf`.
pub fn to_digits(n: u64, buf: &mut Vec<u8>)
    ensures
        final(buf)@ == spec_digits(n as int),
{
    buf.clear();
    push_digits(n, buf);
}

/// Append the digits of `n`, most-significant first, to `buf`.
fn push_digits(n: u64, buf: &mut Vec<u8>)
    ensures
        final(buf)@ == old(buf)@ + spec_digits(n as int),
    decreases n,
{
    if n > 9 {
        push_digits(n / 10, buf);
        buf.push((n % 10) as u8);
        assert(final(buf)@ =~= old(buf)@ + spec_digits(n as int));
    } else {
        buf.push(n as u8);
        assert(final(buf)@ =~= old(buf)@ + spec_digits(n as int));
    }
}

/// Substitute `new_digit` into every position of `prime_as_digits` that the
/// pattern marks and reassemble the base-10 value, most-significant first.
pub fn replace_digits_with_new_digit_according_to_pattern(
    prime_as_digits: &Vec<u8>,
    new_digit: u8,
    pattern: &Vec<bool>,
) -> (r: u64)
    requires
        prime_as_digits@.len() == pattern@.len(),
        1 <= pattern@.len() <= 19,
        all_below(prime_as_digits@, 10),
        new_digit < 10,
    ensures
        r as int == digits_value(subst(prime_as_digits@, new_digit, pattern@)),
{
    let ghost full = subst(prime_as_digits@, new_digit, pattern@);
    let n = prime_as_digits.len();
    let mut acc: u64 = 0;
    let mut i: usize = 0;
    proof {
        assert(full.subrange(0, 0) =~= Seq::<u8>::empty());
    }
    while i < n
        invariant
            0 <= i <= n,
            n == prime_as_digits@.len() == pattern@.len(),
            n <= 19,
            all_below(prime_as_digits@, 10),
            new_digit < 10,
            full == subst(prime_as_digits@, new_digit, pattern@),
            acc as int == radix_value(full.subrange(0, i as int), 10),
            acc < pow_of(10, i as nat),
        decreases n - i,
    {
        let d: u8 = if pattern[i] {
            new_digit
        } else {
            prime_as_digits[i]
        };
        proof {
            assert(full[i as int] == d);
            assert(full.subrange(0, i + 1) =~= full.subrange(0, i as int).push(d));
            lemma_radix_value_push(full.subrange(0, i as int), 10, d);
            assert(pow_of(10, (i + 1) as nat) == 10 * pow_of(10, i as nat));
            lemma_pow_increases(10, (i + 1) as nat, 19);
            assert(pow_of(10, 19) == 10_000_000_000_000_000_000) by {
                reveal_with_fuel(pow_of, 20);
            }
            assert(acc * 10 + d < 10 * pow_of(10, i as nat)) by (nonlinear_arith)
                requires
                    acc < pow_of(10, i as nat),
                    d < 10,
            ;
        }
        acc = acc * 10 + (d as u64);
        i += 1;
    }
    proof {
        assert(full.subrange(0, n as int) =~= full);
    }
    acc
}

/// The case key of a digit sequence under a pattern: the masked digits read
/// as one base-11 number, the wildcard being the eleventh digit.  Equal keys
/// mean equal cases.
pub fn case_key(digits: &Vec<u8>, pattern: &Vec<bool>) -> (r: u64)
    requires
        digits@.len() == pattern@.len(),
        pattern@.len() <= 18,
        all_below(digits@, 10),
    ensures
        r as int == radix_value(masked(digits@, pattern@), 11),
{
    let ghost full = masked(digits@, pattern@);
    let n = digits.len();
    let mut acc: u64 = 0;
    let mut i: usize = 0;
    proof {
        assert(full.subrange(0, 0) =~= Seq::<u8>::empty());
    }
    while i < n
        invariant
            0 <= i <= n,
            n == digits@.len() == pattern@.len(),
            n <= 18,
            all_below(digits@, 10),
            full == masked(digits@, pattern@),
            acc as int == radix_value(full.subrange(0, i as int), 11),
            acc < pow_of(11, i as nat),
        decreases n - i,
    {
        let d: u8 = if pattern[i] {
            10
        } else {
            digits[i]
        };
        proof {
            assert(full[i as int] == d);
            assert(full.subrange(0, i + 1) =~= full.subrange(0, i as int).push(d));
            lemma_radix_value_push(full.subrange(0, i as int), 11, d);
            assert(pow_of(11, (i + 1) as nat) == 11 * pow_of(11, i as nat));
            lemma_pow_increases(11, (i + 1) as nat, 18);
            assert(pow_of(11, 18) == 5_559_917_313_492_231_481) by {
                reveal_with_fuel(pow_of, 19);
            }
            assert(acc * 11 + d < 11 * pow_of(11, i as nat)) by (nonlinear_arith)
                requires
                    acc < pow_of(11, i as nat),
                    d < 11,
            ;
        }
        acc = acc * 11 + (d as u64);
        i += 1;
    }
    proof {
        assert(full.subrange(0, n as int) =~= full);
    }
    acc
}

/// Whether, with digit value number `i` about to be tried and `primes_len`
/// family members found so far, enough digit values remain for the family to
/// still reach `family_size` out of the ten decimal digits.
pub fn enough_digits_left(i: usize, primes_len: usize, family_size: usize) -> (r: bool)
    requires
        primes_len <= i,
        i + family_size <= usize::MAX,
    ensures
        r == (i - primes_len + family_size <= 10),
{
    i - primes_len + family_size <= 10
}


/// The textual case key of a digit sequence under a pattern: a wildcard
/// character at every marked position, the literal digit character elsewhere.
pub fn get_case_string(digits: &Vec<u8>, pattern: &Vec<bool>) -> (r: String)
    requires
        digits@.len() == pattern@.len(),
        all_below(digits@, 10),
    ensures
        r@ == case_chars(digits@, pattern@),
{
    let ghost goal = case_chars(digits@, pattern@);
    let mut buf = String::new();
    let mut i: usize = 0;
    proof {
        assert(goal.subrange(0, 0) =~= Seq::<char>::empty());
    }
    while i < digits.len()
        invariant
            0 <= i <= digits@.len(),
            digits@.len() == pattern@.len(),
            all_below(digits@, 10),
            goal == case_chars(digits@, pattern@),
            buf@ == goal.subrange(0, i as int),
        decreases digits@.len() - i,
    {
        if pattern[i] {
            buf.append("*");
            proof {
                reveal_strlit("*");
            }
        } else {
            push_digit_char(&mut buf, digits[i]);
        }
        proof {
            assert(goal.subrange(0, i + 1) =~= goal.subrange(0, i as int).push(goal[i as int]));
            assert(buf@ =~= goal.subrange(0, i + 1));
        }
        i += 1;
    }
    proof {
        assert(goal.subrange(0, digits@.len() as int) =~= goal);
    }
    buf
}

/// Append the character of one decimal digit to a buffer.
fn push_digit_char(buf: &mut String, d: u8)
    requires
        d < 10,
    ensures
        final(buf)@ == old(buf)@.push(digit_char(d)),
{
    if d == 0 {
        buf.append("0");
        proof {
            reveal_strlit("0");
            assert(final(buf)@ =~= old(buf)@.push('0'));
        }
    } else if d == 1 {
        buf.append("1");
        proof {
            reveal_strlit("1");
            assert(final(buf)@ =~= old(buf)@.push('1'));
        }
    } else if d == 2 {
        buf.append("2");
        proof {
            reveal_strlit("2");
            assert(final(buf)@ =~= old(buf)@.push('2'));
        }
    } else if d == 3 {
        buf.append("3");
        proof {
            reveal_strlit("3");
            assert(final(buf)@ =~= old(buf)@.push('3'));
        }
    } else if d == 4 {
        buf.append("4");
        proof {
            reveal_strlit("4");
            assert(final(buf)@ =~= old(buf)@.push('4'));
        }
    } else if d == 5 {
        buf.append("5");
        proof {
            reveal_strlit("5");
            assert(final(buf)@ =~= old(buf)@.push('5'));
        }
    } else if d == 6 {
        buf.append("6");
        proof {
            reveal_strlit("6");
            assert(final(buf)@ =~= old(buf)@.push('6'));
        }
    } else if d == 7 {
        buf.append("7");
        proof {
            reveal_strlit("7");
            assert(final(buf)@ =~= old(buf)@.push('7'));
        }
    } else if d == 8 {
        buf.append("8");
        proof {
            reveal_strlit("8");
            assert(final(buf)@ =~= old(buf)@.push('8'));
        }
    } else {
        buf.append("9");
        proof {
            reveal_strlit("9");
            assert(final(buf)@ =~= old(buf)@.push('9'));
        }
    }
}


/// Digit sequences of one length below the radix are distinguished by their
/// value: positional notation is injective.
pub proof fn lemma_radix_value_injective(ds1: Seq<u8>, ds2: Seq<u8>, b: int)
    requires
        b >= 2,
        ds1.len() == ds2.len(),
        all_below(ds1, b),
        all_below(ds2, b),
        radix_value(ds1, b) == radix_value(ds2, b),
    ensures
        ds1 == ds2,
    decreases ds1.len(),
{
    if ds1.len() == 0 {
        assert(ds1 =~= ds2);
    } else {
        let p1 = ds1.drop_last();
        let p2 = ds2.drop_last();
        let v1 = radix_value(p1, b);
        let v2 = radix_value(p2, b);
        let l1 = ds1.last() as int;
        let l2 = ds2.last() as int;
        assert(v1 * b + l1 == v2 * b + l2);
        assert(v1 == v2 && l1 == l2) by (nonlinear_arith)
            requires
                b >= 2,
                0 <= l1 < b,
                0 <= l2 < b,
                v1 * b + l1 == v2 * b + l2,
        ;
        assert(all_below(p1, b));
        assert(all_below(p2, b));
        lemma_radix_value_injective(p1, p2, b);
        assert(ds1 =~= p1.push(ds1.last()));
        assert(ds2 =~= p2.push(ds2.last()));
    }
}

} // verus!
