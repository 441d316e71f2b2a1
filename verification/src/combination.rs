//! Lazy enumeration of fixed-length boolean patterns whose population count
//! lies in an inclusive range.
//!
//! The enumerator walks all vectors of the given length in binary-counter
//! order, least-significant position first, and emits those whose number of
//! `true` entries lies in `[min_length, max_length]`.

use vstd::prelude::*;
use vstd::arithmetic::power2::pow2;
use vstd::string::StringExecFns;

verus! {

/// Value of a boolean vector read as a binary number, least-significant
/// position first.
pub open spec fn bits_value(s: Seq<bool>) -> nat
    decreases s.len(),
{
    if s.len() == 0 {
        0
    } else {
        (if s[0] {
            1nat
        } else {
            0nat
        }) + 2 * bits_value(s.skip(1))
    }
}

/// Number of `true` entries of a boolean vector.
pub open spec fn pop_count(s: Seq<bool>) -> nat
    decreases s.len(),
{
    if s.len() == 0 {
        0
    } else {
        pop_count(s.drop_last()) + if s.last() {
            1nat
        } else {
            0nat
        }
    }
}

/// Appending a bit adds its weight at the top of the binary value.
pub proof fn lemma_bits_value_push(s: Seq<bool>, b: bool)
    ensures
        bits_value(s.push(b)) == bits_value(s) + if b {
            pow2(s.len())
        } else {
            0nat
        },
    decreases s.len(),
{
    vstd::arithmetic::power2::lemma_pow2_unfold((s.len() + 1) as nat);
    if s.len() == 0 {
        assert(s.push(b) =~= seq![b]);
        assert(bits_value(seq![b].skip(1)) == 0) by {
            assert(seq![b].skip(1) =~= Seq::<bool>::empty());
        }
        assert(pow2(0) == 1) by {
            vstd::arithmetic::power2::lemma2_to64();
        }
    } else {
        assert(s.push(b).skip(1) =~= s.skip(1).push(b));
        lemma_bits_value_push(s.skip(1), b);
        assert(pow2(s.len()) == 2 * pow2((s.len() - 1) as nat)) by {
            vstd::arithmetic::power2::lemma_pow2_unfold(s.len());
        }
        assert(s.skip(1).len() == s.len() - 1);
    }
}

/// The binary value of a vector is below two to its length.
pub proof fn lemma_bits_value_bound(s: Seq<bool>)
    ensures
        bits_value(s) < pow2(s.len()),
    decreases s.len(),
{
    if s.len() == 0 {
        assert(pow2(0) == 1) by {
            vstd::arithmetic::power2::lemma2_to64();
        }
    } else {
        lemma_bits_value_bound(s.skip(1));
        assert(pow2(s.len()) == 2 * pow2((s.len() - 1) as nat)) by {
            vstd::arithmetic::power2::lemma_pow2_unfold(s.len());
        }
    }
}

/// Enumerator of the patterns of one fixed length: a binary counter over a
/// boolean vector together with a finished flag.  Once exhausted it stays
/// exhausted; a fresh instance is needed to enumerate again.
pub struct PositionCombinations {
    min_length: usize,
    max_length: usize,
    state: Vec<bool>,
    finished: bool,
}

impl PositionCombinations {
    /// Length of the enumerated patterns.
    pub closed spec fn length(self) -> nat {
        self.state@.len()
    }

    /// Smallest admitted population count.
    pub closed spec fn min_len(self) -> nat {
        self.min_length as nat
    }

    /// Largest admitted population count.
    pub closed spec fn max_len(self) -> nat {
        self.max_length as nat
    }

    /// Whether the enumeration is exhausted.
    pub closed spec fn is_finished(self) -> bool {
        self.finished
    }

    /// The binary value of the counter's current vector.
    pub closed spec fn current_value(self) -> nat {
        bits_value(self.state@)
    }

    /// A fresh enumerator over vectors of `length` positions whose population
    /// count lies in `[min_length, max_length]`, starting from the all-false
    /// vector.
    pub fn new(min_length: usize, max_length: usize, length: usize) -> (r: Self)
        ensures
            r.length() == length,
            r.min_len() == min_length,
            r.max_len() == max_length,
            !r.is_finished(),
            r.current_value() == 0,
    {
        let state = vec![false; length];
        let finished = false;
        proof {
            assert(state@ =~= Seq::new(length as nat, |i: int| false));
            lemma_bits_all_false(state@);
        }
        Self { min_length, max_length, state, finished }
    }

    /// Advance the counter by one, setting the finished flag when the carry
    /// leaves the vector, which happens exactly on the all-true vector; the
    /// carry then leaves the counter wrapped to the all-false value zero.
    fn increment(&mut self)
        requires
            old(self).length() >= 1,
        ensures
            final(self).length() == old(self).length(),
            final(self).min_len() == old(self).min_len(),
            final(self).max_len() == old(self).max_len(),
            final(self).is_finished() == (old(self).is_finished() || old(self).current_value()
                + 1 == pow2(old(self).length())),
            old(self).current_value() + 1 < pow2(old(self).length()) ==> final(self).current_value()
                == old(self).current_value() + 1,
            old(self).current_value() + 1 == pow2(old(self).length()) ==> final(self).current_value()
                == 0,
    {
        let ghost s0 = self.state@;
        let n = self.state.len();
        let first = self.state[0];
        let mut overflow = first;
        self.state[0] = !first;
        let mut pos: usize = 1;
        proof {
            assert(self.state@ =~= s0.update(0, !s0[0]));
            lemma_prefix_one(s0, self.state@);
        }
        while pos < n
            invariant
                1 <= pos <= n,
                n == self.state@.len(),
                n == s0.len(),
                self.min_length == old(self).min_length,
                self.max_length == old(self).max_length,
                self.finished == old(self).finished,
                s0 == old(self).state@,
                forall|j: int| pos <= j < n ==> self.state@[j] == s0[j],
                overflow == (forall|j: int| 0 <= j < pos ==> s0[j]),
                bits_value(self.state@.subrange(0, pos as int)) + (if overflow {
                    pow2(pos as nat)
                } else {
                    0nat
                }) == bits_value(s0.subrange(0, pos as int)) + 1,
            decreases n - pos,
        {
            let ghost pre = self.state@;
            let cur = self.state[pos];
            let new_overflow = cur && overflow;
            self.state[pos] = cur != overflow;
            proof {
                assert(cur == s0[pos as int]);
                assert(self.state@.subrange(0, pos as int) =~= pre.subrange(0, pos as int));
                assert(self.state@.subrange(0, pos + 1) =~= pre.subrange(0, pos as int).push(
                    cur != overflow,
                ));
                assert(s0.subrange(0, pos + 1) =~= s0.subrange(0, pos as int).push(cur));
                lemma_bits_value_push(pre.subrange(0, pos as int), cur != overflow);
                lemma_bits_value_push(s0.subrange(0, pos as int), cur);
                assert(pow2((pos + 1) as nat) == 2 * pow2(pos as nat)) by {
                    vstd::arithmetic::power2::lemma_pow2_unfold((pos + 1) as nat);
                }
            }
            overflow = new_overflow;
            pos += 1;
        }
        proof {
            assert(self.state@.subrange(0, n as int) =~= self.state@);
            assert(s0.subrange(0, n as int) =~= s0);
            lemma_bits_value_bound(self.state@);
            lemma_bits_value_bound(s0);
        }
        if overflow {
            self.finished = true;
        }
    }

    /// Emit the next pattern whose population count lies in the admitted
    /// range, or `None` when the enumeration is exhausted.  Patterns appear
    /// in increasing binary-counter order; every vector between two emitted
    /// ones has a population count outside the admitted range, so the
    /// enumeration is complete.  A `None` leaves the enumerator finished
    /// (unless it enumerates length-zero vectors, which yield nothing), and
    /// a finished enumerator stays finished: no pattern follows a `None`.
    pub fn next(&mut self) -> (r: Option<Vec<bool>>)
        ensures
            final(self).length() == old(self).length(),
            final(self).min_len() == old(self).min_len(),
            final(self).max_len() == old(self).max_len(),
            r matches Some(v) ==> v@.len() == old(self).length() && old(self).min_len()
                <= pop_count(v@) <= old(self).max_len(),
            old(self).length() == 0 ==> r is None,
            old(self).is_finished() ==> r is None,
            old(self).is_finished() ==> final(self).is_finished(),
            r is None ==> final(self).is_finished() || old(self).length() == 0,
            final(self).current_value() < pow2(final(self).length()),
            r is Some ==> final(self).is_finished() || final(self).current_value() > old(
                self,
            ).current_value(),
            r matches Some(v) ==> bits_value(v@) >= old(self).current_value(),
            r matches Some(v) ==> forall|w: Seq<bool>|
                w.len() == old(self).length() && old(self).current_value() <= bits_value(w)
                    < bits_value(v@) ==> !(old(self).min_len() <= pop_count(w) <= old(
                    self,
                ).max_len()),
            r matches Some(v) ==> (!final(self).is_finished() ==> final(self).current_value()
                == bits_value(v@) + 1),
            r matches Some(v) ==> (final(self).is_finished() ==> bits_value(v@) + 1 == pow2(
                old(self).length(),
            )),
            (r is None && !old(self).is_finished() && old(self).length() > 0) ==> forall|
                w: Seq<bool>,
            |
                w.len() == old(self).length() && old(self).current_value() <= bits_value(w)
                    < pow2(old(self).length()) ==> !(old(self).min_len() <= pop_count(w) <= old(
                    self,
                ).max_len()),
    {
        proof {
            lemma_bits_value_bound(self.state@);
        }
        loop
            invariant
                self.length() == old(self).length(),
                self.min_len() == old(self).min_len(),
                self.max_len() == old(self).max_len(),
                old(self).is_finished() ==> self.is_finished(),
                self.current_value() < pow2(self.length()),
                !self.is_finished() ==> self.current_value() >= old(self).current_value(),
                !self.is_finished() ==> forall|w: Seq<bool>|
                    w.len() == self.length() && old(self).current_value() <= bits_value(w)
                        < self.current_value() ==> !(self.min_len() <= pop_count(w)
                        <= self.max_len()),
                (self.is_finished() && !old(self).is_finished() && self.length() > 0) ==> forall|
                    w: Seq<bool>,
                |
                    w.len() == self.length() && old(self).current_value() <= bits_value(w) < pow2(
                        self.length(),
                    ) ==> !(self.min_len() <= pop_count(w) <= self.max_len()),
            decreases (if self.is_finished() {
                0nat
            } else {
                1nat
            }), pow2(self.length()) - self.current_value(),
        {
            if self.finished || self.state.len() == 0 {
                return None;
            }
            let ghost cv_pre = self.current_value();
            let result = self.state.clone();
            proof {
                assert(result@ =~= self.state@);
                lemma_bits_value_bound(self.state@);
            }
            self.increment();
            proof {
                lemma_bits_value_bound(self.state@);
            }
            let count = count_true(&result);
            if self.min_length <= count && count <= self.max_length {
                return Some(result);
            }
            proof {
                assert(bits_value(result@) == cv_pre);
                if !self.is_finished() {
                    assert(self.current_value() == cv_pre + 1);
                    assert forall|w: Seq<bool>|
                        w.len() == self.length() && old(self).current_value() <= bits_value(w)
                            < self.current_value() implies !(self.min_len() <= pop_count(w)
                        <= self.max_len()) by {
                        if bits_value(w) == cv_pre {
                            lemma_bits_value_injective(w, result@);
                        }
                    }
                } else {
                    assert(cv_pre + 1 == pow2(self.length()));
                    assert forall|w: Seq<bool>|
                        w.len() == self.length() && old(self).current_value() <= bits_value(w)
                            < pow2(self.length()) implies !(self.min_len() <= pop_count(w)
                        <= self.max_len()) by {
                        if bits_value(w) == cv_pre {
                            lemma_bits_value_injective(w, result@);
                        }
                    }
                }
            }
        }
    }
}

/// Count the `true` entries of a boolean vector.
fn count_true(v: &Vec<bool>) -> (r: usize)
    ensures
        r == pop_count(v@),
{
    let mut count: usize = 0;
    let mut i: usize = 0;
    proof {
        assert(v@.subrange(0, 0) =~= Seq::<bool>::empty());
    }
    while i < v.len()
        invariant
            0 <= i <= v@.len(),
            count == pop_count(v@.subrange(0, i as int)),
            count <= i,
        decreases v@.len() - i,
    {
        proof {
            assert(v@.subrange(0, i + 1).drop_last() =~= v@.subrange(0, i as int));
            assert(v@.subrange(0, i + 1).last() == v@[i as int]);
        }
        if v[i] {
            count += 1;
        }
        i += 1;
    }
    proof {
        assert(v@.subrange(0, v@.len() as int) =~= v@);
    }
    count
}

/// The all-false vector has binary value zero.
proof fn lemma_bits_all_false(s: Seq<bool>)
    requires
        forall|i: int| 0 <= i < s.len() ==> !s[i],
    ensures
        bits_value(s) == 0,
    decreases s.len(),
{
    if s.len() > 0 {
        lemma_bits_all_false(s.skip(1));
    }
}

/// Flipping the first bit leaves the one-element prefix relation needed to
/// start the ripple-carry walk.
proof fn lemma_prefix_one(s0: Seq<bool>, s1: Seq<bool>)
    requires
        s0.len() >= 1,
        s1.len() == s0.len(),
        s1[0] == !s0[0],
    ensures
        bits_value(s1.subrange(0, 1)) + (if s0[0] {
            pow2(1)
        } else {
            0nat
        }) == bits_value(s0.subrange(0, 1)) + 1,
{
    assert(s1.subrange(0, 1) =~= seq![s1[0]]);
    assert(s0.subrange(0, 1) =~= seq![s0[0]]);
    assert(seq![s1[0]].skip(1) =~= Seq::<bool>::empty());
    assert(seq![s0[0]].skip(1) =~= Seq::<bool>::empty());
    assert(pow2(1) == 2) by {
        vstd::arithmetic::power2::lemma2_to64();
    }
}


/// The textual form of a pattern: 'x' for a replaced position, '.' for a
/// kept one.
pub open spec fn pattern_chars(s: Seq<bool>) -> Seq<char> {
    Seq::new(s.len(), |i: int| if s[i] { 'x' } else { '.' })
}

/// Textual rendering, for reporting patterns.
pub trait ToString {
    /// The character sequence the rendering must produce.
    spec fn spec_string(&self) -> Seq<char>;

    /// Render the value as text.
    fn to_string(&self) -> (s: String)
        ensures
            s@ == self.spec_string(),
    ;
}

impl ToString for Vec<bool> {
    /// A pattern renders with 'x' at replaced positions and '.' elsewhere.
    open spec fn spec_string(&self) -> Seq<char> {
        pattern_chars(self@)
    }

    fn to_string(&self) -> (s: String) {
        let ghost goal = pattern_chars(self@);
        let mut buf = String::new();
        let mut i: usize = 0;
        proof {
            assert(goal.subrange(0, 0) =~= Seq::<char>::empty());
        }
        while i < self.len()
            invariant
                0 <= i <= self@.len(),
                goal == pattern_chars(self@),
                buf@ == goal.subrange(0, i as int),
            decreases self@.len() - i,
        {
            if self[i] {
                buf.append("x");
                proof {
                    reveal_strlit("x");
                }
            } else {
                buf.append(".");
                proof {
                    reveal_strlit(".");
                }
            }
            proof {
                assert(goal.subrange(0, i + 1) =~= goal.subrange(0, i as int).push(
                    goal[i as int],
                ));
                assert(buf@ =~= goal.subrange(0, i + 1));
            }
            i += 1;
        }
        proof {
            assert(goal.subrange(0, self@.len() as int) =~= goal);
        }
        buf
    }
}


/// Boolean vectors of one length are distinguished by their binary value.
pub proof fn lemma_bits_value_injective(s1: Seq<bool>, s2: Seq<bool>)
    requires
        s1.len() == s2.len(),
        bits_value(s1) == bits_value(s2),
    ensures
        s1 == s2,
    decreases s1.len(),
{
    if s1.len() == 0 {
        assert(s1 =~= s2);
    } else {
        let b1: nat = if s1[0] { 1 } else { 0 };
        let b2: nat = if s2[0] { 1 } else { 0 };
        assert(b1 + 2 * bits_value(s1.skip(1)) == b2 + 2 * bits_value(s2.skip(1)));
        assert(b1 == b2 && bits_value(s1.skip(1)) == bits_value(s2.skip(1)));
        lemma_bits_value_injective(s1.skip(1), s2.skip(1));
        assert forall|i: int| 0 <= i < s1.len() implies s1[i] == s2[i] by {
            if i > 0 {
                assert(s1.skip(1)[i - 1] == s2.skip(1)[i - 1]);
            }
        }
        assert(s1 =~= s2);
    }
}

} // verus!
