//! Fixed-width bit vectors for lookahead and token sets.
//!
//! A `BitSet` has one bit per token identifier; its mathematical view is the
//! set of indices whose bit is on.  The in-place union reports whether any
//! bit changed, which drives every fixed-point loop in the table builders.

use vstd::prelude::*;
use vstd::pervasive::VecAdditionalExecFns;

verus! {

pub struct BitSet {
    pub bits: Vec<bool>,
}

impl View for BitSet {
    type V = Set<int>;

    /// The set of indices whose bit is on.
    open spec fn view(&self) -> Set<int> {
        Set::new(|i: int| 0 <= i < self.bits.len() && self.bits[i])
    }
}

impl BitSet {
    /// Number of bits, i.e. the size of the token universe.
    pub open spec fn width(&self) -> nat {
        self.bits@.len()
    }

    /// The empty set over a universe of `n` tokens.
    pub fn new(n: usize) -> (r: BitSet)
        ensures
            r.width() == n,
            r@ == Set::<int>::empty(),
    {
        let bits: Vec<bool> = vec![false; n];
        let r = BitSet { bits };
        proof {
            assert(r@ =~= Set::<int>::empty());
        }
        r
    }

    /// Membership test for index `i`.
    pub fn test(&self, i: usize) -> (r: bool)
        requires
            i < self.width(),
        ensures
            r == self@.contains(i as int),
    {
        self.bits[i]
    }

    /// Turn bit `i` on.
    pub fn set(&mut self, i: usize)
        requires
            i < old(self).width(),
        ensures
            final(self).width() == old(self).width(),
            final(self)@ == old(self)@.insert(i as int),
    {
        self.bits.set(i, true);
        proof {
            assert(self@ =~= old(self)@.insert(i as int));
        }
    }

    /// Turn bit `i` off.
    pub fn clear(&mut self, i: usize)
        requires
            i < old(self).width(),
        ensures
            final(self).width() == old(self).width(),
            final(self)@ == old(self)@.remove(i as int),
    {
        self.bits.set(i, false);
        proof {
            assert(self@ =~= old(self)@.remove(i as int));
        }
    }

    /// In-place union; reports whether the receiver grew.
    pub fn or(&mut self, o: &BitSet) -> (changed: bool)
        requires
            old(self).width() == o.width(),
        ensures
            final(self).width() == o.width(),
            final(self)@ == old(self)@.union(o@),
            changed == (final(self)@ != old(self)@),
    {
        let n = self.bits.len();
        let mut out: Vec<bool> = Vec::new();
        let mut changed = false;
        let mut i: usize = 0;
        while i < n
            invariant
                n == self.bits.len(),
                self.bits.len() == o.bits.len(),
                i <= n,
                out.len() == i,
                forall|j: int| 0 <= j < i ==> out[j] == (self.bits[j] || o.bits[j]),
                changed == exists|j: int| 0 <= j < i && o.bits[j] && !self.bits[j],
            decreases n - i,
        {
            let b = self.bits[i] || o.bits[i];
            if b && !self.bits[i] {
                changed = true;
                proof {
                    assert(o.bits[i as int] && !self.bits[i as int]);
                }
            }
            out.push(b);
            i += 1;
        }
        proof {
            assert(Set::new(|k: int| 0 <= k < out.len() && out[k]) =~= self@.union(o@));
            if changed {
                let j = choose|j: int| 0 <= j < n && o.bits[j] && !self.bits[j];
                assert(self@.union(o@).contains(j) && !self@.contains(j));
            } else {
                assert(Set::new(|k: int| 0 <= k < out.len() && out[k]) =~= self@);
            }
        }
        self.bits = out;
        changed
    }

    /// Structural equality: same width and same member set.
    pub fn equals(&self, o: &BitSet) -> (r: bool)
        ensures
            r == (self.width() == o.width() && self@ == o@),
    {
        if self.bits.len() != o.bits.len() {
            return false;
        }
        let mut i: usize = 0;
        while i < self.bits.len()
            invariant
                i <= self.bits.len(),
                self.bits.len() == o.bits.len(),
                forall|j: int| 0 <= j < i ==> self.bits[j] == o.bits[j],
            decreases self.bits.len() - i,
        {
            if self.bits[i] != o.bits[i] {
                proof {
                    assert(self@.contains(i as int) != o@.contains(i as int));
                }
                return false;
            }
            i += 1;
        }
        proof {
            assert(self@ =~= o@);
        }
        true
    }

    /// A copy with the same width and member set.
    pub fn duplicate(&self) -> (r: BitSet)
        ensures
            r.width() == self.width(),
            r@ == self@,
    {
        let mut out: Vec<bool> = Vec::new();
        let mut i: usize = 0;
        while i < self.bits.len()
            invariant
                i <= self.bits.len(),
                out.len() == i,
                forall|j: int| 0 <= j < i ==> out[j] == self.bits[j],
            decreases self.bits.len() - i,
        {
            out.push(self.bits[i]);
            i += 1;
        }
        let r = BitSet { bits: out };
        proof {
            assert(r@ =~= self@);
        }
        r
    }
}

/// Number of `true` entries of a boolean sequence.
pub open spec fn count_true(s: Seq<bool>) -> nat
    decreases s.len(),
{
    if s.len() == 0 {
        0
    } else {
        count_true(s.drop_last()) + if s.last() {
            1nat
        } else {
            0nat
        }
    }
}

pub proof fn lemma_count_true_le_len(s: Seq<bool>)
    ensures
        count_true(s) <= s.len(),
    decreases s.len(),
{
    if s.len() > 0 {
        lemma_count_true_le_len(s.drop_last());
    }
}

pub proof fn lemma_count_true_monotone(s1: Seq<bool>, s2: Seq<bool>)
    requires
        s1.len() == s2.len(),
        forall|i: int| 0 <= i < s1.len() && s1[i] ==> s2[i],
    ensures
        count_true(s1) <= count_true(s2),
        (exists|i: int| 0 <= i < s1.len() && s2[i] && !s1[i]) ==> count_true(s1) < count_true(
            s2,
        ),
    decreases s1.len(),
{
    if s1.len() == 0 {
    } else {
        let n = s1.len() - 1;
        lemma_count_true_monotone(s1.drop_last(), s2.drop_last());
        if exists|i: int| 0 <= i < s1.len() && s2[i] && !s1[i] {
            let i = choose|i: int| 0 <= i < s1.len() && s2[i] && !s1[i];
            if i == n {
                assert(s2.last() && !s1.last());
            } else {
                assert(s2.drop_last()[i] && !s1.drop_last()[i]);
                assert(count_true(s1.drop_last()) < count_true(s2.drop_last()));
            }
        }
    }
}

/// Number of bits that are on.
pub open spec fn bit_count(b: &BitSet) -> nat {
    count_true(b.bits@)
}

pub proof fn lemma_bit_count_le(b: &BitSet)
    ensures
        bit_count(b) <= b.width(),
{
    lemma_count_true_le_len(b.bits@);
}

/// A set-inclusion of equal-width bit sets bounds the bit counts, strictly
/// when the views differ.
pub proof fn lemma_bit_count_subset(a: &BitSet, b: &BitSet)
    requires
        a.width() == b.width(),
        a@.subset_of(b@),
    ensures
        bit_count(a) <= bit_count(b),
        a@ != b@ ==> bit_count(a) < bit_count(b),
{
    assert(forall|i: int| 0 <= i < a.bits@.len() && a.bits@[i] ==> b.bits@[i]) by {
        assert forall|i: int| 0 <= i < a.bits@.len() && a.bits@[i] implies b.bits@[i] by {
            assert(a@.contains(i));
            assert(b@.contains(i));
        }
    }
    lemma_count_true_monotone(a.bits@, b.bits@);
    if a@ != b@ {
        assert(!(forall|i: int| 0 <= i < a.bits@.len() ==> a.bits@[i] == b.bits@[i])) by {
            if forall|i: int| 0 <= i < a.bits@.len() ==> a.bits@[i] == b.bits@[i] {
                assert(a@ =~= b@);
            }
        }
        let i = choose|i: int| 0 <= i < a.bits@.len() && a.bits@[i] != b.bits@[i];
        assert(b.bits@[i] && !a.bits@[i]) by {
            if a.bits@[i] {
                assert(a@.contains(i));
            }
        }
    }
}

} // verus!
