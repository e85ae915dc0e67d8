//! Sets of automaton states, kept as one flag per state identifier. Two sets
//! over the same identifiers are equal exactly when their flags are.

use crate::nfa::NfaState;
use vstd::arithmetic::power2::{lemma_pow2_unfold, pow2};
use vstd::prelude::*;

verus! {

/// How many of the flags are set.
pub open spec fn count_set(bits: Seq<bool>) -> nat
    decreases bits.len(),
{
    if bits.len() == 0 {
        0
    } else {
        count_set(bits.drop_last()) + if bits.last() {
            1nat
        } else {
            0nat
        }
    }
}

/// The flags read as a binary number, the last flag being the lowest digit.
pub open spec fn binary(bits: Seq<bool>) -> nat
    decreases bits.len(),
{
    if bits.len() == 0 {
        0
    } else {
        2 * binary(bits.drop_last()) + if bits.last() {
            1nat
        } else {
            0nat
        }
    }
}

/// Setting more flags raises the count, and strictly so where a flag is new.
pub proof fn lemma_count_grows(a: Seq<bool>, b: Seq<bool>)
    requires
        a.len() == b.len(),
        forall|i: int| 0 <= i < a.len() && a[i] ==> b[i],
    ensures
        count_set(a) <= count_set(b) <= b.len(),
        (exists|i: int| 0 <= i < a.len() && !a[i] && b[i]) ==> count_set(a) < count_set(b),
    decreases a.len(),
{
    if a.len() > 0 {
        let a0 = a.drop_last();
        let b0 = b.drop_last();
        assert forall|i: int| 0 <= i < a0.len() && a0[i] implies b0[i] by {
            assert(a[i] ==> b[i]);
        }
        lemma_count_grows(a0, b0);
        if exists|i: int| 0 <= i < a.len() && !a[i] && b[i] {
            let i = choose|i: int| 0 <= i < a.len() && !a[i] && b[i];
            if i < a.len() - 1 {
                assert(!a0[i] && b0[i]);
            }
        }
    }
}

/// A binary number of so many digits is below the matching power of two.
pub proof fn lemma_binary_bound(bits: Seq<bool>)
    ensures
        binary(bits) < pow2(bits.len()),
    decreases bits.len(),
{
    if bits.len() == 0 {
        vstd::arithmetic::power2::lemma2_to64();
    } else {
        lemma_binary_bound(bits.drop_last());
        lemma_pow2_unfold(bits.len());
    }
}

/// Flag sequences of one length that read as the same number are the same.
pub proof fn lemma_binary_injective(a: Seq<bool>, b: Seq<bool>)
    requires
        a.len() == b.len(),
        binary(a) == binary(b),
    ensures
        a == b,
    decreases a.len(),
{
    if a.len() > 0 {
        lemma_binary_injective(a.drop_last(), b.drop_last());
        assert(a =~= a.drop_last().push(a.last()));
        assert(b =~= b.drop_last().push(b.last()));
    } else {
        assert(a =~= b);
    }
}

/// The code of a set is below two to the power of its capacity.
pub proof fn lemma_code_bound(s: NfaStateSet)
    ensures
        s.code() < pow2(s.capacity()),
{
    lemma_binary_bound(s.bits@);
}

/// A set holds no more states than its capacity.
pub proof fn lemma_size_bound(s: NfaStateSet)
    ensures
        s.size() <= s.capacity(),
{
    lemma_count_grows(s.bits@, s.bits@);
}

/// A set of automaton states with identifiers below a fixed capacity.
#[derive(Debug)]
pub struct NfaStateSet {
    bits: Vec<bool>,
}

impl View for NfaStateSet {
    type V = Set<NfaState>;

    closed spec fn view(&self) -> Set<NfaState> {
        Set::new(|s: NfaState| s.0 < self.bits@.len() && self.bits@[s.0 as int])
    }
}

impl Clone for NfaStateSet {
    fn clone(&self) -> (copy: Self)
        ensures
            copy@ == self@,
            copy.capacity() == self.capacity(),
            copy.size() == self.size(),
            copy.code() == self.code(),
            copy.wf() == self.wf(),
    {
        let bits = self.bits.clone();
        assert(bits@ =~= self.bits@);
        NfaStateSet { bits }
    }
}

impl NfaStateSet {
    /// Whether every identifier below the capacity is that of a state.
    pub closed spec fn wf(&self) -> bool {
        self.bits@.len() <= u32::MAX
    }

    /// The identifiers that the set can hold are those below its capacity.
    pub closed spec fn capacity(&self) -> nat {
        self.bits@.len()
    }

    /// The number of states in the set.
    pub closed spec fn size(&self) -> nat {
        count_set(self.bits@)
    }

    /// A number that tells the sets of one capacity apart.
    pub closed spec fn code(&self) -> nat {
        binary(self.bits@)
    }

    /// The empty set over the identifiers below `capacity`.
    pub fn new(capacity: u32) -> (set: NfaStateSet)
        ensures
            set.wf(),
            set@ == Set::<NfaState>::empty(),
            set.capacity() == capacity,
    {
        let mut bits: Vec<bool> = Vec::new();
        let mut i: u32 = 0;
        while i < capacity
            invariant
                i <= capacity,
                bits@.len() == i,
                forall|j: int| 0 <= j < i ==> !bits@[j],
            decreases capacity - i,
        {
            bits.push(false);
            i += 1;
        }
        let set = NfaStateSet { bits };
        assert(set@ =~= Set::<NfaState>::empty());
        set
    }

    /// Adds a state to the set.
    pub fn insert(&mut self, s: NfaState)
        requires
            s.0 < old(self).capacity(),
        ensures
            final(self)@ == old(self)@.insert(s),
            final(self).capacity() == old(self).capacity(),
            final(self).wf() == old(self).wf(),
    {
        self.bits.set(s.0 as usize, true);
        assert(self@ =~= old(self)@.insert(s));
    }

    /// Whether the state is in the set.
    pub fn contains(&self, s: &NfaState) -> (found: bool)
        ensures
            found == self@.contains(*s),
    {
        let i = s.0 as usize;
        i < self.bits.len() && self.bits[i]
    }

    /// Whether the set has no state.
    pub fn is_empty(&self) -> (empty: bool)
        requires
            self.wf(),
        ensures
            empty == (self@ == Set::<NfaState>::empty()),
    {
        let mut i: usize = 0;
        while i < self.bits.len()
            invariant
                i <= self.bits@.len(),
                self.bits@.len() <= u32::MAX,
                forall|j: int| 0 <= j < i ==> !self.bits@[j],
            decreases self.bits@.len() - i,
        {
            if self.bits[i] {
                assert(self@.contains(NfaState(i as u32)));
                return false;
            }
            i += 1;
        }
        assert(self@ =~= Set::<NfaState>::empty());
        true
    }

    /// Whether the two sets hold the same states.
    pub fn same_as(&self, other: &NfaStateSet) -> (same: bool)
        requires
            self.wf(),
            self.capacity() == other.capacity(),
        ensures
            same == (self@ == other@),
            same == (self.code() == other.code()),
    {
        let mut i: usize = 0;
        while i < self.bits.len()
            invariant
                i <= self.bits@.len(),
                self.bits@.len() == other.bits@.len(),
                self.bits@.len() <= u32::MAX,
                forall|j: int| 0 <= j < i ==> self.bits@[j] == other.bits@[j],
            decreases self.bits@.len() - i,
        {
            if self.bits[i] != other.bits[i] {
                let ghost s = NfaState(i as u32);
                assert(self@.contains(s) != other@.contains(s));
                proof {
                    if self.code() == other.code() {
                        lemma_binary_injective(self.bits@, other.bits@);
                    }
                }
                return false;
            }
            i += 1;
        }
        assert(self.bits@ =~= other.bits@);
        assert(self@ =~= other@);
        true
    }

    /// Adds the states of another set to this one. The size grows with the
    /// set, and stays within the capacity.
    pub fn extend(&mut self, other: &NfaStateSet)
        requires
            old(self).wf(),
            old(self).capacity() == other.capacity(),
        ensures
            final(self).wf(),
            final(self)@ == old(self)@.union(other@),
            final(self).capacity() == old(self).capacity(),
            old(self).size() <= final(self).size() <= final(self).capacity(),
            final(self)@ != old(self)@ ==> old(self).size() < final(self).size(),
            final(self)@ == old(self)@ ==> old(self).size() == final(self).size(),
    {
        let ghost before = self.bits@;
        let ghost before_set = self@;
        let mut bits: Vec<bool> = Vec::new();
        let mut i: usize = 0;
        while i < self.bits.len()
            invariant
                i <= self.bits@.len(),
                self.bits@ == before,
                before.len() == other.bits@.len(),
                bits@.len() == i,
                forall|j: int| 0 <= j < i ==> bits@[j] == (before[j] || other.bits@[j]),
            decreases self.bits@.len() - i,
        {
            bits.push(self.bits[i] || other.bits[i]);
            i += 1;
        }
        self.bits = bits;
        proof {
            assert(self@ =~= before_set.union(other@));
            lemma_count_grows(before, self.bits@);
            if self@ != before_set {
                assert(!(self@ =~= before_set));
                let s = choose|s: NfaState| self@.contains(s) != before_set.contains(s);
                assert(!before[s.0 as int] && self.bits@[s.0 as int]);
            } else {
                assert forall|j: int| 0 <= j < before.len() implies before[j] == self.bits@[j] by {
                    let s = NfaState(j as u32);
                    assert(self@.contains(s) == before_set.contains(s));
                }
                assert(self.bits@ =~= before);
            }
        }
    }

    /// The states of this set that are not in the other.
    pub fn difference(&self, other: &NfaStateSet) -> (rest: NfaStateSet)
        requires
            self.wf(),
            self.capacity() == other.capacity(),
        ensures
            rest.wf(),
            rest@ == self@.difference(other@),
            rest.capacity() == self.capacity(),
    {
        let mut bits: Vec<bool> = Vec::new();
        let mut i: usize = 0;
        while i < self.bits.len()
            invariant
                i <= self.bits@.len(),
                self.bits@.len() == other.bits@.len(),
                bits@.len() == i,
                forall|j: int| 0 <= j < i ==> bits@[j] == (self.bits@[j] && !other.bits@[j]),
            decreases self.bits@.len() - i,
        {
            bits.push(self.bits[i] && !other.bits[i]);
            i += 1;
        }
        let rest = NfaStateSet { bits };
        assert(rest@ =~= self@.difference(other@));
        rest
    }

    /// The capacity: every state of the set has an identifier below it.
    pub fn limit(&self) -> (capacity: u32)
        requires
            self.wf(),
        ensures
            capacity == self.capacity(),
    {
        self.bits.len() as u32
    }
}

} // verus!
