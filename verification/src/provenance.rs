//! Insertion-ordered sets of source indices.

use vstd::prelude::*;

verus! {

/// Says that `s` is strictly increasing.
pub open spec fn strictly_increasing(s: Seq<usize>) -> bool {
    forall|a: int, b: int| 0 <= a < b < s.len() ==> s[a] < s[b]
}

/// An append-only, insertion-ordered set of source indices.
///
/// Sources are folded in index order, so indices are only ever appended in
/// strictly increasing order; a set built that way is sorted and free of
/// duplicates without any separate deduplication.
#[derive(Debug, Clone)]
pub struct ProvenanceSet {
    indices: Vec<usize>,
}

impl View for ProvenanceSet {
    type V = Seq<usize>;

    closed spec fn view(&self) -> Seq<usize> {
        self.indices@
    }
}

impl ProvenanceSet {
    /// A set holding the single index `i`.
    pub fn new(i: usize) -> (s: Self)
        ensures
            s@ == seq![i],
    {
        let s = Self { indices: vec![i] };
        proof {
            assert(s@ =~= seq![i]);
        }
        s
    }

    /// Appends `i` to the set.
    pub fn add(&mut self, i: usize)
        ensures
            final(self)@ == old(self)@.push(i),
    {
        self.indices.push(i);
    }

    /// Whether the set holds `i`.
    pub fn contains(&self, i: usize) -> (r: bool)
        ensures
            r == self@.contains(i),
    {
        let mut k: usize = 0;
        while k < self.indices.len()
            invariant
                0 <= k <= self@.len(),
                forall|a: int| 0 <= a < k ==> self@[a] != i,
            decreases self@.len() - k,
        {
            if self.indices[k] == i {
                return true;
            }
            k = k + 1;
        }
        false
    }

    /// How many indices the set holds.
    pub fn card(&self) -> (n: usize)
        ensures
            n == self@.len(),
    {
        self.indices.len()
    }

    /// A copy of the set.
    pub fn duplicate(&self) -> (r: Self)
        ensures
            r@ == self@,
    {
        let mut v: Vec<usize> = Vec::new();
        let mut k: usize = 0;
        while k < self.indices.len()
            invariant
                0 <= k <= self@.len(),
                v@ == self@.take(k as int),
            decreases self@.len() - k,
        {
            v.push(self.indices[k]);
            proof {
                assert(v@ =~= self@.take(k + 1));
            }
            k = k + 1;
        }
        proof {
            assert(v@ =~= self@);
        }
        Self { indices: v }
    }

    /// A copy of the set with `i` appended.
    pub fn appended(&self, i: usize) -> (r: Self)
        ensures
            r@ == self@.push(i),
    {
        let mut r = self.duplicate();
        r.add(i);
        r
    }

    /// The `k`-th index, in insertion order.
    pub fn get(&self, k: usize) -> (i: usize)
        requires
            k < self@.len(),
        ensures
            i == self@[k as int],
    {
        self.indices[k]
    }
}

} // verus!
