//! Unordered pairs of atom indices, the keys of the bond table.
use vstd::prelude::*;

verus! {

/// An unordered pair of atom indices. `new` stores the smaller index first,
/// so the two orders of the same two indices build equal values, and any
/// hash of the value is therefore order-independent as well.
#[derive(Clone, Copy, Debug, PartialEq, Eq, Hash, Structural)]
pub struct Pair(pub usize, pub usize);

impl Pair {
    /// The canonical value of the unordered pair `{a, b}`.
    pub open spec fn new_spec(a: usize, b: usize) -> Pair {
        if a <= b {
            Pair(a, b)
        } else {
            Pair(b, a)
        }
    }

    pub open spec fn lo(self) -> usize {
        self.0
    }

    pub open spec fn hi(self) -> usize {
        self.1
    }

    /// A stored pair is always in canonical order.
    pub open spec fn wf(self) -> bool {
        self.0 <= self.1
    }

    /// Whether the index `x` is one of the two components.
    pub open spec fn has(self, x: usize) -> bool {
        self.0 == x || self.1 == x
    }

    pub fn new(a: usize, b: usize) -> (r: Pair)
        ensures
            r == Pair::new_spec(a, b),
            r.wf(),
    {
        if a <= b {
            Pair(a, b)
        } else {
            Pair(b, a)
        }
    }

    /// The two components, smaller first.
    pub fn components(&self) -> (r: (usize, usize))
        ensures
            r == (self.lo(), self.hi()),
    {
        (self.0, self.1)
    }

    /// The component other than `current`, if `current` occurs in the pair.
    pub fn get_another(&self, current: usize) -> (r: Option<usize>)
        ensures
            r matches Some(other) ==> self.has(current) && (other == self.0 || other == self.1)
                && (self.0 == self.1 ==> other == current)
                && (self.0 != self.1 ==> other != current),
            r is None <==> !self.has(current),
    {
        if current == self.0 {
            Some(self.1)
        } else if current == self.1 {
            Some(self.0)
        } else {
            None
        }
    }

    pub fn contains(&self, current: usize) -> (r: bool)
        ensures
            r == self.has(current),
    {
        self.get_another(current).is_some()
    }

    /// Shift both components up by `off`; used when a compacted molecule is
    /// spliced in above the existing indices.
    pub fn offset(self, off: usize) -> (r: Pair)
        requires
            self.0 + off <= usize::MAX,
            self.1 + off <= usize::MAX,
        ensures
            r == Pair::new_spec((self.0 + off) as usize, (self.1 + off) as usize),
    {
        Pair::new(self.0 + off, self.1 + off)
    }
}

/// The unordered pair of `a` and `b` does not depend on the order the two
/// indices are given in; with equal values, every hash of the two is equal too.
pub proof fn lemma_pair_symmetric(a: usize, b: usize)
    ensures
        Pair::new_spec(a, b) == Pair::new_spec(b, a),
{
}

} // verus!
