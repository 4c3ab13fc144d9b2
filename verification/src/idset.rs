//! Sets of element identifiers kept as strictly increasing vectors, so that
//! the smallest member comes first and iteration is in increasing order.

use vstd::prelude::*;

verus! {

pub struct IdSet {
    pub items: Vec<usize>,
}

impl IdSet {
    pub open spec fn wf(&self) -> bool {
        forall|a: int, b: int| 0 <= a < b < self.items@.len() ==> self.items@[a] < self.items@[b]
    }

    pub open spec fn has(&self, x: usize) -> bool {
        self.items@.contains(x)
    }

    /// Every member is below `n`.
    pub open spec fn below(&self, n: nat) -> bool {
        forall|j: int| 0 <= j < self.items@.len() ==> #[trigger] self.items@[j] < n
    }

    pub(crate) fn new() -> (s: Self)
        ensures
            s.wf(),
            s.items@.len() == 0,
    {
        IdSet { items: Vec::new() }
    }

    pub(crate) fn len(&self) -> (n: usize)
        ensures
            n == self.items@.len(),
    {
        self.items.len()
    }

    /// The smallest member.
    pub(crate) fn first(&self) -> (r: Option<usize>)
        requires
            self.wf(),
        ensures
            match r {
                Some(x) => self.items@.len() > 0 && x == self.items@[0] && forall|j: int|
                    0 <= j < self.items@.len() ==> x <= #[trigger] self.items@[j],
                None => self.items@.len() == 0,
            },
    {
        if self.items.len() == 0 {
            None
        } else {
            Some(self.items[0])
        }
    }

    pub(crate) fn clear(&mut self)
        ensures
            final(self).wf(),
            final(self).items@.len() == 0,
    {
        self.items.clear();
    }

    /// Adds `x`; true when it was not a member before (`BTreeSet::insert`).
    pub(crate) fn insert(&mut self, x: usize) -> (fresh: bool)
        requires
            old(self).wf(),
        ensures
            final(self).wf(),
            fresh == !old(self).has(x),
            final(self).has(x),
            forall|y: usize| #[trigger] final(self).has(y) <==> (old(self).has(y) || y == x),
            final(self).items@.len() == old(self).items@.len() + if fresh { 1int } else { 0int },
    {
        let mut pos: usize = 0;
        while pos < self.items.len() && self.items[pos] < x
            invariant
                self.wf(),
                pos <= self.items@.len(),
                forall|j: int| 0 <= j < pos ==> self.items@[j] < x,
            decreases self.items@.len() - pos,
        {
            pos = pos + 1;
        }
        if pos < self.items.len() && self.items[pos] == x {
            return false;
        }
        proof {
            assert forall|j: int| pos <= j < self.items@.len() implies x < #[trigger] self.items@[j] by {
                if j > pos {
                    assert(self.items@[pos as int] < self.items@[j]);
                }
            }
        }
        let ghost before = self.items@;
        self.items.insert(pos, x);
        proof {
            assert forall|y: usize| #[trigger] self.items@.contains(y) <==> (before.contains(y) || y == x) by {
                if self.items@.contains(y) {
                    let j = choose|j: int| 0 <= j < self.items@.len() && self.items@[j] == y;
                    if j < pos {
                        assert(before[j] == y);
                    } else if j > pos {
                        assert(before[j - 1] == y);
                    }
                }
                if before.contains(y) {
                    let j = choose|j: int| 0 <= j < before.len() && before[j] == y;
                    if j < pos {
                        assert(self.items@[j] == y);
                    } else {
                        assert(self.items@[j + 1] == y);
                    }
                }
                if y == x {
                    assert(self.items@[pos as int] == x);
                }
            }
            assert(!before.contains(x));
        }
        true
    }

    /// Adds every member of `other`.
    pub(crate) fn extend(&mut self, other: &IdSet)
        requires
            old(self).wf(),
        ensures
            final(self).wf(),
            forall|y: usize| #[trigger] final(self).has(y) <==> (old(self).has(y) || other.has(y)),
    {
        let mut k: usize = 0;
        while k < other.items.len()
            invariant
                self.wf(),
                k <= other.items@.len(),
                forall|y: usize| #[trigger] self.has(y) <==> (old(self).has(y)
                    || exists|j: int| 0 <= j < k && #[trigger] other.items@[j] == y),
            decreases other.items@.len() - k,
        {
            let x = other.items[k];
            self.insert(x);
            proof {
                assert forall|y: usize| #[trigger] self.has(y) <==> (old(self).has(y)
                    || exists|j: int| 0 <= j < k + 1 && #[trigger] other.items@[j] == y) by {
                    if y == x {
                        assert(other.items@[k as int] == y);
                    }
                }
            }
            k = k + 1;
        }
    }

    pub(crate) fn clone_set(&self) -> (s: IdSet)
        ensures
            s.items@ == self.items@,
    {
        IdSet { items: self.items.clone() }
    }
}

pub proof fn lemma_below_from_has(s: &IdSet, n: nat)
    requires
        forall|y: usize| #[trigger] s.has(y) ==> y < n,
    ensures
        s.below(n),
{
    assert forall|j: int| 0 <= j < s.items@.len() implies #[trigger] s.items@[j] < n by {
        assert(s.has(s.items@[j]));
    }
}


/// A set whose only member is `x` is the one-item set of `x`.
pub proof fn lemma_single(s: &IdSet, x: usize)
    requires
        s.wf(),
        forall|y: usize| #[trigger] s.has(y) <==> y == x,
    ensures
        s.items@.len() == 1,
        s.items@[0] == x,
{
    assert(s.has(x));
    let i = choose|i: int| 0 <= i < s.items@.len() && s.items@[i] == x;
    assert(s.has(s.items@[0]));
    if s.items@.len() > 1 {
        assert(s.has(s.items@[1]));
    }
}

} // verus!
