//! A set of indices below a fixed bound, kept as one flag per index. The
//! number of unmarked indices bounds every search that marks what it visits.

use vstd::prelude::*;

verus! {

/// Number of `false` entries.
pub open spec fn count_false(s: Seq<bool>) -> nat
    decreases s.len(),
{
    if s.len() == 0 {
        0
    } else {
        count_false(s.drop_last()) + if s.last() {
            0nat
        } else {
            1nat
        }
    }
}

pub proof fn lemma_count_false_mark(s: Seq<bool>, i: int)
    requires
        0 <= i < s.len(),
        !s[i],
    ensures
        count_false(s.update(i, true)) + 1 == count_false(s),
    decreases s.len(),
{
    let t = s.update(i, true);
    if i == s.len() - 1 {
        assert(t.drop_last() =~= s.drop_last());
    } else {
        assert(t.drop_last() =~= s.drop_last().update(i, true));
        lemma_count_false_mark(s.drop_last(), i);
    }
}

pub struct Marks {
    pub flags: Vec<bool>,
}

impl Marks {
    pub open spec fn contains(&self, i: int) -> bool {
        0 <= i < self.flags@.len() && self.flags@[i]
    }

    pub open spec fn bound(&self) -> nat {
        self.flags@.len()
    }

    /// How many indices can still be marked.
    pub open spec fn remaining(&self) -> nat {
        count_false(self.flags@)
    }

    pub(crate) fn new(n: usize) -> (m: Self)
        ensures
            m.bound() == n,
            forall|i: int| !m.contains(i),
    {
        let mut flags: Vec<bool> = Vec::new();
        let mut k: usize = 0;
        while k < n
            invariant
                k <= n,
                flags@.len() == k,
                forall|i: int| 0 <= i < k ==> !flags@[i],
            decreases n - k,
        {
            flags.push(false);
            k = k + 1;
        }
        Marks { flags }
    }

    pub(crate) fn has(&self, i: usize) -> (b: bool)
        ensures
            b == self.contains(i as int),
    {
        i < self.flags.len() && self.flags[i]
    }

    /// Marks `i`; true when it was not marked before (`BTreeSet::insert`).
    pub(crate) fn insert(&mut self, i: usize) -> (fresh: bool)
        requires
            i < old(self).bound(),
        ensures
            fresh == !old(self).contains(i as int),
            final(self).bound() == old(self).bound(),
            forall|j: int| #[trigger] final(self).contains(j) == (old(self).contains(j) || j == i),
            fresh ==> final(self).remaining() + 1 == old(self).remaining(),
            !fresh ==> final(self).remaining() == old(self).remaining(),
    {
        if self.flags[i] {
            false
        } else {
            proof {
                lemma_count_false_mark(self.flags@, i as int);
            }
            self.flags.set(i, true);
            true
        }
    }
}

} // verus!
