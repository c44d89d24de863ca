//! A sorted sequence of unsigned integers.
//!
//! Elements are kept in nondecreasing order; an insert lands before the
//! first element that is greater than or equal to it, a pop removes the
//! smallest.

use vstd::prelude::*;

verus! {

/// The sorted list.  Its view is the element sequence, always sorted.
pub struct SortedList {
    items: Vec<u64>,
}

/// A forward cursor over a [`SortedList`].
pub struct Iter<'a> {
    list: &'a SortedList,
    pos: usize,
}

impl View for SortedList {
    type V = Seq<u64>;

    closed spec fn view(&self) -> Seq<u64> {
        self.items@
    }
}

/// The index of the first element of `s` not less than `v` — where an
/// insert of `v` lands.
pub open spec fn spec_lower_bound(s: Seq<u64>, v: u64) -> int
    decreases s.len(),
{
    if s.len() == 0 {
        0
    } else if s[0] < v {
        1 + spec_lower_bound(s.drop_first(), v)
    } else {
        0
    }
}

/// Where the lower bound falls: the index below which everything is
/// smaller and at which, if in range, the element is not.
pub proof fn lemma_lower_bound_at(s: Seq<u64>, v: u64, idx: int)
    requires
        0 <= idx <= s.len(),
        forall|k: int| 0 <= k < idx ==> s[k] < v,
        idx < s.len() ==> s[idx] >= v,
    ensures
        spec_lower_bound(s, v) == idx,
    decreases s.len(),
{
    if s.len() > 0 {
        if s[0] < v {
            assert(forall|k: int| 0 <= k < idx - 1 ==> s.drop_first()[k] == s[k + 1]);
            lemma_lower_bound_at(s.drop_first(), v, idx - 1);
        }
    }
}

impl SortedList {
    /// Nondecreasing order.
    pub open spec fn wf(self) -> bool {
        forall|i: int, j: int| 0 <= i <= j < self@.len() ==> self@[i] <= self@[j]
    }

    /// The empty list.
    pub fn new() -> (r: SortedList)
        ensures
            r.wf(),
            r@ == Seq::<u64>::empty(),
    {
        SortedList { items: Vec::new() }
    }

    /// The smallest element, if any.
    pub fn peek_begin(&self) -> (r: Option<u64>)
        ensures
            self@.len() == 0 ==> r is None,
            self@.len() > 0 ==> r == Some(self@[0]),
    {
        if self.items.len() == 0 {
            None
        } else {
            Some(self.items[0])
        }
    }

    /// The largest element, if any.
    pub fn seek_end(&self) -> (r: Option<u64>)
        ensures
            self@.len() == 0 ==> r is None,
            self@.len() > 0 ==> r == Some(self@.last()),
    {
        if self.items.len() == 0 {
            None
        } else {
            Some(self.items[self.items.len() - 1])
        }
    }

    /// Insert `elem` before the first element that is not less than it.
    pub fn add(&mut self, elem: u64)
        requires
            old(self).wf(),
        ensures
            final(self).wf(),
            final(self)@ == old(self)@.insert(spec_lower_bound(old(self)@, elem), elem),
    {
        let mut idx: usize = 0;
        while idx < self.items.len() && self.items[idx] < elem
            invariant
                idx <= self.items@.len(),
                forall|k: int| 0 <= k < idx ==> self.items@[k] < elem,
            decreases self.items@.len() - idx,
        {
            idx = idx + 1;
        }
        proof {
            lemma_lower_bound_at(self.items@, elem, idx as int);
        }
        self.items.insert(idx, elem);
        proof {
            assert forall|i: int, j: int| 0 <= i <= j < self@.len() implies self@[i] <= self@[j] by {
                assert(forall|k: int| 0 <= k < idx ==> self@[k] == old(self)@[k]);
                assert(self@[idx as int] == elem);
                assert(forall|k: int| idx < k < self@.len() ==> self@[k] == old(self)@[k - 1]);
            }
        }
    }

    /// Remove and return the smallest element, if any.
    pub fn pop(&mut self) -> (r: Option<u64>)
        requires
            old(self).wf(),
        ensures
            final(self).wf(),
            old(self)@.len() == 0 ==> r is None && final(self)@ == old(self)@,
            old(self)@.len() > 0 ==> r == Some(old(self)@[0])
                && final(self)@ == old(self)@.drop_first(),
    {
        if self.items.len() == 0 {
            None
        } else {
            let x = self.items.remove(0);
            proof {
                assert(self@ =~= old(self)@.drop_first());
            }
            Some(x)
        }
    }

    /// A cursor starting at the smallest element.
    pub fn iter(&self) -> (r: Iter<'_>)
        ensures
            r.remaining() == self@,
            r.valid(),
    {
        Iter { list: self, pos: 0 }
    }
}

impl<'a> Iter<'a> {
    /// The elements not yet yielded, in order.
    pub closed spec fn remaining(self) -> Seq<u64> {
        self.list@.skip(self.pos as int)
    }

    pub closed spec fn valid(self) -> bool {
        self.pos <= self.list@.len()
    }

    /// The next element in nondecreasing order, if any.
    pub fn next(&mut self) -> (r: Option<u64>)
        requires
            old(self).valid(),
        ensures
            final(self).valid(),
            old(self).remaining().len() == 0 ==> r is None && final(self).remaining() == old(
                self,
            ).remaining(),
            old(self).remaining().len() > 0 ==> r == Some(old(self).remaining()[0])
                && final(self).remaining() == old(self).remaining().drop_first(),
    {
        if self.pos < self.list.items.len() {
            let x = self.list.items[self.pos];
            self.pos = self.pos + 1;
            proof {
                assert(self.list@.skip(self.pos as int) =~= old(self).remaining().drop_first());
            }
            Some(x)
        } else {
            None
        }
    }
}

} // verus!
