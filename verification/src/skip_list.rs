//! A skip list over unsigned integers.
//!
//! A fixed stack of levels, each a sorted sequence: the bottom level holds
//! every element, and each element of an upper level also appears in the
//! level below.  An insert lands in the bottom level and then climbs:
//! one independent fair coin flip per level, stopping at the first flip
//! that fails or at the top.  Which levels an element reaches is up to
//! chance, so contracts promise nothing about the upper levels beyond
//! their shape; the element sequence is the bottom level.

use vstd::prelude::*;

use crate::sorted_list::{lemma_lower_bound_at, spec_lower_bound};

verus! {

/// The skip list: `levels[0]` is the bottom.
pub struct SkipList {
    layers: usize,
    len: usize,
    levels: Vec<Vec<u64>>,
}

/// A forward cursor over a [`SkipList`]'s elements.
pub struct Iter<'a> {
    list: &'a SkipList,
    pos: usize,
}

/// Relies on `rand::random`: an independent fair coin flip.  Nothing is
/// assumed about the outcome.
#[verifier::external_body]
fn coin_flip() -> bool {
    rand::random::<bool>()
}

spec fn sorted(s: Seq<u64>) -> bool {
    forall|i: int, j: int| 0 <= i <= j < s.len() ==> s[i] <= s[j]
}

proof fn lemma_insert_contains(s: Seq<u64>, i: int, v: u64, x: u64)
    requires
        0 <= i <= s.len(),
    ensures
        s.insert(i, v).contains(x) <==> x == v || s.contains(x),
{
    let t = s.insert(i, v);
    assert(t[i] == v);
    if s.contains(x) {
        let j = choose|j: int| 0 <= j < s.len() && s[j] == x;
        if j < i {
            assert(t[j] == x);
        } else {
            assert(t[j + 1] == x);
        }
    }
    if t.contains(x) && x != v {
        let j = choose|j: int| 0 <= j < t.len() && t[j] == x;
        if j < i {
            assert(s[j] == x);
        } else {
            assert(j != i);
            assert(s[j - 1] == x);
        }
    }
}

/// Insert `elem` into a sorted vector, before the first element that is
/// not less than it.
fn insert_sorted(v: &mut Vec<u64>, elem: u64)
    requires
        sorted(old(v)@),
    ensures
        final(v)@ == old(v)@.insert(spec_lower_bound(old(v)@, elem), elem),
        0 <= spec_lower_bound(old(v)@, elem) <= old(v)@.len(),
        sorted(final(v)@),
        forall|x: u64| final(v)@.contains(x) <==> x == elem || old(v)@.contains(x),
{
    let mut idx: usize = 0;
    while idx < v.len() && v[idx] < elem
        invariant
            idx <= v@.len(),
            forall|k: int| 0 <= k < idx ==> v@[k] < elem,
        decreases v@.len() - idx,
    {
        idx = idx + 1;
    }
    proof {
        lemma_lower_bound_at(v@, elem, idx as int);
    }
    v.insert(idx, elem);
    proof {
        assert forall|i: int, j: int| 0 <= i <= j < v@.len() implies v@[i] <= v@[j] by {
            assert(forall|k: int| 0 <= k < idx ==> v@[k] == old(v)@[k]);
            assert(v@[idx as int] == elem);
            assert(forall|k: int| idx < k < v@.len() ==> v@[k] == old(v)@[k - 1]);
        }
        assert forall|x: u64| v@.contains(x) <==> x == elem || old(v)@.contains(x) by {
            lemma_insert_contains(old(v)@, idx as int, elem, x);
        }
    }
}

impl SkipList {
    /// The elements, in nondecreasing order: the bottom level.
    pub closed spec fn elems(self) -> Seq<u64> {
        self.levels@[0]@
    }

    /// Shape: a fixed positive stack of levels, each sorted, each upper
    /// level's elements also present in the level below, the element
    /// count taken from the bottom level.
    pub closed spec fn wf(self) -> bool {
        &&& self.levels@.len() == self.layers
        &&& self.layers >= 1
        &&& self.len == self.levels@[0]@.len()
        &&& forall|k: int| 0 <= k < self.levels@.len() ==> sorted(#[trigger] self.levels@[k]@)
        &&& forall|k: int, x: u64|
            1 <= k < self.levels@.len() && (#[trigger] self.levels@[k]@.contains(x))
                ==> self.levels@[k - 1]@.contains(x)
    }

    /// An empty skip list with four levels.
    pub fn new() -> (r: SkipList)
        ensures
            r.wf(),
            r.elems() == Seq::<u64>::empty(),
    {
        let layer_count: usize = 4;
        let mut levels: Vec<Vec<u64>> = Vec::new();
        let mut k: usize = 0;
        while k < layer_count
            invariant
                k <= layer_count,
                levels@.len() == k,
                forall|i: int| 0 <= i < k ==> (#[trigger] levels@[i])@.len() == 0,
            decreases layer_count - k,
        {
            levels.push(Vec::new());
            k = k + 1;
        }
        SkipList { layers: layer_count, len: 0, levels }
    }

    /// How many elements have been added.
    pub fn len(&self) -> (r: usize)
        requires
            self.wf(),
        ensures
            r == self.elems().len(),
    {
        self.len
    }

    /// Insert `elem`, then promote it through the upper levels by
    /// independent fair coin flips, stopping at the first failure.  The
    /// element sequence gains `elem` at its sorted position whatever the
    /// coins decide.
    pub fn add(&mut self, elem: u64)
        requires
            old(self).wf(),
            old(self).elems().len() < usize::MAX,
        ensures
            final(self).wf(),
            final(self).elems() == old(self).elems().insert(
                spec_lower_bound(old(self).elems(), elem),
                elem,
            ),
    {
        let mut bottom = self.levels.remove(0);
        insert_sorted(&mut bottom, elem);
        self.levels.insert(0, bottom);
        self.len = self.len + 1;
        proof {
            assert(self.levels@ =~= old(self).levels@.update(0, bottom));
            assert(self.levels@[0] == bottom);
            assert(bottom@.len() == old(self).elems().len() + 1);
        }
        let ghost after_bottom = self.levels@;
        proof {
            assert(self.levels@[0]@.contains(elem));
        }
        let mut k: usize = 1;
        while k < self.levels.len()
            invariant
                1 <= k <= self.levels@.len(),
                self.levels@.len() == after_bottom.len(),
                self.levels@[0] == after_bottom[0],
                self.levels@[0]@.contains(elem),
                self.len == self.levels@[0]@.len(),
                self.layers == self.levels@.len(),
                forall|i: int| 0 <= i < self.levels@.len() ==> sorted(#[trigger] self.levels@[i]@),
                forall|i: int, x: u64|
                    1 <= i < self.levels@.len() && (#[trigger] self.levels@[i]@.contains(x))
                        ==> self.levels@[i - 1]@.contains(x),
                forall|i: int| 1 <= i < k ==> (#[trigger] self.levels@[i]@).contains(elem),
            decreases self.levels@.len() - k,
        {
            if !coin_flip() {
                break ;
            }
            let ghost pre = self.levels@;
            let mut level = self.levels.remove(k);
            insert_sorted(&mut level, elem);
            self.levels.insert(k, level);
            proof {
                assert(self.levels@ =~= pre.update(k as int, level));
                assert(self.levels@[k as int] == level);
                assert(level@.contains(elem));
                assert(self.levels@[k as int - 1]@.contains(elem));
                assert forall|i: int, x: u64|
                    1 <= i < self.levels@.len() && (#[trigger] self.levels@[i]@.contains(x))
                        implies self.levels@[i - 1]@.contains(x) by {
                    if i == k as int {
                        assert(level@.contains(x) ==> x == elem || pre[i]@.contains(x));
                        if x != elem {
                            assert(pre[i]@.contains(x));
                            assert(pre[i - 1]@.contains(x));
                            assert(self.levels@[i - 1] == pre[i - 1]);
                        }
                    } else {
                        assert(self.levels@[i] == pre[i]);
                        assert(pre[i]@.contains(x));
                        if i - 1 == k as int {
                            assert(pre[i - 1]@.contains(x) ==> level@.contains(x));
                        } else {
                            assert(self.levels@[i - 1] == pre[i - 1]);
                        }
                    }
                }
            }
            k = k + 1;
        }
    }

    /// Whether `value` was ever added.
    pub fn contains(&self, value: &u64) -> (r: bool)
        requires
            self.wf(),
        ensures
            r == self.elems().contains(*value),
    {
        let bottom = &self.levels[0];
        let mut i: usize = 0;
        while i < bottom.len()
            invariant
                i <= bottom@.len(),
                bottom == self.levels@[0],
                forall|k: int| 0 <= k < i ==> bottom@[k] != *value,
            decreases bottom@.len() - i,
        {
            if bottom[i] == *value {
                return true;
            }
            i = i + 1;
        }
        false
    }

    /// The element at `index` in sorted order, if in range.
    pub fn get(&self, index: usize) -> (r: Option<u64>)
        requires
            self.wf(),
        ensures
            index < self.elems().len() ==> r == Some(self.elems()[index as int]),
            index >= self.elems().len() ==> r is None,
    {
        let bottom = &self.levels[0];
        if index < bottom.len() {
            Some(bottom[index])
        } else {
            None
        }
    }

    /// A cursor over the elements in nondecreasing order.
    pub fn iter(&self) -> (r: Iter<'_>)
        requires
            self.wf(),
        ensures
            r.remaining() == self.elems(),
            r.valid(),
    {
        Iter { list: self, pos: 0 }
    }
}

impl<'a> Iter<'a> {
    /// The elements not yet yielded, in order.
    pub closed spec fn remaining(self) -> Seq<u64> {
        self.list.elems().skip(self.pos as int)
    }

    pub closed spec fn valid(self) -> bool {
        self.list.wf() && self.pos <= self.list.elems().len()
    }

    /// The next element in nondecreasing order, if any.
    pub fn next(&mut self) -> (r: Option<u64>)
        requires
            old(self).valid(),
        ensures
            final(self).valid(),
            old(self).remaining().len() == 0 ==> r is None && final(self).remaining() == old(
                self,
            ).remaining(),
            old(self).remaining().len() > 0 ==> r == Some(old(self).remaining()[0])
                && final(self).remaining() == old(self).remaining().drop_first(),
    {
        let bottom = &self.list.levels[0];
        if self.pos < bottom.len() {
            let x = bottom[self.pos];
            self.pos = self.pos + 1;
            proof {
                assert(self.list.elems().skip(self.pos as int) =~= old(
                    self,
                ).remaining().drop_first());
            }
            Some(x)
        } else {
            None
        }
    }
}

} // verus!
