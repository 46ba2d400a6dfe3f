//! A vector of optional slots that presents an unbounded index range.
//!
//! Reads outside the allocated range answer `None`; a write just past the
//! allocated range doubles the backing storage first.

use vstd::prelude::*;
use vstd::pervasive::VecAdditionalExecFns;

verus! {

pub struct ExpandingVector<T> {
    values: Vec<Option<T>>,
}

impl<T: Copy> ExpandingVector<T> {
    /// The value seen at any index: `None` everywhere outside the backing vector.
    pub closed spec fn slot(self, i: int) -> Option<T> {
        if 0 <= i < self.values@.len() {
            self.values@[i]
        } else {
            None
        }
    }

    /// The size of the backing storage; a write is accepted below twice this bound.
    pub closed spec fn capacity(self) -> nat {
        self.values@.len()
    }

    pub fn new() -> (v: ExpandingVector<T>)
        ensures
            forall|i: int| v.slot(i) is None,
            v.capacity() == 1,
    {
        let mut values: Vec<Option<T>> = Vec::new();
        values.push(None);
        ExpandingVector { values }
    }

    pub fn get(&self, index: usize) -> (r: Option<T>)
        ensures
            r == self.slot(index as int),
    {
        if index >= self.values.len() {
            None
        } else {
            self.values[index]
        }
    }

    pub fn set(&mut self, index: usize, value: Option<T>)
        requires
            index < 2 * old(self).capacity(),
            2 * old(self).capacity() <= usize::MAX,
        ensures
            final(self).slot(index as int) == value,
            forall|i: int| i != index ==> final(self).slot(i) == old(self).slot(i),
            final(self).capacity() == if index < old(self).capacity() {
                old(self).capacity()
            } else {
                2 * old(self).capacity()
            },
    {
        if index >= self.values.len() {
            let target = self.values.len() * 2;
            while self.values.len() < target
                invariant
                    old(self).values@.len() <= self.values@.len() <= target,
                    target == 2 * old(self).values@.len(),
                    forall|i: int|
                        0 <= i < old(self).values@.len() ==> self.values@[i] == old(
                            self,
                        ).values@[i],
                    forall|i: int|
                        old(self).values@.len() <= i < self.values@.len() ==> self.values@[i]
                            is None,
                decreases target - self.values.len(),
            {
                self.values.push(None);
            }
        }
        self.values.set(index, value);
    }
}

} // verus!
