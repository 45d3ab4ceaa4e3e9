use vstd::prelude::*;

use crate::measurable::Measurable;
use crate::widths::zwe_of;

verus! {

/// A leaf of the tree: a bounded, ordered run of elements. The size bounds
/// themselves are the caller's business; the operations here just keep the
/// contents straight.
#[derive(Clone, Debug)]
pub struct LeafSlice<M: Measurable> {
    elements: Vec<M>,
}

impl<M: Measurable> View for LeafSlice<M> {
    type V = Seq<M>;

    closed spec fn view(&self) -> Seq<M> {
        self.elements@
    }
}

impl<M: Measurable> LeafSlice<M> {
    /// An empty leaf.
    pub fn new() -> (r: Self)
        ensures
            r@ == Seq::<M>::empty(),
    {
        LeafSlice { elements: Vec::new() }
    }

    /// Copies the elements of `s` into a fresh leaf.
    pub fn from_slice(s: &[M]) -> (r: Self)
        ensures
            r@ == s@,
    {
        let mut elements: Vec<M> = Vec::new();
        let n = s.len();
        let mut i: usize = 0;
        while i < n
            invariant
                0 <= i <= n,
                n == s@.len(),
                elements@ == s@.take(i as int),
            decreases n - i,
        {
            elements.push(s[i]);
            proof {
                assert(s@.take(i + 1) =~= s@.take(i as int).push(s@[i as int]));
            }
            i = i + 1;
        }
        proof {
            assert(s@.take(n as int) =~= s@);
        }
        LeafSlice { elements }
    }

    pub fn len(&self) -> (r: usize)
        ensures
            r == self@.len(),
    {
        self.elements.len()
    }

    pub fn is_empty(&self) -> (r: bool)
        ensures
            r == (self@.len() == 0),
    {
        self.elements.len() == 0
    }

    pub fn get(&self, i: usize) -> (r: &M)
        requires
            i < self@.len(),
        ensures
            *r == self@[i as int],
    {
        &self.elements[i]
    }

    pub fn as_slice(&self) -> (r: &[M])
        ensures
            r@ == self@,
    {
        self.elements.as_slice()
    }

    pub fn push(&mut self, m: M)
        ensures
            final(self)@ == old(self)@.push(m),
    {
        self.elements.push(m);
    }

    /// Splits the leaf at `index`; the left half stays, the right half is
    /// returned.
    pub fn split_off(&mut self, index: usize) -> (r: Self)
        requires
            index <= old(self)@.len(),
        ensures
            final(self)@ == old(self)@.take(index as int),
            r@ == old(self)@.skip(index as int),
    {
        let tail = self.elements.split_off(index);
        proof {
            assert(old(self)@.subrange(0, index as int) =~= old(self)@.take(index as int));
            assert(old(self)@.subrange(index as int, old(self)@.len() as int) =~= old(
                self,
            )@.skip(index as int));
        }
        LeafSlice { elements: tail }
    }

    /// Removes the elements in `start..end`.
    pub fn remove_range(&mut self, start: usize, end: usize)
        requires
            start <= end <= old(self)@.len(),
        ensures
            final(self)@ == old(self)@.take(start as int) + old(self)@.skip(end as int),
    {
        let mut tail = self.elements.split_off(end);
        self.elements.truncate(start);
        self.elements.append(&mut tail);
        proof {
            assert(self.elements@ =~= old(self)@.take(start as int) + old(self)@.skip(
                end as int,
            ));
        }
    }

    /// Copies the elements of `s` into the leaf at position `index`.
    pub fn insert_slice(&mut self, index: usize, s: &[M])
        requires
            index <= old(self)@.len(),
        ensures
            final(self)@ == old(self)@.take(index as int) + s@ + old(self)@.skip(index as int),
    {
        let mut tail = self.elements.split_off(index);
        let n = s.len();
        let mut i: usize = 0;
        while i < n
            invariant
                0 <= i <= n,
                n == s@.len(),
                self.elements@ == old(self)@.take(index as int) + s@.take(i as int),
            decreases n - i,
        {
            self.elements.push(s[i]);
            proof {
                assert(old(self)@.take(index as int) + s@.take(i + 1) =~= (old(self)@.take(
                    index as int,
                ) + s@.take(i as int)).push(s@[i as int]));
            }
            i = i + 1;
        }
        self.elements.append(&mut tail);
        proof {
            assert(s@.take(n as int) =~= s@);
            assert(old(self)@.subrange(index as int, old(self)@.len() as int) =~= old(
                self,
            )@.skip(index as int));
            assert(self.elements@ =~= old(self)@.take(index as int) + s@ + old(self)@.skip(
                index as int,
            ));
        }
    }

    /// Moves every element of `other` to the end of this leaf.
    pub fn append(&mut self, other: &mut LeafSlice<M>)
        ensures
            final(self)@ == old(self)@ + old(other)@,
            final(other)@.len() == 0,
    {
        self.elements.append(&mut other.elements);
    }

    /// True when the last element has width zero, so that a width search
    /// at the leaf's end boundary must not run past it.
    pub fn zero_width_end(&self) -> (r: bool)
        ensures
            r == zwe_of(self@),
    {
        let n = self.elements.len();
        if n == 0 {
            false
        } else {
            self.elements[n - 1].width() == 0
        }
    }
}

} // verus!
