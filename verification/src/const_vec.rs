//! A vector with a capacity fixed in its type.

use std::ops::Range;
use vstd::prelude::*;

verus! {

/// A growable sequence that never holds more than `N` elements.
///
/// Its view is the sequence of the elements pushed so far, oldest first.
#[derive(Debug)]
pub struct ConstVec<T, const N: usize> {
    buffer: Vec<T>,
}

impl<T, const N: usize> View for ConstVec<T, N> {
    type V = Seq<T>;

    closed spec fn view(&self) -> Seq<T> {
        self.buffer@
    }
}

impl<T, const N: usize> ConstVec<T, N> {
    /// The vector holds no more than its capacity.
    pub open spec fn wf(&self) -> bool {
        self@.len() <= N
    }

    /// An empty vector.
    pub fn new() -> (v: Self)
        ensures
            v.wf(),
            v@ == Seq::<T>::empty(),
    {
        Self { buffer: Vec::new() }
    }

    pub fn is_empty(&self) -> (b: bool)
        ensures
            b == (self@.len() == 0),
    {
        self.buffer.len() == 0
    }

    pub fn len(&self) -> (n: usize)
        ensures
            n == self@.len(),
    {
        self.buffer.len()
    }

    /// Appends `value`. The vector must not be full.
    pub fn push(&mut self, value: T)
        requires
            old(self).wf(),
            old(self)@.len() < N,
        ensures
            final(self).wf(),
            final(self)@ == old(self)@.push(value),
    {
        self.buffer.push(value);
    }

    pub fn as_slice(&self) -> (s: &[T])
        ensures
            s@ == self@,
    {
        self.buffer.as_slice()
    }

    /// The elements as a mutable slice: writes through it change the
    /// elements in place and leave their number as it is.
    pub fn as_mut_slice(&mut self) -> (s: &mut [T])
        ensures
            s@ == old(self)@,
            final(self)@ == final(s)@,
    {
        self.buffer.as_mut_slice()
    }

    pub fn index(&self, index: usize) -> (r: &T)
        requires
            index < self@.len(),
        ensures
            *r == self@[index as int],
    {
        &self.buffer[index]
    }

    pub fn index_mut(&mut self, index: usize) -> (r: &mut T)
        requires
            index < old(self)@.len(),
        ensures
            *r == old(self)@[index as int],
            final(self)@ == old(self)@.update(index as int, *final(r)),
    {
        &mut self.buffer[index]
    }
}

impl<T: Clone, const N: usize> Clone for ConstVec<T, N> {
    fn clone(&self) -> (copy: Self)
        ensures
            copy@.len() == self@.len(),
            forall|i: int| 0 <= i < self@.len() ==> cloned::<T>(#[trigger] self@[i], copy@[i]),
    {
        Self { buffer: self.buffer.clone() }
    }
}

impl<T: Copy, const N: usize> ConstVec<T, N> {
    /// A vector holding a copy of `slice[range]`, which must lie inside
    /// `slice`, start before its end, and fit in the capacity.
    pub fn from_slice_range(slice: &[T], range: Range<usize>) -> (v: Self)
        requires
            range.start < slice@.len(),
            range.start <= range.end <= slice@.len(),
            range.end - range.start <= N,
        ensures
            v.wf(),
            v@ == slice@.subrange(range.start as int, range.end as int),
    {
        let mut this = Self::new();
        let mut i: usize = range.start;
        while i < range.end
            invariant
                range.start <= i <= range.end <= slice@.len(),
                range.end - range.start <= N,
                this.wf(),
                this@ == slice@.subrange(range.start as int, i as int),
            decreases range.end - i,
        {
            this.push(slice[i]);
            i += 1;
        }
        this
    }
}

} // verus!
