use vstd::prelude::*;

verus! {

/// An append-only list with a fixed capacity `N`, filled in order.
#[derive(Clone, Debug)]
pub struct ConstVec<T: Copy, const N: usize> {
    buffer: Vec<T>,
}

impl<T: Copy, const N: usize> View for ConstVec<T, N> {
    type V = Seq<T>;

    closed spec fn view(&self) -> Seq<T> {
        self.buffer@
    }
}

impl<T: Copy, const N: usize> ConstVec<T, N> {
    pub fn new() -> (r: Self)
        ensures
            r@ == Seq::<T>::empty(),
    {
        ConstVec { buffer: Vec::new() }
    }

    pub fn len(&self) -> (r: usize)
        ensures
            r == self@.len(),
    {
        self.buffer.len()
    }

    /// Appends an item; the list must have room for it.
    pub fn push(&mut self, item: T)
        requires
            old(self)@.len() < N,
        ensures
            final(self)@ == old(self)@.push(item),
    {
        self.buffer.push(item);
    }

    /// Appends all items of another list; the list must have room for them.
    pub fn extend<const N2: usize>(&mut self, vec: ConstVec<T, N2>)
        requires
            old(self)@.len() + vec@.len() <= N,
        ensures
            final(self)@ == old(self)@ + vec@,
    {
        let mut other = vec.buffer;
        self.buffer.append(&mut other);
    }

    /// A list holding the items of the slice, which must fit.
    pub fn from_slice(slice: &[T]) -> (r: Self)
        requires
            slice@.len() <= N,
        ensures
            r@ == slice@,
    {
        let mut buffer: Vec<T> = Vec::new();
        let mut i: usize = 0;
        while i < slice.len()
            invariant
                0 <= i <= slice@.len(),
                buffer@ == slice@.subrange(0, i as int),
            decreases slice@.len() - i,
        {
            buffer.push(slice[i]);
            i += 1;
            assert(buffer@ =~= slice@.subrange(0, i as int));
        }
        assert(slice@.subrange(0, i as int) =~= slice@);
        ConstVec { buffer }
    }

    pub fn into_slice(&self) -> (r: &[T])
        ensures
            r@ == self@,
    {
        self.buffer.as_slice()
    }

    /// The item at a position within the list.
    pub fn get(&self, index: usize) -> (r: T)
        requires
            index < self@.len(),
        ensures
            r == self@[index as int],
    {
        self.buffer[index]
    }

    /// Replaces the item at a position within the list.
    pub fn set(&mut self, index: usize, item: T)
        requires
            index < old(self)@.len(),
        ensures
            final(self)@ == old(self)@.update(index as int, item),
    {
        self.buffer.set(index, item);
    }

    pub fn iter(&self) -> (r: ConstVecIter<'_, T>)
        ensures
            r.next == 0,
            r.slice@ == self@,
    {
        ConstVecIter { next: 0, slice: self.into_slice() }
    }
}

/// Walks the items of a `ConstVec` in order.
pub struct ConstVecIter<'a, T> {
    pub next: usize,
    pub slice: &'a [T],
}

impl<'a, T> ConstVecIter<'a, T> {
    /// The next item, if any is left.
    pub fn next(&mut self) -> (r: Option<&'a T>)
        ensures
            final(self).slice == old(self).slice,
            old(self).next < old(self).slice@.len() ==> r is Some && *r->0 == old(self).slice@[old(self).next as int]
                && final(self).next == old(self).next + 1,
            old(self).next >= old(self).slice@.len() ==> r is None && final(self).next == old(self).next,
    {
        if self.next < self.slice.len() {
            let item = &self.slice[self.next];
            self.next = self.next + 1;
            Some(item)
        } else {
            None
        }
    }
}

} // verus!
