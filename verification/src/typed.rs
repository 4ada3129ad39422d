use vstd::prelude::*;
use std::marker::PhantomData;

verus! {

/// A strongly typed index into a `TypedVec` with the same tag `P`.
#[derive(Debug)]
pub struct TypedIndex<P>(pub u32, pub PhantomData<P>);

impl<P> TypedIndex<P> {
    /// Builds an index from a `usize`; the value must fit in 32 bits.
    pub fn new(i: usize) -> (r: Self)
        requires
            i <= u32::MAX,
        ensures
            r.0 == i,
    {
        Self::const_new(i as u32)
    }

    /// Builds an index from its 32-bit value.
    pub fn const_new(i: u32) -> (r: Self)
        ensures
            r.0 == i,
    {
        TypedIndex(i, PhantomData)
    }

    /// The index `i` places further on; the result must fit in 32 bits.
    pub fn add(self, i: usize) -> (r: Self)
        requires
            self.0 + i <= u32::MAX,
        ensures
            r.0 == self.0 + i,
    {
        Self::new(self.0 as usize + i)
    }

    /// Moves the index `i` places further on; the result must fit in 32 bits.
    pub fn add_assign(&mut self, i: usize)
        requires
            old(self).0 + i <= u32::MAX,
        ensures
            final(self).0 == old(self).0 + i,
    {
        let step = i as u32;
        self.0 = self.0 + step;
    }
}

impl<P> Clone for TypedIndex<P> {
    fn clone(&self) -> (r: Self)
        ensures
            r == *self,
    {
        TypedIndex(self.0, PhantomData)
    }
}

impl<P> Copy for TypedIndex<P> {}

/// A vector that can only be indexed by a `TypedIndex` with the same tag `P`.
#[derive(Debug)]
pub struct TypedVec<T, P>(Vec<T>, PhantomData<P>);

impl<T, P> View for TypedVec<T, P> {
    type V = Seq<T>;

    closed spec fn view(&self) -> Seq<T> {
        self.0@
    }
}

impl<T, P> TypedVec<T, P> {
    /// An empty vector with room for `s` elements.
    pub fn with_capacity(s: usize) -> (r: Self)
        ensures
            r@ == Seq::<T>::empty(),
    {
        Self::of(Vec::with_capacity(s))
    }

    /// Wraps an existing vector, keeping its elements.
    pub fn of(v: Vec<T>) -> (r: Self)
        ensures
            r@ == v@,
    {
        TypedVec(v, PhantomData)
    }

    /// Appends `t` and returns the index at which it now stands.
    pub fn push(&mut self, t: T) -> (i: TypedIndex<P>)
        requires
            old(self)@.len() <= u32::MAX,
        ensures
            i.0 == old(self)@.len(),
            final(self)@ == old(self)@.push(t),
    {
        let i = self.next_index();
        self.0.push(t);
        i
    }

    /// The index that the next pushed element will get.
    pub fn next_index(&self) -> (i: TypedIndex<P>)
        requires
            self@.len() <= u32::MAX,
        ensures
            i.0 == self@.len(),
    {
        TypedIndex::new(self.0.len())
    }

    /// The number of elements.
    pub fn len(&self) -> (n: usize)
        ensures
            n == self@.len(),
    {
        self.0.len()
    }

    /// The element at `index`.
    pub fn get(&self, index: TypedIndex<P>) -> (r: &T)
        requires
            index.0 < self@.len(),
        ensures
            *r == self@[index.0 as int],
    {
        &self.0[index.0 as usize]
    }

    /// Replaces the element at `index` by `t`.
    pub fn set(&mut self, index: TypedIndex<P>, t: T)
        requires
            index.0 < old(self)@.len(),
        ensures
            final(self)@ == old(self)@.update(index.0 as int, t),
    {
        self.0.set(index.0 as usize, t);
    }
}

/// The tag of the indices and vectors that a `Hull` uses.
#[derive(Copy, Clone, Debug, PartialEq, Eq, PartialOrd)]
pub struct HullTag {}

/// An index into the node storage of a `Hull`.
pub type HullIndex = TypedIndex<HullTag>;

/// The node storage of a `Hull`.
pub type HullVec<T> = TypedVec<T, HullTag>;

} // verus!
