use vstd::prelude::*;
use std::cmp::Ordering;
use vstd::std_specs::cmp::{PartialEqSpec, PartialOrdSpec};
use crate::typed::TypedIndex;

verus! {

impl<P> PartialEq for TypedIndex<P> {
    fn eq(&self, other: &Self) -> (r: bool) {
        self.0 == other.0
    }
}

impl<P> vstd::std_specs::cmp::PartialEqSpecImpl for TypedIndex<P> {
    open spec fn obeys_eq_spec() -> bool {
        true
    }

    open spec fn eq_spec(&self, other: &Self) -> bool {
        self.0 == other.0
    }
}

impl<P> Eq for TypedIndex<P> {
}

impl<P> PartialEq<usize> for TypedIndex<P> {
    fn eq(&self, i: &usize) -> (r: bool) {
        (self.0 as usize) == *i
    }
}

impl<P> vstd::std_specs::cmp::PartialEqSpecImpl<usize> for TypedIndex<P> {
    open spec fn obeys_eq_spec() -> bool {
        true
    }

    open spec fn eq_spec(&self, other: &usize) -> bool {
        self.0 == *other
    }
}

impl<P> PartialOrd for TypedIndex<P> {
    fn partial_cmp(&self, other: &Self) -> (r: Option<Ordering>) {
        if self.0 < other.0 {
            Some(Ordering::Less)
        } else if self.0 > other.0 {
            Some(Ordering::Greater)
        } else {
            Some(Ordering::Equal)
        }
    }
}

impl<P> vstd::std_specs::cmp::PartialOrdSpecImpl for TypedIndex<P> {
    open spec fn obeys_partial_cmp_spec() -> bool {
        true
    }

    open spec fn partial_cmp_spec(&self, other: &Self) -> Option<Ordering> {
        if self.0 < other.0 {
            Some(Ordering::Less)
        } else if self.0 > other.0 {
            Some(Ordering::Greater)
        } else {
            Some(Ordering::Equal)
        }
    }
}

/// Law: two typed indices are equal exactly when their values are equal, and `==` on them
/// follows that.
pub proof fn lemma_index_eq<P>(x: TypedIndex<P>, y: TypedIndex<P>)
    ensures
        <TypedIndex<P> as PartialEqSpec>::obeys_eq_spec(),
        x.eq_spec(&y) <==> x.0 == y.0,
{
}

/// Law: a typed index equals a plain index exactly when its value is that index, and `==`
/// between them follows that.
pub proof fn lemma_index_eq_usize<P>(x: TypedIndex<P>, i: usize)
    ensures
        <TypedIndex<P> as PartialEqSpec<usize>>::obeys_eq_spec(),
        x.eq_spec(&i) <==> x.0 == i,
{
}

/// Law: typed indices are ordered by their values: the comparison is `Equal`, `Less` or
/// `Greater` exactly when the first value is equal to, below or above the second, and `<`,
/// `<=`, `>`, `>=` follow it.
pub proof fn lemma_index_order<P>(x: TypedIndex<P>, y: TypedIndex<P>)
    ensures
        TypedIndex::<P>::obeys_partial_cmp_spec(),
        x.partial_cmp_spec(&y) == Some(Ordering::Equal) <==> x.0 == y.0,
        x.partial_cmp_spec(&y) == Some(Ordering::Less) <==> x.0 < y.0,
        x.partial_cmp_spec(&y) == Some(Ordering::Greater) <==> x.0 > y.0,
{
}

} // verus!
