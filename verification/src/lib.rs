use vstd::prelude::*;

pub mod arcs;
pub mod hull;
pub mod laws;
pub mod ring_edit;
pub mod segment;
pub mod typed;
pub mod typed_cmp;

verus! {
} // verus!
