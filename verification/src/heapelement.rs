//! The element type of the priority frontiers.

use vstd::prelude::*;

verus! {

/// A frontier element of the priority-queue based searches: a node paired
/// with the integer priority key that orders extraction. The frontier hands
/// out the element with the smallest key first; ties are broken by taking
/// the element that entered the frontier earliest.
#[derive(Clone, Copy, Debug)]
pub struct HeapElement<T> {
    pub node: T,
    pub cost: i64,
}

impl<T> HeapElement<T> {
    pub fn new(node: T, cost: i64) -> (r: Self)
        ensures
            r.node == node,
            r.cost == cost,
    {
        HeapElement { node, cost }
    }

    pub fn node(&self) -> (r: &T)
        ensures
            *r == self.node,
    {
        &self.node
    }
}

} // verus!
