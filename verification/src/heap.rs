use vstd::prelude::*;
use crate::pqueue::{MinHeap, QueueOrder};

verus! {

/// An entry of the A* open set.
#[derive(Clone, Copy, PartialEq, Eq, Debug)]
pub struct SearchState {
    pub cost: u32,
    pub estimated_total_cost: u32,
    pub node_id: u32,
    pub prev_external_id: Option<i64>,
}

/// `a` leaves the open set no later than `b`: a smaller estimate first, and on
/// equal estimates the larger cost first.
pub open spec fn outranks(a: SearchState, b: SearchState) -> bool {
    a.estimated_total_cost < b.estimated_total_cost || (a.estimated_total_cost
        == b.estimated_total_cost && a.cost >= b.cost)
}

impl QueueOrder for SearchState {
    open spec fn first(a: Self, b: Self) -> bool {
        outranks(a, b)
    }

    proof fn lemma_total(a: Self, b: Self) {
    }

    proof fn lemma_trans(a: Self, b: Self, c: Self) {
    }

    fn first_exec(a: &Self, b: &Self) -> (r: bool) {
        a.estimated_total_cost < b.estimated_total_cost || (a.estimated_total_cost
            == b.estimated_total_cost && a.cost >= b.cost)
    }
}

/// The A* open set.
pub type StateHeap = MinHeap<SearchState>;

} // verus!
