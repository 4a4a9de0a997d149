use vstd::prelude::*;
use crate::pqueue::{MinHeap, QueueOrder};

verus! {

/// An entry of the open set of a shortest-distance search: a node and the
/// cost it was reached at.
#[derive(Clone, Copy, PartialEq, Eq, Debug)]
pub struct CostEntry {
    pub cost: i64,
    pub node: i64,
}

/// `a` leaves the open set no later than `b`: the cheaper first.
pub open spec fn cheaper(a: CostEntry, b: CostEntry) -> bool {
    a.cost <= b.cost
}

impl QueueOrder for CostEntry {
    open spec fn first(a: Self, b: Self) -> bool {
        cheaper(a, b)
    }

    proof fn lemma_total(a: Self, b: Self) {
    }

    proof fn lemma_trans(a: Self, b: Self, c: Self) {
    }

    fn first_exec(a: &Self, b: &Self) -> (r: bool) {
        a.cost <= b.cost
    }
}

/// The open set of a shortest-distance search.
pub type CostHeap = MinHeap<CostEntry>;

} // verus!
