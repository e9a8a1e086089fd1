//! Per-node bookkeeping for the A* search.

use core::cmp::Ordering;
use vstd::prelude::*;

verus! {

/// A* algorithm node information: the cost accumulated from the start node
/// and the estimated total cost through this node (accumulated cost plus
/// the heuristic estimate to the goal).
///
/// Node information values are compared by estimated total cost alone,
/// which is the priority used by the open list.
#[derive(Clone, Copy, Debug)]
pub struct NodeInfo {
    pub cost_from_start: u64,
    pub total_cost: u64,
}

impl PartialEq for NodeInfo {
    fn eq(&self, other: &Self) -> (r: bool) {
        self.total_cost == other.total_cost
    }
}

impl vstd::std_specs::cmp::PartialEqSpecImpl for NodeInfo {
    open spec fn obeys_eq_spec() -> bool {
        true
    }

    open spec fn eq_spec(&self, other: &NodeInfo) -> bool {
        self.total_cost == other.total_cost
    }
}

impl PartialOrd for NodeInfo {
    fn partial_cmp(&self, other: &Self) -> (r: Option<Ordering>) {
        if self.total_cost < other.total_cost {
            Some(Ordering::Less)
        } else if self.total_cost > other.total_cost {
            Some(Ordering::Greater)
        } else {
            Some(Ordering::Equal)
        }
    }
}

impl vstd::std_specs::cmp::PartialOrdSpecImpl for NodeInfo {
    open spec fn obeys_partial_cmp_spec() -> bool {
        true
    }

    open spec fn partial_cmp_spec(&self, other: &NodeInfo) -> Option<Ordering> {
        if self.total_cost < other.total_cost {
            Some(Ordering::Less)
        } else if self.total_cost > other.total_cost {
            Some(Ordering::Greater)
        } else {
            Some(Ordering::Equal)
        }
    }
}

impl Default for NodeInfo {
    /// The node information used to seed the start node: both costs zero
    fn default() -> (r: NodeInfo)
        ensures
            r == (NodeInfo { cost_from_start: 0u64, total_cost: 0u64 }),
    {
        NodeInfo { cost_from_start: 0, total_cost: 0 }
    }
}

} // verus!
