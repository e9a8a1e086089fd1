//! The capability interface a search domain supplies to the A* engine.

use crate::astar::node::Node;
use vstd::prelude::*;

verus! {

/// An A* algorithm map maker.
///
/// A cartographer describes the search space: which nodes border which,
/// what a step costs, how far a node is estimated to be from the goal, and
/// which nodes are goals. Each executable operation is specified by its
/// specification-level counterpart, so that the engine's contracts can
/// speak about the domain.
///
/// Costs are non-negative by construction. For the optimality of A* the
/// estimate should never overestimate the true remaining cost; the engine
/// does not enforce that.
pub trait Cartographer: Sized {
    /// The goal test, at the specification level
    spec fn spec_is_goal(&self, node: Node) -> bool;

    /// The bordering nodes, at the specification level
    spec fn spec_adjacent(&self, node: Node) -> Seq<Node>;

    /// The cost of one step, at the specification level
    spec fn spec_cost(&self, from_node: Node, to_node: Node) -> u64;

    /// The estimated cost to the goal, at the specification level
    spec fn spec_estimate(&self, node: Node) -> u64;

    /// Whether the node is a goal node
    fn is_goal_node(&self, node: &Node) -> (r: bool)
        ensures
            r == self.spec_is_goal(*node),
    ;

    /// The nodes directly reachable from the node in one step
    fn get_adjacent_nodes(&self, node: &Node) -> (r: Vec<Node>)
        ensures
            r@ == self.spec_adjacent(*node),
    ;

    /// The cost of stepping from a node to an adjacent node
    fn get_cost_to_adjacent_node(&self, from_node: &Node, to_node: &Node) -> (r: u64)
        ensures
            r == self.spec_cost(*from_node, *to_node),
    ;

    /// An estimate of the remaining cost from the node to the goal
    fn estimate_cost_to_goal(&self, node: &Node) -> (r: u64)
        ensures
            r == self.spec_estimate(*node),
    ;
}

} // verus!
