//! Reference cartographers over the two-dimensional integer grid.

use crate::astar::cartographer::Cartographer;
use crate::astar::node::Node;
use vstd::prelude::*;

verus! {

/// The Chebyshev distance between two grid nodes: the number of unit
/// king-style steps between them; it always fits in a `u64`
pub open spec fn spec_chebyshev(a: Node, b: Node) -> int {
    let dx: int = if a.x >= b.x {
        a.x - b.x
    } else {
        b.x - a.x
    };
    let dy: int = if a.y >= b.y {
        a.y - b.y
    } else {
        b.y - a.y
    };
    if dx >= dy {
        dx
    } else {
        dy
    }
}

/// Computes the Chebyshev distance between two grid nodes
pub fn chebyshev(a: &Node, b: &Node) -> (r: u64)
    ensures
        r == spec_chebyshev(*a, *b),
{
    let dx: u64 = if a.x >= b.x {
        (a.x as i128 - b.x as i128) as u64
    } else {
        (b.x as i128 - a.x as i128) as u64
    };
    let dy: u64 = if a.y >= b.y {
        (a.y as i128 - b.y as i128) as u64
    } else {
        (b.y as i128 - a.y as i128) as u64
    };
    if dx >= dy {
        dx
    } else {
        dy
    }
}

/// Whether a list of nodes holds a given node
pub fn contains_node(list: &Vec<Node>, node: &Node) -> (r: bool)
    ensures
        r == list@.contains(*node),
{
    let mut i: usize = 0;
    let n = list.len();
    while i < n
        invariant
            0 <= i <= n,
            n == list@.len(),
            forall|j: int| 0 <= j < i ==> list@[j] != *node,
        decreases n - i,
    {
        if list[i] == *node {
            return true;
        }
        i = i + 1;
    }
    proof {
        if list@.contains(*node) {
            let j = choose|j: int| 0 <= j < list@.len() && list@[j] == *node;
            assert(false);
        }
    }
    false
}

/// The candidate neighbor one step in direction (dx, dy): empty when the
/// step leaves the coordinate range or lands on a blocked node
pub open spec fn spec_cand(n: Node, dx: int, dy: int, step: int, blocked: Seq<Node>) -> Seq<
    Node,
> {
    let nx = n.x + dx * step;
    let ny = n.y + dy * step;
    if i64::MIN <= nx <= i64::MAX && i64::MIN <= ny <= i64::MAX && !blocked.contains(
        Node { x: nx as i64, y: ny as i64 },
    ) {
        seq![Node { x: nx as i64, y: ny as i64 }]
    } else {
        Seq::empty()
    }
}

/// The available neighbors `step` apart in the eight cardinal and
/// diagonal directions, in a fixed scan order
pub open spec fn spec_ring(n: Node, step: int, blocked: Seq<Node>) -> Seq<Node> {
    spec_cand(n, -1, -1, step, blocked) + spec_cand(n, -1, 0, step, blocked) + spec_cand(
        n,
        -1,
        1,
        step,
        blocked,
    ) + spec_cand(n, 0, -1, step, blocked) + spec_cand(n, 0, 1, step, blocked) + spec_cand(
        n,
        1,
        -1,
        step,
        blocked,
    ) + spec_cand(n, 1, 0, step, blocked) + spec_cand(n, 1, 1, step, blocked)
}

/// Appends the candidate neighbor in direction (dx, dy), if it exists
fn cand_push(list: &mut Vec<Node>, node: &Node, dx: i64, dy: i64, step: u64, blocked: &Vec<Node>)
    requires
        -1 <= dx <= 1,
        -1 <= dy <= 1,
    ensures
        final(list)@ == old(list)@ + spec_cand(*node, dx as int, dy as int, step as int, blocked@),
{
    proof {
        assert(-(step as int) <= (dx as int) * (step as int) <= step as int)
            by (nonlinear_arith)
            requires
                -1 <= dx as int <= 1,
                0 <= step as int,
        ;
        assert(-(step as int) <= (dy as int) * (step as int) <= step as int)
            by (nonlinear_arith)
            requires
                -1 <= dy as int <= 1,
                0 <= step as int,
        ;
    }
    let nx128: i128 = node.x as i128 + (dx as i128) * (step as i128);
    let ny128: i128 = node.y as i128 + (dy as i128) * (step as i128);
    let ghost cand_seq = spec_cand(*node, dx as int, dy as int, step as int, blocked@);
    if nx128 >= i64::MIN as i128 && nx128 <= i64::MAX as i128 && ny128 >= i64::MIN as i128
        && ny128 <= i64::MAX as i128 {
        let cand = Node { x: nx128 as i64, y: ny128 as i64 };
        if !contains_node(blocked, &cand) {
            list.push(cand);
            proof {
                assert(cand_seq =~= seq![cand]);
                assert(list@ =~= old(list)@ + cand_seq);
            }
            return ;
        }
    }
    proof {
        assert(cand_seq =~= Seq::<Node>::empty());
        assert(list@ =~= old(list)@ + cand_seq);
    }
}

/// Collects the available neighbors `step` apart in the eight cardinal
/// and diagonal directions
pub fn ring_neighbors(node: &Node, step: u64, blocked: &Vec<Node>) -> (r: Vec<Node>)
    ensures
        r@ == spec_ring(*node, step as int, blocked@),
{
    let mut r: Vec<Node> = Vec::new();
    cand_push(&mut r, node, -1, -1, step, blocked);
    cand_push(&mut r, node, -1, 0, step, blocked);
    cand_push(&mut r, node, -1, 1, step, blocked);
    cand_push(&mut r, node, 0, -1, step, blocked);
    cand_push(&mut r, node, 0, 1, step, blocked);
    cand_push(&mut r, node, 1, -1, step, blocked);
    cand_push(&mut r, node, 1, 0, step, blocked);
    cand_push(&mut r, node, 1, 1, step, blocked);
    proof {
        assert(r@ =~= spec_ring(*node, step as int, blocked@));
    }
    r
}

/// Grid cartographer: the nodes are spaced `step_size` apart in the eight
/// cardinal and diagonal directions, except for cells in the blocked
/// list; when the goal is within one step of a node, the goal is that
/// node's only neighbor (snap to goal). Step cost and goal estimate are
/// the Chebyshev distance, so the estimate never overestimates.
pub struct GridCartographer {
    pub goal_node: Node,
    pub blocked: Vec<Node>,
    pub step_size: u64,
}

impl Cartographer for GridCartographer {
    open spec fn spec_is_goal(&self, node: Node) -> bool {
        node == self.goal_node
    }

    open spec fn spec_adjacent(&self, node: Node) -> Seq<Node> {
        if spec_chebyshev(node, self.goal_node) <= self.step_size {
            seq![self.goal_node]
        } else {
            spec_ring(node, self.step_size as int, self.blocked@)
        }
    }

    open spec fn spec_cost(&self, from_node: Node, to_node: Node) -> u64 {
        spec_chebyshev(from_node, to_node) as u64
    }

    open spec fn spec_estimate(&self, node: Node) -> u64 {
        spec_chebyshev(node, self.goal_node) as u64
    }

    fn is_goal_node(&self, node: &Node) -> (r: bool) {
        *node == self.goal_node
    }

    fn get_adjacent_nodes(&self, node: &Node) -> (r: Vec<Node>) {
        let distance_to_goal = chebyshev(node, &self.goal_node);
        if distance_to_goal <= self.step_size {
            let mut adjacent_list: Vec<Node> = Vec::new();
            adjacent_list.push(self.goal_node);
            proof {
                assert(adjacent_list@ =~= self.spec_adjacent(*node));
            }
            adjacent_list
        } else {
            ring_neighbors(node, self.step_size, &self.blocked)
        }
    }

    fn get_cost_to_adjacent_node(&self, from_node: &Node, to_node: &Node) -> (r: u64) {
        chebyshev(from_node, to_node)
    }

    fn estimate_cost_to_goal(&self, node: &Node) -> (r: u64) {
        chebyshev(node, &self.goal_node)
    }
}

/// Gradient cartographer: like the grid cartographer, but the eight
/// neighbors are spaced farther apart as the node moves away from the
/// starting point: the step grows by `init_step_size` for each multiple
/// of `init_step_size` of Chebyshev distance from the start. An initial
/// step size of zero is treated as one.
pub struct GradientCartographer {
    pub goal_node: Node,
    pub start_node: Node,
    pub blocked: Vec<Node>,
    pub init_step_size: u64,
}

impl GradientCartographer {
    /// The step size used around a node: the distance from the start
    /// rounded down to a positive multiple of the initial step size
    pub open spec fn spec_step_at(&self, node: Node) -> int {
        let init: int = if self.init_step_size == 0 {
            1
        } else {
            self.init_step_size as int
        };
        let d = spec_chebyshev(node, self.start_node);
        if (d / init) * init >= init {
            (d / init) * init
        } else {
            init
        }
    }

    /// Computes the step size used around a node
    pub fn step_at(&self, node: &Node) -> (r: u64)
        ensures
            r == self.spec_step_at(*node),
    {
        let init: u64 = if self.init_step_size == 0 {
            1
        } else {
            self.init_step_size
        };
        let d = chebyshev(node, &self.start_node);
        proof {
            assert(0 <= (d as int / init as int) * (init as int) <= d as int)
                by (nonlinear_arith)
                requires
                    init as int >= 1,
                    d as int >= 0,
            ;
        }
        let quantized = (d / init) * init;
        if quantized >= init {
            quantized
        } else {
            init
        }
    }
}

impl Cartographer for GradientCartographer {
    open spec fn spec_is_goal(&self, node: Node) -> bool {
        node == self.goal_node
    }

    open spec fn spec_adjacent(&self, node: Node) -> Seq<Node> {
        let step = self.spec_step_at(node);
        if spec_chebyshev(node, self.goal_node) <= step {
            seq![self.goal_node]
        } else {
            spec_ring(node, step, self.blocked@)
        }
    }

    open spec fn spec_cost(&self, from_node: Node, to_node: Node) -> u64 {
        spec_chebyshev(from_node, to_node) as u64
    }

    open spec fn spec_estimate(&self, node: Node) -> u64 {
        spec_chebyshev(node, self.goal_node) as u64
    }

    fn is_goal_node(&self, node: &Node) -> (r: bool) {
        *node == self.goal_node
    }

    fn get_adjacent_nodes(&self, node: &Node) -> (r: Vec<Node>) {
        let step = self.step_at(node);
        let distance_to_goal = chebyshev(node, &self.goal_node);
        if distance_to_goal <= step {
            let mut adjacent_list: Vec<Node> = Vec::new();
            adjacent_list.push(self.goal_node);
            proof {
                assert(adjacent_list@ =~= self.spec_adjacent(*node));
            }
            adjacent_list
        } else {
            ring_neighbors(node, step, &self.blocked)
        }
    }

    fn get_cost_to_adjacent_node(&self, from_node: &Node, to_node: &Node) -> (r: u64) {
        chebyshev(from_node, to_node)
    }

    fn estimate_cost_to_goal(&self, node: &Node) -> (r: u64) {
        chebyshev(node, &self.goal_node)
    }
}

/// Unit-grid cartographer with one designated jump node whose only
/// neighbor is the goal, reached at no cost; every other node has the
/// eight unit neighbors not in the blocked list. With such free jumps no
/// distance is a safe lower bound, so the goal estimate is zero
/// everywhere, which never overestimates.
pub struct JumpGridCartographer {
    pub goal_node: Node,
    pub jump_node: Node,
    pub blocked: Vec<Node>,
}

impl Cartographer for JumpGridCartographer {
    open spec fn spec_is_goal(&self, node: Node) -> bool {
        node == self.goal_node
    }

    open spec fn spec_adjacent(&self, node: Node) -> Seq<Node> {
        if node == self.jump_node {
            seq![self.goal_node]
        } else {
            spec_ring(node, 1, self.blocked@)
        }
    }

    open spec fn spec_cost(&self, from_node: Node, to_node: Node) -> u64 {
        if from_node == self.jump_node && to_node == self.goal_node {
            0
        } else {
            spec_chebyshev(from_node, to_node) as u64
        }
    }

    open spec fn spec_estimate(&self, node: Node) -> u64 {
        0
    }

    fn is_goal_node(&self, node: &Node) -> (r: bool) {
        *node == self.goal_node
    }

    fn get_adjacent_nodes(&self, node: &Node) -> (r: Vec<Node>) {
        if *node == self.jump_node {
            let mut adjacent_list: Vec<Node> = Vec::new();
            adjacent_list.push(self.goal_node);
            proof {
                assert(adjacent_list@ =~= self.spec_adjacent(*node));
            }
            adjacent_list
        } else {
            ring_neighbors(node, 1, &self.blocked)
        }
    }

    fn get_cost_to_adjacent_node(&self, from_node: &Node, to_node: &Node) -> (r: u64) {
        if *from_node == self.jump_node && *to_node == self.goal_node {
            0
        } else {
            chebyshev(from_node, to_node)
        }
    }

    fn estimate_cost_to_goal(&self, node: &Node) -> (r: u64) {
        0
    }
}

} // verus!
