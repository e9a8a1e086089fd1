//! The incremental A* search engine.

use crate::astar::cartographer::Cartographer;
use crate::astar::node::Node;
use crate::astar::node_info::NodeInfo;
use crate::astar::node_map::NodeMap;
use vstd::prelude::*;

verus! {

/// Addition of costs, sticking at `u64::MAX`: the engine's stand-in for an
/// infinite cost
pub open spec fn sat_add(a: u64, b: u64) -> u64 {
    if a + b > u64::MAX {
        u64::MAX
    } else {
        (a + b) as u64
    }
}

/// Every open-list entry has bookkeeping
pub open spec fn queue_in_dom(q: Seq<Node>, infos: Map<Node, NodeInfo>) -> bool {
    forall|i: int| 0 <= i < q.len() ==> infos.dom().contains(#[trigger] q[i])
}

/// The open list is ordered by ascending estimated total cost
pub open spec fn queue_sorted(q: Seq<Node>, infos: Map<Node, NodeInfo>) -> bool {
    forall|i: int, j: int|
        0 <= i < j < q.len() ==> infos[#[trigger] q[i]].total_cost
            <= infos[#[trigger] q[j]].total_cost
}

/// The open list holds each node at most once
pub open spec fn queue_distinct(q: Seq<Node>) -> bool {
    forall|i: int, j: int| 0 <= i < j < q.len() ==> #[trigger] q[i] != #[trigger] q[j]
}

/// Dropping one occurrence from a duplicate-free ordered list keeps it
/// ordered and duplicate-free, and removes exactly that node
proof fn lemma_queue_drop(
    q0: Seq<Node>,
    q1: Seq<Node>,
    pos: int,
    to: Node,
    infos: Map<Node, NodeInfo>,
)
    requires
        queue_in_dom(q0, infos),
        queue_sorted(q0, infos),
        queue_distinct(q0),
        (0 <= pos < q0.len() && q0[pos] == to && q1 == q0.remove(pos)) || (!q0.contains(to)
            && q1 == q0),
    ensures
        queue_in_dom(q1, infos),
        queue_sorted(q1, infos),
        queue_distinct(q1),
        !q1.contains(to),
        forall|n: Node| q1.contains(n) <==> (q0.contains(n) && n != to),
{
    if q0.contains(to) {
        q0.remove_ensures(pos);
        assert forall|x: int| 0 <= x < q1.len() implies infos.dom().contains(
            #[trigger] q1[x],
        ) && q1[x] != to by {
            let x0: int = if x < pos {
                x
            } else {
                x + 1
            };
            assert(q1[x] == q0[x0]);
        }
        assert forall|x: int, y: int| 0 <= x < y < q1.len() implies infos[
            #[trigger] q1[x]].total_cost <= infos[#[trigger] q1[y]].total_cost && q1[x]
            != q1[y] by {
            let x0: int = if x < pos {
                x
            } else {
                x + 1
            };
            let y0: int = if y < pos {
                y
            } else {
                y + 1
            };
            assert(q1[x] == q0[x0]);
            assert(q1[y] == q0[y0]);
        }
        assert forall|n: Node| q1.contains(n) <==> (q0.contains(n) && n != to) by {
            if q1.contains(n) {
                let j = choose|j: int| 0 <= j < q1.len() && q1[j] == n;
                let j0: int = if j < pos {
                    j
                } else {
                    j + 1
                };
                assert(q0[j0] == n);
                assert(q0.contains(n));
            }
            if q0.contains(n) && n != to {
                let j = choose|j: int| 0 <= j < q0.len() && q0[j] == n;
                if j < pos {
                    assert(q1[j] == n);
                } else {
                    assert(j != pos);
                    assert(q1[j - 1] == n);
                }
                assert(q1.contains(n));
            }
        }
    } else {
        assert forall|x: int| 0 <= x < q1.len() implies q1[x] != to by {
            assert(q1.contains(q1[x]));
        }
    }
}

/// Inserting a node at the boundary between the entries whose totals do
/// not exceed its own and the rest keeps the list ordered
proof fn lemma_queue_insert(
    q1: Seq<Node>,
    q2: Seq<Node>,
    ins: int,
    to: Node,
    infos: Map<Node, NodeInfo>,
)
    requires
        queue_in_dom(q1, infos),
        queue_sorted(q1, infos),
        queue_distinct(q1),
        !q1.contains(to),
        infos.dom().contains(to),
        0 <= ins <= q1.len(),
        q2 == q1.insert(ins, to),
        forall|j: int|
            0 <= j < ins ==> infos[#[trigger] q1[j]].total_cost <= infos[to].total_cost,
        ins < q1.len() ==> infos[q1[ins]].total_cost > infos[to].total_cost,
    ensures
        queue_in_dom(q2, infos),
        queue_sorted(q2, infos),
        queue_distinct(q2),
        forall|n: Node| q2.contains(n) <==> (q1.contains(n) || n == to),
{
    q1.insert_ensures(ins, to);
    assert forall|x: int| 0 <= x < q1.len() implies !(#[trigger] q1[x] == to) by {
        assert(q1.contains(q1[x]));
    }
    assert forall|x: int, y: int| 0 <= x < y < q2.len() implies infos[
        #[trigger] q2[x]].total_cost <= infos[#[trigger] q2[y]].total_cost && q2[x] != q2[y]
        && infos.dom().contains(q2[x]) by {
        if x < ins {
            assert(q2[x] == q1[x]);
        } else if x > ins {
            assert(q2[x] == q1[x - 1]);
        }
        if y < ins {
            assert(q2[y] == q1[y]);
        } else if y > ins {
            assert(q2[y] == q1[y - 1]);
        }
        if x == ins {
            assert(q2[x] == to);
            assert(infos[q1[ins]].total_cost <= infos[q1[y - 1]].total_cost);
        } else if y == ins {
            assert(q2[y] == to);
        }
    }
    assert forall|x: int| 0 <= x < q2.len() implies infos.dom().contains(
        #[trigger] q2[x],
    ) by {
        if x < ins {
            assert(q2[x] == q1[x]);
        } else if x > ins {
            assert(q2[x] == q1[x - 1]);
        }
    }
    assert forall|n: Node| q2.contains(n) <==> (q1.contains(n) || n == to) by {
        if q2.contains(n) {
            let j = choose|j: int| 0 <= j < q2.len() && q2[j] == n;
            if j < ins {
                assert(q1[j] == n);
                assert(q1.contains(n));
            } else if j > ins {
                assert(q1[j - 1] == n);
                assert(q1.contains(n));
            }
        }
        if n == to {
            assert(q2[ins] == to);
            assert(q2.contains(n));
        } else if q1.contains(n) {
            let j = choose|j: int| 0 <= j < q1.len() && q1[j] == n;
            if j < ins {
                assert(q2[j] == n);
            } else {
                assert(q2[j + 1] == n);
            }
            assert(q2.contains(n));
        }
    }
}

/// The total recorded cost-from-start over all discovered nodes: part of
/// the termination measure of the search
pub open spec fn g_sum(infos: Map<Node, NodeInfo>) -> nat
    decreases infos.dom().len(),
    when infos.dom().finite()
{
    if infos.dom().is_empty() {
        0
    } else {
        let k = infos.dom().choose();
        (infos[k].cost_from_start + g_sum(infos.remove(k))) as nat
    }
}

/// Lowering recorded costs pointwise lowers their total; strictly, when
/// one of them strictly drops
proof fn lemma_g_sum_pointwise(m1: Map<Node, NodeInfo>, m2: Map<Node, NodeInfo>)
    requires
        m1.dom().finite(),
        m1.dom() == m2.dom(),
        forall|k: Node|
            #[trigger] m2.dom().contains(k) ==> m1[k].cost_from_start
                <= m2[k].cost_from_start,
    ensures
        g_sum(m1) <= g_sum(m2),
        (exists|k: Node|
            #[trigger] m2.dom().contains(k) && m1[k].cost_from_start
                < m2[k].cost_from_start) ==> g_sum(m1) < g_sum(m2),
    decreases m1.dom().len(),
{
    if m1.dom().is_empty() {
    } else {
        let k = m1.dom().choose();
        assert(m1.dom().contains(k));
        let r1 = m1.remove(k);
        let r2 = m2.remove(k);
        assert(r1.dom() =~= r2.dom());
        assert forall|x: Node| #[trigger]
            r2.dom().contains(x) implies r1[x].cost_from_start <= r2[x].cost_from_start by {
            assert(m2.dom().contains(x));
        }
        lemma_g_sum_pointwise(r1, r2);
        if exists|x: Node|
            #[trigger] m2.dom().contains(x) && m1[x].cost_from_start < m2[x].cost_from_start {
            let w = choose|x: Node|
                #[trigger] m2.dom().contains(x) && m1[x].cost_from_start
                    < m2[x].cost_from_start;
            if w != k {
                assert(r2.dom().contains(w));
                assert(r1[w].cost_from_start < r2[w].cost_from_start);
            }
        }
    }
}

/// The A* search engine, bound to the cartographer that describes its
/// search space.
///
/// The search is incremental: `reset` seeds it with a start node, each
/// `loop_once` call expands at most one node, and `get_path`,
/// `get_first_step` and `is_goal_found` read the current outcome at any
/// point. Unreachable goals are reported by `is_goal_found` staying false
/// once `loop_once` returns false, never by an error.
pub struct AStar<C: Cartographer> {
    cartographer: C,
    best_node_option: Option<Node>,
    best_total_cost: u64,
    goal_node_option: Option<Node>,
    list_empty: bool,
    node_to_node_info_map: NodeMap<NodeInfo>,
    node_to_parent_node_map: NodeMap<Node>,
    open_node_sorted_list: Vec<Node>,
    rank: Ghost<Map<Node, nat>>,
    start_node: Ghost<Option<Node>>,
}

impl<C: Cartographer> AStar<C> {
    /// The cartographer the engine was built with
    pub closed spec fn spec_cartographer(self) -> C {
        self.cartographer
    }

    /// The per-node bookkeeping of every node discovered so far
    pub closed spec fn infos(self) -> Map<Node, NodeInfo> {
        self.node_to_node_info_map@
    }

    /// The node each discovered node was best reached from
    pub closed spec fn parents(self) -> Map<Node, Node> {
        self.node_to_parent_node_map@
    }

    /// The open list: discovered nodes not yet expanded, in order of
    /// ascending estimated total cost
    pub closed spec fn open_list(self) -> Seq<Node> {
        self.open_node_sorted_list@
    }

    /// The cheapest goal node popped so far, if any
    pub closed spec fn spec_goal_node(self) -> Option<Node> {
        self.goal_node_option
    }

    /// The discovered node with the lowest estimated total cost seen so far
    pub closed spec fn spec_best_node(self) -> Option<Node> {
        self.best_node_option
    }

    /// The estimated total cost of the best node; `u64::MAX` before any
    /// node was relaxed
    pub closed spec fn spec_best_total_cost(self) -> u64 {
        self.best_total_cost
    }

    /// Whether the open list has been drained
    pub closed spec fn spec_list_empty(self) -> bool {
        self.list_empty
    }

    /// The node the search was last reset with, if any
    pub closed spec fn spec_start_node(self) -> Option<Node> {
        self.start_node@
    }

    /// The order in which parents were assigned; together with the
    /// accumulated costs it bounds the length of every parent chain
    pub closed spec fn spec_rank(self) -> Map<Node, nat> {
        self.rank@
    }

    /// The accumulated cost from the start recorded for a discovered node
    pub open spec fn g(self, n: Node) -> u64 {
        self.infos()[n].cost_from_start
    }

    /// The estimated total cost recorded for a discovered node
    pub open spec fn f(self, n: Node) -> u64 {
        self.infos()[n].total_cost
    }

    spec fn queue_wf(self) -> bool {
        &&& queue_in_dom(self.open_list(), self.infos())
        &&& queue_sorted(self.open_list(), self.infos())
        &&& queue_distinct(self.open_list())
        &&& (self.spec_list_empty() ==> self.open_list().len() == 0)
    }

    spec fn start_wf(self) -> bool {
        match self.spec_start_node() {
            None => {
                &&& self.infos() =~= Map::<Node, NodeInfo>::empty()
                &&& self.parents() =~= Map::<Node, Node>::empty()
                &&& self.open_list() =~= Seq::<Node>::empty()
                &&& self.spec_goal_node() is None
                &&& self.spec_best_node() is None
            },
            Some(s) => {
                &&& self.infos().dom().contains(s)
                &&& self.g(s) == 0
                &&& self.f(s) == 0
                &&& !self.parents().dom().contains(s)
                &&& forall|n: Node|
                    #[trigger] self.infos().dom().contains(n) ==> n == s
                        || self.parents().dom().contains(n)
            },
        }
    }

    spec fn parents_wf(self) -> bool {
        forall|n: Node|
            #[trigger] self.parents().dom().contains(n) ==> {
                let p = self.parents()[n];
                &&& self.infos().dom().contains(n)
                &&& self.infos().dom().contains(p)
                &&& self.spec_cartographer().spec_adjacent(p).contains(n)
                &&& self.g(n) >= sat_add(self.g(p), self.spec_cartographer().spec_cost(p, n))
            }
    }

    spec fn rank_wf(self) -> bool {
        &&& forall|n: Node|
            #[trigger] self.infos().dom().contains(n) ==> self.spec_rank().dom().contains(n)
        &&& forall|n: Node|
            #[trigger] self.parents().dom().contains(n) ==> {
                let p = self.parents()[n];
                self.g(p) < self.g(n) || (self.g(p) == self.g(n) && self.spec_rank()[p]
                    < self.spec_rank()[n])
            }
    }

    spec fn totals_wf(self) -> bool {
        forall|n: Node|
            #[trigger] self.parents().dom().contains(n) ==> self.f(n) == sat_add(
                self.g(n),
                self.spec_cartographer().spec_estimate(n),
            )
    }

    spec fn best_wf(self) -> bool {
        &&& (match self.spec_goal_node() {
            Some(gn) => self.infos().dom().contains(gn)
                && self.spec_cartographer().spec_is_goal(gn),
            None => true,
        })
        &&& (match self.spec_best_node() {
            Some(b) => self.infos().dom().contains(b) && self.f(b)
                == self.spec_best_total_cost() && self.parents().dom().contains(b),
            None => self.spec_best_total_cost() == u64::MAX,
        })
        &&& forall|n: Node|
            #[trigger] self.parents().dom().contains(n) ==> self.f(n)
                >= self.spec_best_total_cost()
    }

    /// The engine's internal well-formedness: constructors establish it
    /// and every operation preserves it
    pub closed spec fn wf(self) -> bool {
        &&& self.queue_wf()
        &&& self.start_wf()
        &&& self.parents_wf()
        &&& self.rank_wf()
        &&& self.totals_wf()
        &&& self.best_wf()
        &&& self.infos().dom().finite()
        &&& self.parents().dom().finite()
    }

    /// Binds a fresh engine to the given cartographer; no search state yet
    pub fn new(cartographer: C) -> (r: AStar<C>)
        ensures
            r.wf(),
            r.spec_cartographer() == cartographer,
            r.spec_goal_node() is None,
            r.spec_best_node() is None,
            r.spec_best_total_cost() == u64::MAX,
            !r.spec_list_empty(),
            r.infos() =~= Map::<Node, NodeInfo>::empty(),
            r.parents() =~= Map::<Node, Node>::empty(),
            r.open_list() =~= Seq::<Node>::empty(),
            r.spec_start_node() is None,
    {
        let r = AStar {
            cartographer,
            best_node_option: None,
            best_total_cost: u64::MAX,
            goal_node_option: None,
            list_empty: false,
            node_to_node_info_map: NodeMap::new(),
            node_to_parent_node_map: NodeMap::new(),
            open_node_sorted_list: Vec::new(),
            rank: Ghost(Map::empty()),
            start_node: Ghost(None),
        };
        r
    }

    /// Discards any previous search state and seeds a fresh search from
    /// the given start node: afterwards no goal is found, the path is
    /// empty, and the open list holds exactly the start node with an
    /// accumulated cost of zero.
    pub fn reset(&mut self, start_node: Node)
        ensures
            final(self).wf(),
            final(self).spec_cartographer() == old(self).spec_cartographer(),
            final(self).spec_goal_node() is None,
            final(self).spec_best_node() is None,
            final(self).spec_best_total_cost() == u64::MAX,
            !final(self).spec_list_empty(),
            final(self).open_list() =~= seq![start_node],
            final(self).infos() =~= Map::<Node, NodeInfo>::empty().insert(
                start_node,
                NodeInfo { cost_from_start: 0u64, total_cost: 0u64 },
            ),
            final(self).parents() =~= Map::<Node, Node>::empty(),
            final(self).spec_start_node() == Some(start_node),
            final(self).path_spec() =~= Seq::<Node>::empty(),
    {
        self.goal_node_option = None;
        self.list_empty = false;
        self.open_node_sorted_list = Vec::new();
        self.node_to_node_info_map = NodeMap::new();
        self.node_to_parent_node_map = NodeMap::new();
        let start_node_info = NodeInfo::default();
        self.node_to_node_info_map.insert(start_node, start_node_info);
        self.open_node_sorted_list.push(start_node);
        self.best_total_cost = u64::MAX;
        self.best_node_option = None;
        self.rank = Ghost(Map::empty().insert(start_node, 0));
        self.start_node = Ghost(Some(start_node));
    }

    /// Whether a goal node has been found so far
    pub fn is_goal_found(&self) -> (r: bool)
        ensures
            r == self.spec_goal_node() is Some,
    {
        self.goal_node_option.is_some()
    }

    /// A node occurs among the first `k` entries of a sequence
    pub open spec fn in_prefix(adj: Seq<Node>, k: int, a: Node) -> bool {
        exists|j: int| 0 <= j < k && adj[j] == a
    }

    /// A node is improved by one of the first `k` relaxations of an
    /// expansion of `head`
    pub open spec fn prefix_improved(
        pre: AStar<C>,
        head: Node,
        adj: Seq<Node>,
        k: int,
        a: Node,
    ) -> bool {
        Self::in_prefix(adj, k, a) && Self::improved(pre, head, a)
    }

    /// The goal node found so far, if any
    pub fn goal_node(&self) -> (r: Option<Node>)
        ensures
            r == self.spec_goal_node(),
    {
        self.goal_node_option
    }

    /// The discovered node with the lowest estimated total cost, if any
    pub fn best_node(&self) -> (r: Option<Node>)
        ensures
            r == self.spec_best_node(),
    {
        self.best_node_option
    }

    /// The estimated total cost of the best node; `u64::MAX` while no
    /// node has been relaxed
    pub fn best_total_cost(&self) -> (r: u64)
        ensures
            r == self.spec_best_total_cost(),
    {
        self.best_total_cost
    }

    /// Whether a call of `loop_once` has found the open list empty
    pub fn is_list_empty(&self) -> (r: bool)
        ensures
            r == self.spec_list_empty(),
    {
        self.list_empty
    }

    /// The recorded bookkeeping of a node, if it has been discovered
    pub fn node_info(&self, node: &Node) -> (r: Option<NodeInfo>)
        ensures
            r == if self.infos().dom().contains(*node) {
                Some(self.infos()[*node])
            } else {
                None::<NodeInfo>
            },
    {
        self.node_to_node_info_map.get(*node)
    }

    /// The node a discovered node was best reached from, if it has one
    pub fn parent_node(&self, node: &Node) -> (r: Option<Node>)
        ensures
            r == if self.parents().dom().contains(*node) {
                Some(self.parents()[*node])
            } else {
                None::<Node>
            },
    {
        self.node_to_parent_node_map.get(*node)
    }

    /// A copy of the open list, in order of ascending estimated total cost
    pub fn open_node_list(&self) -> (r: Vec<Node>)
        ensures
            r@ == self.open_list(),
    {
        let mut r: Vec<Node> = Vec::new();
        let mut i: usize = 0;
        let n = self.open_node_sorted_list.len();
        while i < n
            invariant
                0 <= i <= n,
                n == self.open_list().len(),
                r@ == self.open_list().subrange(0, i as int),
            decreases n - i,
        {
            r.push(self.open_node_sorted_list[i]);
            proof {
                assert(r@ =~= self.open_list().subrange(0, i + 1));
            }
            i = i + 1;
        }
        proof {
            assert(r@ =~= self.open_list());
        }
        r
    }

    /// Whether one relaxation step from `from` to `to` strictly improves
    /// the best known path to `to`: `to` is adjacent to `from` and either
    /// undiscovered or more expensive to reach than through `from`
    pub open spec fn improved(pre: AStar<C>, from: Node, to: Node) -> bool {
        &&& pre.spec_cartographer().spec_adjacent(from).contains(to)
        &&& (!pre.infos().dom().contains(to) || sat_add(
            pre.g(from),
            pre.spec_cartographer().spec_cost(from, to),
        ) < pre.g(to))
    }

    /// The bookkeeping recorded for `to` when relaxing the edge from
    /// `from`: the accumulated cost through `from` plus the heuristic
    pub open spec fn relaxed_info(pre: AStar<C>, from: Node, to: Node) -> NodeInfo {
        let ng = sat_add(pre.g(from), pre.spec_cartographer().spec_cost(from, to));
        NodeInfo {
            cost_from_start: ng,
            total_cost: sat_add(ng, pre.spec_cartographer().spec_estimate(to)),
        }
    }

    /// The chain of nodes reaching `n` through the recorded parents, from
    /// the child of the start node up to and including `n`; empty when `n`
    /// has no recorded parent (in particular for the start node itself)
    pub closed spec fn chain_to(self, n: Node) -> Seq<Node>
        decreases self.g(n), self.spec_rank()[n],
        when self.wf() && self.infos().dom().contains(n)
    {
        if self.parents().dom().contains(n) {
            self.chain_to(self.parents()[n]).push(n)
        } else {
            Seq::empty()
        }
    }

    /// The node path queries aim at: the goal when one was found, else
    /// the best node seen so far
    pub open spec fn target_node(self) -> Option<Node> {
        if self.spec_goal_node() is Some {
            self.spec_goal_node()
        } else {
            self.spec_best_node()
        }
    }

    /// What `get_path` returns: the parent chain to the target node,
    /// excluding the start node and ending at the target; empty when no
    /// target exists yet
    pub open spec fn path_spec(self) -> Seq<Node> {
        match self.target_node() {
            Some(t) => self.chain_to(t),
            None => Seq::empty(),
        }
    }

    /// The path from the start toward the goal (if found) or the best
    /// node so far: the target node last, the child of the start node
    /// first, the start node itself excluded. Empty when nothing has been
    /// discovered or the target is the start itself.
    pub fn get_path(&self) -> (r: Vec<Node>)
        requires
            self.wf(),
        ensures
            r@ == self.path_spec(),
    {
        let mut path: Vec<Node> = Vec::new();
        let node_option: Option<Node> = if self.goal_node_option.is_some() {
            self.goal_node_option
        } else {
            self.best_node_option
        };
        let mut node: Node = match node_option {
            Some(n) => n,
            None => {
                return path;
            },
        };
        proof {
            assert(self.infos().dom().contains(node));
            assert(self.path_spec() =~= self.chain_to(node) + path@);
        }
        loop
            invariant_except_break
                self.wf(),
                self.infos().dom().contains(node),
                self.path_spec() == self.chain_to(node) + path@,
            ensures
                path@ == self.path_spec(),
            decreases self.g(node), self.spec_rank()[node],
        {
            match self.node_to_parent_node_map.get(node) {
                Some(p) => {
                    let ghost old_path = path@;
                    path.insert(0, node);
                    proof {
                        old_path.insert_ensures(0, node);
                        assert(self.chain_to(node) == self.chain_to(p).push(node));
                        assert(self.chain_to(p) + path@ =~= self.chain_to(node) + old_path);
                    }
                    node = p;
                },
                None => {
                    proof {
                        assert(self.chain_to(node) =~= Seq::<Node>::empty());
                        assert(self.chain_to(node) + path@ =~= path@);
                    }
                    break ;
                },
            }
        }
        path
    }

    /// The first move to make along the current path: the child of the
    /// start node on the parent chain to the target, or nothing when no
    /// path is known
    pub fn get_first_step(&self) -> (r: Option<Node>)
        requires
            self.wf(),
        ensures
            r == if self.path_spec().len() == 0 {
                None::<Node>
            } else {
                Some(self.path_spec()[0])
            },
    {
        let node_option: Option<Node> = if self.goal_node_option.is_some() {
            self.goal_node_option
        } else {
            self.best_node_option
        };
        let mut node: Node = match node_option {
            Some(n) => n,
            None => {
                return None;
            },
        };
        let mut child_node_option: Option<Node> = None;
        let ghost mut acc: Seq<Node> = Seq::empty();
        proof {
            assert(self.infos().dom().contains(node));
            assert(self.path_spec() =~= self.chain_to(node) + acc);
        }
        loop
            invariant_except_break
                self.wf(),
                self.infos().dom().contains(node),
                self.path_spec() == self.chain_to(node) + acc,
                child_node_option == if acc.len() == 0 {
                    None::<Node>
                } else {
                    Some(acc[0])
                },
            ensures
                child_node_option == if self.path_spec().len() == 0 {
                    None::<Node>
                } else {
                    Some(self.path_spec()[0])
                },
            decreases self.g(node), self.spec_rank()[node],
        {
            match self.node_to_parent_node_map.get(node) {
                Some(p) => {
                    child_node_option = Some(node);
                    proof {
                        assert(self.chain_to(node) == self.chain_to(p).push(node));
                        let acc1 = seq![node] + acc;
                        assert(self.chain_to(p) + acc1 =~= self.chain_to(node) + acc);
                        acc = acc1;
                    }
                    node = p;
                },
                None => {
                    proof {
                        assert(self.chain_to(node) =~= Seq::<Node>::empty());
                        assert(self.chain_to(node) + acc =~= acc);
                    }
                    break ;
                },
            }
        }
        child_node_option
    }

    /// The shape of a parent chain: it ends at its node, every node on it
    /// was discovered, consecutive nodes are linked by the parent map, and
    /// its first node's parent is the start node
    proof fn lemma_chain_props(self, n: Node)
        requires
            self.wf(),
            self.infos().dom().contains(n),
        ensures
            self.parents().dom().contains(n) ==> self.chain_to(n).len() > 0 && self.chain_to(
                n,
            ).last() == n,
            !self.parents().dom().contains(n) ==> self.chain_to(n).len() == 0,
            forall|i: int|
                0 <= i < self.chain_to(n).len() ==> self.infos().dom().contains(
                    #[trigger] self.chain_to(n)[i],
                ) && self.parents().dom().contains(self.chain_to(n)[i]),
            forall|i: int|
                0 < i < self.chain_to(n).len() ==> self.parents()[
                    #[trigger] self.chain_to(n)[i]] == self.chain_to(n)[i - 1],
            self.chain_to(n).len() > 0 ==> self.spec_start_node() is Some && self.parents()[
                self.chain_to(n)[0]] == self.spec_start_node()->Some_0,
        decreases self.g(n), self.spec_rank()[n],
    {
        if self.parents().dom().contains(n) {
            let p = self.parents()[n];
            let ch = self.chain_to(n);
            self.lemma_chain_props(p);
            let chp = self.chain_to(p);
            assert(ch == chp.push(n));
            if chp.len() == 0 {
                // The parent has no parent of its own: it is the start
                assert(!self.parents().dom().contains(p));
                if self.spec_start_node() is None {
                    assert(false);
                }
                let s = self.spec_start_node()->Some_0;
                assert(p == s);
                assert(ch[0] == n);
            } else {
                assert(ch[0] == chp[0]);
                assert forall|i: int|
                    0 <= i < ch.len() implies self.infos().dom().contains(#[trigger] ch[i])
                    && self.parents().dom().contains(ch[i]) by {
                    if i < chp.len() {
                        assert(ch[i] == chp[i]);
                    }
                }
                assert forall|i: int| 0 < i < ch.len() implies self.parents()[
                    #[trigger] ch[i]] == ch[i - 1] by {
                    if i < chp.len() {
                        assert(ch[i] == chp[i]);
                        assert(ch[i - 1] == chp[i - 1]);
                    } else {
                        assert(ch[i] == n);
                        assert(ch[i - 1] == chp.last());
                    }
                }
            }
        }
    }

    /// Path reconstruction consistency: the path leads from a node
    /// adjacent to the start to the target node (the goal when found,
    /// else the best node), every node on it was discovered, and each
    /// consecutive pair is parent-linked and adjacent per the
    /// cartographer. The path is empty exactly when there is no target or
    /// the target has no recorded parent (it is the start itself).
    pub proof fn lemma_path_consistency(self)
        requires
            self.wf(),
        ensures
            forall|i: int|
                0 <= i < self.path_spec().len() ==> self.infos().dom().contains(
                    #[trigger] self.path_spec()[i],
                ),
            forall|i: int|
                0 < i < self.path_spec().len() ==> self.parents()[
                    #[trigger] self.path_spec()[i]] == self.path_spec()[i - 1]
                    && self.spec_cartographer().spec_adjacent(
                    self.path_spec()[i - 1],
                ).contains(self.path_spec()[i]),
            self.path_spec().len() > 0 ==> {
                &&& self.target_node() is Some
                &&& self.path_spec().last() == self.target_node()->Some_0
                &&& self.spec_start_node() is Some
                &&& self.spec_cartographer().spec_adjacent(
                    self.spec_start_node()->Some_0,
                ).contains(self.path_spec()[0])
            },
            match self.target_node() {
                Some(t) => (self.path_spec().len() == 0 <==> !self.parents().dom().contains(
                    t,
                )),
                None => self.path_spec().len() == 0,
            },
    {
        match self.target_node() {
            Some(t) => {
                assert(self.infos().dom().contains(t));
                self.lemma_chain_props(t);
                let ch = self.chain_to(t);
                assert forall|i: int| 0 < i < ch.len() implies self.parents()[
                    #[trigger] ch[i]] == ch[i - 1]
                    && self.spec_cartographer().spec_adjacent(ch[i - 1]).contains(
                    ch[i],
                ) by {
                    assert(self.parents().dom().contains(ch[i]));
                }
                if ch.len() > 0 {
                    assert(self.parents().dom().contains(ch[0]));
                    assert(self.spec_cartographer().spec_adjacent(
                        self.spec_start_node()->Some_0,
                    ).contains(ch[0]));
                }
            },
            None => {
            },
        }
    }

    /// Termination of the search on a finite space: over any finite set
    /// of nodes that is closed under adjacency and covers what has been
    /// discovered, each `loop_once` call that returns true strictly
    /// decreases the measure (undiscovered nodes, total recorded cost,
    /// open-list length) lexicographically, so repeated calls eventually
    /// return false
    pub proof fn lemma_loop_once_progress(pre: Self, post: Self, univ: Set<Node>)
        requires
            pre.wf(),
            post.wf(),
            Self::step_expand_rel(pre, post),
            univ.finite(),
            pre.infos().dom().subset_of(univ),
            forall|n: Node, j: int|
                univ.contains(n) && 0 <= j < pre.spec_cartographer().spec_adjacent(n).len()
                    ==> univ.contains(
                    #[trigger] pre.spec_cartographer().spec_adjacent(n)[j],
                ),
        ensures
            post.infos().dom().subset_of(univ),
            post.infos().dom().len() <= univ.len(),
            pre.infos().dom().len() <= univ.len(),
            (univ.len() - post.infos().dom().len() < univ.len() - pre.infos().dom().len()) || (
            post.infos().dom() == pre.infos().dom() && g_sum(post.infos()) < g_sum(
                pre.infos(),
            )) || (post.infos().dom() == pre.infos().dom() && g_sum(post.infos()) == g_sum(
                pre.infos(),
            ) && post.open_list().len() < pre.open_list().len()),
    {
        let head = pre.open_list()[0];
        let c = pre.spec_cartographer();
        let adj = c.spec_adjacent(head);
        assert(pre.infos().dom().contains(head));
        assert(univ.contains(head));
        // Everything discovered afterwards lies in the closed universe
        assert forall|n: Node| #[trigger]
            post.infos().dom().contains(n) implies univ.contains(n) by {
            if Self::improved(pre, head, n) {
                assert(adj.contains(n));
                let j = choose|j: int| 0 <= j < adj.len() && adj[j] == n;
                assert(univ.contains(adj[j]));
            } else {
                assert(pre.infos().dom().contains(n));
            }
        }
        assert forall|n: Node| #[trigger]
            pre.infos().dom().contains(n) implies post.infos().dom().contains(n) by {
            if !Self::improved(pre, head, n) {
            }
        }
        vstd::set_lib::lemma_len_subset(post.infos().dom(), univ);
        vstd::set_lib::lemma_len_subset(pre.infos().dom(), univ);
        if exists|a: Node|
            #[trigger] Self::improved(pre, head, a) && !pre.infos().dom().contains(a) {
            // A node was discovered: fewer nodes remain undiscovered
            let a = choose|a: Node|
                #[trigger] Self::improved(pre, head, a) && !pre.infos().dom().contains(a);
            assert(post.infos().dom().contains(a));
            assert(pre.infos().dom().subset_of(post.infos().dom().remove(a)));
            vstd::set_lib::lemma_len_subset(
                pre.infos().dom(),
                post.infos().dom().remove(a),
            );
            assert(post.infos().dom().remove(a).len() == post.infos().dom().len() - 1);
        } else if exists|a: Node| #[trigger] Self::improved(pre, head, a) {
            // A known node was rebooked more cheaply: the total drops
            let a = choose|a: Node| #[trigger] Self::improved(pre, head, a);
            assert(pre.infos().dom().contains(a));
            assert forall|n: Node|
                #![trigger post.infos().dom().contains(n)]
                #![trigger pre.infos().dom().contains(n)]
                post.infos().dom().contains(n) <==> pre.infos().dom().contains(n) by {
                if Self::improved(pre, head, n) {
                    assert(pre.infos().dom().contains(n));
                    assert(post.infos().dom().contains(n));
                }
            }
            assert(post.infos().dom() =~= pre.infos().dom());
            assert forall|k: Node| #[trigger]
                pre.infos().dom().contains(k) implies post.infos()[k].cost_from_start
                <= pre.infos()[k].cost_from_start by {
                if Self::improved(pre, head, k) {
                    assert(post.infos()[k] == Self::relaxed_info(pre, head, k));
                }
            }
            assert(post.infos()[a].cost_from_start < pre.infos()[a].cost_from_start);
            lemma_g_sum_pointwise(post.infos(), pre.infos());
        } else {
            // Nothing improved: the open list shrank by the popped head
            assert forall|n: Node|
                #![trigger post.infos().dom().contains(n)]
                #![trigger pre.infos().dom().contains(n)]
                (post.infos().dom().contains(n) <==> pre.infos().dom().contains(n)) && (
                pre.infos().dom().contains(n) ==> post.infos()[n] == pre.infos()[n]) by {
                assert(!Self::improved(pre, head, n));
            }
            assert(post.infos() =~= pre.infos());
            assert(post.infos().dom() =~= pre.infos().dom());
            let q = post.open_list();
            let tail = pre.open_list().skip(1);
            assert forall|n: Node| #[trigger] q.contains(n) implies tail.contains(n) by {}
            assert(q.no_duplicates()) by {
                assert forall|i: int, j: int|
                    0 <= i < q.len() && 0 <= j < q.len() && i != j implies q[i] != q[j] by {
                    if i < j {
                    } else {
                        assert(q[j] != q[i]);
                    }
                }
            }
            assert(tail.no_duplicates()) by {
                assert forall|i: int, j: int|
                    0 <= i < tail.len() && 0 <= j < tail.len() && i != j implies tail[i]
                    != tail[j] by {
                    assert(tail[i] == pre.open_list()[i + 1]);
                    assert(tail[j] == pre.open_list()[j + 1]);
                    if i < j {
                    } else {
                        assert(tail[j] != tail[i]);
                    }
                }
            }
            q.unique_seq_to_set();
            tail.unique_seq_to_set();
            assert forall|n: Node| #[trigger]
                q.to_set().contains(n) implies tail.to_set().contains(n) by {
                assert(q.contains(n));
                assert(tail.contains(n));
            }
            broadcast use vstd::seq_lib::seq_to_set_is_finite;

            vstd::set_lib::lemma_len_subset(q.to_set(), tail.to_set());
            assert(q.len() <= tail.len());
            assert(tail.len() == pre.open_list().len() - 1);
        }
    }

    /// A walk of the search space: consecutive nodes are adjacent per
    /// the cartographer
    pub open spec fn is_walk(c: C, w: Seq<Node>) -> bool {
        &&& w.len() > 0
        &&& forall|i: int|
            0 <= i < w.len() - 1 ==> #[trigger] c.spec_adjacent(w[i]).contains(w[i + 1])
    }

    /// The cost of a walk: the sum of its step costs
    pub open spec fn walk_cost(c: C, w: Seq<Node>) -> int
        decreases w.len(),
    {
        if w.len() <= 1 {
            0
        } else {
            Self::walk_cost(c, w.drop_last()) + c.spec_cost(w[w.len() - 2], w[w.len() - 1])
        }
    }

    /// The cost of the walk's first `i` steps
    pub open spec fn prefix_cost(c: C, w: Seq<Node>, i: int) -> int {
        Self::walk_cost(c, w.take(i + 1))
    }

    /// The heuristic never overestimates: no walk from a node to a goal
    /// costs less than the node's estimate
    pub open spec fn admissible(c: C) -> bool {
        forall|v: Seq<Node>|
            (#[trigger] Self::is_walk(c, v)) && c.spec_is_goal(v.last()) ==> c.spec_estimate(
                v[0],
            ) <= Self::walk_cost(c, v)
    }

    /// Every discovered node that is off the open list and is not a goal
    /// has all its outgoing edges relaxed: no neighbor is booked at more
    /// than the cost through it. Together with well-formedness this holds
    /// throughout a search, because an improved node always rejoins the
    /// open list.
    pub open spec fn closed_relaxed(self) -> bool {
        forall|v: Node, j: int|
            self.infos().dom().contains(v) && !self.open_list().contains(v)
                && !self.spec_cartographer().spec_is_goal(v) && 0 <= j
                < self.spec_cartographer().spec_adjacent(v).len() ==> {
                let u = #[trigger] self.spec_cartographer().spec_adjacent(v)[j];
                &&& self.infos().dom().contains(u)
                &&& self.g(u) <= sat_add(
                    self.g(v),
                    self.spec_cartographer().spec_cost(v, u),
                )
            }
    }

    /// Once a goal node has left the open list, a goal costing at most as
    /// much is recorded
    pub open spec fn goals_settled(self) -> bool {
        forall|t: Node|
            #[trigger] self.infos().dom().contains(t)
                && self.spec_cartographer().spec_is_goal(t) && !self.open_list().contains(t)
                ==> self.spec_goal_node() is Some && self.g(self.spec_goal_node()->Some_0)
                <= self.g(t)
    }

    /// The first step of a walk costs nothing yet
    proof fn lemma_prefix_cost_zero(c: C, w: Seq<Node>)
        requires
            w.len() > 0,
        ensures
            Self::prefix_cost(c, w, 0) == 0,
    {
        assert(w.take(1).len() == 1);
    }

    /// Extending a prefix by one step adds that step's cost
    proof fn lemma_prefix_cost_step(c: C, w: Seq<Node>, i: int)
        requires
            0 <= i < w.len() - 1,
        ensures
            Self::prefix_cost(c, w, i + 1) == Self::prefix_cost(c, w, i) + c.spec_cost(
                w[i],
                w[i + 1],
            ),
    {
        let t2 = w.take(i + 2);
        assert(t2.drop_last() =~= w.take(i + 1));
        assert(t2[t2.len() - 2] == w[i]);
        assert(t2[t2.len() - 1] == w[i + 1]);
    }

    /// The whole walk is its own longest prefix
    proof fn lemma_prefix_cost_full(c: C, w: Seq<Node>)
        requires
            w.len() > 0,
        ensures
            Self::walk_cost(c, w) == Self::prefix_cost(c, w, w.len() - 1),
    {
        assert(w.take(w.len() as int) =~= w);
    }

    /// A walk's cost splits at any position into prefix and suffix
    proof fn lemma_walk_cost_split(c: C, w: Seq<Node>, i: int)
        requires
            0 <= i < w.len(),
        ensures
            Self::walk_cost(c, w) == Self::prefix_cost(c, w, i) + Self::walk_cost(
                c,
                w.skip(i),
            ),
        decreases w.len(),
    {
        if i == w.len() - 1 {
            Self::lemma_prefix_cost_full(c, w);
            assert(w.skip(i).len() == 1);
        } else {
            let d = w.drop_last();
            Self::lemma_walk_cost_split(c, d, i);
            assert(d.take(i + 1) =~= w.take(i + 1));
            let ws = w.skip(i);
            assert(ws.len() >= 2);
            assert(ws.drop_last() =~= d.skip(i));
            assert(ws[ws.len() - 2] == w[w.len() - 2]);
            assert(ws[ws.len() - 1] == w[w.len() - 1]);
        }
    }

    /// Walking on from a position booked within its prefix cost, the walk
    /// either meets an open node booked within its prefix cost or ends at
    /// a node booked within the walk's whole cost
    proof fn lemma_walk_reaches_open(self, w: Seq<Node>, i: int)
        requires
            self.closed_relaxed(),
            Self::is_walk(self.spec_cartographer(), w),
            0 <= i < w.len(),
            self.infos().dom().contains(w[i]),
            self.g(w[i]) <= Self::prefix_cost(self.spec_cartographer(), w, i),
            forall|j: int|
                i <= j < w.len() - 1 ==> !(#[trigger] self.spec_cartographer().spec_is_goal(
                    w[j],
                )),
        ensures
            (exists|j: int|
                i <= j < w.len() && self.open_list().contains(#[trigger] w[j]) && self.g(
                    w[j],
                ) <= Self::prefix_cost(self.spec_cartographer(), w, j)) || (
            self.infos().dom().contains(w.last()) && self.g(w.last()) <= Self::walk_cost(
                self.spec_cartographer(),
                w,
            )),
        decreases w.len() - i,
    {
        let c = self.spec_cartographer();
        if self.open_list().contains(w[i]) {
            assert(i <= i < w.len() && self.open_list().contains(w[i]) && self.g(w[i])
                <= Self::prefix_cost(c, w, i));
        } else if i == w.len() - 1 {
            Self::lemma_prefix_cost_full(c, w);
        } else {
            // The node is closed and not a goal, so its edge to the next
            // walk node is relaxed
            assert(c.spec_adjacent(w[i]).contains(w[i + 1]));
            let jj = choose|jj: int|
                0 <= jj < c.spec_adjacent(w[i]).len() && c.spec_adjacent(w[i])[jj] == w[i
                    + 1];
            assert(c.spec_adjacent(w[i])[jj] == w[i + 1]);
            assert(self.infos().dom().contains(w[i + 1]) && self.g(w[i + 1]) <= sat_add(
                self.g(w[i]),
                c.spec_cost(w[i], w[i + 1]),
            ));
            Self::lemma_prefix_cost_step(c, w, i);
            self.lemma_walk_reaches_open(w, i + 1);
        }
    }

    /// Membership in the open list after its head is popped
    proof fn lemma_skip1_contains(q: Seq<Node>)
        requires
            q.len() > 0,
            queue_distinct(q),
        ensures
            forall|n: Node| #[trigger] q.skip(1).contains(n) <==> (q.contains(n) && n != q[0]),
    {
        assert forall|n: Node| #[trigger]
            q.skip(1).contains(n) <==> (q.contains(n) && n != q[0]) by {
            if q.skip(1).contains(n) {
                let j = choose|j: int| 0 <= j < q.skip(1).len() && q.skip(1)[j] == n;
                assert(q[j + 1] == n);
                assert(q.contains(n));
            }
            if q.contains(n) && n != q[0] {
                let j = choose|j: int| 0 <= j < q.len() && q[j] == n;
                assert(j != 0);
                assert(q.skip(1)[j - 1] == n);
                assert(q.skip(1).contains(n));
            }
        }
    }

    /// A fresh search relaxes trivially: the only discovered node is on
    /// the open list, and no goal has left it
    pub proof fn lemma_reset_search_invariants(self, start_node: Node)
        requires
            self.infos().dom() =~= Set::<Node>::empty().insert(start_node),
            self.open_list().contains(start_node),
        ensures
            self.closed_relaxed(),
            self.goals_settled(),
    {
    }

    /// One search step keeps the relaxation and goal-settlement
    /// bookkeeping: expanding a node relaxes its edges, an improved node
    /// rejoins the open list, and a popped goal is recorded unless a
    /// cheaper one already is
    pub proof fn lemma_step_preserves_search_invariants(pre: Self, post: Self)
        requires
            pre.wf(),
            pre.closed_relaxed(),
            pre.goals_settled(),
            Self::step_exhausted_rel(pre, post) || Self::step_goal_rel(pre, post)
                || Self::step_expand_rel(pre, post),
        ensures
            post.closed_relaxed(),
            post.goals_settled(),
    {
        let c = pre.spec_cartographer();
        if Self::step_exhausted_rel(pre, post) {
            assert(post.closed_relaxed());
            assert(post.goals_settled());
        } else if Self::step_goal_rel(pre, post) {
            let head = pre.open_list()[0];
            Self::lemma_skip1_contains(pre.open_list());
            assert forall|v: Node, j: int|
                post.infos().dom().contains(v) && !post.open_list().contains(v)
                    && !c.spec_is_goal(v) && 0 <= j < c.spec_adjacent(v).len() implies {
                let u = #[trigger] c.spec_adjacent(v)[j];
                &&& post.infos().dom().contains(u)
                &&& post.g(u) <= sat_add(post.g(v), c.spec_cost(v, u))
            } by {
                assert(v != head);
                assert(!pre.open_list().contains(v));
            }
            assert(post.closed_relaxed());
            assert forall|t: Node|
                #[trigger] post.infos().dom().contains(t) && c.spec_is_goal(t)
                    && !post.open_list().contains(t) implies post.spec_goal_node() is Some
                && post.g(post.spec_goal_node()->Some_0) <= post.g(t) by {
                if t != head {
                    assert(!pre.open_list().contains(t));
                    assert(pre.spec_goal_node() is Some);
                }
            }
            assert(post.goals_settled());
        } else {
            let head = pre.open_list()[0];
            Self::lemma_skip1_contains(pre.open_list());
            assert(!Self::improved(pre, head, head));
            assert forall|v: Node, j: int|
                post.infos().dom().contains(v) && !post.open_list().contains(v)
                    && !c.spec_is_goal(v) && 0 <= j < c.spec_adjacent(v).len() implies {
                let u = #[trigger] c.spec_adjacent(v)[j];
                &&& post.infos().dom().contains(u)
                &&& post.g(u) <= sat_add(post.g(v), c.spec_cost(v, u))
            } by {
                let u = c.spec_adjacent(v)[j];
                assert(c.spec_adjacent(v).contains(u));
                assert(!Self::improved(pre, head, v));
                if v == head {
                    assert(post.g(head) == pre.g(head));
                    if Self::improved(pre, head, u) {
                        assert(post.g(u) == Self::relaxed_info(pre, head, u).cost_from_start);
                    } else {
                        assert(pre.infos().dom().contains(u));
                        assert(pre.g(u) <= sat_add(pre.g(head), c.spec_cost(head, u)));
                        assert(post.g(u) == pre.g(u));
                    }
                } else {
                    assert(!pre.open_list().contains(v));
                    assert(pre.infos().dom().contains(v));
                    assert(post.g(v) == pre.g(v));
                    assert(pre.infos().dom().contains(u));
                    assert(pre.g(u) <= sat_add(pre.g(v), c.spec_cost(v, u)));
                    if Self::improved(pre, head, u) {
                        assert(post.g(u) < pre.g(u));
                    } else {
                        assert(post.g(u) == pre.g(u));
                    }
                }
            }
            assert(post.closed_relaxed());
            assert forall|t: Node|
                #[trigger] post.infos().dom().contains(t) && c.spec_is_goal(t)
                    && !post.open_list().contains(t) implies post.spec_goal_node() is Some
                && post.g(post.spec_goal_node()->Some_0) <= post.g(t) by {
                assert(t != head);
                assert(!Self::improved(pre, head, t));
                assert(!pre.open_list().contains(t));
                assert(pre.infos().dom().contains(t));
                assert(pre.spec_goal_node() is Some);
                let g0 = pre.spec_goal_node()->Some_0;
                assert(pre.g(g0) <= pre.g(t));
                if Self::improved(pre, head, g0) {
                    assert(post.g(g0) < pre.g(g0));
                } else {
                    assert(post.g(g0) == pre.g(g0));
                }
                assert(post.g(t) == pre.g(t));
            }
            assert(post.goals_settled());
        }
    }

    /// Optimality under an admissible heuristic: when a goal node is
    /// popped off the open list, the goal then recorded costs no more
    /// than any walk from the start to a goal whose earlier nodes are not
    /// goals themselves (any walk to a goal has such a prefix, costing no
    /// more when step costs are non-negative, as they are here)
    pub proof fn lemma_goal_cost_optimal(pre: Self, post: Self, w: Seq<Node>)
        requires
            pre.wf(),
            pre.closed_relaxed(),
            pre.goals_settled(),
            Self::step_goal_rel(pre, post),
            Self::admissible(pre.spec_cartographer()),
            Self::is_walk(pre.spec_cartographer(), w),
            pre.spec_start_node() == Some(w[0]),
            pre.spec_cartographer().spec_is_goal(w.last()),
            forall|j: int|
                0 <= j < w.len() - 1 ==> !(#[trigger] pre.spec_cartographer().spec_is_goal(
                    w[j],
                )),
        ensures
            post.spec_goal_node() is Some,
            post.g(post.spec_goal_node()->Some_0) <= Self::walk_cost(
                pre.spec_cartographer(),
                w,
            ),
    {
        let c = pre.spec_cartographer();
        let head = pre.open_list()[0];
        let s = w[0];
        assert(pre.infos().dom().contains(s) && pre.g(s) == 0);
        Self::lemma_prefix_cost_zero(c, w);
        pre.lemma_walk_reaches_open(w, 0);
        // The popped head's estimated total never exceeds its recorded
        // cost plus estimate, and its recorded cost never exceeds its
        // estimated total
        assert(pre.g(head) <= pre.f(head)) by {
            pre.lemma_node_cost_below_total(head);
        }
        if exists|j: int|
            0 <= j < w.len() && pre.open_list().contains(#[trigger] w[j]) && pre.g(w[j])
                <= Self::prefix_cost(c, w, j) {
            let j = choose|j: int|
                0 <= j < w.len() && pre.open_list().contains(#[trigger] w[j]) && pre.g(w[j])
                    <= Self::prefix_cost(c, w, j);
            let v = w[j];
            pre.lemma_head_is_cheapest(v);
            // The open node's estimate is covered by the walk's suffix
            let ws = w.skip(j);
            assert(Self::is_walk(c, ws)) by {
                assert forall|i: int|
                    0 <= i < ws.len() - 1 implies #[trigger] c.spec_adjacent(
                    ws[i],
                ).contains(ws[i + 1]) by {
                    assert(ws[i] == w[i + j]);
                    assert(ws[i + 1] == w[i + j + 1]);
                    assert(c.spec_adjacent(w[i + j]).contains(w[i + j + 1]));
                }
            }
            assert(ws[0] == v);
            assert(ws.last() == w.last());
            assert(c.spec_estimate(v) <= Self::walk_cost(c, ws));
            Self::lemma_walk_cost_split(c, w, j);
            pre.lemma_node_total_below_sum(v);
            assert(pre.f(head) <= pre.f(v));
            assert(pre.g(head) <= Self::walk_cost(c, w));
        } else {
            let t = w.last();
            assert(pre.infos().dom().contains(t) && pre.g(t) <= Self::walk_cost(c, w));
            if pre.open_list().contains(t) {
                pre.lemma_head_is_cheapest(t);
                // A goal's estimate is zero: the empty onward walk
                assert(c.spec_estimate(t) <= 0) by {
                    let single = seq![t];
                    assert(Self::is_walk(c, single));
                    assert(single.last() == t);
                    assert(Self::walk_cost(c, single) == 0);
                    assert(c.spec_estimate(single[0]) <= 0);
                }
                pre.lemma_node_total_below_sum(t);
                assert(pre.f(t) <= pre.g(t) + c.spec_estimate(t));
                assert(pre.g(head) <= Self::walk_cost(c, w));
            } else {
                assert(pre.spec_goal_node() is Some);
                let g0 = pre.spec_goal_node()->Some_0;
                assert(pre.g(g0) <= pre.g(t));
            }
        }
    }

    /// A walk costs nothing or more: every step cost is non-negative
    proof fn lemma_walk_cost_nonneg(c: C, w: Seq<Node>)
        ensures
            Self::walk_cost(c, w) >= 0,
        decreases w.len(),
    {
        if w.len() > 1 {
            Self::lemma_walk_cost_nonneg(c, w.drop_last());
        }
    }

    /// Every walk ending at a goal has a prefix that ends at its first
    /// goal and costs no more
    proof fn lemma_goal_free_prefix(c: C, w: Seq<Node>)
        requires
            Self::is_walk(c, w),
            c.spec_is_goal(w.last()),
        ensures
            exists|k: int|
                0 <= k < w.len() && c.spec_is_goal(#[trigger] w[k]) && (forall|j: int|
                    0 <= j < k ==> !c.spec_is_goal(#[trigger] w[j])) && Self::walk_cost(
                    c,
                    w.take(k + 1),
                ) <= Self::walk_cost(c, w),
        decreases w.len(),
    {
        if c.spec_is_goal(w[0]) {
            Self::lemma_walk_cost_nonneg(c, w);
            assert(w.take(1).len() == 1);
            let k: int = 0;
            assert(0 <= k < w.len() && c.spec_is_goal(w[k]) && (forall|j: int|
                0 <= j < k ==> !c.spec_is_goal(#[trigger] w[j])) && Self::walk_cost(
                c,
                w.take(k + 1),
            ) <= Self::walk_cost(c, w));
        } else {
            let ws = w.skip(1);
            assert(Self::is_walk(c, ws)) by {
                assert forall|i: int|
                    0 <= i < ws.len() - 1 implies #[trigger] c.spec_adjacent(
                    ws[i],
                ).contains(ws[i + 1]) by {
                    assert(ws[i] == w[i + 1]);
                    assert(ws[i + 1] == w[i + 2]);
                    assert(c.spec_adjacent(w[i + 1]).contains(w[i + 2]));
                }
            }
            assert(ws.last() == w.last());
            Self::lemma_goal_free_prefix(c, ws);
            let kk = choose|kk: int|
                0 <= kk < ws.len() && c.spec_is_goal(#[trigger] ws[kk]) && (forall|j: int|
                    0 <= j < kk ==> !c.spec_is_goal(#[trigger] ws[j])) && Self::walk_cost(
                    c,
                    ws.take(kk + 1),
                ) <= Self::walk_cost(c, ws);
            let k = kk + 1;
            let p = w.take(k + 1);
            assert(p.skip(1) =~= ws.take(kk + 1));
            Self::lemma_walk_cost_split(c, p, 1);
            Self::lemma_walk_cost_split(c, w, 1);
            assert(p.take(2) =~= w.take(2));
            assert(Self::prefix_cost(c, p, 1) == Self::prefix_cost(c, w, 1));
            assert(Self::walk_cost(c, p) == Self::prefix_cost(c, w, 1) + Self::walk_cost(
                c,
                ws.take(kk + 1),
            ));
            assert(Self::walk_cost(c, w) == Self::prefix_cost(c, w, 1) + Self::walk_cost(
                c,
                ws,
            ));
            assert(c.spec_is_goal(w[k]));
            assert forall|j: int| 0 <= j < k implies !c.spec_is_goal(#[trigger] w[j]) by {
                if j > 0 {
                    assert(ws[j - 1] == w[j]);
                    assert(!c.spec_is_goal(ws[j - 1]));
                }
            }
            assert(0 <= k < w.len() && c.spec_is_goal(w[k]) && (forall|j: int|
                0 <= j < k ==> !c.spec_is_goal(#[trigger] w[j])) && Self::walk_cost(
                c,
                w.take(k + 1),
            ) <= Self::walk_cost(c, w));
        }
    }

    /// Optimality under an admissible heuristic, for arbitrary walks:
    /// when a goal node is popped off the open list, the goal then
    /// recorded costs no more than any walk from the start to any goal
    pub proof fn lemma_goal_cost_optimal_any_walk(pre: Self, post: Self, w: Seq<Node>)
        requires
            pre.wf(),
            pre.closed_relaxed(),
            pre.goals_settled(),
            Self::step_goal_rel(pre, post),
            Self::admissible(pre.spec_cartographer()),
            Self::is_walk(pre.spec_cartographer(), w),
            pre.spec_start_node() == Some(w[0]),
            pre.spec_cartographer().spec_is_goal(w.last()),
        ensures
            post.spec_goal_node() is Some,
            post.g(post.spec_goal_node()->Some_0) <= Self::walk_cost(
                pre.spec_cartographer(),
                w,
            ),
    {
        let c = pre.spec_cartographer();
        Self::lemma_goal_free_prefix(c, w);
        let k = choose|k: int|
            0 <= k < w.len() && c.spec_is_goal(#[trigger] w[k]) && (forall|j: int|
                0 <= j < k ==> !c.spec_is_goal(#[trigger] w[j])) && Self::walk_cost(
                c,
                w.take(k + 1),
            ) <= Self::walk_cost(c, w);
        let p = w.take(k + 1);
        assert(Self::is_walk(c, p)) by {
            assert forall|i: int|
                0 <= i < p.len() - 1 implies #[trigger] c.spec_adjacent(p[i]).contains(
                p[i + 1],
            ) by {
                assert(p[i] == w[i]);
                assert(p[i + 1] == w[i + 1]);
                assert(c.spec_adjacent(w[i]).contains(w[i + 1]));
            }
        }
        assert(p[0] == w[0]);
        assert(p.last() == w[k]);
        assert forall|j: int| 0 <= j < p.len() - 1 implies !(#[trigger] c.spec_is_goal(
            p[j],
        )) by {
            assert(p[j] == w[j]);
        }
        Self::lemma_goal_cost_optimal(pre, post, p);
    }

    /// The recorded cost of a discovered node is achieved: prepending the
    /// start node to the node's reconstructed path gives a walk of the
    /// search space that ends at the node and costs no more than its
    /// `cost_from_start` says. Together with the optimality law this
    /// makes the recorded cost of the goal the cost of a shortest path.
    pub proof fn lemma_path_achieves_recorded_cost(self, n: Node)
        requires
            self.wf(),
            self.infos().dom().contains(n),
            self.g(n) < u64::MAX,
        ensures
            self.spec_start_node() is Some,
            Self::is_walk(
                self.spec_cartographer(),
                seq![self.spec_start_node()->Some_0] + self.chain_to(n),
            ),
            (seq![self.spec_start_node()->Some_0] + self.chain_to(n)).last() == n,
            Self::walk_cost(
                self.spec_cartographer(),
                seq![self.spec_start_node()->Some_0] + self.chain_to(n),
            ) <= self.g(n),
        decreases self.g(n), self.spec_rank()[n],
    {
        let c = self.spec_cartographer();
        if self.spec_start_node() is None {
            assert(false);
        }
        let s = self.spec_start_node()->Some_0;
        let w = seq![s] + self.chain_to(n);
        if self.parents().dom().contains(n) {
            let p = self.parents()[n];
            assert(self.g(n) >= sat_add(self.g(p), c.spec_cost(p, n)));
            assert(self.g(p) + c.spec_cost(p, n) <= self.g(n));
            self.lemma_path_achieves_recorded_cost(p);
            let wp = seq![s] + self.chain_to(p);
            assert(w =~= wp.push(n));
            assert(w.drop_last() =~= wp);
            assert(w[w.len() - 2] == wp.last());
            assert(w[w.len() - 1] == n);
            assert(Self::is_walk(c, w)) by {
                assert forall|i: int|
                    0 <= i < w.len() - 1 implies #[trigger] c.spec_adjacent(w[i]).contains(
                    w[i + 1],
                ) by {
                    if i < w.len() - 2 {
                        assert(w[i] == wp[i]);
                        assert(w[i + 1] == wp[i + 1]);
                        assert(c.spec_adjacent(wp[i]).contains(wp[i + 1]));
                    } else {
                        assert(w[i] == wp.last());
                        assert(wp.last() == p);
                        assert(c.spec_adjacent(p).contains(n));
                    }
                }
            }
        } else {
            assert(n == s);
            assert(self.chain_to(n) =~= Seq::<Node>::empty());
            assert(w =~= seq![s]);
            assert(w.len() == 1);
        }
    }

    /// A node's recorded cost never exceeds its estimated total
    proof fn lemma_node_cost_below_total(self, n: Node)
        requires
            self.wf(),
            self.infos().dom().contains(n),
        ensures
            self.g(n) <= self.f(n),
    {
        let s = self.spec_start_node()->Some_0;
        if n == s {
        } else {
            assert(self.parents().dom().contains(n));
            assert(self.f(n) == sat_add(
                self.g(n),
                self.spec_cartographer().spec_estimate(n),
            ));
        }
    }

    /// A node's estimated total never exceeds its recorded cost plus its
    /// estimate
    proof fn lemma_node_total_below_sum(self, n: Node)
        requires
            self.wf(),
            self.infos().dom().contains(n),
        ensures
            self.f(n) <= self.g(n) + self.spec_cartographer().spec_estimate(n),
    {
        let s = self.spec_start_node()->Some_0;
        if n == s {
        } else {
            assert(self.parents().dom().contains(n));
            assert(self.f(n) == sat_add(
                self.g(n),
                self.spec_cartographer().spec_estimate(n),
            ));
        }
    }

    /// The head of the open list has the lowest estimated total on it
    proof fn lemma_head_is_cheapest(self, v: Node)
        requires
            self.wf(),
            self.open_list().len() > 0,
            self.open_list().contains(v),
        ensures
            self.f(self.open_list()[0]) <= self.f(v),
    {
        let k = choose|k: int|
            0 <= k < self.open_list().len() && self.open_list()[k] == v;
        if k > 0 {
            assert(self.infos()[self.open_list()[0]].total_cost <= self.infos()[
                self.open_list()[k]].total_cost);
        }
    }

    /// How one `loop_once` call on an empty open list changes the engine:
    /// the search is marked exhausted and everything else is kept
    pub open spec fn step_exhausted_rel(pre: AStar<C>, post: AStar<C>) -> bool {
        &&& pre.open_list().len() == 0
        &&& post.spec_cartographer() == pre.spec_cartographer()
        &&& post.infos() == pre.infos()
        &&& post.parents() == pre.parents()
        &&& post.open_list() == pre.open_list()
        &&& post.spec_goal_node() == pre.spec_goal_node()
        &&& post.spec_best_node() == pre.spec_best_node()
        &&& post.spec_best_total_cost() == pre.spec_best_total_cost()
        &&& post.spec_list_empty()
        &&& post.spec_start_node() == pre.spec_start_node()
    }

    /// How one `loop_once` call that pops a goal node changes the engine:
    /// the popped node is recorded as the goal if it is the first goal
    /// found or strictly cheaper than the recorded one; the maps and the
    /// tracking are kept
    pub open spec fn step_goal_rel(pre: AStar<C>, post: AStar<C>) -> bool {
        let head = pre.open_list()[0];
        &&& pre.open_list().len() > 0
        &&& pre.spec_cartographer().spec_is_goal(head)
        &&& post.spec_cartographer() == pre.spec_cartographer()
        &&& post.infos() == pre.infos()
        &&& post.parents() == pre.parents()
        &&& post.open_list() == pre.open_list().skip(1)
        &&& post.spec_best_node() == pre.spec_best_node()
        &&& post.spec_best_total_cost() == pre.spec_best_total_cost()
        &&& post.spec_list_empty() == pre.spec_list_empty()
        &&& post.spec_start_node() == pre.spec_start_node()
        &&& post.spec_goal_node() == (match pre.spec_goal_node() {
            Some(g0) => if pre.g(g0) <= pre.g(head) {
                Some(g0)
            } else {
                Some(head)
            },
            None => Some(head),
        })
    }

    /// How one `loop_once` call that expands an ordinary node changes the
    /// engine: every adjacent node reached strictly more cheaply through
    /// the popped head is rebooked with the cost through the head, is
    /// given the head as parent and joins the open list; every other node
    /// is untouched; the best estimated total never worsens and changes
    /// only to the total of an improved node
    pub open spec fn step_expand_rel(pre: AStar<C>, post: AStar<C>) -> bool {
        let head = pre.open_list()[0];
        let c = pre.spec_cartographer();
        &&& pre.open_list().len() > 0
        &&& !c.spec_is_goal(head)
        &&& post.spec_cartographer() == c
        &&& post.spec_list_empty() == pre.spec_list_empty()
        &&& post.spec_goal_node() == pre.spec_goal_node()
        &&& post.spec_start_node() == pre.spec_start_node()
        &&& forall|a: Node| #[trigger]
            Self::improved(pre, head, a) ==> post.infos().dom().contains(a)
                && post.infos()[a] == Self::relaxed_info(pre, head, a)
                && post.parents().dom().contains(a) && post.parents()[a] == head
        &&& forall|n: Node|
            !(#[trigger] Self::improved(pre, head, n)) ==> (post.infos().dom().contains(n)
                <==> pre.infos().dom().contains(n)) && (pre.infos().dom().contains(n)
                ==> post.infos()[n] == pre.infos()[n]) && (post.parents().dom().contains(n)
                <==> pre.parents().dom().contains(n)) && (pre.parents().dom().contains(n)
                ==> post.parents()[n] == pre.parents()[n])
        &&& forall|n: Node|
            #![trigger post.open_list().contains(n)]
            #![trigger Self::improved(pre, head, n)]
            post.open_list().contains(n) <==> (pre.open_list().skip(1).contains(n)
                || Self::improved(pre, head, n))
        &&& post.spec_best_total_cost() <= pre.spec_best_total_cost()
        &&& forall|a: Node| #[trigger]
            Self::improved(pre, head, a) ==> post.spec_best_total_cost()
                <= Self::relaxed_info(pre, head, a).total_cost
        &&& ((post.spec_best_total_cost() == pre.spec_best_total_cost()
            && post.spec_best_node() == pre.spec_best_node()) || (exists|a: Node| #[trigger]
            Self::improved(pre, head, a) && post.spec_best_node() == Some(a)
                && post.spec_best_total_cost() == Self::relaxed_info(
                pre,
                head,
                a,
            ).total_cost))
    }

    /// Performs one step of the search: pops the node with the lowest
    /// estimated total cost and either marks the search exhausted (empty
    /// open list), records a found goal, or expands the node by relaxing
    /// the edges to its adjacent nodes. Returns false exactly when there
    /// is nothing more to do for this call: the open list was empty or a
    /// goal was popped. The best estimated total cost never increases.
    pub fn loop_once(&mut self) -> (r: bool)
        requires
            old(self).wf(),
        ensures
            final(self).wf(),
            final(self).spec_cartographer() == old(self).spec_cartographer(),
            final(self).spec_best_total_cost() <= old(self).spec_best_total_cost(),
            r == (old(self).open_list().len() > 0 && !old(
                self,
            ).spec_cartographer().spec_is_goal(old(self).open_list()[0])),
            old(self).open_list().len() == 0 ==> Self::step_exhausted_rel(
                *old(self),
                *final(self),
            ),
            old(self).open_list().len() > 0 && old(self).spec_cartographer().spec_is_goal(
                old(self).open_list()[0],
            ) ==> Self::step_goal_rel(*old(self), *final(self)),
            old(self).open_list().len() > 0 && !old(self).spec_cartographer().spec_is_goal(
                old(self).open_list()[0],
            ) ==> Self::step_expand_rel(*old(self), *final(self)),
    {
        let ghost pre = *old(self);
        if self.open_node_sorted_list.len() == 0 {
            self.list_empty = true;
            return false;
        }
        let node = self.open_node_sorted_list.remove(0);
        proof {
            pre.open_list().remove_ensures(0);
            assert(node == pre.open_list()[0]);
            assert(self.open_node_sorted_list@ =~= pre.open_list().skip(1));
            let q = self.open_node_sorted_list@;
            assert forall|x: int| 0 <= x < q.len() implies pre.infos().dom().contains(
                #[trigger] q[x],
            ) by {
                assert(q[x] == pre.open_list()[x + 1]);
            }
            assert forall|x: int, y: int| 0 <= x < y < q.len() implies pre.infos()[
                #[trigger] q[x]].total_cost <= pre.infos()[#[trigger] q[y]].total_cost && q[x]
                != q[y] by {
                assert(q[x] == pre.open_list()[x + 1]);
                assert(q[y] == pre.open_list()[y + 1]);
            }
        }
        let node_info = self.node_to_node_info_map.get(node).unwrap();
        if self.cartographer.is_goal_node(&node) {
            if let Some(goal_node) = self.goal_node_option {
                let goal_info = self.node_to_node_info_map.get(goal_node).unwrap();
                if goal_info.cost_from_start <= node_info.cost_from_start {
                    return false;
                }
            }
            self.goal_node_option = Some(node);
            return false;
        }
        let adjacent_nodes = self.cartographer.get_adjacent_nodes(&node);
        let ghost adj = adjacent_nodes@;
        let alen = adjacent_nodes.len();
        let mut idx: usize = 0;
        while idx < alen
            invariant
                0 <= idx <= alen,
                pre.wf(),
                pre.open_list().len() > 0,
                node == pre.open_list()[0],
                !pre.spec_cartographer().spec_is_goal(node),
                adj == pre.spec_cartographer().spec_adjacent(node),
                adjacent_nodes@ == adj,
                alen == adj.len(),
                self.wf(),
                self.spec_cartographer() == pre.spec_cartographer(),
                self.spec_goal_node() == pre.spec_goal_node(),
                self.spec_list_empty() == pre.spec_list_empty(),
                !self.spec_list_empty(),
                self.spec_start_node() == pre.spec_start_node(),
                self.infos().dom().contains(node),
                self.infos()[node] == pre.infos()[node],
                forall|a: Node| #[trigger]
                    Self::prefix_improved(pre, node, adj, idx as int, a)
                        ==> self.infos().dom().contains(a) && self.infos()[a]
                        == Self::relaxed_info(pre, node, a) && self.parents().dom().contains(
                        a,
                    ) && self.parents()[a] == node,
                forall|n: Node|
                    !(#[trigger] Self::prefix_improved(pre, node, adj, idx as int, n)) ==> (
                    self.infos().dom().contains(n) <==> pre.infos().dom().contains(n)) && (
                    pre.infos().dom().contains(n) ==> self.infos()[n] == pre.infos()[n]) && (
                    self.parents().dom().contains(n) <==> pre.parents().dom().contains(n))
                        && (pre.parents().dom().contains(n) ==> self.parents()[n]
                        == pre.parents()[n]),
                forall|n: Node|
                    #![trigger self.open_list().contains(n)]
                    #![trigger Self::prefix_improved(pre, node, adj, idx as int, n)]
                    self.open_list().contains(n) <==> (pre.open_list().skip(1).contains(n)
                        || Self::prefix_improved(pre, node, adj, idx as int, n)),
                self.spec_best_total_cost() <= pre.spec_best_total_cost(),
                forall|a: Node| #[trigger]
                    Self::prefix_improved(pre, node, adj, idx as int, a)
                        ==> self.spec_best_total_cost() <= Self::relaxed_info(
                        pre,
                        node,
                        a,
                    ).total_cost,
                (self.spec_best_total_cost() == pre.spec_best_total_cost()
                    && self.spec_best_node() == pre.spec_best_node()) || (exists|a: Node|
                    #[trigger]
                    Self::prefix_improved(pre, node, adj, idx as int, a)
                        && self.spec_best_node() == Some(a) && self.spec_best_total_cost()
                        == Self::relaxed_info(pre, node, a).total_cost),
            decreases alen - idx,
        {
            let ghost cur = *self;
            let to = adjacent_nodes[idx];
            proof {
                assert(Self::in_prefix(adj, idx + 1, to)) by {
                    assert(adj[idx as int] == to);
                }
                assert(adj.contains(to)) by {
                    assert(adj[idx as int] == to);
                }
            }
            self.relax_one(node, to);
            proof {
                Self::lemma_expand_invariant_step(pre, cur, *self, node, adj, idx as int, to);
            }
            idx = idx + 1;
        }
        proof {
            assert forall|a: Node|
                Self::prefix_improved(pre, node, adj, alen as int, a) <==> Self::improved(
                    pre,
                    node,
                    a,
                ) by {
                if Self::improved(pre, node, a) {
                    assert(adj.contains(a));
                    let j = choose|j: int| 0 <= j < adj.len() && adj[j] == a;
                    assert(Self::in_prefix(adj, alen as int, a));
                }
            }
            assert(Self::step_expand_rel(pre, *self));
        }
        true
    }

    /// One relaxation extends the expansion bookkeeping from the first
    /// `idx` adjacent nodes to the first `idx + 1`
    proof fn lemma_expand_invariant_step(
        pre: Self,
        cur: Self,
        post: Self,
        head: Node,
        adj: Seq<Node>,
        idx: int,
        to: Node,
    )
        requires
            adj == pre.spec_cartographer().spec_adjacent(head),
            0 <= idx < adj.len(),
            to == adj[idx],
            cur.spec_cartographer() == pre.spec_cartographer(),
            cur.infos().dom().contains(head),
            cur.infos()[head] == pre.infos()[head],
            forall|a: Node| #[trigger]
                Self::prefix_improved(pre, head, adj, idx, a) ==> cur.infos().dom().contains(
                    a,
                ) && cur.infos()[a] == Self::relaxed_info(pre, head, a)
                    && cur.parents().dom().contains(a) && cur.parents()[a] == head,
            forall|n: Node|
                !(#[trigger] Self::prefix_improved(pre, head, adj, idx, n)) ==> (
                cur.infos().dom().contains(n) <==> pre.infos().dom().contains(n)) && (
                pre.infos().dom().contains(n) ==> cur.infos()[n] == pre.infos()[n]) && (
                cur.parents().dom().contains(n) <==> pre.parents().dom().contains(n)) && (
                pre.parents().dom().contains(n) ==> cur.parents()[n] == pre.parents()[n]),
            forall|n: Node|
                #![trigger cur.open_list().contains(n)]
                #![trigger Self::prefix_improved(pre, head, adj, idx, n)]
                cur.open_list().contains(n) <==> (pre.open_list().skip(1).contains(n)
                    || Self::prefix_improved(pre, head, adj, idx, n)),
            cur.spec_best_total_cost() <= pre.spec_best_total_cost(),
            forall|a: Node| #[trigger]
                Self::prefix_improved(pre, head, adj, idx, a)
                    ==> cur.spec_best_total_cost() <= Self::relaxed_info(
                    pre,
                    head,
                    a,
                ).total_cost,
            (cur.spec_best_total_cost() == pre.spec_best_total_cost() && cur.spec_best_node()
                == pre.spec_best_node()) || (exists|a: Node| #[trigger]
                Self::prefix_improved(pre, head, adj, idx, a) && cur.spec_best_node()
                    == Some(a) && cur.spec_best_total_cost() == Self::relaxed_info(
                    pre,
                    head,
                    a,
                ).total_cost),
            post.infos().dom().contains(head),
            post.infos()[head] == cur.infos()[head],
            !Self::improved(cur, head, to) ==> post == cur,
            Self::improved(cur, head, to) ==> ({
                let info = Self::relaxed_info(cur, head, to);
                &&& post.infos() == cur.infos().insert(to, info)
                &&& post.parents() == cur.parents().insert(to, head)
                &&& (forall|n: Node|
                    post.open_list().contains(n) <==> (cur.open_list().contains(n) || n
                        == to))
                &&& (if info.total_cost < cur.spec_best_total_cost() {
                    post.spec_best_node() == Some(to) && post.spec_best_total_cost()
                        == info.total_cost
                } else {
                    post.spec_best_node() == cur.spec_best_node()
                        && post.spec_best_total_cost() == cur.spec_best_total_cost()
                })
            }),
        ensures
            post.infos().dom().contains(head),
            post.infos()[head] == pre.infos()[head],
            forall|a: Node| #[trigger]
                Self::prefix_improved(pre, head, adj, idx + 1, a)
                    ==> post.infos().dom().contains(a) && post.infos()[a]
                    == Self::relaxed_info(pre, head, a) && post.parents().dom().contains(a)
                    && post.parents()[a] == head,
            forall|n: Node|
                !(#[trigger] Self::prefix_improved(pre, head, adj, idx + 1, n)) ==> (
                post.infos().dom().contains(n) <==> pre.infos().dom().contains(n)) && (
                pre.infos().dom().contains(n) ==> post.infos()[n] == pre.infos()[n]) && (
                post.parents().dom().contains(n) <==> pre.parents().dom().contains(n)) && (
                pre.parents().dom().contains(n) ==> post.parents()[n] == pre.parents()[n]),
            forall|n: Node|
                #![trigger post.open_list().contains(n)]
                #![trigger Self::prefix_improved(pre, head, adj, idx + 1, n)]
                post.open_list().contains(n) <==> (pre.open_list().skip(1).contains(n)
                    || Self::prefix_improved(pre, head, adj, idx + 1, n)),
            post.spec_best_total_cost() <= pre.spec_best_total_cost(),
            forall|a: Node| #[trigger]
                Self::prefix_improved(pre, head, adj, idx + 1, a)
                    ==> post.spec_best_total_cost() <= Self::relaxed_info(
                    pre,
                    head,
                    a,
                ).total_cost,
            (post.spec_best_total_cost() == pre.spec_best_total_cost()
                && post.spec_best_node() == pre.spec_best_node()) || (exists|a: Node|
                #[trigger]
                Self::prefix_improved(pre, head, adj, idx + 1, a) && post.spec_best_node()
                    == Some(a) && post.spec_best_total_cost() == Self::relaxed_info(
                    pre,
                    head,
                    a,
                ).total_cost),
    {
        // Membership in the longer prefix: the old prefix plus this node
        assert forall|n: Node|
            #![trigger Self::prefix_improved(pre, head, adj, idx + 1, n)]
            #![trigger Self::prefix_improved(pre, head, adj, idx, n)]
            Self::prefix_improved(pre, head, adj, idx + 1, n) <==> (Self::prefix_improved(
                pre,
                head,
                adj,
                idx,
                n,
            ) || (n == to && Self::improved(pre, head, n))) by {
            if Self::in_prefix(adj, idx + 1, n) {
                let j = choose|j: int| 0 <= j < idx + 1 && adj[j] == n;
                if j < idx {
                    assert(Self::in_prefix(adj, idx, n));
                }
            }
            if Self::in_prefix(adj, idx, n) {
                let j = choose|j: int| 0 <= j < idx && adj[j] == n;
                assert(0 <= j < idx + 1 && adj[j] == n);
                assert(Self::in_prefix(adj, idx + 1, n));
            }
            if n == to {
                assert(adj[idx] == n);
                assert(Self::in_prefix(adj, idx + 1, n));
            }
        }
        assert(adj.contains(to)) by {
            assert(adj[idx] == to);
        }
        if Self::prefix_improved(pre, head, adj, idx, to) {
            // Already relaxed by an earlier occurrence: nothing improves
            assert(cur.infos()[to] == Self::relaxed_info(pre, head, to));
            assert(cur.g(head) == pre.g(head));
            assert(!Self::improved(cur, head, to));
            assert(post == cur);
        } else if Self::improved(pre, head, to) {
            // First improving occurrence: the relaxation fires
            assert(cur.g(head) == pre.g(head));
            assert(Self::improved(cur, head, to));
            assert(Self::relaxed_info(cur, head, to) == Self::relaxed_info(pre, head, to));
            let info = Self::relaxed_info(pre, head, to);
            assert(Self::prefix_improved(pre, head, adj, idx + 1, to));
            if info.total_cost < cur.spec_best_total_cost() {
            } else {
                assert(post.spec_best_total_cost() <= info.total_cost);
            }
        } else {
            // Not an improvement: the recorded path to this node stays
            assert(cur.g(head) == pre.g(head));
            assert(!Self::improved(cur, head, to));
            assert(post == cur);
        }
    }

    /// Relaxes the edge from `from` to `to`: if the path through `from`
    /// strictly improves on what is recorded for `to`, the bookkeeping,
    /// parent, open list and best-node tracking are updated; otherwise
    /// nothing changes.
    fn relax_one(&mut self, from: Node, to: Node)
        requires
            old(self).wf(),
            !old(self).spec_list_empty(),
            old(self).infos().dom().contains(from),
            old(self).spec_cartographer().spec_adjacent(from).contains(to),
        ensures
            final(self).wf(),
            final(self).spec_cartographer() == old(self).spec_cartographer(),
            final(self).spec_goal_node() == old(self).spec_goal_node(),
            final(self).spec_list_empty() == old(self).spec_list_empty(),
            final(self).spec_start_node() == old(self).spec_start_node(),
            final(self).infos().dom().contains(from),
            final(self).infos()[from] == old(self).infos()[from],
            !Self::improved(*old(self), from, to) ==> *final(self) == *old(self),
            Self::improved(*old(self), from, to) ==> {
                let info = Self::relaxed_info(*old(self), from, to);
                &&& final(self).infos() == old(self).infos().insert(to, info)
                &&& final(self).parents() == old(self).parents().insert(to, from)
                &&& (forall|n: Node|
                    final(self).open_list().contains(n) <==> (old(self).open_list().contains(
                        n,
                    ) || n == to))
                &&& (if info.total_cost < old(self).spec_best_total_cost() {
                    final(self).spec_best_node() == Some(to)
                        && final(self).spec_best_total_cost() == info.total_cost
                } else {
                    final(self).spec_best_node() == old(self).spec_best_node()
                        && final(self).spec_best_total_cost() == old(
                        self,
                    ).spec_best_total_cost()
                })
            },
    {
        let ghost pre = *old(self);
        let from_info = self.node_to_node_info_map.get(from).unwrap();
        let edge = self.cartographer.get_cost_to_adjacent_node(&from, &to);
        let new_cost = from_info.cost_from_start.saturating_add(edge);
        let improved: bool = match self.node_to_node_info_map.get(to) {
            Some(to_info) => new_cost < to_info.cost_from_start,
            None => true,
        };
        if !improved {
            return ;
        }
        proof {
            assert(Self::improved(pre, from, to));
        }
        // Drop any stale open-list entry for the node being relaxed
        let ghost q0 = self.open_node_sorted_list@;
        let qlen = self.open_node_sorted_list.len();
        let mut i: usize = 0;
        let mut pos: usize = qlen;
        while i < qlen
            invariant
                0 <= i <= qlen,
                self.open_node_sorted_list@ == q0,
                qlen == q0.len(),
                pos == qlen || (pos < i && q0[pos as int] == to),
                pos == qlen ==> forall|j: int| 0 <= j < i ==> q0[j] != to,
            decreases qlen - i,
        {
            if pos == qlen {
                let candidate = self.open_node_sorted_list[i];
                if candidate == to {
                    pos = i;
                }
            }
            i = i + 1;
        }
        if pos < qlen {
            self.open_node_sorted_list.remove(pos);
        }
        let ghost q1 = self.open_node_sorted_list@;
        proof {
            if pos == qlen && q0.contains(to) {
                let j = choose|j: int| 0 <= j < q0.len() && q0[j] == to;
                assert(false);
            }
            lemma_queue_drop(q0, q1, pos as int, to, pre.infos());
        }
        // Record the improved bookkeeping and parent
        let est = self.cartographer.estimate_cost_to_goal(&to);
        let total = new_cost.saturating_add(est);
        let new_info = NodeInfo { cost_from_start: new_cost, total_cost: total };
        self.node_to_node_info_map.insert(to, new_info);
        self.node_to_parent_node_map.insert(to, from);
        proof {
            self.rank@ = self.rank@.insert(to, self.rank@[from] + 1);
        }
        // Insert the node into the open list at its priority position:
        // after every entry whose estimated total does not exceed its own
        let qlen1 = self.open_node_sorted_list.len();
        let mut k: usize = 0;
        let mut ins: usize = qlen1;
        while k < qlen1
            invariant
                0 <= k <= qlen1,
                self.open_node_sorted_list@ == q1,
                qlen1 == q1.len(),
                self.node_to_node_info_map@ == pre.infos().insert(to, new_info),
                forall|x: int|
                    0 <= x < q1.len() ==> pre.infos().dom().contains(#[trigger] q1[x]),
                forall|x: int| 0 <= x < q1.len() ==> q1[x] != to,
                ins == qlen1 || (ins < k && self.node_to_node_info_map@[q1[ins as int]].total_cost
                    > total),
                ins == qlen1 ==> forall|j: int|
                    0 <= j < k ==> self.node_to_node_info_map@[#[trigger] q1[j]].total_cost
                        <= total,
                ins < qlen1 ==> forall|j: int|
                    0 <= j < ins ==> self.node_to_node_info_map@[#[trigger] q1[j]].total_cost
                        <= total,
            decreases qlen1 - k,
        {
            if ins == qlen1 {
                let node_k = self.open_node_sorted_list[k];
                let info_k = self.node_to_node_info_map.get(node_k).unwrap();
                if info_k.total_cost > total {
                    ins = k;
                }
            }
            k = k + 1;
        }
        self.open_node_sorted_list.insert(ins, to);
        // Track the cheapest estimated total seen so far
        if total < self.best_total_cost {
            self.best_node_option = Some(to);
            self.best_total_cost = total;
        }
        proof {
            let info = Self::relaxed_info(pre, from, to);
            assert(new_info == info);
            let infos1 = self.infos();
            assert(infos1 == pre.infos().insert(to, info));
            let q2 = self.open_node_sorted_list@;
            assert(q2 == q1.insert(ins as int, to));
            assert forall|x: int| 0 <= x < q1.len() implies #[trigger] q1[x] != to by {
                if q1[x] == to {
                    assert(q1.contains(to));
                }
            }
            assert forall|x: int| 0 <= x < q1.len() implies infos1.dom().contains(
                #[trigger] q1[x],
            ) && infos1[q1[x]] == pre.infos()[q1[x]] by {
                assert(pre.infos().dom().contains(q1[x]));
            }
            lemma_queue_insert(q1, q2, ins as int, to, infos1);
            // Open-list membership: the old entries plus the relaxed node
            assert forall|n: Node|
                q2.contains(n) <==> (pre.open_list().contains(n) || n == to) by {}
            Self::lemma_relax_wf(pre, *self, from, to, total);
        }
    }

    /// One improving relaxation keeps the engine well-formed: the updated
    /// maps, rank and best-node tracking satisfy every internal invariant
    proof fn lemma_relax_wf(pre: Self, post: Self, from: Node, to: Node, total: u64)
        requires
            pre.wf(),
            !pre.spec_list_empty(),
            pre.infos().dom().contains(from),
            Self::improved(pre, from, to),
            post.spec_cartographer() == pre.spec_cartographer(),
            post.spec_goal_node() == pre.spec_goal_node(),
            post.spec_list_empty() == pre.spec_list_empty(),
            post.spec_start_node() == pre.spec_start_node(),
            post.infos() == pre.infos().insert(to, Self::relaxed_info(pre, from, to)),
            post.parents() == pre.parents().insert(to, from),
            post.spec_rank() == pre.spec_rank().insert(
                to,
                (pre.spec_rank()[from] + 1) as nat,
            ),
            queue_in_dom(post.open_list(), post.infos()),
            queue_sorted(post.open_list(), post.infos()),
            queue_distinct(post.open_list()),
            total == Self::relaxed_info(pre, from, to).total_cost,
            if total < pre.spec_best_total_cost() {
                post.spec_best_node() == Some(to) && post.spec_best_total_cost() == total
            } else {
                post.spec_best_node() == pre.spec_best_node() && post.spec_best_total_cost()
                    == pre.spec_best_total_cost()
            },
        ensures
            post.wf(),
    {
        let c = pre.spec_cartographer();
        let info = Self::relaxed_info(pre, from, to);
        assert(info.cost_from_start >= pre.g(from));
        assert(to != from);
        if pre.spec_start_node() is None {
            assert(!pre.infos().dom().contains(from));
        }
        let s = pre.spec_start_node()->Some_0;
        assert(to != s);
        // The start bookkeeping survives: the relaxed node is not the
        // start, and it now has a parent
        assert(pre.infos().dom().contains(s));
        assert(post.g(s) == 0 && post.f(s) == 0);
        assert forall|n: Node| #[trigger]
            post.infos().dom().contains(n) implies n == s
            || post.parents().dom().contains(n) by {
            if n != to {
                assert(pre.infos().dom().contains(n));
            }
        }
        // Parent bookkeeping: adjacency, and recorded costs stay above
        // the cost through the recorded parent
        assert forall|n: Node| #[trigger]
            post.parents().dom().contains(n) implies {
            let p = post.parents()[n];
            &&& post.infos().dom().contains(n)
            &&& post.infos().dom().contains(p)
            &&& c.spec_adjacent(p).contains(n)
            &&& post.g(n) >= sat_add(post.g(p), c.spec_cost(p, n))
        } by {
            if n == to {
                assert(post.parents()[n] == from);
                assert(post.g(to) == sat_add(post.g(from), c.spec_cost(from, to)));
            } else {
                assert(pre.parents().dom().contains(n));
                let p = pre.parents()[n];
                assert(post.g(n) == pre.g(n));
                if p == to {
                    assert(pre.infos().dom().contains(to));
                    assert(post.g(to) < pre.g(to));
                    assert(sat_add(post.g(to), c.spec_cost(to, n)) <= sat_add(
                        pre.g(to),
                        c.spec_cost(to, n),
                    ));
                } else {
                    assert(post.g(p) == pre.g(p));
                }
            }
        }
        // Rank bookkeeping: the measure still descends along parents
        assert forall|n: Node| #[trigger]
            post.parents().dom().contains(n) implies {
            let p = post.parents()[n];
            post.g(p) < post.g(n) || (post.g(p) == post.g(n) && post.spec_rank()[p]
                < post.spec_rank()[n])
        } by {
            if n == to {
                assert(post.parents()[n] == from);
                assert(post.spec_rank()[to] == pre.spec_rank()[from] + 1);
                assert(post.spec_rank()[from] == pre.spec_rank()[from]);
            } else {
                assert(pre.parents().dom().contains(n));
                let p = pre.parents()[n];
                if p == to {
                    assert(pre.infos().dom().contains(to));
                    assert(pre.g(to) < pre.g(n) || pre.g(to) == pre.g(n));
                    assert(post.g(to) < pre.g(to));
                }
            }
        }
        // Total costs stay tied to accumulated cost plus estimate
        assert forall|n: Node| #[trigger]
            post.parents().dom().contains(n) implies post.f(n) == sat_add(
            post.g(n),
            c.spec_estimate(n),
        ) by {
            if n != to {
                assert(pre.parents().dom().contains(n));
            }
        }
        // Best-node tracking
        if total >= pre.spec_best_total_cost() {
            match pre.spec_best_node() {
                Some(b) => {
                    if b == to {
                        assert(pre.parents().dom().contains(to));
                        assert(pre.f(to) == sat_add(pre.g(to), c.spec_estimate(to)));
                        assert(post.g(to) < pre.g(to));
                        assert(total <= pre.f(to));
                        assert(total == pre.spec_best_total_cost());
                    }
                },
                None => {
                    assert(pre.spec_best_total_cost() == u64::MAX);
                },
            }
        }
        assert forall|n: Node| #[trigger]
            post.parents().dom().contains(n) implies post.f(n)
            >= post.spec_best_total_cost() by {
            if n != to {
                assert(pre.parents().dom().contains(n));
                assert(post.f(n) == pre.f(n));
            }
        }
        assert(post.infos().dom() =~= pre.infos().dom().insert(to));
        assert(post.parents().dom() =~= pre.parents().dom().insert(to));
    }
}

} // verus!
