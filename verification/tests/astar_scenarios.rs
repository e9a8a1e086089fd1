//! End-to-end searches over small grid worlds.

use com_croftsoft_core::astar::cartographer::Cartographer;
use com_croftsoft_core::astar::engine::AStar;
use com_croftsoft_core::astar::grid::chebyshev;
use com_croftsoft_core::astar::grid::GradientCartographer;
use com_croftsoft_core::astar::grid::GridCartographer;
use com_croftsoft_core::astar::grid::JumpGridCartographer;
use com_croftsoft_core::astar::node::Node;

const LOOP_COUNT_MAX: usize = 100_000;

/// Drives the search until `loop_once` reports nothing more to do
fn run_search<C: Cartographer>(astar: &mut AStar<C>) -> usize {
    let mut loop_count: usize = 0;
    while astar.loop_once() {
        loop_count += 1;
        assert!(loop_count < LOOP_COUNT_MAX, "the search did not terminate");
    }
    loop_count
}

/// The eight cells around a node
fn ring_around(node: Node) -> Vec<Node> {
    let mut cells = Vec::new();
    for dx in -1..2i64 {
        for dy in -1..2i64 {
            if dx != 0 || dy != 0 {
                cells.push(Node::new(node.x + dx, node.y + dy));
            }
        }
    }
    cells
}

/// The border cells of the rectangle from (x_min, y_min) to (x_max, y_max)
fn fence(x_min: i64, x_max: i64, y_min: i64, y_max: i64) -> Vec<Node> {
    let mut cells = Vec::new();
    for x in x_min..=x_max {
        cells.push(Node::new(x, y_min));
        cells.push(Node::new(x, y_max));
    }
    for y in y_min..=y_max {
        cells.push(Node::new(x_min, y));
        cells.push(Node::new(x_max, y));
    }
    cells
}

#[test]
fn test_detour_around_wall() {
    // A single-column wall blocks the straight line to the goal: the
    // search must detour around it, in five unit steps instead of four
    let start = Node::new(100, 100);
    let goal = Node::new(104, 100);
    let blocked = vec![Node::new(101, 99), Node::new(101, 100), Node::new(101, 101)];
    let cartographer = GridCartographer {
        goal_node: goal,
        blocked,
        step_size: 1,
    };
    let mut astar = AStar::new(cartographer);
    astar.reset(start);
    run_search(&mut astar);
    assert!(astar.is_goal_found());
    let path = astar.get_path();
    assert_eq!(path.len(), 5);
    assert_eq!(*path.last().unwrap(), goal);
    // The recorded cost is the cost of the true shortest detour
    assert_eq!(astar.node_info(&goal).unwrap().cost_from_start, 5);
    let first_step = astar.get_first_step().unwrap();
    assert_eq!(first_step, path[0]);
    assert_eq!(chebyshev(&start, &first_step), 1);
}

#[test]
fn test_walled_in_goal_is_not_found() {
    // The goal is fenced in on all eight sides inside a finite world:
    // the search exhausts the open list without finding it
    let start = Node::new(100, 100);
    let goal = Node::new(104, 100);
    let mut blocked = ring_around(goal);
    blocked.extend(fence(95, 110, 95, 105));
    let cartographer = GridCartographer {
        goal_node: goal,
        blocked,
        step_size: 1,
    };
    let mut astar = AStar::new(cartographer);
    astar.reset(start);
    run_search(&mut astar);
    assert!(!astar.is_goal_found());
    assert!(astar.is_list_empty());
}

#[test]
fn test_jump_node_reaches_walled_in_goal() {
    // The goal is fenced in, but a jump node teleports straight to it:
    // the path walks to the jump node and then jumps
    let start = Node::new(100, 100);
    let goal = Node::new(104, 100);
    let jump = Node::new(100, 103);
    let cartographer = JumpGridCartographer {
        goal_node: goal,
        jump_node: jump,
        blocked: ring_around(goal),
    };
    let mut astar = AStar::new(cartographer);
    astar.reset(start);
    run_search(&mut astar);
    assert!(astar.is_goal_found());
    let path = astar.get_path();
    assert_eq!(path.len() as u64, chebyshev(&start, &jump) + 1);
    assert_eq!(*path.last().unwrap(), goal);
}

#[test]
fn test_cheaper_jump_route_wins() {
    // No obstacles and the goal three steps away, but a jump node two
    // steps off to one side teleports to the goal at no cost: the
    // three-element jump route beats the direct three-step walk
    let start = Node::new(100, 100);
    let goal = Node::new(103, 100);
    let jump = Node::new(102, 101);
    let cartographer = JumpGridCartographer {
        goal_node: goal,
        jump_node: jump,
        blocked: Vec::new(),
    };
    let mut astar = AStar::new(cartographer);
    astar.reset(start);
    run_search(&mut astar);
    assert!(astar.is_goal_found());
    let path = astar.get_path();
    assert_eq!(path.len(), 3);
    assert_eq!(*path.last().unwrap(), goal);
    assert_eq!(astar.node_info(&goal).unwrap().cost_from_start, 2);
}

#[test]
fn test_best_total_cost_never_increases() {
    // Within one search the best estimated total only ever goes down
    let start = Node::new(100, 100);
    let goal = Node::new(104, 100);
    let blocked = vec![Node::new(101, 99), Node::new(101, 100), Node::new(101, 101)];
    let cartographer = GridCartographer {
        goal_node: goal,
        blocked,
        step_size: 1,
    };
    let mut astar = AStar::new(cartographer);
    astar.reset(start);
    let mut previous = astar.best_total_cost();
    let mut loop_count: usize = 0;
    while astar.loop_once() {
        let current = astar.best_total_cost();
        assert!(current <= previous);
        previous = current;
        loop_count += 1;
        assert!(loop_count < LOOP_COUNT_MAX);
    }
}

#[test]
fn test_search_terminates_on_finite_world() {
    // In a fenced-in finite world repeated stepping always reaches a
    // call that reports nothing more to do
    let start = Node::new(100, 100);
    let goal = Node::new(120, 120);
    let cartographer = GridCartographer {
        goal_node: goal,
        blocked: fence(95, 110, 95, 105),
        step_size: 1,
    };
    let mut astar = AStar::new(cartographer);
    astar.reset(start);
    let loop_count = run_search(&mut astar);
    assert!(loop_count < LOOP_COUNT_MAX);
    assert!(!astar.is_goal_found());
    assert!(astar.is_list_empty());
}

#[test]
fn test_unobstructed_straight_line() {
    // With nothing in the way the path is the straight line, one node
    // per unit step, ending at the goal
    let start = Node::new(0, 0);
    let goal = Node::new(4, 0);
    let cartographer = GridCartographer {
        goal_node: goal,
        blocked: Vec::new(),
        step_size: 1,
    };
    let mut astar = AStar::new(cartographer);
    astar.reset(start);
    run_search(&mut astar);
    assert!(astar.is_goal_found());
    let path = astar.get_path();
    assert_eq!(path.len(), 4);
    assert_eq!(*path.last().unwrap(), goal);
    assert_eq!(astar.node_info(&goal).unwrap().cost_from_start, 4);
}

#[test]
fn test_gradient_search_reaches_goal() {
    // The gradient cartographer strides farther as the search leaves the
    // start; every move still costs its distance, so the recorded cost
    // of the goal is the straight-line distance
    let start = Node::new(0, 0);
    let goal = Node::new(9, 0);
    let cartographer = GradientCartographer {
        goal_node: goal,
        start_node: start,
        blocked: Vec::new(),
        init_step_size: 1,
    };
    let mut astar = AStar::new(cartographer);
    astar.reset(start);
    run_search(&mut astar);
    assert!(astar.is_goal_found());
    let path = astar.get_path();
    assert_eq!(*path.last().unwrap(), goal);
    assert_eq!(astar.node_info(&goal).unwrap().cost_from_start, 9);
}

#[test]
fn test_path_is_a_parent_chain() {
    // Consecutive path nodes are linked by the recorded parents and are
    // one step apart
    let start = Node::new(100, 100);
    let goal = Node::new(104, 100);
    let blocked = vec![Node::new(101, 99), Node::new(101, 100), Node::new(101, 101)];
    let cartographer = GridCartographer {
        goal_node: goal,
        blocked,
        step_size: 1,
    };
    let mut astar = AStar::new(cartographer);
    astar.reset(start);
    run_search(&mut astar);
    let path = astar.get_path();
    assert!(path.len() > 0);
    assert_eq!(astar.parent_node(&path[0]), Some(start));
    for i in 1..path.len() {
        assert_eq!(astar.parent_node(&path[i]), Some(path[i - 1]));
        assert!(chebyshev(&path[i - 1], &path[i]) == 1);
    }
}
