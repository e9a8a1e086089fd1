//! Unit tests for the A* engine methods.

use com_croftsoft_core::astar::engine::AStar;
use com_croftsoft_core::astar::grid::GridCartographer;
use com_croftsoft_core::astar::node::Node;
use com_croftsoft_core::astar::node_info::NodeInfo;

fn test_subject_grid_cartographer() -> GridCartographer {
    GridCartographer {
        goal_node: Node::new(4, 0),
        blocked: Vec::new(),
        step_size: 1,
    }
}

#[test]
fn test_get_first_step() {
    let test_subject_astar = AStar::new(test_subject_grid_cartographer());
    let first_step_option = test_subject_astar.get_first_step();
    assert_eq!(first_step_option, None);
}

#[test]
fn test_get_path() {
    let test_subject_astar = AStar::new(test_subject_grid_cartographer());
    let path = test_subject_astar.get_path();
    assert_eq!(path, Vec::<Node>::new());
}

#[test]
fn test_is_goal_found() {
    let test_subject_astar = AStar::new(test_subject_grid_cartographer());
    assert!(!test_subject_astar.is_goal_found());
}

#[test]
fn test_loop_once() {
    let mut test_subject_astar = AStar::new(test_subject_grid_cartographer());
    assert!(!test_subject_astar.loop_once());
}

#[test]
fn test_reset() {
    let origin = Node::new(0, 0);
    let mut test_subject_astar = AStar::new(test_subject_grid_cartographer());
    // Dirty the state with a short search before resetting
    test_subject_astar.reset(origin);
    for _ in 0..20 {
        if !test_subject_astar.loop_once() {
            break;
        }
    }
    test_subject_astar.reset(origin);
    assert_eq!(test_subject_astar.best_total_cost(), u64::MAX);
    assert_eq!(test_subject_astar.goal_node(), None);
    assert!(!test_subject_astar.is_list_empty());
    assert_eq!(test_subject_astar.open_node_list(), vec![origin]);
    assert_eq!(test_subject_astar.node_info(&origin), Some(NodeInfo::default()));
    assert_eq!(test_subject_astar.parent_node(&origin), None);
}
