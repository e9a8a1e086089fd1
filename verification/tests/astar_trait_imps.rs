//! Unit tests for the grid cartographer implementations.

use com_croftsoft_core::astar::cartographer::Cartographer;
use com_croftsoft_core::astar::grid::chebyshev;
use com_croftsoft_core::astar::grid::GradientCartographer;
use com_croftsoft_core::astar::grid::GridCartographer;
use com_croftsoft_core::astar::node::Node;

fn test_goal_node() -> Node {
    Node::new(4, 0)
}

fn test_origin_node() -> Node {
    Node::new(0, 0)
}

fn test_subject_grid_cartographer() -> GridCartographer {
    GridCartographer {
        goal_node: test_goal_node(),
        blocked: Vec::new(),
        step_size: 1,
    }
}

fn test_subject_gradient_cartographer() -> GradientCartographer {
    GradientCartographer {
        goal_node: test_goal_node(),
        start_node: test_origin_node(),
        blocked: Vec::new(),
        init_step_size: 1,
    }
}

#[test]
fn test_estimate_cost_to_goal_for_gradient_cartographer() {
    assert_eq!(
        test_subject_gradient_cartographer().estimate_cost_to_goal(&test_origin_node()),
        4
    );
}

#[test]
fn test_estimate_cost_to_goal_for_grid_cartographer() {
    assert_eq!(
        test_subject_grid_cartographer().estimate_cost_to_goal(&test_origin_node()),
        4
    );
}

#[test]
fn test_get_adjacent_nodes_for_gradient_cartographer() {
    // At the start the step size is the initial one: the eight unit
    // neighbors, in scan order
    let actual = test_subject_gradient_cartographer().get_adjacent_nodes(&test_origin_node());
    let expected = vec![
        Node::new(-1, -1),
        Node::new(-1, 0),
        Node::new(-1, 1),
        Node::new(0, -1),
        Node::new(0, 1),
        Node::new(1, -1),
        Node::new(1, 0),
        Node::new(1, 1),
    ];
    assert_eq!(actual, expected);
    // Farther from the start the step grows with the distance, and the
    // goal snaps into reach
    let far = Node::new(3, 0);
    let actual_far = test_subject_gradient_cartographer().get_adjacent_nodes(&far);
    assert_eq!(actual_far, vec![test_goal_node()]);
}

#[test]
fn test_get_adjacent_nodes_for_grid_cartographer() {
    let actual = test_subject_grid_cartographer().get_adjacent_nodes(&test_origin_node());
    let expected = vec![
        Node::new(-1, -1),
        Node::new(-1, 0),
        Node::new(-1, 1),
        Node::new(0, -1),
        Node::new(0, 1),
        Node::new(1, -1),
        Node::new(1, 0),
        Node::new(1, 1),
    ];
    assert_eq!(actual, expected);
}

#[test]
fn test_get_cost_to_adjacent_node_for_gradient_cartographer() {
    assert_eq!(
        test_subject_gradient_cartographer()
            .get_cost_to_adjacent_node(&test_origin_node(), &Node::new(1, 1)),
        1
    );
}

#[test]
fn test_get_cost_to_adjacent_node_for_grid_cartographer() {
    assert_eq!(
        test_subject_grid_cartographer()
            .get_cost_to_adjacent_node(&test_origin_node(), &Node::new(1, 1)),
        1
    );
}

#[test]
fn test_is_goal_node_for_gradient_cartographer() {
    assert!(test_subject_gradient_cartographer().is_goal_node(&test_goal_node()));
    assert!(!test_subject_gradient_cartographer().is_goal_node(&test_origin_node()));
}

#[test]
fn test_is_goal_node_for_grid_cartographer() {
    assert!(test_subject_grid_cartographer().is_goal_node(&test_goal_node()));
    assert!(!test_subject_grid_cartographer().is_goal_node(&test_origin_node()));
}

#[test]
fn test_chebyshev_distance() {
    assert_eq!(chebyshev(&Node::new(0, 0), &Node::new(3, -4)), 4);
    assert_eq!(chebyshev(&Node::new(-2, 5), &Node::new(-2, 5)), 0);
    assert_eq!(chebyshev(&Node::new(i64::MIN, 0), &Node::new(i64::MAX, 0)), u64::MAX);
}

#[test]
fn test_blocked_cells_are_not_adjacent() {
    let cartographer = GridCartographer {
        goal_node: Node::new(100, 0),
        blocked: vec![Node::new(1, 0), Node::new(1, 1)],
        step_size: 1,
    };
    let actual = cartographer.get_adjacent_nodes(&Node::new(0, 0));
    let expected = vec![
        Node::new(-1, -1),
        Node::new(-1, 0),
        Node::new(-1, 1),
        Node::new(0, -1),
        Node::new(0, 1),
        Node::new(1, -1),
    ];
    assert_eq!(actual, expected);
}
