//! Unit tests for the A* node-information comparison operations.

use com_croftsoft_core::astar::node_info::NodeInfo;
use std::cmp::Ordering;

fn node_info_0() -> NodeInfo {
    NodeInfo {
        cost_from_start: 0,
        total_cost: 0,
    }
}

fn node_info_1() -> NodeInfo {
    NodeInfo {
        cost_from_start: 0,
        total_cost: 1,
    }
}

#[test]
fn test_eq() {
    assert!(node_info_0() != node_info_1());
}

#[test]
fn test_ge() {
    assert!(node_info_1() >= node_info_0());
}

#[test]
fn test_gt() {
    assert!(node_info_1() > node_info_0());
}

#[test]
fn test_le() {
    assert!(node_info_0() <= node_info_1());
}

#[test]
fn test_lt() {
    assert!(node_info_0() < node_info_1());
}

#[test]
fn test_partial_cmp() {
    assert_eq!(node_info_0().partial_cmp(&node_info_1()), Some(Ordering::Less));
}

#[test]
fn test_default() {
    assert_eq!(
        NodeInfo::default(),
        NodeInfo {
            cost_from_start: 0,
            total_cost: 0,
        }
    );
}

#[test]
fn test_test_default() {
    let default = NodeInfo::default();
    assert_eq!(default.cost_from_start, 0);
    assert_eq!(default.total_cost, 0);
}
