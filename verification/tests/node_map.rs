//! Unit tests for the node association map.

use com_croftsoft_core::astar::node::Node;
use com_croftsoft_core::astar::node_map::NodeMap;

#[test]
fn test_node_map_insert_and_get() {
    let mut map: NodeMap<u64> = NodeMap::new();
    let a = Node::new(1, 2);
    let b = Node::new(3, 4);
    assert_eq!(map.get(a), None);
    map.insert(a, 10);
    map.insert(b, 20);
    assert_eq!(map.get(a), Some(10));
    assert_eq!(map.get(b), Some(20));
    map.insert(a, 30);
    assert_eq!(map.get(a), Some(30));
    assert_eq!(map.get(b), Some(20));
    assert!(map.contains_key(a));
    assert!(!map.contains_key(Node::new(5, 6)));
}
