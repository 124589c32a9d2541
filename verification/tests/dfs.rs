use parallel_copy::{dfs_search, CfgGraph, Node};
use std::collections::HashMap;

#[test]
fn test_dfs_search() {
    let a = Node { id: 0 };
    let b = Node { id: 1 };
    let c = Node { id: 2 };
    let d = Node { id: 3 };
    let graph = CfgGraph {
        root: a,
        nodes: vec![a, b, c, d],
        edges: HashMap::from([
            (a.id, vec![b]),
            (b.id, vec![c]),
            (c.id, vec![b]),
            (c.id, vec![d]),
        ]),
    };
    let order = dfs_search(&graph);
    assert_eq!(
        order.pre,
        HashMap::from([(a.id, 0), (b.id, 1), (c.id, 2), (d.id, 3),])
    );
    assert_eq!(
        order.post,
        HashMap::from([(a.id, 3), (b.id, 2), (c.id, 1), (d.id, 0),])
    );
    assert_eq!(
        order.spanning_tree,
        HashMap::from([(a.id, b), (b.id, c), (c.id, d),])
    );
}

#[test]
fn lone_root_is_entered_and_left() {
    let root = Node { id: 7 };
    let graph = CfgGraph {
        root,
        nodes: vec![root],
        edges: HashMap::new(),
    };
    let order = dfs_search(&graph);
    assert_eq!(order.pre, HashMap::from([(7, 0)]));
    assert_eq!(order.post, HashMap::from([(7, 0)]));
    assert!(order.spanning_tree.is_empty());
}

#[test]
fn successors_are_walked_in_their_order() {
    let a = Node { id: 0 };
    let b = Node { id: 1 };
    let c = Node { id: 2 };
    let d = Node { id: 3 };
    // a -> b, a -> c, b -> d, c -> d
    let graph = CfgGraph {
        root: a,
        nodes: vec![a, b, c, d],
        edges: HashMap::from([(0, vec![b, c]), (1, vec![d]), (2, vec![d])]),
    };
    let order = dfs_search(&graph);
    assert_eq!(order.pre, HashMap::from([(0, 0), (1, 1), (3, 2), (2, 3)]));
    assert_eq!(order.post, HashMap::from([(3, 0), (1, 1), (2, 2), (0, 3)]));
    // From a the walk went on to b and then to c: c is recorded.
    assert_eq!(order.spanning_tree, HashMap::from([(0, c), (1, d)]));
}

#[test]
fn unreachable_nodes_get_no_number() {
    let a = Node { id: 0 };
    let b = Node { id: 1 };
    let c = Node { id: 2 };
    let graph = CfgGraph {
        root: a,
        nodes: vec![a, b, c],
        edges: HashMap::from([(0, vec![a]), (2, vec![b])]),
    };
    let order = dfs_search(&graph);
    assert_eq!(order.pre, HashMap::from([(0, 0)]));
    assert_eq!(order.post, HashMap::from([(0, 0)]));
    assert!(order.spanning_tree.is_empty());
}

#[test]
fn every_entered_node_is_left_with_distinct_numbers() {
    let nodes: Vec<Node> = (0..6).map(|id| Node { id }).collect();
    let graph = CfgGraph {
        root: nodes[0],
        nodes: nodes.clone(),
        edges: HashMap::from([
            (0, vec![nodes[1], nodes[2]]),
            (1, vec![nodes[3], nodes[0]]),
            (2, vec![nodes[3], nodes[4]]),
            (3, vec![nodes[1]]),
            (4, vec![nodes[5], nodes[2]]),
        ]),
    };
    let order = dfs_search(&graph);
    assert_eq!(order.pre.len(), 6);
    assert_eq!(order.post.len(), 6);
    let mut entered: Vec<usize> = order.pre.values().copied().collect();
    entered.sort();
    assert_eq!(entered, vec![0, 1, 2, 3, 4, 5]);
    let mut left: Vec<usize> = order.post.values().copied().collect();
    left.sort();
    assert_eq!(left, vec![0, 1, 2, 3, 4, 5]);
    assert_eq!(order.pre[&0], 0);
    assert_eq!(order.post[&0], 5);
}

#[test]
fn no_edge_leads_to_a_node_entered_after_its_source_was_left() {
    let nodes: Vec<Node> = (0..7).map(|id| Node { id }).collect();
    let edges: HashMap<usize, Vec<Node>> = HashMap::from([
        (0, vec![nodes[1], nodes[2]]),
        (1, vec![nodes[3], nodes[0]]),
        (2, vec![nodes[3], nodes[4], nodes[1]]),
        (3, vec![nodes[1], nodes[5]]),
        (4, vec![nodes[5], nodes[2], nodes[4]]),
        (6, vec![nodes[0]]),
    ]);
    let graph = CfgGraph {
        root: nodes[0],
        nodes: nodes.clone(),
        edges: edges.clone(),
    };
    let order = dfs_search(&graph);
    assert_eq!(order.pre.len(), 6);
    assert!(!order.pre.contains_key(&6));
    for (from, successors) in &edges {
        if !order.pre.contains_key(from) {
            continue;
        }
        for to in successors {
            let entered_later = order.pre[from] < order.pre[&to.id];
            let left_later = order.post[from] < order.post[&to.id];
            assert!(!(entered_later && left_later));
        }
    }
    for (from, to) in &order.spanning_tree {
        assert!(edges[from].contains(to));
        assert!(order.pre[from] < order.pre[&to.id]);
        assert!(order.post[&to.id] < order.post[from]);
    }
}
