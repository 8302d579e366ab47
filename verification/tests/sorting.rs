use cpreproc::toposort::{topo_sort, CycleDetected};

fn pos(order: &[usize], x: usize) -> usize {
    order.iter().position(|&v| v == x).unwrap()
}

#[test]
fn chain_order_is_extraction_order() {
    let nodes: Vec<usize> = vec![0, 1, 2];
    let edges: Vec<(usize, usize)> = vec![(0, 1), (1, 2)];
    let order = topo_sort(&nodes, &edges).unwrap();
    assert_eq!(order, vec![0, 1, 2]);
}

#[test]
fn every_edge_respected_in_diamond() {
    let nodes: Vec<usize> = vec![0, 1, 2, 3];
    let edges: Vec<(usize, usize)> = vec![(0, 1), (0, 2), (1, 3), (2, 3)];
    let order = topo_sort(&nodes, &edges).unwrap();
    for &(a, b) in &edges {
        assert!(pos(&order, a) < pos(&order, b));
    }
    assert_eq!(order, vec![0, 1, 2, 3]);
}

#[test]
fn cycle_is_reported() {
    let nodes: Vec<usize> = vec![1, 2];
    let edges: Vec<(usize, usize)> = vec![(1, 2), (2, 1)];
    assert_eq!(topo_sort(&nodes, &edges), Err(CycleDetected));
}

#[test]
fn larger_cycle_is_reported() {
    let nodes: Vec<usize> = vec![0, 1, 2, 3];
    let edges: Vec<(usize, usize)> = vec![(0, 1), (1, 2), (2, 3), (3, 1)];
    assert_eq!(topo_sort(&nodes, &edges), Err(CycleDetected));
}

#[test]
fn acyclic_graph_is_not_flagged() {
    let nodes: Vec<usize> = vec![5, 9, 11];
    let edges: Vec<(usize, usize)> = vec![(5, 11), (9, 11)];
    assert!(topo_sort(&nodes, &edges).is_ok());
}

#[test]
fn empty_graph_sorts_to_empty() {
    let nodes: Vec<usize> = Vec::new();
    let edges: Vec<(usize, usize)> = Vec::new();
    assert_eq!(topo_sort(&nodes, &edges).unwrap(), Vec::<usize>::new());
}

#[test]
fn single_node_sorts_to_itself() {
    let nodes: Vec<usize> = vec![7];
    let edges: Vec<(usize, usize)> = Vec::new();
    assert_eq!(topo_sort(&nodes, &edges).unwrap(), vec![7]);
}

#[test]
fn ties_break_by_node_order() {
    let nodes: Vec<usize> = vec![3, 1, 2];
    let edges: Vec<(usize, usize)> = Vec::new();
    assert_eq!(topo_sort(&nodes, &edges).unwrap(), vec![3, 1, 2]);
}
