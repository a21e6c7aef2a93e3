use raug_fft::order::topological_order;
use raug_fft::processor::PortRef;

fn from(node: usize) -> Option<PortRef> {
    Some(PortRef { node, port: 0 })
}

#[test]
fn empty_graph_has_the_empty_order() {
    assert_eq!(topological_order(&Vec::new()), Some(Vec::new()));
}

#[test]
fn nodes_without_edges_keep_their_order() {
    let incoming = vec![vec![], vec![None], vec![None, None]];
    assert_eq!(topological_order(&incoming), Some(vec![0, 1, 2]));
}

#[test]
fn every_node_comes_after_its_sources() {
    // 3 -> 2 -> 0, 3 -> 1 -> 0
    let incoming = vec![vec![from(2), from(1)], vec![from(3)], vec![from(3)], vec![]];
    let order = topological_order(&incoming).expect("no cycle");
    assert_eq!(order, vec![3, 1, 2, 0]);
    for (place, node) in order.iter().enumerate() {
        for source in incoming[*node].iter().flatten() {
            let earlier = order.iter().position(|n| *n == source.node).unwrap();
            assert!(earlier < place);
        }
    }
}

#[test]
fn a_chain_against_the_indices_is_ordered() {
    // 4 -> 3 -> 2 -> 1 -> 0
    let incoming = vec![vec![from(1)], vec![from(2)], vec![from(3)], vec![from(4)], vec![]];
    assert_eq!(topological_order(&incoming), Some(vec![4, 3, 2, 1, 0]));
}

#[test]
fn a_cycle_has_no_order() {
    let incoming = vec![vec![from(2)], vec![from(0)], vec![from(1)]];
    assert_eq!(topological_order(&incoming), None);
    // a node that drives itself
    assert_eq!(topological_order(&vec![vec![from(0)]]), None);
    // a cycle beside nodes that could be ordered
    let incoming = vec![vec![], vec![from(0), from(2)], vec![from(1)], vec![from(0)]];
    assert_eq!(topological_order(&incoming), None);
}
