use srmp::data_structures::hypergraph::{Hypergraph, UndirectedHypergraph};

#[test]
fn incident_hyperedges_are_those_with_the_node_as_endpoint() {
    let mut graph: UndirectedHypergraph<u32, char> = UndirectedHypergraph::from_node_data(vec![10, 11, 12, 13], 3);
    assert_eq!(graph.add_hyperedge(vec![0, 1, 2], 'a'), 0);
    assert_eq!(graph.add_hyperedge(vec![1, 3], 'b'), 1);
    assert_eq!(graph.add_hyperedge(vec![2, 3], 'c'), 2);
    assert_eq!(graph.num_nodes(), 4);
    assert_eq!(graph.num_hyperedges(), 3);
    assert_eq!(graph.iter_incident_hyperedge_indices(0), &[0]);
    assert_eq!(graph.iter_incident_hyperedge_indices(1), &[0, 1]);
    assert_eq!(graph.iter_incident_hyperedge_indices(2), &[0, 2]);
    assert_eq!(graph.iter_incident_hyperedge_indices(3), &[1, 2]);
    for v in graph.iter_node_indices() {
        for e in graph.iter_hyperedge_indices() {
            assert_eq!(
                graph.iter_incident_hyperedge_indices(v).contains(&e),
                graph.hyperedge_endpoints(e).contains(&v)
            );
        }
    }
    assert_eq!(*graph.node_data(2), 12);
    assert_eq!(*graph.hyperedge_data(1), 'b');
    assert_eq!(graph.add_node(14), 4);
    assert_eq!(graph.iter_incident_hyperedge_indices(4), &[] as &[usize]);
}
