use srmp::cfn::cost_function_network::{CostFunctionNetwork, FactorOrigin, FactorScope};
use srmp::cfn::relaxation::{EdgeDirection, Relaxation};
use srmp::cfn::srmp::{initial_bound_factors, FactorSequence, NodeEdgeAttrs};

fn chain() -> CostFunctionNetwork<Vec<f64>> {
    let mut cfn = CostFunctionNetwork::from_domain_sizes(&vec![2, 2, 2], true, 2);
    cfn.add_factor(FactorScope::new(vec![0, 1], 4, vec![0.0; 4]));
    cfn.add_factor(FactorScope::new(vec![1, 2], 4, vec![0.0; 4]));
    cfn
}

#[test]
fn minimal_edges_relaxation() {
    let cfn = chain();
    let relaxation = Relaxation::new(&cfn);
    assert_eq!(relaxation.node_count(), 5);
    assert_eq!(relaxation.edge_count(), 4);
    assert_eq!(*relaxation.factor_origin(1), FactorOrigin::Variable(1));
    assert_eq!(*relaxation.factor_origin(4), FactorOrigin::NonUnaryFactor(1));
    assert!(relaxation.is_unary_factor(2));
    assert!(!relaxation.is_unary_factor(3));
    assert_eq!(relaxation.edge_endpoints(2), (4, 1));
    assert_eq!(relaxation.edges_directed(1, EdgeDirection::Incoming), vec![(2, 4, 1), (1, 3, 1)]);
    assert_eq!(relaxation.edges_directed(3, EdgeDirection::Outgoing), vec![(1, 3, 1), (0, 3, 0)]);
    assert_eq!(relaxation.neighbors(1, EdgeDirection::Incoming), vec![4, 3]);
    assert!(relaxation.has_edges(0, EdgeDirection::Incoming));
    assert!(!relaxation.has_edges(3, EdgeDirection::Incoming));
    assert_eq!(relaxation.edge_data(0).index_first(), &vec![0, 2]);
    assert_eq!(relaxation.edge_data(0).index_second(), &vec![0, 1]);
}

#[test]
fn factor_sequence_holds_unary_and_entered_factors() {
    let cfn = chain();
    let relaxation = Relaxation::new(&cfn);
    let sequence = FactorSequence::new(&relaxation).sort();
    assert_eq!(sequence.iter(), &[0, 1, 2]);
}

#[test]
fn node_edge_attrs_on_chain() {
    let cfn = chain();
    let relaxation = Relaxation::new(&cfn);
    let sequence = FactorSequence::new(&relaxation).sort();
    let attrs = NodeEdgeAttrs::new(&relaxation, &sequence);
    // edges: 0 = 3->0, 1 = 3->1, 2 = 4->1, 3 = 4->2
    let backward: Vec<bool> = (0..4).map(|e| attrs.edge_is_backward(e)).collect();
    let update: Vec<bool> = (0..4).map(|e| attrs.edge_is_update_lb(e)).collect();
    let forward: Vec<bool> = (0..4).map(|e| attrs.edge_is_forward(e)).collect();
    assert_eq!(backward, vec![false, true, false, true]);
    assert_eq!(update, vec![true, false, true, false]);
    assert_eq!(forward, vec![true, false, true, false]);
    let wf: Vec<usize> = (0..5).map(|x| attrs.node_weight_forward(x)).collect();
    let wb: Vec<usize> = (0..5).map(|x| attrs.node_weight_backward(x)).collect();
    let wu: Vec<usize> = (0..5).map(|x| attrs.node_weight_update_lb(x)).collect();
    let flags: Vec<bool> = (0..5).map(|x| attrs.node_is_update_lb(x)).collect();
    assert_eq!(wf, vec![1, 1, 1, 0, 0]);
    assert_eq!(wb, vec![1, 1, 1, 0, 0]);
    assert_eq!(wu, vec![1, 0, 0, 0, 0]);
    assert_eq!(flags, vec![true, true, true, false, false]);
}

#[test]
fn node_edge_attrs_zero() {
    let attrs = NodeEdgeAttrs::zero(2, 3);
    assert!(!attrs.edge_is_forward(2));
    assert!(!attrs.node_is_update_lb(1));
    assert_eq!(attrs.node_weight_backward(0), 0);
}

#[test]
fn no_isolated_factor_in_minimal_edges_relaxation() {
    // every factor over two variables has edges to its variables
    let cfn = chain();
    let relaxation = Relaxation::new(&cfn);
    assert_eq!(initial_bound_factors(&relaxation), Vec::<usize>::new());
}
