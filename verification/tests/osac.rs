use srmp::osac::{cycle_edges, edge_next, edge_prev, frustrated_cost};

#[test]
fn cycle_edges_around_three_variables() {
    assert_eq!(edge_prev(0, 3), vec![2, 0]);
    assert_eq!(edge_prev(2, 3), vec![1, 2]);
    assert_eq!(edge_next(2, 3), vec![2, 0]);
    assert_eq!(edge_next(0, 3), vec![0, 1]);
    assert_eq!(cycle_edges(3), vec![vec![0, 1], vec![1, 2], vec![2, 0]]);
    for var in 0..3 {
        let prev = edge_prev(var, 3);
        assert_eq!(edge_next(prev[0], 3), prev);
    }
}

#[test]
fn frustrated_cycle_costs() {
    // edges not closing the cycle cost 1 on different labels
    assert_eq!(frustrated_cost(1, 0, 0, 1), 1);
    assert_eq!(frustrated_cost(1, 0, 1, 1), 0);
    // the edge back to the first variable costs 1 on equal labels
    assert_eq!(frustrated_cost(0, 0, 1, 1), 1);
    assert_eq!(frustrated_cost(0, 0, 0, 1), 0);
}
