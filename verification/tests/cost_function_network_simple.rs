use srmp::cfns::cost_function_network_simple::CostFunctionNetwork;

#[test]
fn cost_function_network_simple_new() {
    let cfn: CostFunctionNetwork<f64> = CostFunctionNetwork::new();
    assert_eq!(*cfn.cost_nullary(), 0.0);
    assert_eq!(cfn.num_variables(), 0);
}

#[test]
fn from_domain_sizes() {
    let mut base: CostFunctionNetwork<f64> = CostFunctionNetwork::new();
    let cfn = base.from_domain_sizes(&vec![2, 0, 3]);
    assert_eq!(cfn.num_variables(), 3);
    assert_eq!(cfn.domain_size(0), 2);
    assert_eq!(cfn.domain_size(1), 0);
    assert_eq!(cfn.domain_size(2), 3);
    assert_eq!(*cfn.cost_unary(2, 1), 0.0);
    assert!(cfn.costs_binary_at(0, 1).is_empty());
    assert_eq!(base.num_variables(), 0);
}

#[test]
fn from_costs() {
    let mut base: CostFunctionNetwork<f64> = CostFunctionNetwork::new();
    let cfn = base.from_costs(1.5, vec![vec![0.5, 2.0], vec![], vec![3.0]]);
    assert_eq!(*cfn.cost_nullary(), 1.5);
    assert_eq!(cfn.num_variables(), 3);
    assert_eq!(cfn.domain_size(0), 2);
    assert_eq!(cfn.domain_size(1), 0);
    assert_eq!(*cfn.cost_unary(0, 1), 2.0);
    assert_eq!(*cfn.cost_unary(2, 0), 3.0);
}

#[test]
fn set_cost_nullary() {
    let cfn: CostFunctionNetwork<f64> = CostFunctionNetwork::new().set_cost_nullary(4.25);
    assert_eq!(*cfn.cost_nullary(), 4.25);
    assert_eq!(cfn.num_variables(), 0);
}

#[test]
fn add_variable() {
    let cfn: CostFunctionNetwork<f64> = CostFunctionNetwork::new().add_variable().add_variable();
    assert_eq!(cfn.num_variables(), 2);
    assert_eq!(cfn.domain_size(1), 0);
}

#[test]
fn add_label() {
    let cfn: CostFunctionNetwork<f64> =
        CostFunctionNetwork::new().add_variable().add_variable().add_label(1).add_label(1);
    assert_eq!(cfn.domain_size(0), 0);
    assert_eq!(cfn.domain_size(1), 2);
    assert_eq!(*cfn.cost_unary(1, 1), 0.0);
    assert!(cfn.costs_higher_order_at(1, 0).is_empty());
}

#[test]
fn set_cost_unary() {
    let cfn: CostFunctionNetwork<f64> =
        CostFunctionNetwork::new().add_variable().add_label(0).add_label(0).set_cost_unary(0, 1, -2.0);
    assert_eq!(*cfn.cost_unary(0, 1), -2.0);
    assert_eq!(*cfn.cost_unary(0, 0), 0.0);
}

#[test]
fn add_cost_binary() {
    let mut base: CostFunctionNetwork<f64> = CostFunctionNetwork::new();
    let cfn = base
        .from_domain_sizes(&vec![2, 2])
        .add_cost_binary([(0, 1), (1, 0)], 7.0)
        .add_cost_binary([(0, 1), (1, 1)], 8.0);
    assert_eq!(cfn.costs_binary_at(0, 1), &[0, 1]);
    assert_eq!(cfn.costs_binary_at(1, 0), &[0]);
    assert_eq!(cfn.costs_binary_at(1, 1), &[1]);
    assert!(cfn.costs_binary_at(0, 0).is_empty());
    let (cost, assignment) = cfn.cost_binary(1);
    assert_eq!(*cost, 8.0);
    assert_eq!(assignment, [(0, 1), (1, 1)]);
}

#[test]
fn add_cost_higher_order() {
    let mut base: CostFunctionNetwork<f64> = CostFunctionNetwork::new();
    let cfn = base
        .from_domain_sizes(&vec![2, 2, 2])
        .add_cost_higher_order(vec![(0, 0), (1, 1), (2, 0)], 1.0)
        .add_cost_higher_order(vec![(2, 0), (2, 0)], 2.0);
    assert_eq!(cfn.costs_higher_order_at(0, 0), &[0]);
    assert_eq!(cfn.costs_higher_order_at(2, 0), &[0, 1, 1]);
    assert!(cfn.costs_higher_order_at(1, 0).is_empty());
    assert!(cfn.costs_binary_at(2, 0).is_empty());
    let (cost, assignment) = cfn.cost_higher_order(0);
    assert_eq!(*cost, 1.0);
    assert_eq!(assignment, &[(0, 0), (1, 1), (2, 0)]);
}
