use srmp::csp::ac3::AC3;
use srmp::csp::binary_csp::BinaryCSP;

#[test]
fn frustrated_cycle() {
    let mut fc_csp = BinaryCSP::from_unary_constraints(vec![vec![true, true]; 3]);
    fc_csp.add_binary_constraint(0, 1, vec![vec![false, true], vec![false, true]]);
    fc_csp.add_binary_constraint(1, 2, vec![vec![false, true], vec![false, true]]);
    fc_csp.add_binary_constraint(2, 0, vec![vec![false, true], vec![false, true]]);
    let ac3_result = AC3::new().run_algorithm(&fc_csp);
    assert_eq!(ac3_result, None);
}

#[test]
fn inconsistent_one_variable() {
    let csp = BinaryCSP::from_unary_constraints(vec![vec![false; 5]]);
    let ac3_result = AC3::new().run_algorithm(&csp);
    assert_eq!(ac3_result, Some(0));
}

#[test]
fn inconsistent_two_variables() {
    let mut csp = BinaryCSP::from_unary_constraints(vec![vec![true, false], vec![false, true]]);
    csp.add_binary_constraint(0, 1, vec![vec![true, false], vec![false, true]]);
    let ac3_result = AC3::new().run_algorithm(&csp);
    assert_eq!(ac3_result, Some(0));
}

#[test]
fn consistent_two_variables() {
    let mut csp = BinaryCSP::from_unary_constraints(vec![
        vec![true, true],
        vec![true, false],
        vec![false, true],
    ]);
    csp.add_binary_constraint(0, 1, vec![vec![true, false], vec![false, true]]);
    csp.add_binary_constraint(1, 2, vec![vec![true, true], vec![false, true]]);
    csp.add_binary_constraint(0, 2, vec![vec![true, true], vec![false, true]]);
    let ac3_result = AC3::new().run_algorithm(&csp);
    assert_eq!(ac3_result, None);
}

#[test]
fn binary_csp_new_has_no_binary_constraints() {
    let csp = BinaryCSP::new(&vec![3, 3, 3, 3]);
    assert_eq!(csp.num_variables(), 4);
    assert_eq!(csp.domain_size(2), 3);
    assert_eq!(csp.var_range(), 0..4);
    assert_eq!(csp.var_range_from(1), 2..4);
    assert_eq!(csp.domain_range(0), 0..3);
    for x in 0..4 {
        for label in 0..3 {
            assert!(*csp.is_unary_satisfied(x, label));
        }
        for y in 0..4 {
            if x != y {
                assert!(!csp.exists_binary_constraint(x, y));
                assert!(csp.is_binary_satisfied(x, y, 0, 2));
            }
        }
    }
}

#[test]
fn binary_constraint_is_shared_by_both_orders() {
    let mut csp = BinaryCSP::from_unary_constraints(vec![vec![true, true]; 3]);
    csp.add_binary_constraint(2, 0, vec![vec![false, true], vec![true, true]]);
    assert!(csp.exists_binary_constraint(0, 2));
    assert!(csp.exists_binary_constraint(2, 0));
    assert!(!csp.exists_binary_constraint(0, 1));
    // the table is read with the labels in the order they are given
    assert!(!csp.is_binary_satisfied(0, 2, 0, 0));
    assert!(!csp.is_binary_satisfied(2, 0, 0, 0));
    assert!(csp.is_binary_satisfied(2, 0, 0, 1));
    assert!(csp.is_binary_satisfied(0, 2, 1, 0));
}

#[test]
fn wipe_out_by_revision() {
    // variable 0 can only take label 0, which no label of variable 1 supports
    let mut csp = BinaryCSP::from_unary_constraints(vec![vec![true, false], vec![true, true]]);
    csp.add_binary_constraint(0, 1, vec![vec![false, false], vec![true, true]]);
    assert_eq!(AC3::new().run_algorithm(&csp), Some(0));
}

#[test]
fn empty_domain_variable_is_reported_first() {
    let csp = BinaryCSP::from_unary_constraints(vec![vec![true, true], vec![false, false], vec![false, false]]);
    assert_eq!(AC3::new().run_algorithm(&csp), Some(1));
}

#[test]
fn reversed_pair_swaps_labels() {
    let mut csp = BinaryCSP::new(&vec![2, 2]);
    csp.add_binary_constraint(0, 1, vec![vec![true, true], vec![false, false]]);
    assert!(!csp.is_binary_satisfied(1, 0, 0, 1));
    assert!(!csp.is_binary_satisfied(0, 1, 1, 0));
    assert!(csp.is_binary_satisfied(1, 0, 1, 0));
    assert!(csp.is_binary_satisfied(0, 1, 0, 1));
}

#[test]
fn reversed_table_is_transposed() {
    let mut csp = BinaryCSP::new(&vec![2, 2]);
    csp.add_binary_constraint(1, 0, vec![vec![true, true], vec![false, false]]);
    assert!(csp.is_binary_satisfied(1, 0, 0, 1));
    assert!(csp.is_binary_satisfied(0, 1, 1, 0));
    assert!(!csp.is_binary_satisfied(1, 0, 1, 0));
    assert!(!csp.is_binary_satisfied(0, 1, 0, 1));
}

#[test]
fn wipe_out_through_reverse_arcs() {
    let mut csp = BinaryCSP::from_unary_constraints(vec![
        vec![true, false],
        vec![true, false],
        vec![true, true],
    ]);
    csp.add_binary_constraint(0, 2, vec![vec![true, false], vec![false, true]]);
    csp.add_binary_constraint(1, 2, vec![vec![false, true], vec![true, false]]);
    assert_eq!(AC3::new().run_algorithm(&csp), Some(2));
}

#[test]
fn arc_consistent_but_unsatisfiable_triangle() {
    // three variables that must pairwise differ over two labels: no solution, but every arc holds
    let mut csp = BinaryCSP::from_unary_constraints(vec![vec![true, true]; 3]);
    let differ = vec![vec![false, true], vec![true, false]];
    csp.add_binary_constraint(0, 1, differ.clone());
    csp.add_binary_constraint(1, 2, differ.clone());
    csp.add_binary_constraint(2, 0, differ);
    assert_eq!(AC3::new().run_algorithm(&csp), None);
}
