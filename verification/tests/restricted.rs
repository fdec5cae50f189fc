use srmp::cfn::cost_function_network::{CostFunctionNetwork, FactorOrigin, FactorScope};
use srmp::cfn::solution::{function_table_index, Solution};
use srmp::messages::restricted::{labeling_of_index, restricted_entries};

fn network() -> CostFunctionNetwork<()> {
    let mut cfn = CostFunctionNetwork::from_domain_sizes(&vec![2, 3, 4], false, 2);
    cfn.add_factor(FactorScope::new(vec![0, 1, 2], 24, ()));
    cfn.add_factor(FactorScope::new(vec![0, 2], 8, ()));
    cfn
}

#[test]
fn restricted_entries_follow_the_partial_labeling() {
    let cfn = network();
    let mut solution = Solution::new(&cfn);
    *solution.index_mut(1) = Some(2);
    let entries = restricted_entries(&cfn, &solution, &FactorOrigin::NonUnaryFactor(0), &FactorOrigin::NonUnaryFactor(1));
    assert_eq!(entries.free_variables, vec![0, 2]);
    // labelings (x0, 2, x2): index 12 * x0 + 4 * 2 + x2 in the source table, 4 * x0 + x2 in the target table
    assert_eq!(entries.alpha_indices, vec![8, 9, 10, 11, 20, 21, 22, 23]);
    assert_eq!(entries.beta_indices, vec![0, 1, 2, 3, 4, 5, 6, 7]);
}

#[test]
fn restricted_entries_fully_labeled_and_unlabeled() {
    let cfn = network();
    let mut solution = Solution::new(&cfn);
    let alpha = FactorOrigin::NonUnaryFactor(0);
    let beta = FactorOrigin::NonUnaryFactor(1);
    let entries = restricted_entries(&cfn, &solution, &alpha, &beta);
    assert_eq!(entries.free_variables, vec![0, 1, 2]);
    assert_eq!(entries.alpha_indices, (0..24).collect::<Vec<usize>>());
    // the target index ignores x1
    let expected: Vec<usize> = (0..24).map(|a| (a / 12) * 4 + a % 4).collect();
    assert_eq!(entries.beta_indices, expected);
    *solution.index_mut(0) = Some(1);
    *solution.index_mut(1) = Some(0);
    *solution.index_mut(2) = Some(3);
    let entries = restricted_entries(&cfn, &solution, &alpha, &beta);
    assert_eq!(entries.free_variables, Vec::<usize>::new());
    assert_eq!(entries.alpha_indices, vec![15]);
    assert_eq!(entries.beta_indices, vec![7]);
}

#[test]
fn labeling_of_index_decodes_row_major() {
    let cfn = network();
    assert_eq!(labeling_of_index(&cfn, &vec![0, 1, 2], 0), vec![0, 0, 0]);
    assert_eq!(labeling_of_index(&cfn, &vec![0, 1, 2], 23), vec![1, 2, 3]);
    assert_eq!(labeling_of_index(&cfn, &vec![0, 1, 2], 17), vec![1, 1, 1]);
    assert_eq!(labeling_of_index(&cfn, &vec![2, 0], 5), vec![2, 1]);
    assert_eq!(labeling_of_index(&cfn, &vec![], 0), Vec::<usize>::new());
}

#[test]
fn function_table_index_of_solution() {
    let cfn = network();
    let solution = Solution::from(vec![Some(1), Some(2), Some(3)]);
    // two variables: last variable fastest
    assert_eq!(function_table_index(&cfn, &vec![0, 2], &solution), 7);
    // strides 1, 4, 4 * 3 from the last variable on: 1 * 12 + 2 * 4 + 3
    assert_eq!(function_table_index(&cfn, &vec![0, 1, 2], &solution), 23);
    assert_eq!(function_table_index(&cfn, &vec![1], &solution), 2);
}

#[test]
fn function_table_index_is_row_major() {
    let cfn: CostFunctionNetwork<()> = CostFunctionNetwork::from_domain_sizes(&vec![2, 2, 3], false, 0);
    let solution = Solution::from(vec![Some(0), Some(1), Some(0)]);
    // 0 * 6 + 1 * 3 + 0
    assert_eq!(function_table_index(&cfn, &vec![0, 1, 2], &solution), 3);
    let solution = Solution::from(vec![Some(1), Some(0), Some(2)]);
    assert_eq!(function_table_index(&cfn, &vec![0, 1, 2], &solution), 8);
}
