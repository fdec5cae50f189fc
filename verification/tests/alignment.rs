use srmp::cfn::cost_function_network::{CostFunctionNetwork, FactorOrigin, FactorScope};
use srmp::message::adjustment::{GeneralMessageData, GeneralOutgoingAlignment, IndexAlignmentTable, MessageData};
use srmp::message::message_general::GeneralAlignment;
use srmp::messages::message_nd::AlignmentIndexing;

#[test]
fn message_nd_compute_index_adjustment() {
    let domain_sizes = vec![3, 4, 5];
    let alpha_variables = vec![0, 1, 2];
    let beta_variables = vec![1];

    let alpha_origin = FactorOrigin::NonUnaryFactor(0);
    let beta_origin = FactorOrigin::Variable(beta_variables[0]);

    let mut cfn = CostFunctionNetwork::from_domain_sizes(&domain_sizes, false, 0);
    cfn.add_factor(FactorScope::new(alpha_variables, 3 * 4 * 5, vec![0.; 3 * 4 * 5]));
    cfn.add_factor(FactorScope::new(beta_variables, 4, vec![0.; 4]));

    let alignment = AlignmentIndexing::new(&cfn, &alpha_origin, &beta_origin);

    assert_eq!(alignment.index_first(), &vec![0, 5, 10, 15]);
    assert_eq!(
        alignment.index_second(),
        &vec![0, 1, 2, 3, 4, 20, 21, 22, 23, 24, 40, 41, 42, 43, 44]
    );
}

#[test]
fn alignment_with_two_target_variables() {
    let mut cfn = CostFunctionNetwork::from_domain_sizes(&vec![2, 3, 2], false, 0);
    cfn.add_factor(FactorScope::new(vec![0, 1, 2], 12, ()));
    cfn.add_factor(FactorScope::new(vec![0, 2], 4, ()));
    let alignment =
        AlignmentIndexing::new(&cfn, &FactorOrigin::NonUnaryFactor(0), &FactorOrigin::NonUnaryFactor(1));
    // labelings of (x0, x2) in order: (0,0) (0,1) (1,0) (1,1); strides 6 and 1
    assert_eq!(alignment.index_first(), &vec![0, 1, 6, 7]);
    // labelings of x1: strides 2
    assert_eq!(alignment.index_second(), &vec![0, 2, 4]);
}

fn three_variable_network() -> CostFunctionNetwork<Vec<f64>> {
    let mut cfn = CostFunctionNetwork::from_domain_sizes(&vec![3, 4, 5], false, 0);
    cfn.add_factor(FactorScope::new(vec![0, 1, 2], 3 * 4 * 5, vec![0.; 3 * 4 * 5]));
    cfn.add_factor(FactorScope::new(vec![1], 4, vec![0.; 4]));
    cfn
}

#[test]
fn index_alignment_table_single_variable_target() {
    let cfn = three_variable_network();
    let table = IndexAlignmentTable::new(&cfn, &FactorOrigin::NonUnaryFactor(0), &FactorOrigin::Variable(1));
    // the stride of x1 in the source table is 5
    assert_eq!(table.first_block(), &vec![0, 5, 10, 15]);
    let indexing = AlignmentIndexing::new(&cfn, &FactorOrigin::NonUnaryFactor(0), &FactorOrigin::Variable(1));
    assert_eq!(table.first_block(), indexing.index_first());
    // the remaining variables (x0, x2) have strides 4 * 5 and 1
    assert_eq!(
        table.second_block(),
        &vec![0, 1, 2, 3, 4, 20, 21, 22, 23, 24, 40, 41, 42, 43, 44]
    );
    assert_eq!(table.second_block(), indexing.index_second());
}

#[test]
fn index_adjustment_two_variable_target() {
    let mut cfn: CostFunctionNetwork<()> = CostFunctionNetwork::from_domain_sizes(&vec![2, 3, 2], false, 0);
    cfn.add_factor(FactorScope::new(vec![0, 1, 2], 12, ()));
    cfn.add_factor(FactorScope::new(vec![0, 2], 4, ()));
    let alpha = FactorOrigin::NonUnaryFactor(0);
    let beta = FactorOrigin::NonUnaryFactor(1);
    let outgoing = GeneralOutgoingAlignment::new(&cfn, &alpha, &beta);
    // labelings of (x0, x2): strides 3 * 2 and 1
    assert_eq!(outgoing.first_align(), &vec![0, 1, 6, 7]);
    assert_eq!(outgoing.second_align(), &vec![0, 2, 4]);
    let data = GeneralMessageData::new(&cfn, &alpha, &beta);
    assert_eq!(data.first_index_alignment(), outgoing.first_align());
    assert_eq!(data.second_index_alignment(), outgoing.second_align());
    let table = IndexAlignmentTable::new(&cfn, &alpha, &beta);
    assert_eq!(table.first_block(), outgoing.first_align());
    assert_eq!(table.second_block(), outgoing.second_align());
}

#[test]
fn message_general_compute_index_adjustment() {
    let domain_sizes = vec![3, 4, 5];
    let alpha_variables = vec![0, 1, 2];
    let beta_variables = vec![1];

    let mut cfn = CostFunctionNetwork::from_domain_sizes(&domain_sizes, false, 0);
    cfn.add_factor(FactorScope::new(alpha_variables, 1, vec![0.; 1]));
    cfn.add_factor(FactorScope::new(beta_variables.clone(), 1, vec![0.; 1]));

    let alpha_origin = FactorOrigin::NonUnaryFactor(0);
    let beta_origin = FactorOrigin::Variable(beta_variables[0]);

    let alignment = GeneralAlignment::new(&cfn, &alpha_origin, &beta_origin);

    assert_eq!(alignment.first_align(), &vec![0, 5, 10, 15]);
    assert_eq!(
        alignment.second_align(),
        &vec![0, 1, 2, 3, 4, 20, 21, 22, 23, 24, 40, 41, 42, 43, 44]
    );
}

#[test]
fn message_data_keeps_general_tables() {
    let mut cfn: CostFunctionNetwork<()> = CostFunctionNetwork::from_domain_sizes(&vec![2, 3, 2], false, 0);
    cfn.add_factor(FactorScope::new(vec![0, 1, 2], 12, ()));
    cfn.add_factor(FactorScope::new(vec![0, 2], 4, ()));
    let alpha = FactorOrigin::NonUnaryFactor(0);
    let beta = FactorOrigin::NonUnaryFactor(1);
    let data = MessageData::GeneralFactor(GeneralMessageData::new(&cfn, &alpha, &beta));
    assert_eq!(data.general_factor().first_index_alignment(), &vec![0, 1, 6, 7]);
    assert_eq!(data.general_factor().second_index_alignment(), &vec![0, 2, 4]);
}
