use srmp::cfn::general_cfn::{GeneralCFN, NonUnaryOrigin, Term, TermOrigin, UnaryOrigin};
use srmp::cfn::uai::UaiError;

fn lines(text: &str) -> Vec<String> {
    text.split('\n').map(|l| l.to_string()).collect()
}

#[test]
fn general_cfn_terms() {
    let cfn: GeneralCFN<f64> = GeneralCFN::from_domain_sizes(vec![2, 3]);
    assert_eq!(cfn.num_variables(), 2);
    assert_eq!(cfn.domain_size(1), 3);
    assert_eq!(cfn.unary_term_index(0), None);
    let cfn = cfn.set_term(vec![0], Term::Unary(vec![1.0, 2.0]));
    let cfn = cfn.set_term(vec![0, 1], Term::General { table: vec![0.0; 6], shape: vec![2, 3] });
    let cfn = cfn.set_term(vec![0], Term::Unary(vec![5.0, 6.0]));
    let cfn = cfn.set_term(vec![], Term::Nullary(7.5));
    assert_eq!(cfn.num_terms(), 2);
    assert_eq!(cfn.num_non_unary_terms(), 1);
    assert_eq!(cfn.unary_term_index(0), Some(0));
    assert_eq!(cfn.nullary_term, 7.5);
    assert_eq!(cfn.term_origins, vec![
        TermOrigin::Unary(UnaryOrigin { node_index: 0 }),
        TermOrigin::NonUnary(NonUnaryOrigin { hyperedge_index: 0 }),
    ]);
    match &cfn.terms[0] {
        Term::Unary(table) => assert_eq!(table, &vec![5.0, 6.0]),
        _ => panic!("expected a unary term"),
    }
    assert_eq!(cfn.uai_preamble(), "MARKOV\n2\n2 3\n2\n1 0\n2 0 1\n");
}

#[test]
fn general_cfn_from_unary_function_tables() {
    let cfn = GeneralCFN::from_unary_function_tables(vec![vec![0.5, 1.5], vec![2.5]]);
    assert_eq!(cfn.num_variables(), 2);
    assert_eq!(cfn.domain_size(0), 2);
    assert_eq!(cfn.domain_size(1), 1);
    assert_eq!(cfn.unary_term_index(1), Some(1));
    assert_eq!(cfn.num_terms(), 2);
    assert_eq!(cfn.num_non_unary_terms(), 0);
    let empty: GeneralCFN<f64> = GeneralCFN::new();
    assert_eq!(empty.num_variables(), 0);
}

#[test]
fn general_read_from_uai() {
    let text = "MARKOV\n2\n2 3\n2\n1 0\n2 1 0\n2\n0.1 0.2\n6\n1 2 3\n4 5 6\n";
    let cfn = GeneralCFN::read_from_uai(&lines(text)).unwrap();
    assert_eq!(cfn.num_variables(), 2);
    assert_eq!(cfn.num_terms(), 2);
    match &cfn.terms[1] {
        Term::General { table, shape } => {
            assert_eq!(shape, &vec![3, 2]);
            assert_eq!(table.len(), 6);
            assert_eq!(table[5], "6");
        }
        _ => panic!("expected a general term"),
    }
    let bad_size = "MARKOV\n2\n2 3\n1\n2 0 1\n5\n1 2 3 4 5\n";
    assert_eq!(GeneralCFN::read_from_uai(&lines(bad_size)).err(), Some(UaiError::TableSizeMismatch));
    let bad_var = "MARKOV\n1\n2\n1\n1 3\n2\n1 2\n";
    assert_eq!(GeneralCFN::read_from_uai(&lines(bad_var)).err(), Some(UaiError::VariableOutOfRange));
}
