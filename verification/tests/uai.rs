use srmp::cfn::cost_function_network::{CostFunctionNetwork, FactorOrigin, FactorScope};
use srmp::cfn::text::{parse_usize, split_whitespace, trim_text};
use srmp::cfn::uai::{
    option_to_string, read_uai, string_to_vec, try_read_uai, vec_mapping_to_string, vec_to_string, UaiError,
};

fn lines(text: &str) -> Vec<String> {
    text.split('\n').map(|l| l.to_string()).collect()
}

const MODEL: &str = "MARKOV\n3\n2 2 3\n3\n1 0\n2 0 1\n2 1 2\n\n2\n 0.1 0.2\n\n4\n1 2 3 4\n6\n1 2 3\n4 5 6\n";

#[test]
fn read_uai_reads_model() {
    let cfn = read_uai(&lines(MODEL));
    assert_eq!(cfn.num_variables(), 3);
    assert_eq!(cfn.domain_size(2), 3);
    assert_eq!(cfn.factors_len(), 3);
    let factors = cfn.factors_iter();
    assert_eq!(factors[0].variables(), &vec![0]);
    assert_eq!(factors[0].costs(), &vec!["0.1".to_string(), "0.2".to_string()]);
    assert_eq!(factors[1].variables(), &vec![0, 1]);
    assert_eq!(factors[1].function_table_len(), 4);
    assert_eq!(factors[2].variables(), &vec![1, 2]);
    assert_eq!(factors[2].costs().len(), 6);
    assert_eq!(factors[2].costs()[3], "4");
    let unary = cfn.get_factor(&FactorOrigin::Variable(0)).unwrap();
    assert_eq!(unary.variables(), &vec![0]);
    assert!(cfn.get_factor(&FactorOrigin::Variable(1)).is_none());
}

#[test]
fn read_uai_second_unary_factor_replaces_first() {
    let text = "MARKOV\n1\n2\n2\n1 0\n1 0\n2\n1 2\n2\n3 4\n";
    let cfn = read_uai(&lines(text));
    assert_eq!(cfn.factors_len(), 1);
    assert_eq!(cfn.factors_iter()[0].costs(), &vec!["3".to_string(), "4".to_string()]);
}

#[test]
fn read_uai_ignores_trailing_lines() {
    let text = "MARKOV\n1\n2\n1\n1 0\n2\n5 6\nanything\n";
    let cfn = read_uai(&lines(text));
    assert_eq!(cfn.factors_len(), 1);
}

#[test]
fn read_uai_without_functions_section() {
    let cfn = read_uai(&lines("MARKOV\n2\n"));
    assert_eq!(cfn.num_variables(), 0);
    assert_eq!(cfn.factors_len(), 0);
}

#[test]
fn read_uai_errors() {
    assert_eq!(try_read_uai(&lines("BAYES\n1\n")).err(), Some(UaiError::UnsupportedModelType));
    assert_eq!(try_read_uai(&lines("MARKOV\nx\n")).err(), Some(UaiError::InvalidNumber));
    assert_eq!(try_read_uai(&lines("MARKOV\n2\n3\n")).err(), Some(UaiError::DomainSizesMismatch));
    assert_eq!(
        try_read_uai(&lines("MARKOV\n2\n2 2\n1\n3 0 1\n")).err(),
        Some(UaiError::ScopeLengthMismatch)
    );
    assert_eq!(
        try_read_uai(&lines("MARKOV\n2\n2 2\n1\n2 1 0\n4\n1 2 3 4\n")).err(),
        Some(UaiError::UnsortedScope)
    );
    assert_eq!(
        try_read_uai(&lines("MARKOV\n2\n2 2\n1\n2 0 5\n4\n1 2 3 4\n")).err(),
        Some(UaiError::VariableOutOfRange)
    );
    assert_eq!(
        try_read_uai(&lines("MARKOV\n2\n2 2\n1\n1 7\n2\n1 2\n")).err(),
        Some(UaiError::VariableOutOfRange)
    );
    assert_eq!(
        try_read_uai(&lines("MARKOV\n2\n2 2\n1\n1 0\n2\n1 2 3\n")).err(),
        Some(UaiError::TooManyEntries)
    );
}

#[test]
fn uai_preamble_writes_header() {
    let mut cfn = CostFunctionNetwork::from_domain_sizes(&vec![2, 3], true, 1);
    cfn.add_factor(FactorScope::new(vec![1], 3, ()));
    cfn.add_factor(FactorScope::new(vec![0, 1], 6, ()));
    assert_eq!(cfn.uai_preamble(), "MARKOV\n2\n2 3\n2\n1 1\n2 0 1\n");
    let reread = read_uai(&lines(&(cfn.uai_preamble() + "3\n1 2 3\n6\n1 2 3 4 5 6\n")));
    assert_eq!(reread.factors_len(), 2);
    assert_eq!(reread.factors_iter()[1].variables(), &vec![0, 1]);
}

#[test]
fn string_to_vec_reads_numbers() {
    assert_eq!(string_to_vec("  3 14\t+15 0 "), Some(vec![3, 14, 15, 0]));
    assert_eq!(string_to_vec(""), Some(vec![]));
    assert_eq!(string_to_vec("1 -2"), None);
    assert_eq!(string_to_vec("18446744073709551616"), None);
}

#[test]
fn text_helpers() {
    assert_eq!(trim_text("\u{3000} a b \n"), "a b");
    assert_eq!(split_whitespace(" a\u{a0}bc  d "), vec!["a", "bc", "d"]);
    assert_eq!(parse_usize("+"), None);
    assert_eq!(parse_usize("007"), Some(7));
    assert_eq!(parse_usize("18446744073709551615"), Some(18446744073709551615));
}

#[test]
fn to_string_helpers() {
    assert_eq!(vec_to_string(&vec![1, 20, 300]), "1 20 300");
    assert_eq!(vec_to_string(&vec![]), "");
    assert_eq!(vec_mapping_to_string(&vec![1, 2], |x: &usize| x * 10), "10 20");
    assert_eq!(option_to_string(Some(5)), "5");
    assert_eq!(option_to_string(None), "None");
}

#[test]
fn vec_text_round_trip() {
    for values in [vec![], vec![0], vec![7, 0, 42, 1000], vec![usize::MAX, 3]] {
        assert_eq!(string_to_vec(&vec_to_string(&values)), Some(values.clone()));
    }
}

#[test]
fn uai_written_model_reads_back() {
    let mut cfn: CostFunctionNetwork<Vec<String>> = CostFunctionNetwork::from_domain_sizes(&vec![2, 3], true, 1);
    let strings = |values: &[&str]| values.iter().map(|v| v.to_string()).collect::<Vec<String>>();
    cfn.add_factor(FactorScope::new(vec![0], 2, strings(&["0.25", "0.75"])));
    cfn.add_factor(FactorScope::new(vec![0, 1], 6, strings(&["1", "2", "3", "4", "5", "6"])));
    cfn.add_factor(FactorScope::new(vec![1], 3, strings(&["0.5", "0.25", "0.25"])));
    let mut text = cfn.uai_preamble();
    for factor in cfn.factors_iter() {
        text.push_str(&format!("\n{}\n{}\n", factor.costs().len(), factor.costs().join(" ")));
    }
    let read = read_uai(&lines(&text));
    assert_eq!(read.num_variables(), 2);
    assert_eq!(read.domain_size(0), 2);
    assert_eq!(read.domain_size(1), 3);
    assert_eq!(read.factors_len(), 3);
    for (written, got) in cfn.factors_iter().iter().zip(read.factors_iter().iter()) {
        assert_eq!(written.variables(), got.variables());
        assert_eq!(written.costs(), got.costs());
        assert_eq!(written.function_table_len(), got.function_table_len());
    }
}
