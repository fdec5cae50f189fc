use vstd::prelude::*;

use crate::cfn::general_uai::{general_uai_run, general_uai_step};
use crate::cfn::text::{is_whitespace, is_word, parse_all, parse_usize_spec, trim, trim_end, trim_start, words};
use crate::cfn::uai::{
    decimal, decimals, initial_progress, join_with_spaces, lemma_decimal_digits, lemma_parse_decimal,
    lemma_vec_text_round_trip, markov, scope_line, scope_lines, uai_preamble_text, uai_run, uai_step, UAIState,
    UaiProgress,
};

verus! {

/// A scope line of the UAI format without its line break.
pub open spec fn scope_line_text(vars: Seq<usize>) -> Seq<char> {
    decimal(vars.len()) + seq![' '] + join_with_spaces(decimals(vars))
}

/// The lines of the part of a UAI model before the function tables, without line breaks:
/// the model type, the number of variables, the domain sizes, the number of functions and the
/// first `k` scopes.
pub open spec fn preamble_lines(domain_sizes: Seq<usize>, scopes: Seq<Seq<usize>>, k: int) -> Seq<Seq<char>>
    decreases k,
{
    if k <= 0 {
        seq![markov(), decimal(domain_sizes.len()), join_with_spaces(decimals(domain_sizes)), decimal(scopes.len())]
    } else {
        preamble_lines(domain_sizes, scopes, k - 1).push(scope_line_text(scopes[k - 1]))
    }
}

/// The text of `lines`, each followed by a line break.
pub open spec fn lines_text(lines: Seq<Seq<char>>) -> Seq<char>
    decreases lines.len(),
{
    if lines.len() == 0 {
        Seq::empty()
    } else {
        lines_text(lines.drop_last()) + lines.last() + seq!['\n']
    }
}

/// What reading the preamble lines up to the `k`-th scope leaves.
pub open spec fn preamble_progress(domain_sizes: Seq<usize>, scopes: Seq<Seq<usize>>, k: int) -> UaiProgress {
    UaiProgress {
        state: if k == 0 || k < scopes.len() {
            UAIState::FunctionScopes(k as usize)
        } else {
            UAIState::NumberOfTableValues(0)
        },
        num_variables: domain_sizes.len() as usize,
        domain_sizes,
        num_functions: scopes.len() as usize,
        scopes: scopes.take(k),
        entries: Seq::empty(),
        network_created: true,
        functions: Seq::empty(),
    }
}

proof fn lemma_join_ends(parts: Seq<Seq<char>>)
    requires
        parts.len() > 0,
        forall|i: int| 0 <= i < parts.len() ==> #[trigger] is_word(parts[i]),
    ensures
        join_with_spaces(parts).len() > 0,
        join_with_spaces(parts)[0] == parts[0][0],
        join_with_spaces(parts).last() == parts.last().last(),
    decreases parts.len(),
{
    assert(is_word(parts[0]));
    assert(is_word(parts[parts.len() - 1]));
    if parts.len() > 1 {
        let rest = parts.drop_last();
        assert forall|i: int| 0 <= i < rest.len() implies #[trigger] is_word(rest[i]) by {
            assert(rest[i] == parts[i]);
        }
        lemma_join_ends(rest);
    }
}

/// A text that neither starts nor ends with whitespace is its own trim.
proof fn lemma_trim_unchanged(t: Seq<char>)
    requires
        t.len() > 0,
        !is_whitespace(t[0]),
        !is_whitespace(t.last()),
    ensures
        trim(t) == t,
{
    assert(trim_start(t) == t);
    assert(trim_end(t) == t);
}

proof fn lemma_decimals_words(values: Seq<usize>)
    ensures
        forall|i: int| 0 <= i < decimals(values).len() ==> #[trigger] is_word(decimals(values)[i]),
{
    assert forall|i: int| 0 <= i < decimals(values).len() implies #[trigger] is_word(decimals(values)[i]) by {
        let d = decimal(values[i] as nat);
        lemma_decimal_digits(values[i] as nat);
        assert forall|j: int| 0 <= j < d.len() implies !is_whitespace(#[trigger] d[j]) by {
            assert(crate::cfn::text::is_digit(d[j]));
        }
    }
}

/// The line of nonempty `values` trims to itself and reads back as `values`.
proof fn lemma_values_line(values: Seq<usize>)
    requires
        values.len() > 0,
    ensures
        trim(join_with_spaces(decimals(values))) == join_with_spaces(decimals(values)),
        parse_all(words(join_with_spaces(decimals(values)))) == Some(values),
{
    lemma_decimals_words(values);
    lemma_join_ends(decimals(values));
    let t = join_with_spaces(decimals(values));
    assert(is_word(decimals(values)[0]));
    assert(is_word(decimals(values)[decimals(values).len() - 1]));
    lemma_trim_unchanged(t);
    lemma_vec_text_round_trip(values);
}

proof fn lemma_decimal_line(n: usize)
    ensures
        trim(decimal(n as nat)) == decimal(n as nat),
        parse_usize_spec(decimal(n as nat)) == Some(n),
{
    lemma_values_line(seq![n]);
    assert(decimals(seq![n]) =~= seq![decimal(n as nat)]);
    assert(join_with_spaces(seq![decimal(n as nat)]) == decimal(n as nat));
    lemma_parse_decimal(n);
}

/// Joining a part before nonempty parts puts it and a space in front.
proof fn lemma_join_front(a: Seq<char>, parts: Seq<Seq<char>>)
    requires
        parts.len() > 0,
    ensures
        join_with_spaces(seq![a] + parts) == a + seq![' '] + join_with_spaces(parts),
    decreases parts.len(),
{
    let all = seq![a] + parts;
    if parts.len() == 1 {
        assert(all.drop_last() =~= seq![a]);
        assert(all.last() == parts[0]);
        assert(join_with_spaces(seq![a]) == a);
        assert(join_with_spaces(parts) == parts[0]);
        assert(join_with_spaces(all) == join_with_spaces(all.drop_last()) + seq![' '] + all.last());
    } else {
        lemma_join_front(a, parts.drop_last());
        assert(all.drop_last() =~= seq![a] + parts.drop_last());
        assert(all.last() == parts.last());
        assert(join_with_spaces(all) == join_with_spaces(all.drop_last()) + seq![' '] + all.last());
        assert(join_with_spaces(parts) == join_with_spaces(parts.drop_last()) + seq![' '] + parts.last());
        assert(join_with_spaces(all) =~= a + seq![' '] + join_with_spaces(parts));
    }
}

/// A scope line trims to the decimal text of its length followed by its variables, and reads
/// back as that list.
proof fn lemma_scope_line(vars: Seq<usize>)
    requires
        vars.len() <= usize::MAX,
    ensures
        parse_all(words(trim(scope_line_text(vars)))) == Some(seq![vars.len() as usize] + vars),
        trim(scope_line_text(vars)).len() > 0,
{
    let line = scope_line_text(vars);
    let n = vars.len() as usize;
    let all = seq![n] + vars;
    assert(decimals(all) =~= seq![decimal(n as nat)] + decimals(vars));
    lemma_decimal_digits(n as nat);
    if vars.len() > 0 {
        lemma_join_front(decimal(n as nat), decimals(vars));
        assert(line == join_with_spaces(decimals(all)));
        lemma_values_line(all);
    } else {
        let d = decimal(n as nat);
        assert(join_with_spaces(decimals(vars)) =~= Seq::<char>::empty());
        assert(line =~= d.push(' '));
        assert(crate::cfn::text::is_digit(d[0]));
        assert(crate::cfn::text::is_digit(d.last()));
        assert(line[0] == d[0]);
        assert(trim_start(line) == line);
        assert(line.drop_last() =~= d);
        assert(is_whitespace(' '));
        assert(trim_end(line) == trim_end(d));
        assert(trim_end(d) == d);
        lemma_values_line(seq![n]);
        assert(decimals(seq![n]) =~= seq![d]);
        assert(all =~= seq![n]);
    }
}

/// Reading the four header lines of a preamble.
#[verifier::rlimit(40)]
proof fn lemma_header_run(domain_sizes: Seq<usize>, scopes: Seq<Seq<usize>>)
    requires
        0 < domain_sizes.len() <= usize::MAX,
        scopes.len() <= usize::MAX,
    ensures
        uai_run(preamble_lines(domain_sizes, scopes, 0)) == Ok::<UaiProgress, crate::cfn::uai::UaiError>(
            preamble_progress(domain_sizes, scopes, 0),
        ),
{
    let n = domain_sizes.len() as usize;
    let m = scopes.len() as usize;
    let lines = preamble_lines(domain_sizes, scopes, 0);
    let l0 = markov();
    let l1 = decimal(n as nat);
    let l2 = join_with_spaces(decimals(domain_sizes));
    let l3 = decimal(m as nat);
    let s0 = Seq::<Seq<char>>::empty();
    let s1 = seq![l0];
    let s2 = seq![l0, l1];
    let s3 = seq![l0, l1, l2];
    assert(lines =~= seq![l0, l1, l2, l3]);
    assert(s1.drop_last() =~= s0);
    assert(s2.drop_last() =~= s1);
    assert(s3.drop_last() =~= s2);
    assert(lines.drop_last() =~= s3);
    assert(trim(l0) == l0) by {
        lemma_trim_unchanged(l0);
    }
    lemma_decimal_line(n);
    lemma_values_line(domain_sizes);
    lemma_decimal_line(m);
    let p0 = initial_progress();
    let p1 = UaiProgress { state: UAIState::NumberOfVariables, ..p0 };
    let p2 = UaiProgress { state: UAIState::DomainSizes, num_variables: n, ..p1 };
    let p3 = UaiProgress { state: UAIState::NumberOfFunctions, domain_sizes: domain_sizes, ..p2 };
    assert(uai_run(s0) == Ok::<UaiProgress, crate::cfn::uai::UaiError>(p0));
    assert(uai_step(p0, l0) == Ok::<UaiProgress, crate::cfn::uai::UaiError>(p1));
    assert(uai_run(s1) == Ok::<UaiProgress, crate::cfn::uai::UaiError>(p1));
    assert(uai_step(p1, l1) == Ok::<UaiProgress, crate::cfn::uai::UaiError>(p2));
    assert(uai_run(s2) == Ok::<UaiProgress, crate::cfn::uai::UaiError>(p2));
    assert(uai_step(p2, l2) == Ok::<UaiProgress, crate::cfn::uai::UaiError>(p3));
    assert(uai_run(s3) == Ok::<UaiProgress, crate::cfn::uai::UaiError>(p3));
    assert(scopes.take(0) =~= Seq::<Seq<usize>>::empty());
    assert(uai_step(p3, l3) == Ok::<UaiProgress, crate::cfn::uai::UaiError>(preamble_progress(domain_sizes, scopes, 0)));
}

/// Reading the preamble lines of a network with at least one variable up to the `k`-th scope
/// leaves the domain sizes, the number of functions and the first `k` scopes read.
proof fn lemma_preamble_run(domain_sizes: Seq<usize>, scopes: Seq<Seq<usize>>, k: int)
    requires
        0 < domain_sizes.len() <= usize::MAX,
        scopes.len() <= usize::MAX,
        0 <= k <= scopes.len(),
        forall|i: int| 0 <= i < scopes.len() ==> #[trigger] scopes[i].len() <= usize::MAX,
    ensures
        uai_run(preamble_lines(domain_sizes, scopes, k)) == Ok::<UaiProgress, crate::cfn::uai::UaiError>(
            preamble_progress(domain_sizes, scopes, k),
        ),
    decreases k,
{
    let n = domain_sizes.len() as usize;
    let m = scopes.len() as usize;
    if k == 0 {
        lemma_header_run(domain_sizes, scopes);
    } else {
        lemma_preamble_run(domain_sizes, scopes, k - 1);
        let lines = preamble_lines(domain_sizes, scopes, k);
        let prev = preamble_progress(domain_sizes, scopes, k - 1);
        let vars = scopes[k - 1];
        assert(lines.drop_last() == preamble_lines(domain_sizes, scopes, k - 1));
        lemma_scope_line(vars);
        let desc = seq![vars.len() as usize] + vars;
        assert(desc.drop_first() =~= vars);
        assert(prev.scopes.push(vars) =~= scopes.take(k));
        assert(prev.state == UAIState::FunctionScopes((k - 1) as usize));
    }
}

/// Reading back the preamble that `uai_preamble` writes for a network with at least one
/// variable: its text is the preamble lines, each followed by a line break, and reading them
/// gives the domain sizes, the number of functions and the scopes, with the reader waiting for
/// the first function table (or for a scope, when there are no functions).
pub proof fn lemma_preamble_round_trip(domain_sizes: Seq<usize>, scopes: Seq<Seq<usize>>)
    requires
        0 < domain_sizes.len() <= usize::MAX,
        scopes.len() <= usize::MAX,
        forall|i: int| 0 <= i < scopes.len() ==> #[trigger] scopes[i].len() <= usize::MAX,
    ensures
        uai_preamble_text(domain_sizes, scopes) == lines_text(
            preamble_lines(domain_sizes, scopes, scopes.len() as int),
        ),
        uai_run(preamble_lines(domain_sizes, scopes, scopes.len() as int)) == Ok::<
            UaiProgress,
            crate::cfn::uai::UaiError,
        >(preamble_progress(domain_sizes, scopes, scopes.len() as int)),
{
    lemma_preamble_run(domain_sizes, scopes, scopes.len() as int);
    lemma_preamble_text(domain_sizes, scopes, scopes.len() as int);
    assert(scopes.take(scopes.len() as int) =~= scopes);
}

proof fn lemma_preamble_text(domain_sizes: Seq<usize>, scopes: Seq<Seq<usize>>, k: int)
    requires
        0 <= k <= scopes.len(),
    ensures
        lines_text(preamble_lines(domain_sizes, scopes, k)) == markov() + seq!['\n'] + decimal(domain_sizes.len())
            + seq!['\n'] + join_with_spaces(decimals(domain_sizes)) + seq!['\n'] + decimal(scopes.len()) + seq!['\n']
            + scope_lines(scopes.take(k)),
    decreases k,
{
    let head = markov() + seq!['\n'] + decimal(domain_sizes.len()) + seq!['\n'] + join_with_spaces(
        decimals(domain_sizes),
    ) + seq!['\n'] + decimal(scopes.len()) + seq!['\n'];
    if k == 0 {
        let lines = preamble_lines(domain_sizes, scopes, 0);
        let l0 = markov();
        let l1 = decimal(domain_sizes.len());
        let l2 = join_with_spaces(decimals(domain_sizes));
        let l3 = decimal(scopes.len());
        let s0 = Seq::<Seq<char>>::empty();
        let s1 = seq![l0];
        let s2 = seq![l0, l1];
        let s3 = seq![l0, l1, l2];
        assert(lines =~= seq![l0, l1, l2, l3]);
        assert(s1.drop_last() =~= s0);
        assert(s2.drop_last() =~= s1);
        assert(s3.drop_last() =~= s2);
        assert(lines.drop_last() =~= s3);
        assert(lines_text(s0) == Seq::<char>::empty());
        assert(s1.last() == l0);
        assert(lines_text(s1) == lines_text(s0) + l0 + seq!['\n']);
        assert(lines_text(s1) =~= l0 + seq!['\n']);
        assert(s2.last() == l1);
        assert(lines_text(s2) == lines_text(s1) + l1 + seq!['\n']);
        assert(lines_text(s2) =~= l0 + seq!['\n'] + l1 + seq!['\n']);
        assert(s3.last() == l2);
        assert(lines_text(s3) == lines_text(s2) + l2 + seq!['\n']);
        assert(lines_text(s3) =~= l0 + seq!['\n'] + l1 + seq!['\n'] + l2 + seq!['\n']);
        assert(lines.last() == l3);
        assert(lines_text(lines) == lines_text(s3) + l3 + seq!['\n']);
        assert(scopes.take(0) =~= Seq::<Seq<usize>>::empty());
        assert(lines_text(lines) =~= head);
    } else {
        lemma_preamble_text(domain_sizes, scopes, k - 1);
        assert(scopes.take(k).drop_last() =~= scopes.take(k - 1));
        assert(scope_line(scopes[k - 1]) =~= scope_line_text(scopes[k - 1]) + seq!['\n']);
        let lines = preamble_lines(domain_sizes, scopes, k);
        assert(lines.drop_last() == preamble_lines(domain_sizes, scopes, k - 1));
        assert(scope_lines(scopes.take(k)) == scope_lines(scopes.take(k - 1)) + scope_line(scopes[k - 1]));
        assert(lines_text(lines) =~= head + scope_lines(scopes.take(k)));
    }
}

/// Reading the four header lines of a preamble with the general reader.
#[verifier::rlimit(40)]
proof fn lemma_general_header_run(domain_sizes: Seq<usize>, scopes: Seq<Seq<usize>>)
    requires
        0 < domain_sizes.len() <= usize::MAX,
        scopes.len() <= usize::MAX,
    ensures
        general_uai_run(preamble_lines(domain_sizes, scopes, 0)) == Ok::<UaiProgress, crate::cfn::uai::UaiError>(
            preamble_progress(domain_sizes, scopes, 0),
        ),
{
    let n = domain_sizes.len() as usize;
    let m = scopes.len() as usize;
    let lines = preamble_lines(domain_sizes, scopes, 0);
    let l0 = markov();
    let l1 = decimal(n as nat);
    let l2 = join_with_spaces(decimals(domain_sizes));
    let l3 = decimal(m as nat);
    let s0 = Seq::<Seq<char>>::empty();
    let s1 = seq![l0];
    let s2 = seq![l0, l1];
    let s3 = seq![l0, l1, l2];
    assert(lines =~= seq![l0, l1, l2, l3]);
    assert(s1.drop_last() =~= s0);
    assert(s2.drop_last() =~= s1);
    assert(s3.drop_last() =~= s2);
    assert(lines.drop_last() =~= s3);
    assert(trim(l0) == l0) by {
        lemma_trim_unchanged(l0);
    }
    lemma_decimal_line(n);
    lemma_values_line(domain_sizes);
    lemma_decimal_line(m);
    let p0 = initial_progress();
    let p1 = UaiProgress { state: UAIState::NumberOfVariables, ..p0 };
    let p2 = UaiProgress { state: UAIState::DomainSizes, num_variables: n, ..p1 };
    let p3 = UaiProgress { state: UAIState::NumberOfFunctions, domain_sizes: domain_sizes, network_created: true, ..p2 };
    assert(general_uai_run(s0) == Ok::<UaiProgress, crate::cfn::uai::UaiError>(p0));
    assert(general_uai_step(p0, l0) == Ok::<UaiProgress, crate::cfn::uai::UaiError>(p1));
    assert(general_uai_run(s1) == Ok::<UaiProgress, crate::cfn::uai::UaiError>(p1));
    assert(general_uai_step(p1, l1) == Ok::<UaiProgress, crate::cfn::uai::UaiError>(p2));
    assert(general_uai_run(s2) == Ok::<UaiProgress, crate::cfn::uai::UaiError>(p2));
    assert(general_uai_step(p2, l2) == Ok::<UaiProgress, crate::cfn::uai::UaiError>(p3));
    assert(general_uai_run(s3) == Ok::<UaiProgress, crate::cfn::uai::UaiError>(p3));
    assert(scopes.take(0) =~= Seq::<Seq<usize>>::empty());
    assert(general_uai_step(p3, l3) == Ok::<UaiProgress, crate::cfn::uai::UaiError>(preamble_progress(domain_sizes, scopes, 0)));
}

/// Reading the preamble lines of a network with at least one variable with the general reader, up to the `k`-th scope
/// leaves the domain sizes, the number of functions and the first `k` scopes read.
proof fn lemma_general_preamble_run(domain_sizes: Seq<usize>, scopes: Seq<Seq<usize>>, k: int)
    requires
        0 < domain_sizes.len() <= usize::MAX,
        scopes.len() <= usize::MAX,
        0 <= k <= scopes.len(),
        forall|i: int| 0 <= i < scopes.len() ==> #[trigger] scopes[i].len() <= usize::MAX,
    ensures
        general_uai_run(preamble_lines(domain_sizes, scopes, k)) == Ok::<UaiProgress, crate::cfn::uai::UaiError>(
            preamble_progress(domain_sizes, scopes, k),
        ),
    decreases k,
{
    let n = domain_sizes.len() as usize;
    let m = scopes.len() as usize;
    if k == 0 {
        lemma_general_header_run(domain_sizes, scopes);
    } else {
        lemma_general_preamble_run(domain_sizes, scopes, k - 1);
        let lines = preamble_lines(domain_sizes, scopes, k);
        let prev = preamble_progress(domain_sizes, scopes, k - 1);
        let vars = scopes[k - 1];
        assert(lines.drop_last() == preamble_lines(domain_sizes, scopes, k - 1));
        lemma_scope_line(vars);
        let desc = seq![vars.len() as usize] + vars;
        assert(desc.drop_first() =~= vars);
        assert(prev.scopes.push(vars) =~= scopes.take(k));
        assert(prev.state == UAIState::FunctionScopes((k - 1) as usize));
    }
}

/// Reading back the preamble that `GeneralCFN::uai_preamble` writes for a network with at
/// least one variable with the general reader: reading the preamble lines gives the domain
/// sizes, the number of functions and the scopes, with the reader waiting for the first
/// function table (or for a scope, when there are no functions).
pub proof fn lemma_general_preamble_round_trip(domain_sizes: Seq<usize>, scopes: Seq<Seq<usize>>)
    requires
        0 < domain_sizes.len() <= usize::MAX,
        scopes.len() <= usize::MAX,
        forall|i: int| 0 <= i < scopes.len() ==> #[trigger] scopes[i].len() <= usize::MAX,
    ensures
        general_uai_run(preamble_lines(domain_sizes, scopes, scopes.len() as int)) == Ok::<
            UaiProgress,
            crate::cfn::uai::UaiError,
        >(preamble_progress(domain_sizes, scopes, scopes.len() as int)),
{
    lemma_general_preamble_run(domain_sizes, scopes, scopes.len() as int);
}

} // verus!
