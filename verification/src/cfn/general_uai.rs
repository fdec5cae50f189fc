use vstd::prelude::*;

use crate::cfn::general_cfn::{GeneralCFN, NonUnaryOrigin, Term, TermOrigin, UnaryOrigin};
use crate::cfn::text::{parse_all, parse_usize, parse_usize_spec, split_whitespace, trim, trim_text, words};
use vstd::string::StrSliceExecFns;
use crate::cfn::uai::{
    added_factors, copy_from, initial_progress, is_markov, lemma_added_factors_len, markov, string_to_vec,
    uai_preamble_text, usize_to_string, vec_to_string, UAIState, UaiError, UaiProgress,
};
use vstd::string::StringExecFns;
use crate::data_structures::hypergraph::Hypergraph;

verus! {

/// The product of the dimensions of `shape`.
pub open spec fn shape_product(shape: Seq<usize>) -> int
    decreases shape.len(),
{
    if shape.len() == 0 {
        1
    } else {
        shape_product(shape.drop_last()) * shape.last()
    }
}

/// The product of the nonzero dimensions of `shape`.
pub open spec fn nonzero_product(shape: Seq<usize>) -> int
    decreases shape.len(),
{
    if shape.len() == 0 {
        1
    } else if shape.last() == 0 {
        nonzero_product(shape.drop_last())
    } else {
        nonzero_product(shape.drop_last()) * shape.last()
    }
}

/// The domain sizes of the variables of `scope`.
pub open spec fn shape_of(domain_sizes: Seq<usize>, scope: Seq<usize>) -> Seq<usize> {
    Seq::new(scope.len(), |i: int| domain_sizes[scope[i] as int])
}

/// Calls `ArrayD::from_shape_vec` of the `ndarray` crate on `shape` and `entries`, which
/// succeeds when the product of the nonzero dimensions fits in an `isize` and the product of
/// all dimensions is the number of entries; the entries then come back unchanged, in order,
/// through `into_raw_vec_and_offset`.
#[verifier::external_body]
fn table_from_shape(shape: &Vec<usize>, entries: Vec<String>) -> (table: Option<Vec<String>>)
    ensures
        table is Some <==> (shape_product(shape@) == entries@.len() && nonzero_product(shape@) <= isize::MAX),
        table is Some ==> table.unwrap()@ == entries@,
{
    match ndarray::ArrayD::from_shape_vec(ndarray::IxDyn(shape), entries) {
        Ok(array) => Some(array.into_raw_vec_and_offset().0),
        Err(_) => None,
    }
}

/// Why a function over `scope` with `len` table entries cannot be set in a network with the
/// given domain sizes: a variable is out of range, or the table does not have the shape of
/// the scope's domains.
pub open spec fn general_table_error(domain_sizes: Seq<usize>, scope: Seq<usize>, len: nat) -> Option<UaiError> {
    if exists|i: int| 0 <= i < scope.len() && #[trigger] scope[i] >= domain_sizes.len() {
        Some(UaiError::VariableOutOfRange)
    } else if shape_product(shape_of(domain_sizes, scope)) == len && nonzero_product(shape_of(domain_sizes, scope))
        <= isize::MAX {
        None
    } else {
        Some(UaiError::TableSizeMismatch)
    }
}

/// Reads one line of a UAI model into a general network: as `uai_step`, except that the
/// network is created with the domain sizes, and that a completed table must have the shape of
/// its scope's domains, whose variables need not be increasing.
pub open spec fn general_uai_step(p: UaiProgress, line: Seq<char>) -> Result<UaiProgress, UaiError> {
    let t = trim(line);
    if t.len() == 0 {
        Ok(p)
    } else {
        match p.state {
            UAIState::ModelType => if t == markov() {
                Ok(UaiProgress { state: UAIState::NumberOfVariables, ..p })
            } else {
                Err(UaiError::UnsupportedModelType)
            },
            UAIState::NumberOfVariables => match parse_usize_spec(t) {
                Some(n) => Ok(UaiProgress { state: UAIState::DomainSizes, num_variables: n, ..p }),
                None => Err(UaiError::InvalidNumber),
            },
            UAIState::DomainSizes => match parse_all(words(t)) {
                Some(sizes) => if sizes.len() == p.num_variables {
                    Ok(
                        UaiProgress {
                            state: UAIState::NumberOfFunctions,
                            domain_sizes: sizes,
                            network_created: true,
                            ..p
                        },
                    )
                } else {
                    Err(UaiError::DomainSizesMismatch)
                },
                None => Err(UaiError::InvalidNumber),
            },
            UAIState::NumberOfFunctions => match parse_usize_spec(t) {
                Some(m) => Ok(
                    UaiProgress {
                        state: UAIState::FunctionScopes(0),
                        num_functions: m,
                        scopes: Seq::empty(),
                        ..p
                    },
                ),
                None => Err(UaiError::InvalidNumber),
            },
            UAIState::FunctionScopes(k) => match parse_all(words(t)) {
                Some(desc) => if desc.len() > 0 && desc[0] == desc.len() - 1 {
                    Ok(
                        UaiProgress {
                            state: if k + 1 < p.num_functions {
                                UAIState::FunctionScopes((k + 1) as usize)
                            } else {
                                UAIState::NumberOfTableValues(0)
                            },
                            scopes: p.scopes.push(desc.drop_first()),
                            ..p
                        },
                    )
                } else {
                    Err(UaiError::ScopeLengthMismatch)
                },
                None => Err(UaiError::InvalidNumber),
            },
            UAIState::NumberOfTableValues(k) => if k < p.scopes.len() {
                match parse_usize_spec(t) {
                    Some(total) => Ok(
                        UaiProgress {
                            state: UAIState::TableValues(k, 0, total),
                            entries: Seq::empty(),
                            ..p
                        },
                    ),
                    None => Err(UaiError::InvalidNumber),
                }
            } else {
                Err(UaiError::FunctionIndexOutOfBounds)
            },
            UAIState::TableValues(k, read, total) => if k < p.scopes.len() {
                let entries = p.entries + words(t);
                let count = read + words(t).len();
                if count > total {
                    Err(UaiError::TooManyEntries)
                } else if count < total {
                    Ok(UaiProgress { state: UAIState::TableValues(k, count as usize, total), entries, ..p })
                } else {
                    match general_table_error(p.domain_sizes, p.scopes[k as int], entries.len()) {
                        Some(e) => Err(e),
                        None => Ok(
                            UaiProgress {
                                state: if k + 1 < p.scopes.len() {
                                    UAIState::NumberOfTableValues((k + 1) as usize)
                                } else {
                                    UAIState::EndOfFile
                                },
                                entries: Seq::empty(),
                                functions: p.functions.push((p.scopes[k as int], entries)),
                                ..p
                            },
                        ),
                    }
                }
            } else {
                Err(UaiError::FunctionIndexOutOfBounds)
            },
            UAIState::EndOfFile => Ok(p),
        }
    }
}

/// Reads the lines of a UAI model into a general network, in order, stopping at the first
/// error.
pub open spec fn general_uai_run(lines: Seq<Seq<char>>) -> Result<UaiProgress, UaiError>
    decreases lines.len(),
{
    if lines.len() == 0 {
        Ok(initial_progress())
    } else {
        match general_uai_run(lines.drop_last()) {
            Ok(p) => general_uai_step(p, lines.last()),
            Err(e) => Err(e),
        }
    }
}

/// The scope and the table entries of term `i` of `cfn`: the variable of a unary origin or
/// the endpoints of the hyperedge of a non-unary one, and the words of the table.
pub open spec fn general_term_text(cfn: GeneralCFN<String>, i: int) -> (Seq<usize>, Seq<Seq<char>>) {
    let scope = match cfn.term_origins@[i] {
        TermOrigin::Unary(u) => seq![u.node_index],
        TermOrigin::NonUnary(h) => cfn.hypergraph.endpoints(h.hyperedge_index as int),
    };
    let table = match cfn.terms@[i] {
        Term::Nullary(_) => Seq::empty(),
        Term::Unary(t) => t@.map_values(|s: String| s@),
        Term::General { table, .. } => table@.map_values(|s: String| s@),
    };
    (scope, table)
}

/// `cfn` is the general network that `p` describes: the domain sizes once the network was
/// created, and the completed functions set in order, a function over one variable as its
/// unary term and any other as a new term whose table has the shape of its scope's domains.
pub open spec fn general_network_matches(cfn: GeneralCFN<String>, p: UaiProgress) -> bool {
    let domains = if p.network_created { p.domain_sizes } else { Seq::<usize>::empty() };
    let (list, unary) = added_factors(domains.len(), p.functions);
    &&& cfn.wf()
    &&& cfn.spec_domain_sizes() == domains
    &&& cfn.terms@.len() == list.len()
    &&& forall|i: int| 0 <= i < list.len() ==> #[trigger] general_term_text(cfn, i) == list[i]
    &&& forall|i: int|
        0 <= i < list.len() ==> match #[trigger] cfn.terms@[i] {
            Term::General { shape, .. } => shape@ == shape_of(domains, list[i].0),
            Term::Unary(_) => list[i].0.len() == 1,
            Term::Nullary(_) => false,
        }
    &&& forall|v: int| 0 <= v < domains.len() ==> #[trigger] cfn.spec_unary_terms()[v] == unary[v]
}

/// What the general reader keeps consistent about `p`: the network exists from the domain
/// sizes on, and no function is completed before the scopes are read; `k` scopes are read in
/// state `FunctionScopes(k)`.
pub open spec fn general_progress_wf(p: UaiProgress) -> bool {
    match p.state {
        UAIState::ModelType | UAIState::NumberOfVariables | UAIState::DomainSizes => !p.network_created
            && p.functions.len() == 0,
        UAIState::NumberOfFunctions => p.network_created && p.functions.len() == 0,
        UAIState::FunctionScopes(k) => p.network_created && k == p.scopes.len() && (k == 0 || k
            < p.num_functions),
        _ => p.network_created,
    }
}


/// Setting the term of a completed function in a general network that matches some functions
/// gives a network that matches them followed by that function.
proof fn lemma_general_add(
    before: GeneralCFN<String>,
    after: GeneralCFN<String>,
    domains: Seq<usize>,
    functions: Seq<(Seq<usize>, Seq<Seq<char>>)>,
    scope: Seq<usize>,
    table: Vec<String>,
    shape: Vec<usize>,
)
    requires
        before.wf(),
        after.wf(),
        before.hypergraph.hyperedge_count() <= usize::MAX,
        before.spec_domain_sizes() == domains,
        after.spec_domain_sizes() == domains,
        forall|i: int| 0 <= i < scope.len() ==> #[trigger] scope[i] < domains.len(),
        shape@ == shape_of(domains, scope),
        ({
            let (list, unary) = added_factors(domains.len(), functions);
            &&& before.terms@.len() == list.len()
            &&& forall|i: int| 0 <= i < list.len() ==> #[trigger] general_term_text(before, i) == list[i]
            &&& forall|i: int|
                0 <= i < list.len() ==> match #[trigger] before.terms@[i] {
                    Term::General { shape, .. } => shape@ == shape_of(domains, list[i].0),
                    Term::Unary(_) => list[i].0.len() == 1,
                    Term::Nullary(_) => false,
                }
            &&& forall|v: int| 0 <= v < domains.len() ==> #[trigger] before.spec_unary_terms()[v] == unary[v]
        }),
        scope.len() == 1 ==> match before.spec_unary_terms()[scope[0] as int] {
            Some(i) => {
                &&& after.terms@ == before.terms@.update(i as int, Term::Unary(table))
                &&& after.term_origins == before.term_origins
                &&& after.spec_unary_terms() == before.spec_unary_terms()
            },
            None => {
                &&& after.terms@ == before.terms@.push(Term::Unary(table))
                &&& after.term_origins@ == before.term_origins@.push(TermOrigin::Unary(UnaryOrigin { node_index: scope[0] }))
                &&& after.spec_unary_terms() == before.spec_unary_terms().update(scope[0] as int, Some(before.terms@.len() as usize))
            },
        },
        scope.len() != 1 ==> {
            &&& after.terms@ == before.terms@.push(Term::General { table, shape })
            &&& after.term_origins@ == before.term_origins@.push(
                TermOrigin::NonUnary(NonUnaryOrigin { hyperedge_index: before.hypergraph.hyperedge_count() as usize }),
            )
            &&& after.hypergraph.endpoints(before.hypergraph.hyperedge_count() as int) == scope
            &&& after.spec_unary_terms() == before.spec_unary_terms()
        },
        forall|h: int| 0 <= h < before.hypergraph.hyperedge_count() ==> #[trigger] after.hypergraph.endpoints(h)
            == before.hypergraph.endpoints(h),
    ensures
        ({
            let (list, unary) = added_factors(domains.len(), functions.push((scope, table@.map_values(|s: String| s@))));
            &&& after.terms@.len() == list.len()
            &&& forall|i: int| 0 <= i < list.len() ==> #[trigger] general_term_text(after, i) == list[i]
            &&& forall|i: int|
                0 <= i < list.len() ==> match #[trigger] after.terms@[i] {
                    Term::General { shape, .. } => shape@ == shape_of(domains, list[i].0),
                    Term::Unary(_) => list[i].0.len() == 1,
                    Term::Nullary(_) => false,
                }
            &&& forall|v: int| 0 <= v < domains.len() ==> #[trigger] after.spec_unary_terms()[v] == unary[v]
        }),
{
    let f = (scope, table@.map_values(|s: String| s@));
    let fs = functions.push(f);
    assert(fs.drop_last() =~= functions);
    let (list, unary) = added_factors(domains.len(), functions);
    let (list2, unary2) = added_factors(domains.len(), fs);
    lemma_added_factors_len(domains.len(), functions);
    before.hypergraph.lemma_data_counts();
    after.hypergraph.lemma_data_counts();
    if scope.len() == 1 {
        let w = scope[0] as int;
        assert(before.spec_unary_terms()[w] == unary[w]);
        match unary[w] {
            Some(i) => {
                assert(i < before.term_origins@.len());
                assert(before.term_origins@[i as int] == TermOrigin::Unary(UnaryOrigin { node_index: w as usize }));
                assert(list2 == list.update(i as int, f));
                assert(general_term_text(after, i as int) == f);
                assert forall|j: int| 0 <= j < list2.len() implies #[trigger] general_term_text(after, j) == list2[j] by {
                    if j != i {
                        assert(after.terms@[j] == before.terms@[j]);
                        assert(general_term_text(after, j) == general_term_text(before, j)) by {
                            match before.term_origins@[j] {
                                TermOrigin::NonUnary(h) => {
                                    assert(after.hypergraph.endpoints(h.hyperedge_index as int) == before.hypergraph.endpoints(h.hyperedge_index as int));
                                },
                                _ => {},
                            }
                        }
                    }
                }
                assert forall|j: int| 0 <= j < list2.len() implies match #[trigger] after.terms@[j] {
                    Term::General { shape, .. } => shape@ == shape_of(domains, list2[j].0),
                    Term::Unary(_) => list2[j].0.len() == 1,
                    Term::Nullary(_) => false,
                } by {
                    if j != i {
                        assert(after.terms@[j] == before.terms@[j]);
                    }
                }
            },
            None => {
                assert(list2 == list.push(f));
                assert(unary2 == unary.update(w, Some(list.len() as usize)));
                assert forall|j: int| 0 <= j < list2.len() implies #[trigger] general_term_text(after, j) == list2[j] by {
                    if j < list.len() {
                        assert(after.terms@[j] == before.terms@[j]);
                        assert(after.term_origins@[j] == before.term_origins@[j]);
                        assert(general_term_text(after, j) == general_term_text(before, j)) by {
                            match before.term_origins@[j] {
                                TermOrigin::NonUnary(h) => {
                                    assert(after.hypergraph.endpoints(h.hyperedge_index as int) == before.hypergraph.endpoints(h.hyperedge_index as int));
                                },
                                _ => {},
                            }
                        }
                    } else {
                        assert(after.term_origins@[j] == TermOrigin::Unary(UnaryOrigin { node_index: scope[0] }));
                        assert(seq![scope[0]] =~= scope);
                    }
                }
                assert forall|j: int| 0 <= j < list2.len() implies match #[trigger] after.terms@[j] {
                    Term::General { shape, .. } => shape@ == shape_of(domains, list2[j].0),
                    Term::Unary(_) => list2[j].0.len() == 1,
                    Term::Nullary(_) => false,
                } by {
                    if j < list.len() {
                        assert(after.terms@[j] == before.terms@[j]);
                    }
                }
                assert forall|v: int| 0 <= v < domains.len() implies #[trigger] after.spec_unary_terms()[v] == unary2[v] by {
                    assert(before.spec_unary_terms()[v] == unary[v]);
                }
            },
        }
    } else {
        assert(list2 == list.push(f));
        assert(unary2 == unary);
        assert forall|j: int| 0 <= j < list2.len() implies #[trigger] general_term_text(after, j) == list2[j] by {
            if j == list.len() {
                assert(after.term_origins@[j] == TermOrigin::NonUnary(NonUnaryOrigin { hyperedge_index: before.hypergraph.hyperedge_count() as usize }));
                assert(after.terms@[j] == Term::General { table, shape });
                assert((before.hypergraph.hyperedge_count() as usize) as int == before.hypergraph.hyperedge_count());
            }
            if j < list.len() {
                assert(after.terms@[j] == before.terms@[j]);
                assert(after.term_origins@[j] == before.term_origins@[j]);
                assert(general_term_text(after, j) == general_term_text(before, j)) by {
                    match before.term_origins@[j] {
                        TermOrigin::NonUnary(h) => {
                            assert(after.hypergraph.endpoints(h.hyperedge_index as int) == before.hypergraph.endpoints(h.hyperedge_index as int));
                        },
                        _ => {},
                    }
                }
            }
        }
        assert forall|j: int| 0 <= j < list2.len() implies match #[trigger] after.terms@[j] {
            Term::General { shape, .. } => shape@ == shape_of(domains, list2[j].0),
            Term::Unary(_) => list2[j].0.len() == 1,
            Term::Nullary(_) => false,
        } by {
            if j < list.len() {
                assert(after.terms@[j] == before.terms@[j]);
            }
        }
        assert forall|v: int| 0 <= v < domains.len() implies #[trigger] after.spec_unary_terms()[v] == unary2[v] by {
            assert(before.spec_unary_terms()[v] == unary[v]);
        }
    }
}


/// The domain sizes of the variables of `scope`, or `None` where a variable of `scope` has no
/// domain size.
fn scope_shape(domain_sizes: &Vec<usize>, scope: &Vec<usize>) -> (shape: Option<Vec<usize>>)
    ensures
        match shape {
            Some(s) => {
                &&& s@ == shape_of(domain_sizes@, scope@)
                &&& forall|i: int| 0 <= i < scope@.len() ==> #[trigger] scope@[i] < domain_sizes@.len()
            },
            None => exists|i: int| 0 <= i < scope@.len() && #[trigger] scope@[i] >= domain_sizes@.len(),
        },
{
    let n = domain_sizes.len();
    let mut shape: Vec<usize> = Vec::new();
    for i in 0..scope.len()
        invariant
            n == domain_sizes@.len(),
            forall|j: int| 0 <= j < i ==> #[trigger] scope@[j] < n,
            shape@ == shape_of(domain_sizes@, scope@.take(i as int)),
    {
        let variable = scope[i];
        if variable >= n {
            assert(scope@[i as int] >= n);
            return None;
        }
        shape.push(domain_sizes[variable]);
        assert(shape@ =~= shape_of(domain_sizes@, scope@.take(i + 1)));
    }
    assert(scope@.take(scope@.len() as int) =~= scope@);
    Some(shape)
}

/// The state of reading a UAI model line by line into a general network.
struct GeneralUaiReader {
    state: UAIState,
    num_variables: usize,
    domain_sizes: Vec<usize>,
    num_functions: usize,
    function_scopes: Vec<Vec<usize>>,
    function_entries: Vec<String>,
    network_created: Ghost<bool>,
    functions: Ghost<Seq<(Seq<usize>, Seq<Seq<char>>)>>,
    cfn: GeneralCFN<String>,
}

impl GeneralUaiReader {
    spec fn progress(&self) -> UaiProgress {
        UaiProgress {
            state: self.state,
            num_variables: self.num_variables,
            domain_sizes: self.domain_sizes@,
            num_functions: self.num_functions,
            scopes: self.function_scopes@.map_values(|s: Vec<usize>| s@),
            entries: self.function_entries@.map_values(|s: String| s@),
            network_created: self.network_created@,
            functions: self.functions@,
        }
    }

    spec fn inv(&self) -> bool {
        &&& general_progress_wf(self.progress())
        &&& general_network_matches(self.cfn, self.progress())
    }

    fn new() -> (reader: Self)
        ensures
            reader.inv(),
            reader.progress() == initial_progress(),
    {
        let reader = GeneralUaiReader {
            state: UAIState::ModelType,
            num_variables: 0,
            domain_sizes: Vec::new(),
            num_functions: 0,
            function_scopes: Vec::new(),
            function_entries: Vec::new(),
            network_created: Ghost(false),
            functions: Ghost(Seq::empty()),
            cfn: GeneralCFN::new(),
        };
        proof {
            reader.cfn.hypergraph.lemma_data_counts();
            assert(reader.progress().scopes =~= Seq::<Seq<usize>>::empty());
            assert(reader.progress().entries =~= Seq::<Seq<char>>::empty());
            let (list, unary) = added_factors(0, Seq::empty());
            assert(list =~= Seq::<(Seq<usize>, Seq<Seq<char>>)>::empty());
            assert(reader.cfn.spec_domain_sizes() =~= Seq::<usize>::empty());
        }
        reader
    }

    /// Reads one line that holds something once trimmed, in a state before the function
    /// tables.
    #[verifier::spinoff_prover]
    fn step_header(&mut self, line: &str, trimmed: &str) -> (result: Result<(), UaiError>)
        requires
            old(self).inv(),
            trimmed@.len() > 0,
            trimmed@ == trim(line@),
            match old(self).state {
                UAIState::ModelType | UAIState::NumberOfVariables | UAIState::DomainSizes
                | UAIState::NumberOfFunctions | UAIState::FunctionScopes(_) => true,
                _ => false,
            },
        ensures
            match general_uai_step(old(self).progress(), line@) {
                Ok(p) => result is Ok && final(self).inv() && final(self).progress() == p,
                Err(e) => result == Err::<(), UaiError>(e),
            },
    {
        match self.state {
            UAIState::ModelType => {
                if !is_markov(trimmed) {
                    return Err(UaiError::UnsupportedModelType);
                }
                self.state = UAIState::NumberOfVariables;
            },
            UAIState::NumberOfVariables => {
                match parse_usize(trimmed) {
                    Some(n) => {
                        self.num_variables = n;
                        self.state = UAIState::DomainSizes;
                    },
                    None => {
                        return Err(UaiError::InvalidNumber);
                    },
                }
            },
            UAIState::DomainSizes => {
                match string_to_vec(trimmed) {
                    Some(sizes) => {
                        if sizes.len() != self.num_variables {
                            return Err(UaiError::DomainSizesMismatch);
                        }
                        self.domain_sizes = copy_from(&sizes, 0);
                        assert(self.domain_sizes@ =~= sizes@);
                        self.cfn = GeneralCFN::from_domain_sizes(sizes);
                        self.network_created = Ghost(true);
                        self.state = UAIState::NumberOfFunctions;
                        proof {
                            let p = self.progress();
                            let (list, unary) = added_factors(p.domain_sizes.len(), p.functions);
                            assert(list =~= Seq::<(Seq<usize>, Seq<Seq<char>>)>::empty());
                            assert(unary =~= Seq::new(p.domain_sizes.len(), |v: int| None::<usize>));
                        }
                    },
                    None => {
                        return Err(UaiError::InvalidNumber);
                    },
                }
            },
            UAIState::NumberOfFunctions => {
                match parse_usize(trimmed) {
                    Some(m) => {
                        self.num_functions = m;
                        self.function_scopes = Vec::new();
                        self.state = UAIState::FunctionScopes(0);
                        assert(self.progress().scopes =~= Seq::<Seq<usize>>::empty());
                    },
                    None => {
                        return Err(UaiError::InvalidNumber);
                    },
                }
            },
            UAIState::FunctionScopes(k) => {
                match string_to_vec(trimmed) {
                    Some(desc) => {
                        if desc.len() == 0 || desc[0] != desc.len() - 1 {
                            return Err(UaiError::ScopeLengthMismatch);
                        }
                        let scope = copy_from(&desc, 1);
                        assert(scope@ =~= desc@.drop_first());
                        let ghost scopes_before = self.function_scopes@;
                        self.function_scopes.push(scope);
                        assert(self.function_scopes@.map_values(|s: Vec<usize>| s@) =~= scopes_before.map_values(
                            |s: Vec<usize>| s@,
                        ).push(desc@.drop_first()));
                        self.state = if k + 1 < self.num_functions {
                            UAIState::FunctionScopes(k + 1)
                        } else {
                            UAIState::NumberOfTableValues(0)
                        };
                    },
                    None => {
                        return Err(UaiError::InvalidNumber);
                    },
                }
            },
            _ => {},
        }
        Ok(())
    }

    /// Reads one line that holds something once trimmed, in a state of the function tables.
    #[verifier::spinoff_prover]
    #[verifier::rlimit(40)]
    fn step_tables(&mut self, line: &str, trimmed: &str) -> (result: Result<(), UaiError>)
        requires
            old(self).inv(),
            trimmed@.len() > 0,
            trimmed@ == trim(line@),
            match old(self).state {
                UAIState::NumberOfTableValues(_) | UAIState::TableValues(_, _, _)
                | UAIState::EndOfFile => true,
                _ => false,
            },
        ensures
            match general_uai_step(old(self).progress(), line@) {
                Ok(p) => result is Ok && final(self).inv() && final(self).progress() == p,
                Err(e) => result == Err::<(), UaiError>(e),
            },
    {
        let ghost before = self.progress();
        match self.state {
            UAIState::NumberOfTableValues(k) => {
                if k >= self.function_scopes.len() {
                    return Err(UaiError::FunctionIndexOutOfBounds);
                }
                match parse_usize(trimmed) {
                    Some(total) => {
                        self.function_entries = Vec::new();
                        self.state = UAIState::TableValues(k, 0, total);
                        assert(self.progress().entries =~= Seq::<Seq<char>>::empty());
                    },
                    None => {
                        return Err(UaiError::InvalidNumber);
                    },
                }
            },
            UAIState::TableValues(k, read, total) => {
                if k >= self.function_scopes.len() {
                    return Err(UaiError::FunctionIndexOutOfBounds);
                }
                let mut new_entries = split_whitespace(trimmed);
                let count: u128 = read as u128 + new_entries.len() as u128;
                let ghost entries_before = self.function_entries@;
                let ghost new_view = new_entries@;
                self.function_entries.append(&mut new_entries);
                assert(self.function_entries@.map_values(|s: String| s@) =~= entries_before.map_values(
                    |s: String| s@,
                ) + new_view.map_values(|s: String| s@));
                if count > total as u128 {
                    return Err(UaiError::TooManyEntries);
                }
                if count < total as u128 {
                    self.state = UAIState::TableValues(k, count as usize, total);
                    return Ok(());
                }
                let n = self.domain_sizes.len();
                let scope_len = self.function_scopes[k].len();
                let ghost scope_view = self.function_scopes@[k as int]@;
                assert(before.scopes[k as int] == scope_view);
                let shape = match scope_shape(&self.domain_sizes, &self.function_scopes[k]) {
                    Some(shape) => shape,
                    None => {
                        return Err(UaiError::VariableOutOfRange);
                    },
                };
                let mut entries: Vec<String> = Vec::new();
                std::mem::swap(&mut entries, &mut self.function_entries);
                let ghost entries_view = entries@;
                match table_from_shape(&shape, entries) {
                    None => {
                        return Err(UaiError::TableSizeMismatch);
                    },
                    Some(table) => {
                        let scope = self.function_scopes[k].clone();
                        assert(scope@ =~= scope_view);
                        let ghost table_ghost = table;
                        let ghost shape_ghost = shape;
                        let term = if scope.len() == 1 {
                            Term::Unary(table)
                        } else {
                            Term::General { table, shape }
                        };
                        let hyperedge_count = self.cfn.hypergraph.num_hyperedges();
                        let mut cfn: GeneralCFN<String> = GeneralCFN::new();
                        std::mem::swap(&mut cfn, &mut self.cfn);
                        let ghost cfn_before = cfn;
                        proof {
                            cfn.hypergraph.lemma_data_counts();
                        }
                        self.cfn = cfn.set_term(scope, term);
                        self.functions = Ghost(self.functions@.push((scope_view, entries_view.map_values(|s: String| s@))));
                        self.state = if k + 1 < self.function_scopes.len() {
                            UAIState::NumberOfTableValues(k + 1)
                        } else {
                            UAIState::EndOfFile
                        };
                        proof {
                            assert(self.progress().entries =~= Seq::<Seq<char>>::empty());
                            lemma_general_add(
                                cfn_before,
                                self.cfn,
                                before.domain_sizes,
                                before.functions,
                                scope_view,
                                table_ghost,
                                shape_ghost,
                            );
                        }
                    },
                }
            },
            _ => {},
        }
        Ok(())
    }

    /// Reads one line.
    fn step(&mut self, line: &str) -> (result: Result<(), UaiError>)
        requires
            old(self).inv(),
        ensures
            match general_uai_step(old(self).progress(), line@) {
                Ok(p) => result is Ok && final(self).inv() && final(self).progress() == p,
                Err(e) => result == Err::<(), UaiError>(e),
            },
    {
        let trimmed = trim_text(line);
        if trimmed.unicode_len() == 0 {
            return Ok(());
        }
        match self.state {
            UAIState::NumberOfTableValues(_) | UAIState::TableValues(_, _, _) | UAIState::EndOfFile => {
                self.step_tables(line, trimmed)
            },
            _ => self.step_header(line, trimmed),
        }
    }
}


/// Once reading fails, it fails with the same error whatever follows.
proof fn lemma_general_uai_run_stops(lines: Seq<Seq<char>>, k: int)
    requires
        0 <= k <= lines.len(),
        general_uai_run(lines.take(k)) is Err,
    ensures
        general_uai_run(lines) == general_uai_run(lines.take(k)),
    decreases lines.len() - k,
{
    if k == lines.len() {
        assert(lines.take(k) =~= lines);
    } else {
        let t = lines.drop_last();
        assert(t.take(k) =~= lines.take(k));
        lemma_general_uai_run_stops(t, k);
    }
}

impl GeneralCFN<String> {
    /// Reads a general network from the lines of a model in UAI format, as `read_uai` reads a
    /// network, except that the network is created with the domain sizes, that each completed
    /// table must have the shape of its scope's domains, and that its function is set as a
    /// term: a unary term where its scope has one variable, a new term otherwise. The table
    /// entries are kept as words. The result is what `general_uai_run` describes: the first
    /// error met, or the network of what was read.
    pub fn read_from_uai(lines: &Vec<String>) -> (result: Result<GeneralCFN<String>, UaiError>)
        ensures
            match general_uai_run(lines@.map_values(|l: String| l@)) {
                Ok(p) => match result {
                    Ok(cfn) => general_network_matches(cfn, p),
                    Err(_) => false,
                },
                Err(e) => result matches Err(e2) && e2 == e,
            },
    {
        let ghost texts = lines@.map_values(|l: String| l@);
        let mut reader = GeneralUaiReader::new();
        let mut i: usize = 0;
        while i < lines.len()
            invariant
                texts == lines@.map_values(|l: String| l@),
                i <= lines@.len(),
                reader.inv(),
                general_uai_run(texts.take(i as int)) == Ok::<UaiProgress, UaiError>(reader.progress()),
            decreases lines@.len() - i,
        {
            assert(texts.take(i + 1).drop_last() =~= texts.take(i as int));
            assert(texts.take(i + 1).last() == lines@[i as int]@);
            match reader.step(lines[i].as_str()) {
                Ok(()) => {},
                Err(e) => {
                    proof {
                        lemma_general_uai_run_stops(texts, i + 1);
                    }
                    return Err(e);
                },
            }
            i = i + 1;
        }
        assert(texts.take(i as int) =~= texts);
        Ok(reader.cfn)
    }
}


impl<W> GeneralCFN<W> {
    /// The scope of term `i`: the variable of a unary origin, or the endpoints of the
    /// hyperedge of a non-unary one.
    pub open spec fn term_scope(&self, i: int) -> Seq<usize> {
        match self.term_origins@[i] {
            TermOrigin::Unary(u) => seq![u.node_index],
            TermOrigin::NonUnary(h) => self.hypergraph.endpoints(h.hyperedge_index as int),
        }
    }

    /// Writes this network in UAI format up to the function tables: the model type, the
    /// number of variables, their domain sizes, the number of terms and the scope of each.
    pub fn uai_preamble(&self) -> (text: String)
        requires
            self.wf(),
        ensures
            text@ == uai_preamble_text(
                self.spec_domain_sizes(),
                Seq::new(self.terms@.len(), |i: int| self.term_scope(i)),
            ),
    {
        proof {
            self.hypergraph.lemma_data_counts();
        }
        let n = self.num_variables();
        let mut domain_sizes: Vec<usize> = Vec::new();
        for v in 0..n
            invariant
                self.wf(),
                n == self.hypergraph.node_count(),
                domain_sizes@ == self.spec_domain_sizes().take(v as int),
        {
            domain_sizes.push(self.domain_size(v));
            assert(domain_sizes@ =~= self.spec_domain_sizes().take(v + 1));
        }
        assert(domain_sizes@ =~= self.spec_domain_sizes());
        let ghost scopes = Seq::new(self.terms@.len(), |i: int| self.term_scope(i));
        let mut text = String::from_str("MARKOV\n");
        proof {
            reveal_strlit("MARKOV\n");
            reveal_strlit("\n");
            reveal_strlit(" ");
            reveal_strlit("1 ");
        }
        text.append(usize_to_string(n).as_str());
        text.append("\n");
        text.append(vec_to_string(&domain_sizes).as_str());
        text.append("\n");
        text.append(usize_to_string(self.term_origins.len()).as_str());
        text.append("\n");
        let ghost head = text@;
        assert(crate::cfn::uai::scope_lines(scopes.take(0)) =~= Seq::<char>::empty());
        for i in 0..self.term_origins.len()
            invariant
                self.wf(),
                scopes == Seq::new(self.terms@.len(), |i: int| self.term_scope(i)),
                text@ == head + crate::cfn::uai::scope_lines(scopes.take(i as int)),
        {
            proof {
                reveal_strlit("\n");
                reveal_strlit(" ");
                reveal_strlit("1 ");
            }
            match self.term_origins[i] {
                TermOrigin::Unary(origin) => {
                    text.append("1 ");
                    text.append(usize_to_string(origin.node_index).as_str());
                    text.append("\n");
                    proof {
                        assert(crate::cfn::uai::decimals(seq![origin.node_index]) =~= seq![crate::cfn::uai::decimal(origin.node_index as nat)]);
                        assert(crate::cfn::uai::decimal(1) =~= seq!['1']);
                    }
                },
                TermOrigin::NonUnary(origin) => {
                    let variables = self.hypergraph.hyperedge_endpoints(origin.hyperedge_index);
                    text.append(usize_to_string(variables.len()).as_str());
                    text.append(" ");
                    text.append(vec_to_string(variables).as_str());
                    text.append("\n");
                },
            }
            assert(scopes.take(i + 1).drop_last() =~= scopes.take(i as int));
            assert(scopes.take(i + 1).last() == self.term_scope(i as int));
            assert(text@ =~= head + crate::cfn::uai::scope_lines(scopes.take(i + 1)));
        }
        assert(scopes.take(self.term_origins@.len() as int) =~= scopes);
        assert(text@ =~= uai_preamble_text(self.spec_domain_sizes(), scopes));
        text
    }
}

} // verus!
