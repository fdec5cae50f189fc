use vstd::prelude::*;

use crate::data_structures::hypergraph::{Hypergraph, UndirectedHypergraph};

verus! {

/// Where a unary term comes from: the node of its variable.
#[derive(Clone, Copy, PartialEq, Eq, Structural, Debug)]
pub struct UnaryOrigin {
    pub node_index: usize,
}

/// Where a non-unary term comes from: the hyperedge joining its variables.
#[derive(Clone, Copy, PartialEq, Eq, Structural, Debug)]
pub struct NonUnaryOrigin {
    pub hyperedge_index: usize,
}

/// Where a term comes from.
#[derive(Clone, Copy, PartialEq, Eq, Structural, Debug)]
pub enum TermOrigin {
    Unary(UnaryOrigin),
    NonUnary(NonUnaryOrigin),
}

/// A variable of a network: its domain size and the index of its unary term, if any.
pub struct CFNVariable {
    domain_size: usize,
    unary_term_index: Option<usize>,
}

/// A non-unary term of a network, as the data of its hyperedge: the index of the term.
pub struct CFNTerm {
    term_index: usize,
}

/// A term of a cost function network with values of type `W`: a constant, a unary function
/// table, or a function table over `shape.len()` variables with the given domain sizes.
pub enum Term<W> {
    Nullary(W),
    Unary(Vec<W>),
    General { table: Vec<W>, shape: Vec<usize> },
}

impl<W> Term<W> {
    /// The number of variables the term depends on.
    pub open spec fn spec_arity(&self) -> nat {
        match self {
            Term::Nullary(_) => 0,
            Term::Unary(_) => 1,
            Term::General { shape, .. } => shape@.len(),
        }
    }

    /// Returns the number of variables the term depends on.
    pub fn arity(&self) -> (arity: usize)
        ensures
            arity == self.spec_arity(),
    {
        match self {
            Term::Nullary(_) => 0,
            Term::Unary(_) => 1,
            Term::General { shape, .. } => shape.len(),
        }
    }
}

/// The number of terms of `terms` that are neither nullary nor unary.
pub open spec fn count_general<W>(terms: Seq<Term<W>>) -> nat
    decreases terms.len(),
{
    if terms.len() == 0 {
        0
    } else {
        count_general(terms.drop_last()) + if terms.last() is General {
            1nat
        } else {
            0nat
        }
    }
}

/// Counting non-unary terms: a single term counts 1 exactly when it is a general (non-unary)
/// term, the count of two lists of terms one after the other is the sum of their counts, so
/// appending a term adds 1 exactly when it is general, and replacing a term changes the count
/// only by whether the old and the new term are general.
pub proof fn lemma_count_general<W>(first: Seq<Term<W>>, second: Seq<Term<W>>, term: Term<W>, i: int)
    ensures
        count_general(Seq::<Term<W>>::empty()) == 0,
        count_general(seq![term]) == if term is General {
            1nat
        } else {
            0nat
        },
        count_general(first + second) == count_general(first) + count_general(second),
        count_general(first.push(term)) == count_general(first) + if term is General {
            1nat
        } else {
            0nat
        },
        count_general(first) <= first.len(),
        0 <= i < first.len() ==> count_general(first.update(i, term)) + (if first[i] is General {
            1nat
        } else {
            0nat
        }) == count_general(first) + (if term is General {
            1nat
        } else {
            0nat
        }),
{
    let single = seq![term];
    assert(single.drop_last() =~= Seq::<Term<W>>::empty());
    assert(single.last() == term);
    assert(count_general(Seq::<Term<W>>::empty()) == 0);
    assert(count_general(single) == count_general(single.drop_last()) + if term is General {
        1nat
    } else {
        0nat
    });
    lemma_count_general_len(first);
    lemma_count_general_split(first, second);
    lemma_count_general_split(first, seq![term]);
    assert(first + seq![term] =~= first.push(term));
    if 0 <= i < first.len() {
        let before = first.take(i);
        let after = first.skip(i + 1);
        assert(first =~= before + seq![first[i]] + after);
        assert(first.update(i, term) =~= before + seq![term] + after);
        lemma_count_general_split(before + seq![first[i]], after);
        lemma_count_general_split(before, seq![first[i]]);
        lemma_count_general_split(before + seq![term], after);
        lemma_count_general_split(before, seq![term]);
        let old_single = seq![first[i]];
        assert(old_single.drop_last() =~= Seq::<Term<W>>::empty());
        assert(old_single.last() == first[i]);
    }
}

proof fn lemma_count_general_split<W>(first: Seq<Term<W>>, second: Seq<Term<W>>)
    ensures
        count_general(first + second) == count_general(first) + count_general(second),
    decreases second.len(),
{
    if second.len() > 0 {
        lemma_count_general_split(first, second.drop_last());
        assert((first + second).drop_last() =~= first + second.drop_last());
        assert((first + second).last() == second.last());
    } else {
        assert(first + second =~= first);
    }
}

proof fn lemma_count_general_len<W>(terms: Seq<Term<W>>)
    ensures
        count_general(terms) <= terms.len(),
    decreases terms.len(),
{
    if terms.len() > 0 {
        lemma_count_general_len(terms.drop_last());
    }
}

/// A cost function network whose variables are the nodes of a hypergraph and whose
/// non-unary terms are its hyperedges; the terms are stored in order of addition, with the
/// origin of each.
pub struct GeneralCFN<W> {
    pub hypergraph: UndirectedHypergraph<CFNVariable, CFNTerm>,
    pub terms: Vec<Term<W>>,
    pub term_origins: Vec<TermOrigin>,
    pub nullary_term: W,
}

impl<W> GeneralCFN<W> {
    /// The domain size of each variable.
    pub closed spec fn spec_domain_sizes(&self) -> Seq<usize> {
        self.hypergraph.nodes_data().map_values(|v: CFNVariable| v.domain_size)
    }

    /// The index of the unary term of each variable, if any.
    pub closed spec fn spec_unary_terms(&self) -> Seq<Option<usize>> {
        self.hypergraph.nodes_data().map_values(|v: CFNVariable| v.unary_term_index)
    }

    /// The index of the term of each hyperedge.
    pub closed spec fn spec_hyperedge_terms(&self) -> Seq<usize> {
        self.hypergraph.hyperedges_data().map_values(|t: CFNTerm| t.term_index)
    }

    /// The terms, the origins and the hypergraph agree: each term has an origin; a unary
    /// origin names a variable whose unary term it is, and that term is unary; a non-unary
    /// origin names a hyperedge whose term it is; and each recorded unary term and each
    /// hyperedge's term has the matching origin.
    pub open spec fn wf(&self) -> bool {
        let n = self.hypergraph.node_count();
        let origins = self.term_origins@;
        &&& self.hypergraph.wf()
        &&& self.terms@.len() == origins.len()
        &&& self.spec_domain_sizes().len() == n
        &&& self.spec_unary_terms().len() == n
        &&& self.spec_hyperedge_terms().len() == self.hypergraph.hyperedge_count()
        &&& forall|i: int|
            0 <= i < origins.len() ==> match #[trigger] origins[i] {
                TermOrigin::Unary(u) => u.node_index < n && self.spec_unary_terms()[u.node_index as int]
                    == Some(i as usize) && self.terms@[i] is Unary,
                TermOrigin::NonUnary(h) => h.hyperedge_index < self.hypergraph.hyperedge_count()
                    && self.spec_hyperedge_terms()[h.hyperedge_index as int] == i,
            }
        &&& forall|v: int|
            0 <= v < n && #[trigger] self.spec_unary_terms()[v] is Some ==> {
                let i = self.spec_unary_terms()[v].unwrap();
                &&& i < origins.len()
                &&& origins[i as int] == TermOrigin::Unary(UnaryOrigin { node_index: v as usize })
            }
        &&& forall|h: int|
            0 <= h < self.hypergraph.hyperedge_count() ==> {
                let i = #[trigger] self.spec_hyperedge_terms()[h];
                &&& i < origins.len()
                &&& origins[i as int] == TermOrigin::NonUnary(NonUnaryOrigin { hyperedge_index: h as usize })
            }
    }

    /// Returns the number of variables.
    pub fn num_variables(&self) -> (n: usize)
        ensures
            n == self.hypergraph.node_count(),
    {
        self.hypergraph.num_nodes()
    }

    /// Returns the domain size of a variable.
    pub fn domain_size(&self, variable: usize) -> (size: usize)
        requires
            self.wf(),
            variable < self.hypergraph.node_count(),
        ensures
            size == self.spec_domain_sizes()[variable as int],
    {
        self.hypergraph.node_data(variable).domain_size
    }

    /// Returns the index of the unary term of a variable, if any.
    pub fn unary_term_index(&self, variable: usize) -> (index: Option<usize>)
        requires
            self.wf(),
            variable < self.hypergraph.node_count(),
        ensures
            index == self.spec_unary_terms()[variable as int],
    {
        self.hypergraph.node_data(variable).unary_term_index
    }

    /// Returns the number of terms (the nullary term aside).
    pub fn num_terms(&self) -> (n: usize)
        ensures
            n == self.terms@.len(),
    {
        self.terms.len()
    }
}


impl<W> GeneralCFN<W> {
    /// Sets the nullary term.
    pub fn set_nullary_term(self, nullary_term: W) -> (cfn: Self)
        ensures
            cfn.nullary_term == nullary_term,
            cfn.hypergraph == self.hypergraph,
            cfn.terms == self.terms,
            cfn.term_origins == self.term_origins,
    {
        let mut cfn = self;
        cfn.nullary_term = nullary_term;
        cfn
    }

    /// Sets the unary term of `variable`: overwrites its unary term if it has one, and
    /// otherwise appends the term with a unary origin and records it with the variable.
    pub fn set_unary_term(self, variable: usize, unary_term: Vec<W>) -> (cfn: Self)
        requires
            self.wf(),
            variable < self.hypergraph.node_count(),
        ensures
            cfn.wf(),
            cfn.nullary_term == self.nullary_term,
            cfn.hypergraph.node_count() == self.hypergraph.node_count(),
            cfn.hypergraph.hyperedge_count() == self.hypergraph.hyperedge_count(),
            cfn.spec_domain_sizes() == self.spec_domain_sizes(),
            cfn.spec_hyperedge_terms() == self.spec_hyperedge_terms(),
            forall|h: int| 0 <= h < self.hypergraph.hyperedge_count() ==> #[trigger] cfn.hypergraph.endpoints(h)
                == self.hypergraph.endpoints(h),
            match self.spec_unary_terms()[variable as int] {
                Some(i) => {
                    &&& cfn.terms@ == self.terms@.update(i as int, Term::Unary(unary_term))
                    &&& cfn.term_origins == self.term_origins
                    &&& cfn.spec_unary_terms() == self.spec_unary_terms()
                },
                None => {
                    &&& cfn.terms@ == self.terms@.push(Term::Unary(unary_term))
                    &&& cfn.term_origins@ == self.term_origins@.push(TermOrigin::Unary(UnaryOrigin { node_index: variable }))
                    &&& cfn.spec_unary_terms() == self.spec_unary_terms().update(variable as int, Some(self.terms@.len() as usize))
                },
            },
    {
        let mut cfn = self;
        proof {
            cfn.hypergraph.lemma_data_counts();
        }
        let ghost before = cfn;
        match cfn.hypergraph.node_data(variable).unary_term_index {
            Some(unary_term_index) => {
                cfn.terms.set(unary_term_index, Term::Unary(unary_term));
                proof {
                    assert forall|i: int| 0 <= i < cfn.term_origins@.len() implies match #[trigger] cfn.term_origins@[i] {
                        TermOrigin::Unary(u) => u.node_index < cfn.hypergraph.node_count() && cfn.spec_unary_terms()[u.node_index as int]
                            == Some(i as usize) && cfn.terms@[i] is Unary,
                        TermOrigin::NonUnary(h) => h.hyperedge_index < cfn.hypergraph.hyperedge_count()
                            && cfn.spec_hyperedge_terms()[h.hyperedge_index as int] == i,
                    } by {
                        if i != unary_term_index {
                            assert(cfn.terms@[i] == before.terms@[i]);
                        }
                    }
                }
            },
            None => {
                let new_index = cfn.terms.len();
                let data = cfn.hypergraph.node_data_mut(variable);
                data.unary_term_index = Some(new_index);
                cfn.terms.push(Term::Unary(unary_term));
                cfn.term_origins.push(TermOrigin::Unary(UnaryOrigin { node_index: variable }));
                proof {
                    cfn.hypergraph.lemma_data_counts();
                    assert(cfn.spec_domain_sizes() =~= before.spec_domain_sizes());
                    assert(cfn.spec_hyperedge_terms() =~= before.spec_hyperedge_terms());
                    assert(cfn.spec_unary_terms() =~= before.spec_unary_terms().update(variable as int, Some(new_index)));
                    assert forall|i: int| 0 <= i < cfn.term_origins@.len() implies match #[trigger] cfn.term_origins@[i] {
                        TermOrigin::Unary(u) => u.node_index < cfn.hypergraph.node_count() && cfn.spec_unary_terms()[u.node_index as int]
                            == Some(i as usize) && cfn.terms@[i] is Unary,
                        TermOrigin::NonUnary(h) => h.hyperedge_index < cfn.hypergraph.hyperedge_count()
                            && cfn.spec_hyperedge_terms()[h.hyperedge_index as int] == i,
                    } by {
                        if i < before.term_origins@.len() {
                            assert(cfn.term_origins@[i] == before.term_origins@[i]);
                            assert(cfn.terms@[i] == before.terms@[i]);
                            match before.term_origins@[i] {
                                TermOrigin::Unary(u) => {
                                    assert(u.node_index != variable);
                                },
                                _ => {},
                            }
                        }
                    }
                    assert forall|v: int| 0 <= v < cfn.hypergraph.node_count() && #[trigger] cfn.spec_unary_terms()[v] is Some implies {
                        let i = cfn.spec_unary_terms()[v].unwrap();
                        &&& i < cfn.term_origins@.len()
                        &&& cfn.term_origins@[i as int] == TermOrigin::Unary(UnaryOrigin { node_index: v as usize })
                    } by {
                        if v != variable {
                            assert(cfn.spec_unary_terms()[v] == before.spec_unary_terms()[v]);
                        }
                    }
                    assert forall|h: int| 0 <= h < cfn.hypergraph.hyperedge_count() implies {
                        let i = #[trigger] cfn.spec_hyperedge_terms()[h];
                        &&& i < cfn.term_origins@.len()
                        &&& cfn.term_origins@[i as int] == TermOrigin::NonUnary(NonUnaryOrigin { hyperedge_index: h as usize })
                    } by {
                        assert(cfn.spec_hyperedge_terms()[h] == before.spec_hyperedge_terms()[h]);
                    }
                }
            },
        }
        cfn
    }

    /// Appends a term over `variables` (which must be variables of the network) as a new
    /// hyperedge joining them, with a non-unary origin.
    pub fn set_nonunary_term(self, variables: Vec<usize>, nonunary_term: Term<W>) -> (cfn: Self)
        requires
            self.wf(),
            forall|i: int| 0 <= i < variables@.len() ==> #[trigger] variables@[i] < self.hypergraph.node_count(),
        ensures
            cfn.wf(),
            cfn.nullary_term == self.nullary_term,
            cfn.hypergraph.node_count() == self.hypergraph.node_count(),
            cfn.hypergraph.hyperedge_count() == self.hypergraph.hyperedge_count() + 1,
            cfn.spec_domain_sizes() == self.spec_domain_sizes(),
            cfn.spec_unary_terms() == self.spec_unary_terms(),
            cfn.spec_hyperedge_terms() == self.spec_hyperedge_terms().push(self.terms@.len() as usize),
            cfn.hypergraph.endpoints(self.hypergraph.hyperedge_count() as int) == variables@,
            forall|h: int| 0 <= h < self.hypergraph.hyperedge_count() ==> #[trigger] cfn.hypergraph.endpoints(h)
                == self.hypergraph.endpoints(h),
            cfn.terms@ == self.terms@.push(nonunary_term),
            cfn.term_origins@ == self.term_origins@.push(
                TermOrigin::NonUnary(NonUnaryOrigin { hyperedge_index: self.hypergraph.hyperedge_count() as usize }),
            ),
    {
        let mut cfn = self;
        let ghost before = cfn;
        proof {
            cfn.hypergraph.lemma_data_counts();
        }
        let term_index = cfn.terms.len();
        let hyperedge_index = cfn.hypergraph.add_hyperedge(variables, CFNTerm { term_index });
        cfn.terms.push(nonunary_term);
        cfn.term_origins.push(TermOrigin::NonUnary(NonUnaryOrigin { hyperedge_index }));
        proof {
            cfn.hypergraph.lemma_data_counts();
            assert(cfn.spec_domain_sizes() =~= before.spec_domain_sizes());
            assert(cfn.spec_unary_terms() =~= before.spec_unary_terms());
            assert(cfn.spec_hyperedge_terms() =~= before.spec_hyperedge_terms().push(term_index));
            assert forall|i: int| 0 <= i < cfn.term_origins@.len() implies match #[trigger] cfn.term_origins@[i] {
                TermOrigin::Unary(u) => u.node_index < cfn.hypergraph.node_count() && cfn.spec_unary_terms()[u.node_index as int]
                    == Some(i as usize) && cfn.terms@[i] is Unary,
                TermOrigin::NonUnary(h) => h.hyperedge_index < cfn.hypergraph.hyperedge_count()
                    && cfn.spec_hyperedge_terms()[h.hyperedge_index as int] == i,
            } by {
                if i < before.term_origins@.len() {
                    assert(cfn.term_origins@[i] == before.term_origins@[i]);
                    assert(cfn.terms@[i] == before.terms@[i]);
                }
            }
            assert forall|v: int| 0 <= v < cfn.hypergraph.node_count() && #[trigger] cfn.spec_unary_terms()[v] is Some implies {
                let i = cfn.spec_unary_terms()[v].unwrap();
                &&& i < cfn.term_origins@.len()
                &&& cfn.term_origins@[i as int] == TermOrigin::Unary(UnaryOrigin { node_index: v as usize })
            } by {
                assert(cfn.spec_unary_terms()[v] == before.spec_unary_terms()[v]);
            }
            assert forall|h: int| 0 <= h < cfn.hypergraph.hyperedge_count() implies {
                let i = #[trigger] cfn.spec_hyperedge_terms()[h];
                &&& i < cfn.term_origins@.len()
                &&& cfn.term_origins@[i as int] == TermOrigin::NonUnary(NonUnaryOrigin { hyperedge_index: h as usize })
            } by {
                if h < before.hypergraph.hyperedge_count() {
                    assert(cfn.spec_hyperedge_terms()[h] == before.spec_hyperedge_terms()[h]);
                }
            }
        }
        cfn
    }

    /// Sets a term over `variables`, whose number must be the term's arity: a nullary term
    /// becomes the nullary term, a unary term the unary term of its variable, and any other
    /// term a new non-unary term.
    pub fn set_term(self, variables: Vec<usize>, term: Term<W>) -> (cfn: Self)
        requires
            self.wf(),
            variables@.len() == term.spec_arity(),
            forall|i: int| 0 <= i < variables@.len() ==> #[trigger] variables@[i] < self.hypergraph.node_count(),
        ensures
            cfn.wf(),
            cfn.spec_domain_sizes() == self.spec_domain_sizes(),
            cfn.hypergraph.node_count() == self.hypergraph.node_count(),
            forall|h: int| 0 <= h < self.hypergraph.hyperedge_count() ==> #[trigger] cfn.hypergraph.endpoints(h)
                == self.hypergraph.endpoints(h),
            match term {
                Term::Nullary(value) => {
                    &&& cfn.nullary_term == value
                    &&& cfn.hypergraph == self.hypergraph
                    &&& cfn.terms == self.terms
                    &&& cfn.term_origins == self.term_origins
                },
                Term::Unary(table) => match self.spec_unary_terms()[variables@[0] as int] {
                    Some(i) => {
                        &&& cfn.terms@ == self.terms@.update(i as int, Term::Unary(table))
                        &&& cfn.term_origins == self.term_origins
                        &&& cfn.spec_unary_terms() == self.spec_unary_terms()
                    },
                    None => {
                        &&& cfn.terms@ == self.terms@.push(Term::Unary(table))
                        &&& cfn.term_origins@ == self.term_origins@.push(
                            TermOrigin::Unary(UnaryOrigin { node_index: variables@[0] }),
                        )
                        &&& cfn.spec_unary_terms() == self.spec_unary_terms().update(
                            variables@[0] as int,
                            Some(self.terms@.len() as usize),
                        )
                    },
                },
                Term::General { .. } => {
                    &&& cfn.spec_unary_terms() == self.spec_unary_terms()
                    &&& cfn.terms@ == self.terms@.push(term)
                    &&& cfn.term_origins@ == self.term_origins@.push(
                        TermOrigin::NonUnary(NonUnaryOrigin { hyperedge_index: self.hypergraph.hyperedge_count() as usize }),
                    )
                    &&& cfn.hypergraph.endpoints(self.hypergraph.hyperedge_count() as int) == variables@
                },
            },
    {
        match term {
            Term::Nullary(value) => self.set_nullary_term(value),
            Term::Unary(table) => {
                let variable = variables[0];
                self.set_unary_term(variable, table)
            },
            Term::General { table, shape } => self.set_nonunary_term(variables, Term::General { table, shape }),
        }
    }

    /// Returns the number of terms that are neither nullary nor unary.
    pub fn num_non_unary_terms(&self) -> (n: usize)
        ensures
            n == count_general(self.terms@),
    {
        let mut n: usize = 0;
        for i in 0..self.terms.len()
            invariant
                n == count_general(self.terms@.take(i as int)),
                n <= i,
        {
            proof {
                assert(self.terms@.take(i + 1).drop_last() =~= self.terms@.take(i as int));
                assert(self.terms@.take(i + 1).last() == self.terms@[i as int]);
            }
            match &self.terms[i] {
                Term::General { .. } => {
                    n = n + 1;
                },
                _ => {},
            }
        }
        assert(self.terms@.take(self.terms@.len() as int) =~= self.terms@);
        n
    }
}


impl<W: Default> GeneralCFN<W> {
    /// An empty network: no variables and no terms (the nullary term is `W`'s default).
    pub fn new() -> (cfn: Self)
        ensures
            cfn.wf(),
            cfn.hypergraph.node_count() == 0,
            cfn.hypergraph.hyperedge_count() == 0,
            cfn.terms@.len() == 0,
            call_ensures(W::default, (), cfn.nullary_term),
    {
        let cfn = GeneralCFN {
            hypergraph: UndirectedHypergraph::with_capacity(0, 0),
            terms: Vec::new(),
            term_origins: Vec::new(),
            nullary_term: W::default(),
        };
        proof {
            cfn.hypergraph.lemma_data_counts();
        }
        cfn
    }

    /// A network with one variable per entry of `domain_sizes`, of that domain size, and no
    /// terms.
    pub fn from_domain_sizes(domain_sizes: Vec<usize>) -> (cfn: Self)
        ensures
            cfn.wf(),
            cfn.spec_domain_sizes() == domain_sizes@,
            cfn.spec_unary_terms() == Seq::new(domain_sizes@.len(), |v: int| None::<usize>),
            cfn.hypergraph.hyperedge_count() == 0,
            cfn.terms@.len() == 0,
            call_ensures(W::default, (), cfn.nullary_term),
    {
        let mut node_data: Vec<CFNVariable> = Vec::new();
        for i in 0..domain_sizes.len()
            invariant
                node_data@.len() == i,
                forall|v: int| 0 <= v < i ==> (#[trigger] node_data@[v]).domain_size == domain_sizes@[v]
                    && node_data@[v].unary_term_index is None,
        {
            node_data.push(CFNVariable { domain_size: domain_sizes[i], unary_term_index: None });
        }
        let cfn = GeneralCFN {
            hypergraph: UndirectedHypergraph::from_node_data(node_data, 0),
            terms: Vec::new(),
            term_origins: Vec::new(),
            nullary_term: W::default(),
        };
        proof {
            cfn.hypergraph.lemma_data_counts();
            assert(cfn.spec_domain_sizes() =~= domain_sizes@);
            assert(cfn.spec_unary_terms() =~= Seq::new(domain_sizes@.len(), |v: int| None::<usize>));
        }
        cfn
    }

    /// A network with one variable per table, whose domain size is the length of the table
    /// and whose unary term is the table; the terms are the tables in order, and the nullary
    /// term is `W`'s default.
    pub fn from_unary_function_tables(unary_function_tables: Vec<Vec<W>>) -> (cfn: Self)
        ensures
            cfn.wf(),
            cfn.spec_domain_sizes() == unary_function_tables@.map_values(|t: Vec<W>| t@.len() as usize),
            cfn.spec_unary_terms() == Seq::new(unary_function_tables@.len(), |v: int| Some(v as usize)),
            cfn.hypergraph.hyperedge_count() == 0,
            cfn.terms@.len() == unary_function_tables@.len(),
            forall|v: int| 0 <= v < unary_function_tables@.len() ==> #[trigger] cfn.terms@[v] == Term::Unary(
                unary_function_tables@[v],
            ),
            forall|v: int| 0 <= v < unary_function_tables@.len() ==> #[trigger] cfn.term_origins@[v] == TermOrigin::Unary(
                UnaryOrigin { node_index: v as usize },
            ),
            call_ensures(W::default, (), cfn.nullary_term),
    {
        let ghost tables = unary_function_tables@;
        let n = unary_function_tables.len();
        let mut node_data: Vec<CFNVariable> = Vec::new();
        let mut term_origins: Vec<TermOrigin> = Vec::new();
        for i in 0..n
            invariant
                n == tables.len(),
                tables == unary_function_tables@,
                node_data@.len() == i,
                term_origins@.len() == i,
                forall|v: int| 0 <= v < i ==> (#[trigger] node_data@[v]).domain_size == tables[v]@.len()
                    && node_data@[v].unary_term_index == Some(v as usize),
                forall|v: int| 0 <= v < i ==> #[trigger] term_origins@[v] == TermOrigin::Unary(
                    UnaryOrigin { node_index: v as usize },
                ),
        {
            node_data.push(CFNVariable { domain_size: unary_function_tables[i].len(), unary_term_index: Some(i) });
            term_origins.push(TermOrigin::Unary(UnaryOrigin { node_index: i }));
        }
        let mut rest = unary_function_tables;
        let mut terms: Vec<Term<W>> = Vec::new();
        while rest.len() > 0
            invariant
                tables.len() == n,
                terms@.len() <= n,
                rest@ == tables.skip(terms@.len() as int),
                forall|v: int| 0 <= v < terms@.len() ==> #[trigger] terms@[v] == Term::Unary(tables[v]),
            decreases rest@.len(),
        {
            let table = rest.remove(0);
            let ghost k = terms@.len() as int;
            assert(table == tables[k]);
            assert(rest@ =~= tables.skip(k + 1));
            terms.push(Term::Unary(table));
        }
        let cfn = GeneralCFN {
            hypergraph: UndirectedHypergraph::from_node_data(node_data, 0),
            terms,
            term_origins,
            nullary_term: W::default(),
        };
        proof {
            cfn.hypergraph.lemma_data_counts();
            assert(cfn.spec_domain_sizes() =~= tables.map_values(|t: Vec<W>| t@.len() as usize));
            assert(cfn.spec_unary_terms() =~= Seq::new(n as nat, |v: int| Some(v as usize)));
        }
        cfn
    }
}

} // verus!
