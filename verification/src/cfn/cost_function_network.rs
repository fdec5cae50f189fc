use vstd::prelude::*;

verus! {

/// Shows if a factor is unary or non-unary and stores the corresponding index:
/// the variable of a unary factor, or the position of a non-unary factor among all factors.
#[derive(Clone, Copy, PartialEq, Eq, Structural, Debug)]
pub enum FactorOrigin {
    Variable(usize),
    NonUnaryFactor(usize),
}

/// Information about a variable of a cost function network.
pub struct Variable {
    /// the size of the domain of this variable
    domain_size: usize,
    /// the index of the corresponding unary factor among all factors (if it exists)
    factor_index: Option<usize>,
}

/// A factor of a cost function network: the variables it depends on, the length of the
/// function table it expands to, and its costs, which this library carries but does not read.
pub struct FactorScope<T> {
    variables: Vec<usize>,
    function_table_len: usize,
    costs: T,
}

/// `vars` is strictly increasing.
pub open spec fn strictly_increasing(vars: Seq<usize>) -> bool {
    forall|i: int, j: int| 0 <= i < j < vars.len() ==> vars[i] < vars[j]
}

/// The domain sizes of `vars`, as integers.
pub open spec fn domains_of(domain_sizes: Seq<usize>, vars: Seq<usize>) -> Seq<int> {
    vars.map_values(|v: usize| domain_sizes[v as int] as int)
}

/// Product of all of `doms`: the number of labelings over these domains.
pub open spec fn labeling_count(doms: Seq<int>) -> int
    decreases doms.len(),
{
    if doms.len() == 0 {
        1
    } else {
        labeling_count(doms.drop_last()) * doms.last()
    }
}

/// The variables of `alpha` that are not matched, scanning both in order, by `beta`:
/// each variable of `alpha` equal to the next unmatched variable of `beta` is skipped and
/// matches it; every other variable of `alpha` is kept.
pub open spec fn variables_difference(alpha: Seq<usize>, beta: Seq<usize>) -> Seq<usize>
    decreases alpha.len(),
{
    if alpha.len() == 0 {
        Seq::empty()
    } else if beta.len() > 0 && beta[0] == alpha[0] {
        variables_difference(alpha.drop_first(), beta.drop_first())
    } else {
        seq![alpha[0]] + variables_difference(alpha.drop_first(), beta)
    }
}

impl<T> FactorScope<T> {
    /// Creates a factor over `variables` whose function table has `function_table_len` entries.
    pub fn new(variables: Vec<usize>, function_table_len: usize, costs: T) -> (factor: Self)
        ensures
            factor.spec_variables() == variables@,
            factor.spec_function_table_len() == function_table_len,
            factor.spec_costs() == costs,
    {
        FactorScope { variables, function_table_len, costs }
    }

    /// The variables of this factor.
    pub closed spec fn spec_variables(&self) -> Seq<usize> {
        self.variables@
    }

    /// The length of this factor's function table.
    pub closed spec fn spec_function_table_len(&self) -> nat {
        self.function_table_len as nat
    }

    /// The costs of this factor.
    pub closed spec fn spec_costs(&self) -> T {
        self.costs
    }

    /// Returns the factor's arity (its number of variables).
    pub fn arity(&self) -> (arity: usize)
        ensures
            arity == self.spec_variables().len(),
    {
        self.variables.len()
    }

    /// Returns the length of the function table that this factor expands to.
    pub fn function_table_len(&self) -> (len: usize)
        ensures
            len == self.spec_function_table_len(),
    {
        self.function_table_len
    }

    /// Returns the variables associated with this factor.
    pub fn variables(&self) -> (vars: &Vec<usize>)
        ensures
            vars@ == self.spec_variables(),
    {
        &self.variables
    }

    /// Returns the costs of this factor.
    pub fn costs(&self) -> (costs: &T)
        ensures
            *costs == self.spec_costs(),
    {
        &self.costs
    }
}

/// A cost function network: variables with their domain sizes, and factors over them.
/// A variable's unary factor, if any, is recorded with the variable.
pub struct CostFunctionNetwork<T> {
    variables: Vec<Variable>,
    factors: Vec<FactorScope<T>>,
}

impl<T> CostFunctionNetwork<T> {
    /// Every recorded unary factor exists and is a unary factor of its variable.
    pub closed spec fn wf(&self) -> bool {
        forall|v: int|
            0 <= v < self.variables@.len() && (#[trigger] self.variables@[v]).factor_index.is_some()
                ==> self.variables@[v].factor_index.unwrap() < self.factors@.len()
                && self.factors@[self.variables@[v].factor_index.unwrap() as int].variables@ == seq![v as usize]
    }

    /// The domain sizes of the variables.
    pub closed spec fn domain_sizes(&self) -> Seq<usize> {
        self.variables@.map_values(|v: Variable| v.domain_size)
    }

    /// The index among all factors of the unary factor of `variable`, if any.
    pub closed spec fn unary_factor_index(&self, variable: int) -> Option<usize> {
        self.variables@[variable].factor_index
    }

    /// All factors, in the order in which they are stored.
    pub closed spec fn factor_list(&self) -> Seq<FactorScope<T>> {
        self.factors@
    }

    /// The number of variables.
    pub open spec fn spec_num_variables(&self) -> nat {
        self.domain_sizes().len()
    }

    /// The factor that `origin` refers to is stored (a non-unary factor index in range,
    /// or a variable of the network).
    pub open spec fn origin_valid(&self, origin: FactorOrigin) -> bool {
        match origin {
            FactorOrigin::Variable(v) => v < self.spec_num_variables(),
            FactorOrigin::NonUnaryFactor(f) => f < self.factor_list().len(),
        }
    }

    /// The variables of the factor that `origin` refers to.
    pub open spec fn origin_variables(&self, origin: FactorOrigin) -> Seq<usize> {
        match origin {
            FactorOrigin::Variable(v) => seq![v],
            FactorOrigin::NonUnaryFactor(f) => self.factor_list()[f as int].spec_variables(),
        }
    }

    /// The function table length of the factor that `origin` refers to
    /// (the domain size, for a variable).
    pub open spec fn origin_table_len(&self, origin: FactorOrigin) -> nat {
        match origin {
            FactorOrigin::Variable(v) => self.domain_sizes()[v as int] as nat,
            FactorOrigin::NonUnaryFactor(f) => self.factor_list()[f as int].spec_function_table_len(),
        }
    }

    /// In a well-formed network, the unary factor recorded for a variable is stored and is a
    /// factor over that variable alone.
    pub proof fn lemma_unary_factor(&self, variable: int)
        requires
            self.wf(),
            0 <= variable < self.spec_num_variables(),
        ensures
            self.unary_factor_index(variable) is Some ==> {
                let i = self.unary_factor_index(variable).unwrap();
                &&& i < self.factor_list().len()
                &&& self.factor_list()[i as int].spec_variables() == seq![variable as usize]
            },
    {
    }

    /// Creates an empty cost function network.
    pub fn new() -> (cfn: Self)
        ensures
            cfn.wf(),
            cfn.domain_sizes() == Seq::<usize>::empty(),
            cfn.factor_list() == Seq::<FactorScope<T>>::empty(),
    {
        let cfn = CostFunctionNetwork { variables: Vec::new(), factors: Vec::new() };
        assert(cfn.domain_sizes() =~= Seq::<usize>::empty());
        cfn
    }

    /// Creates an empty cost function network with reserved capacity for a given number of
    /// unary and non-unary factors.
    pub fn with_capacity(capacity_unary: usize, capacity_non_unary: usize) -> (cfn: Self)
        requires
            capacity_unary + capacity_non_unary <= usize::MAX,
        ensures
            cfn.wf(),
            cfn.domain_sizes() == Seq::<usize>::empty(),
            cfn.factor_list() == Seq::<FactorScope<T>>::empty(),
    {
        let reserve_capacity = capacity_unary + capacity_non_unary;
        let cfn = CostFunctionNetwork {
            variables: Vec::with_capacity(capacity_unary),
            factors: Vec::with_capacity(reserve_capacity),
        };
        assert(cfn.domain_sizes() =~= Seq::<usize>::empty());
        cfn
    }

    /// Creates a cost function network with the given domain sizes and no factors,
    /// optionally reserving capacity for unary factors, and additionally reserving capacity
    /// for a given number of non-unary factors.
    pub fn from_domain_sizes(
        domain_sizes: &Vec<usize>,
        reserve_unary: bool,
        capacity_non_unary: usize,
    ) -> (cfn: Self)
        requires
            (if reserve_unary { domain_sizes@.len() } else { 0 }) + capacity_non_unary <= usize::MAX,
        ensures
            cfn.wf(),
            cfn.domain_sizes() == domain_sizes@,
            cfn.factor_list() == Seq::<FactorScope<T>>::empty(),
            forall|v: int| 0 <= v < domain_sizes@.len() ==> #[trigger] cfn.unary_factor_index(v).is_none(),
    {
        let mut variables: Vec<Variable> = Vec::with_capacity(domain_sizes.len());
        for i in 0..domain_sizes.len()
            invariant
                variables@.len() == i,
                forall|v: int| 0 <= v < i ==> (#[trigger] variables@[v]).domain_size == domain_sizes@[v]
                    && variables@[v].factor_index.is_none(),
        {
            variables.push(Variable { domain_size: domain_sizes[i], factor_index: None });
        }
        let reserve_capacity = (if reserve_unary { 1usize } else { 0usize }) * variables.len()
            + capacity_non_unary;
        let cfn = CostFunctionNetwork { variables, factors: Vec::with_capacity(reserve_capacity) };
        assert(cfn.domain_sizes() =~= domain_sizes@);
        cfn
    }

    /// Reserves capacity for at least `additional` more factors.
    pub fn reserve(&mut self, additional: usize) -> (cfn: &mut Self)
        ensures
            *final(self) == *final(cfn),
            cfn.wf() == old(self).wf(),
            cfn.domain_sizes() == old(self).domain_sizes(),
            cfn.factor_list() == old(self).factor_list(),
            forall|v: int| #[trigger] cfn.unary_factor_index(v) == old(self).unary_factor_index(v),
    {
        self.factors.reserve(additional);
        self
    }

    /// Computes the product of the domain sizes of the given variables.
    fn product_domain_sizes(&self, variables: &Vec<usize>) -> (product: usize)
        requires
            forall|i: int| 0 <= i < variables@.len() ==> #[trigger] variables@[i] < self.spec_num_variables(),
            forall|k: int|
                0 <= k <= variables@.len() ==> #[trigger] labeling_count(domains_of(self.domain_sizes(), variables@.take(k)))
                    <= usize::MAX,
        ensures
            product == labeling_count(domains_of(self.domain_sizes(), variables@)),
    {
        let mut product: usize = 1;
        let mut i: usize = 0;
        while i < variables.len()
            invariant
                forall|i: int| 0 <= i < variables@.len() ==> #[trigger] variables@[i] < self.spec_num_variables(),
                forall|k: int|
                    0 <= k <= variables@.len() ==> #[trigger] labeling_count(domains_of(self.domain_sizes(), variables@.take(k)))
                        <= usize::MAX,
                0 <= i <= variables@.len(),
                product == labeling_count(domains_of(self.domain_sizes(), variables@.take(i as int))),
            decreases variables@.len() - i,
        {
            proof {
                assert(variables@.take(i + 1).drop_last() =~= variables@.take(i as int));
                lemma_product_nonneg(domains_of(self.domain_sizes(), variables@.take(i + 1)));
                assert(domains_of(self.domain_sizes(), variables@.take(i + 1)).drop_last() =~= domains_of(self.domain_sizes(), variables@.take(i as int)));
            }
            product = product * self.domain_size(variables[i]);
            i = i + 1;
        }
        assert(variables@.take(i as int) =~= variables@);
        product
    }

    /// Computes the product of the domain sizes of the given variables (alternative
    /// implementation, multiplying into an accumulator from the left).
    fn product_domain_sizes_alt(&self, variables: &Vec<usize>) -> (product: usize)
        requires
            forall|i: int| 0 <= i < variables@.len() ==> #[trigger] variables@[i] < self.spec_num_variables(),
            forall|k: int|
                0 <= k <= variables@.len() ==> #[trigger] labeling_count(domains_of(self.domain_sizes(), variables@.take(k)))
                    <= usize::MAX,
        ensures
            product == labeling_count(domains_of(self.domain_sizes(), variables@)),
    {
        let mut product: usize = 1;
        for i in 0..variables.len()
            invariant
                forall|i: int| 0 <= i < variables@.len() ==> #[trigger] variables@[i] < self.spec_num_variables(),
                forall|k: int|
                    0 <= k <= variables@.len() ==> #[trigger] labeling_count(domains_of(self.domain_sizes(), variables@.take(k)))
                        <= usize::MAX,
                product == labeling_count(domains_of(self.domain_sizes(), variables@.take(i as int))),
        {
            proof {
                assert(variables@.take(i + 1).drop_last() =~= variables@.take(i as int));
                lemma_product_nonneg(domains_of(self.domain_sizes(), variables@.take(i + 1)));
                assert(domains_of(self.domain_sizes(), variables@.take(i + 1)).drop_last() =~= domains_of(self.domain_sizes(), variables@.take(i as int)));
            }
            product = product * self.domain_size(variables[i]);
        }
        assert(variables@.take(variables@.len() as int) =~= variables@);
        product
    }

    /// Adds a factor. A unary factor replaces the variable's existing unary factor, if there is
    /// one; any other factor is appended. The factor's variables must be distinct and sorted
    /// in increasing order.
    pub fn add_factor(&mut self, factor: FactorScope<T>) -> (cfn: &mut Self)
        requires
            old(self).wf(),
            strictly_increasing(factor.spec_variables()),
            factor.spec_variables().len() == 1 ==> factor.spec_variables()[0] < old(self).spec_num_variables(),
        ensures
            *final(self) == *final(cfn),
            cfn.wf(),
            cfn.domain_sizes() == old(self).domain_sizes(),
            factor.spec_variables().len() == 1 && old(self).unary_factor_index(
                factor.spec_variables()[0] as int,
            ) is Some ==> {
                let i = old(self).unary_factor_index(factor.spec_variables()[0] as int).unwrap();
                &&& cfn.factor_list() == old(self).factor_list().update(i as int, factor)
                &&& forall|v: int| #[trigger] cfn.unary_factor_index(v) == old(self).unary_factor_index(v)
            },
            factor.spec_variables().len() == 1 && old(self).unary_factor_index(
                factor.spec_variables()[0] as int,
            ) is None ==> {
                let w = factor.spec_variables()[0] as int;
                &&& cfn.factor_list() == old(self).factor_list().push(factor)
                &&& cfn.unary_factor_index(w) == Some(old(self).factor_list().len() as usize)
                &&& forall|v: int|
                    0 <= v < cfn.spec_num_variables() && v != w ==> #[trigger] cfn.unary_factor_index(v)
                        == old(self).unary_factor_index(v)
            },
            factor.spec_variables().len() != 1 ==> {
                &&& cfn.factor_list() == old(self).factor_list().push(factor)
                &&& forall|v: int|
                    0 <= v < cfn.spec_num_variables() ==> #[trigger] cfn.unary_factor_index(v)
                        == old(self).unary_factor_index(v)
            },
    {
        let ghost before = *self;
        if factor.arity() == 1 {
            let variable = factor.variables()[0];
            match self.variables[variable].factor_index {
                Some(unary_factor_index) => {
                    self.factors.set(unary_factor_index, factor);
                    proof {
                        assert forall|v: int|
                            0 <= v < self.variables@.len() && (#[trigger] self.variables@[v]).factor_index.is_some()
                                implies self.variables@[v].factor_index.unwrap() < self.factors@.len()
                                && self.factors@[self.variables@[v].factor_index.unwrap() as int].variables@
                                == seq![v as usize] by {
                            let i = self.variables@[v].factor_index.unwrap();
                            if i == unary_factor_index {
                                assert(before.factors@[i as int].variables@ == seq![v as usize]);
                                assert(before.factors@[i as int].variables@ == seq![variable]);
                            }
                        }
                    }
                },
                None => {
                    let ghost fv = factor.spec_variables();
                    assert(fv =~= seq![variable]);
                    let index = self.factors.len();
                    self.variables.set(variable, Variable { domain_size: self.variables[variable].domain_size, factor_index: Some(index) });
                    self.factors.push(factor);
                    proof {
                        assert(self.domain_sizes() =~= before.domain_sizes());
                        assert forall|v: int|
                            0 <= v < self.variables@.len() && (#[trigger] self.variables@[v]).factor_index.is_some()
                                implies self.variables@[v].factor_index.unwrap() < self.factors@.len()
                                && self.factors@[self.variables@[v].factor_index.unwrap() as int].variables@
                                == seq![v as usize] by {
                            if v != variable {
                                assert(self.variables@[v] == before.variables@[v]);
                            }
                        }
                    }
                },
            }
        } else {
            self.factors.push(factor);
        }
        assert(self.domain_sizes() =~= before.domain_sizes());
        self
    }

    /// Returns the factor indicated by its origin, if it exists.
    pub fn get_factor(&self, factor_origin: &FactorOrigin) -> (factor: Option<&FactorScope<T>>)
        requires
            self.wf(),
            self.origin_valid(*factor_origin),
        ensures
            match *factor_origin {
                FactorOrigin::Variable(v) => match self.unary_factor_index(v as int) {
                    Some(i) => factor == Some(&self.factor_list()[i as int]),
                    None => factor is None,
                },
                FactorOrigin::NonUnaryFactor(f) => factor == Some(&self.factor_list()[f as int]),
            },
    {
        let index = match factor_origin {
            FactorOrigin::Variable(variable_index) => self.variables[*variable_index].factor_index,
            FactorOrigin::NonUnaryFactor(factor_index) => Some(*factor_index),
        };
        match index {
            Some(factor_index) => Some(&self.factors[factor_index]),
            None => None,
        }
    }

    /// Returns the arity of the factor indicated by its origin.
    pub fn arity(&self, factor_origin: &FactorOrigin) -> (arity: usize)
        requires
            self.origin_valid(*factor_origin),
        ensures
            arity == self.origin_variables(*factor_origin).len(),
    {
        match factor_origin {
            FactorOrigin::Variable(_) => 1,
            FactorOrigin::NonUnaryFactor(factor_index) => self.factors[*factor_index].arity(),
        }
    }

    /// Returns the variables associated with the factor indicated by its origin.
    pub fn factor_variables(&self, factor_origin: &FactorOrigin) -> (variables: Vec<usize>)
        requires
            self.origin_valid(*factor_origin),
        ensures
            variables@ == self.origin_variables(*factor_origin),
    {
        match factor_origin {
            FactorOrigin::Variable(variable_index) => vec![*variable_index],
            FactorOrigin::NonUnaryFactor(factor_index) => {
                let source = self.factors[*factor_index].variables();
                let mut variables: Vec<usize> = Vec::with_capacity(source.len());
                for i in 0..source.len()
                    invariant
                        variables@ == source@.take(i as int),
                {
                    variables.push(source[i]);
                    assert(variables@ =~= source@.take(i + 1));
                }
                assert(variables@ =~= source@);
                variables
            },
        }
    }

    /// Returns the function table length of the factor indicated by its origin
    /// (the domain size, for a variable).
    pub fn function_table_len(&self, factor_origin: &FactorOrigin) -> (len: usize)
        requires
            self.origin_valid(*factor_origin),
        ensures
            len == self.origin_table_len(*factor_origin),
    {
        match factor_origin {
            FactorOrigin::Variable(variable_index) => self.variables[*variable_index].domain_size,
            FactorOrigin::NonUnaryFactor(factor_index) => self.factors[*factor_index].function_table_len(),
        }
    }

    /// Returns the variables of the first factor that are not in the second, assuming the first
    /// contains the second (both in increasing order): each variable of `alpha` equal to the
    /// next unmatched variable of `beta` is skipped, every other one is kept.
    pub fn get_variables_difference(&self, alpha: &FactorOrigin, beta: &FactorOrigin) -> (difference: Vec<usize>)
        requires
            self.origin_valid(*alpha),
            self.origin_valid(*beta),
            self.origin_variables(*beta).len() <= self.origin_variables(*alpha).len(),
        ensures
            difference@ == variables_difference(
                self.origin_variables(*alpha),
                self.origin_variables(*beta),
            ),
    {
        let alpha_variables = self.factor_variables(alpha);
        let beta_variables = self.factor_variables(beta);
        let ghost a = alpha_variables@;
        let ghost b = beta_variables@;
        let mut difference: Vec<usize> = Vec::with_capacity(alpha_variables.len() - beta_variables.len());
        let mut var_b_pos: usize = 0;
        assert(a.skip(0) =~= a);
        assert(b.skip(0) =~= b);
        for i in 0..alpha_variables.len()
            invariant
                a == alpha_variables@,
                b == beta_variables@,
                0 <= var_b_pos <= b.len(),
                variables_difference(a, b) == difference@ + variables_difference(
                    a.skip(i as int),
                    b.skip(var_b_pos as int),
                ),
        {
            let var_a = alpha_variables[i];
            assert(a.skip(i as int).drop_first() =~= a.skip(i + 1));
            if var_b_pos < beta_variables.len() && beta_variables[var_b_pos] == var_a {
                assert(b.skip(var_b_pos as int).drop_first() =~= b.skip(var_b_pos + 1));
                var_b_pos = var_b_pos + 1;
            } else {
                difference.push(var_a);
                assert(variables_difference(a.skip(i as int), b.skip(var_b_pos as int)) =~= seq![var_a]
                    + variables_difference(a.skip(i + 1), b.skip(var_b_pos as int)));
            }
        }
        assert(a.skip(a.len() as int) =~= Seq::<usize>::empty());
        assert(a.skip(0) =~= a);
        assert(b.skip(0) =~= b);
        difference
    }

    /// Returns the full function table size of the factor indicated by its origin: the product
    /// of the domain sizes of its variables.
    pub fn full_function_table_size(&self, factor_origin: &FactorOrigin) -> (size: usize)
        requires
            self.origin_valid(*factor_origin),
            forall|i: int|
                0 <= i < self.origin_variables(*factor_origin).len() ==> #[trigger] self.origin_variables(
                    *factor_origin,
                )[i] < self.spec_num_variables(),
            forall|k: int|
                0 <= k <= self.origin_variables(*factor_origin).len() ==> #[trigger] labeling_count(
                    domains_of(self.domain_sizes(), self.origin_variables(*factor_origin).take(k)),
                ) <= usize::MAX,
        ensures
            size == labeling_count(domains_of(self.domain_sizes(), self.origin_variables(*factor_origin))),
    {
        let variables = self.factor_variables(factor_origin);
        self.product_domain_sizes(&variables)
    }

    /// Returns the number of variables.
    pub fn num_variables(&self) -> (n: usize)
        ensures
            n == self.spec_num_variables(),
    {
        self.variables.len()
    }

    /// Returns the domain size of a variable.
    pub fn domain_size(&self, variable: usize) -> (size: usize)
        requires
            variable < self.spec_num_variables(),
        ensures
            size == self.domain_sizes()[variable as int],
    {
        self.variables[variable].domain_size
    }

    /// Returns all factors, in the order in which they are stored.
    pub fn factors_iter(&self) -> (factors: &[FactorScope<T>])
        ensures
            factors@ == self.factor_list(),
    {
        self.factors.as_slice()
    }

    /// Returns the number of factors.
    pub fn factors_len(&self) -> (len: usize)
        ensures
            len == self.factor_list().len(),
    {
        self.factors.len()
    }
}

proof fn lemma_product_nonneg(doms: Seq<int>)
    requires
        forall|j: int| 0 <= j < doms.len() ==> #[trigger] doms[j] >= 0,
    ensures
        0 <= labeling_count(doms),
    decreases doms.len(),
{
    if doms.len() > 0 {
        lemma_product_nonneg(doms.drop_last());
        let a = labeling_count(doms.drop_last());
        let d = doms.last();
        assert(0 <= a * d) by (nonlinear_arith)
            requires
                a >= 0,
                d >= 0,
        ;
    }
}

/// The difference of two variable lists keeps variables of the first in their order, so it is
/// a sub-scope of a strictly increasing first list.
pub proof fn lemma_difference_sub_scope(alpha: Seq<usize>, beta: Seq<usize>)
    requires
        strictly_increasing(alpha),
    ensures
        strictly_increasing(variables_difference(alpha, beta)),
        variables_difference(alpha, beta).len() <= alpha.len(),
        forall|i: int|
            0 <= i < variables_difference(alpha, beta).len() ==> alpha.contains(
                #[trigger] variables_difference(alpha, beta)[i],
            ),
    decreases alpha.len(),
{
    if alpha.len() > 0 {
        let rest = alpha.drop_first();
        let d = variables_difference(alpha, beta);
        if beta.len() > 0 && beta[0] == alpha[0] {
            lemma_difference_sub_scope(rest, beta.drop_first());
            assert forall|i: int| 0 <= i < d.len() implies alpha.contains(#[trigger] d[i]) by {
                assert(rest.contains(d[i]));
                let k = choose|k: int| 0 <= k < rest.len() && rest[k] == d[i];
                assert(alpha[k + 1] == d[i]);
            }
        } else {
            lemma_difference_sub_scope(rest, beta);
            let d2 = variables_difference(rest, beta);
            assert(d == seq![alpha[0]] + d2);
            assert forall|i: int| 0 <= i < d2.len() implies alpha[0] < #[trigger] d2[i] by {
                assert(rest.contains(d2[i]));
                let k = choose|k: int| 0 <= k < rest.len() && rest[k] == d2[i];
                assert(alpha[0] < alpha[k + 1]);
            }
            assert forall|i: int| 0 <= i < d.len() implies alpha.contains(#[trigger] d[i]) by {
                if i == 0 {
                    assert(alpha[0] == d[0]);
                } else {
                    assert(d[i] == d2[i - 1]);
                    assert(rest.contains(d2[i - 1]));
                    let k = choose|k: int| 0 <= k < rest.len() && rest[k] == d2[i - 1];
                    assert(alpha[k + 1] == d[i]);
                }
            }
            assert forall|i: int, j: int| 0 <= i < j < d.len() implies d[i] < d[j] by {
                if i == 0 {
                    assert(d[j] == d2[j - 1]);
                } else {
                    assert(d[i] == d2[i - 1]);
                    assert(d[j] == d2[j - 1]);
                }
            }
        }
    }
}

} // verus!
