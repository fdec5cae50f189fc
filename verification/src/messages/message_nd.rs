use vstd::prelude::*;

use crate::cfn::cost_function_network::{
    domains_of, labeling_count, lemma_difference_sub_scope, strictly_increasing, variables_difference, CostFunctionNetwork,
    FactorOrigin,
};
use crate::messages::indexing::{
    fill_offsets, indexes, is_labeling, is_sub_scope, lemma_offset_bound, lemma_position, lemma_product_positive,
    lemma_sub_scope_domains, lemma_suffix_product_monotone, lemma_suffix_product_positive, offset, position,
    stride, strides_of, suffix_product,
};

verus! {

/// `alpha` can be aligned with `beta` in `cfn`: both factors exist, `beta` is a nonempty strict
/// sub-scope of `alpha` over variables of the network with nonempty domains, the number of
/// labelings of `alpha` fits in a `usize`, and the function tables of `beta` and of the
/// variables of `alpha` outside `beta` are long enough for all their labelings.
pub open spec fn alignable<T>(cfn: &CostFunctionNetwork<T>, alpha: FactorOrigin, beta: FactorOrigin) -> bool {
    let alpha_vars = cfn.origin_variables(alpha);
    let beta_vars = cfn.origin_variables(beta);
    &&& cfn.origin_valid(alpha)
    &&& cfn.origin_valid(beta)
    &&& is_sub_scope(alpha_vars, beta_vars)
    &&& 0 < beta_vars.len() <= alpha_vars.len()
    &&& alpha_vars.len() < usize::MAX
    &&& variables_difference(alpha_vars, beta_vars).len() > 0
    &&& forall|i: int| 0 <= i < alpha_vars.len() ==> #[trigger] alpha_vars[i] < cfn.spec_num_variables()
    &&& forall|i: int| 0 <= i < alpha_vars.len() ==> #[trigger] cfn.domain_sizes()[alpha_vars[i] as int] >= 1
    &&& suffix_product(domains_of(cfn.domain_sizes(), alpha_vars), 0) <= usize::MAX
    &&& cfn.origin_table_len(beta) >= labeling_count(domains_of(cfn.domain_sizes(), beta_vars))
    &&& cfn.origin_table_len(alpha) / cfn.origin_table_len(beta) >= labeling_count(
        domains_of(cfn.domain_sizes(), variables_difference(alpha_vars, beta_vars)),
    )
}

/// The complete reindexing information for operations on messages of two factors `alpha` and
/// `beta`, where `alpha` strictly contains all variables of `beta`: `index_first` maps each
/// labeling of `beta` to the position in `alpha`'s table of its zero extension, and
/// `index_second` does the same for the labelings of the variables of `alpha` not in `beta`.
/// An entry of `alpha`'s table is `index_first[b] + index_second[c]`.
pub struct AlignmentIndexing {
    index_first: Vec<usize>,
    index_second: Vec<usize>,
}

impl AlignmentIndexing {
    /// Computes, for each variable of `beta` (last entry: 1), the product of the domain sizes of
    /// the variables of `alpha` after it.
    pub(crate) fn compute_strides<T>(
        cfn: &CostFunctionNetwork<T>,
        alpha_variables: &Vec<usize>,
        beta_variables: &Vec<usize>,
    ) -> (strides: Vec<usize>)
        requires
            is_sub_scope(alpha_variables@, beta_variables@),
            beta_variables@.len() < usize::MAX,
            forall|i: int| 0 <= i < alpha_variables@.len() ==> #[trigger] alpha_variables@[i] < cfn.spec_num_variables(),
            forall|i: int| 0 <= i < alpha_variables@.len() ==> #[trigger] cfn.domain_sizes()[alpha_variables@[i] as int] >= 1,
            suffix_product(domains_of(cfn.domain_sizes(), alpha_variables@), 0) <= usize::MAX,
        ensures
            strides@.len() == beta_variables@.len() + 1,
            strides@[beta_variables@.len() as int] == 1,
            forall|i: int|
                0 <= i < beta_variables@.len() ==> #[trigger] strides@[i] == stride(
                    cfn.domain_sizes(),
                    alpha_variables@,
                    beta_variables@[i],
                ),
    {
        let ghost alpha = alpha_variables@;
        let ghost beta = beta_variables@;
        let ghost doms = domains_of(cfn.domain_sizes(), alpha);
        let beta_arity = beta_variables.len();
        let mut strides: Vec<usize> = vec![0; beta_arity + 1];
        strides.set(beta_arity, 1);
        // position just past the next variable of `alpha` (scanning from the end) still to be consumed
        let mut alpha_pos: usize = alpha_variables.len();
        proof {
            assert forall|i: int| 0 <= i < doms.len() implies #[trigger] doms[i] >= 1 by {
                assert(doms[i] == cfn.domain_sizes()[alpha[i] as int]);
            }
            lemma_suffix_product_monotone(doms, 0, alpha.len() as int);
        }
        for beta_var_idx in 0..beta_arity
            invariant
                alpha == alpha_variables@,
                beta == beta_variables@,
                doms == domains_of(cfn.domain_sizes(), alpha),
                is_sub_scope(alpha, beta),
                beta_arity == beta.len(),
                forall|i: int| 0 <= i < doms.len() ==> #[trigger] doms[i] >= 1,
                forall|i: int| 0 <= i < alpha.len() ==> #[trigger] alpha[i] < cfn.spec_num_variables(),
                suffix_product(doms, 0) <= usize::MAX,
                strides@.len() == beta_arity + 1,
                strides@[beta_arity as int] == 1,
                0 <= alpha_pos <= alpha.len(),
                beta_var_idx == 0 ==> alpha_pos == alpha.len(),
                beta_var_idx > 0 ==> alpha_pos == position(alpha, beta[beta_arity - beta_var_idx]) + 1,
                forall|i: int|
                    beta_arity - beta_var_idx <= i < beta_arity ==> #[trigger] strides@[i] == stride(
                        cfn.domain_sizes(),
                        alpha,
                        beta[i],
                    ),
        {
            let stride_index = beta_arity - 1 - beta_var_idx;
            let beta_var = beta_variables[stride_index];
            proof {
                lemma_position(alpha, beta_var);
                if beta_var_idx > 0 {
                    let next = beta[stride_index + 1];
                    lemma_position(alpha, next);
                    assert(beta_var < next);
                    if position(alpha, next) <= position(alpha, beta_var) {
                        if position(alpha, next) < position(alpha, beta_var) {
                            assert(alpha[position(alpha, next)] < alpha[position(alpha, beta_var)]);
                        }
                    }
                    assert(strides@[stride_index + 1] == suffix_product(doms, alpha_pos as int));
                } else {
                    assert(suffix_product(doms, alpha_pos as int) == 1);
                }
            }
            strides.set(stride_index, strides[stride_index + 1]);
            while alpha_pos > 0 && beta_var != alpha_variables[alpha_pos - 1]
                invariant
                    alpha == alpha_variables@,
                    doms == domains_of(cfn.domain_sizes(), alpha),
                    strictly_increasing(alpha),
                    forall|i: int| 0 <= i < doms.len() ==> #[trigger] doms[i] >= 1,
                    forall|i: int| 0 <= i < alpha.len() ==> #[trigger] alpha[i] < cfn.spec_num_variables(),
                    suffix_product(doms, 0) <= usize::MAX,
                    strides@.len() == beta_arity + 1,
                    strides@[beta_arity as int] == 1,
                    beta == beta_variables@,
                    beta_arity == beta.len(),
                    stride_index == beta_arity - 1 - beta_var_idx,
                    forall|i: int|
                        beta_arity - beta_var_idx <= i < beta_arity ==> #[trigger] strides@[i] == stride(
                            cfn.domain_sizes(),
                            alpha,
                            beta[i],
                        ),
                    stride_index < beta_arity,
                    0 <= position(alpha, beta_var) < alpha_pos <= alpha.len(),
                    alpha[position(alpha, beta_var)] == beta_var,
                    strides@[stride_index as int] == suffix_product(doms, alpha_pos as int),
                decreases alpha_pos,
            {
                let alpha_var = alpha_variables[alpha_pos - 1];
                proof {
                    lemma_suffix_product_monotone(doms, 0, alpha_pos - 1);
                    assert(doms[alpha_pos - 1] == cfn.domain_sizes()[alpha_var as int]);
                    if alpha_pos - 1 == position(alpha, beta_var) {
                        assert(false);
                    }
                    let a = (alpha_pos - 1) as int;
                    let r = suffix_product(doms, alpha_pos as int);
                    let d = doms[a];
                    assert(suffix_product(doms, a) == d * r);
                    assert(r * d == d * r) by (nonlinear_arith);
                }
                let stride = strides[stride_index] * cfn.domain_size(alpha_var);
                strides.set(stride_index, stride);
                alpha_pos = alpha_pos - 1;
            }
            proof {
                if alpha_pos == 0 {
                    assert(false);
                }
                lemma_position(alpha, beta_var);
            }
        }
        strides
    }


    /// Computes the indexing table from labelings of `beta` to positions in the function table of
    /// `alpha`: for every labeling `l` of `beta`, the entry at the index of `l` (in `beta`'s own
    /// table, last variable fastest) is `Σ l[i] * stride(beta[i])`, the index in `alpha`'s table of
    /// the labeling of `alpha` that agrees with `l` and is 0 elsewhere. Entries past the number of
    /// labelings of `beta` stay 0.
    pub(crate) fn compute_indexing<T>(
        cfn: &CostFunctionNetwork<T>,
        alpha_variables: &Vec<usize>,
        beta_variables: &Vec<usize>,
        beta_function_table_len: usize,
    ) -> (indexing_table: Vec<usize>)
        requires
            is_sub_scope(alpha_variables@, beta_variables@),
            0 < beta_variables@.len() < usize::MAX,
            forall|i: int| 0 <= i < alpha_variables@.len() ==> #[trigger] alpha_variables@[i] < cfn.spec_num_variables(),
            forall|i: int|
                0 <= i < alpha_variables@.len() ==> #[trigger] cfn.domain_sizes()[alpha_variables@[i] as int] >= 1,
            suffix_product(domains_of(cfn.domain_sizes(), alpha_variables@), 0) <= usize::MAX,
            beta_function_table_len >= labeling_count(domains_of(cfn.domain_sizes(), beta_variables@)),
        ensures
            indexes(
                indexing_table@,
                cfn.domain_sizes(),
                alpha_variables@,
                beta_variables@,
                beta_function_table_len as nat,
            ),
    {
        let ghost alpha = alpha_variables@;
        let ghost beta = beta_variables@;
        let ghost db = domains_of(cfn.domain_sizes(), beta);
        let ghost st = strides_of(cfn.domain_sizes(), alpha, beta);
        let ghost total = labeling_count(db);
        let ghost alpha_total = suffix_product(domains_of(cfn.domain_sizes(), alpha), 0);
        proof {
            lemma_sub_scope_domains(cfn, alpha, beta);
        }
        let strides = Self::compute_strides(cfn, alpha_variables, beta_variables);
        proof {
            let ds = domains_of(cfn.domain_sizes(), alpha);
            assert forall|i: int| 0 <= i < ds.len() implies #[trigger] ds[i] >= 1 by {
                assert(ds[i] == cfn.domain_sizes()[alpha[i] as int]);
            }
            assert forall|j: int| 0 <= j < st.len() implies #[trigger] st[j] >= 0 by {
                lemma_suffix_product_positive(ds, position(alpha, beta[j]) + 1);
            }
            assert forall|i: int| 0 <= i < beta.len() implies #[trigger] cfn.domain_sizes()[beta[i] as int] >= 1 by {
                lemma_position(alpha, beta[i]);
                assert(cfn.domain_sizes()[alpha[position(alpha, beta[i])] as int] >= 1);
            }
            assert forall|i: int| 0 <= i < beta.len() implies #[trigger] beta[i] < cfn.spec_num_variables() by {
                lemma_position(alpha, beta[i]);
                assert(alpha[position(alpha, beta[i])] < cfn.spec_num_variables());
            }
            assert forall|l: Seq<usize>| is_labeling(l, db) implies #[trigger] offset(l, st) <= usize::MAX by {
                let n = beta.len() as int;
                lemma_offset_bound(cfn.domain_sizes(), alpha, beta, l, n);
                assert(l.take(n) =~= l);
                lemma_position(alpha, beta[n - 1]);
                lemma_suffix_product_positive(ds, position(alpha, beta[n - 1]) + 1);
            }
        }
        fill_offsets(cfn, beta_variables, &strides, Ghost(st), 0, beta_function_table_len)
    }


    /// Initializes the alignment of source factor `alpha` with target factor `beta`, where `alpha`
    /// strictly contains all variables of `beta`.
    pub fn new<T>(cfn: &CostFunctionNetwork<T>, alpha: &FactorOrigin, beta: &FactorOrigin) -> (alignment: Self)
        requires
            alignable(cfn, *alpha, *beta),
        ensures
            indexes(
                alignment.spec_index_first(),
                cfn.domain_sizes(),
                cfn.origin_variables(*alpha),
                cfn.origin_variables(*beta),
                cfn.origin_table_len(*beta),
            ),
            indexes(
                alignment.spec_index_second(),
                cfn.domain_sizes(),
                cfn.origin_variables(*alpha),
                variables_difference(cfn.origin_variables(*alpha), cfn.origin_variables(*beta)),
                cfn.origin_table_len(*alpha) / cfn.origin_table_len(*beta),
            ),
    {
        let alpha_vars = cfn.factor_variables(alpha);
        let beta_vars = cfn.factor_variables(beta);
        let diff_vars = cfn.get_variables_difference(alpha, beta);
        let alpha_ft_len = cfn.function_table_len(alpha);
        let beta_ft_len = cfn.function_table_len(beta);
        proof {
            lemma_difference_sub_scope(alpha_vars@, beta_vars@);
            lemma_sub_scope_domains(cfn, alpha_vars@, beta_vars@);
            lemma_product_positive(domains_of(cfn.domain_sizes(), beta_vars@));
        }
        let diff_ft_len = alpha_ft_len / beta_ft_len;
        AlignmentIndexing {
            index_first: Self::compute_indexing(cfn, &alpha_vars, &beta_vars, beta_ft_len),
            index_second: Self::compute_indexing(cfn, &alpha_vars, &diff_vars, diff_ft_len),
        }
    }

    /// The indexing table for the labelings of the target factor.
    pub closed spec fn spec_index_first(&self) -> Seq<usize> {
        self.index_first@
    }

    /// The indexing table for the labelings of the variables of the source factor that are not
    /// in the target factor.
    pub closed spec fn spec_index_second(&self) -> Seq<usize> {
        self.index_second@
    }

    /// The indexing table for the labelings of the target factor.
    pub fn index_first(&self) -> (table: &Vec<usize>)
        ensures
            table@ == self.spec_index_first(),
    {
        &self.index_first
    }

    /// The indexing table for the labelings of the variables of the source factor that are not
    /// in the target factor.
    pub fn index_second(&self) -> (table: &Vec<usize>)
        ensures
            table@ == self.spec_index_second(),
    {
        &self.index_second
    }
}

} // verus!
