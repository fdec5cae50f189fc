use vstd::prelude::*;

use crate::cfn::cost_function_network::{
    domains_of, labeling_count, lemma_difference_sub_scope, strictly_increasing, variables_difference,
    CostFunctionNetwork, FactorOrigin,
};
use crate::messages::indexing::{
    indexes, is_sub_scope, lemma_prefix_product_bound, lemma_prefix_suffix_product,
    lemma_product_positive, lemma_sub_scope_count_bound, lemma_sub_scope_domains, suffix_product,
};
use crate::messages::message_nd::AlignmentIndexing;

verus! {

/// Reindexing information for operations on messages of a factor `alpha` and a factor `beta`
/// whose variables `alpha` strictly contains; `first_align` covers the labelings of `beta`
/// and `second_align` those of the variables of `alpha` not in `beta`, as positions in the full
/// function table of `alpha`.
pub struct GeneralAlignment {
    first_align: Vec<usize>,
    second_align: Vec<usize>,
}

impl GeneralAlignment {
    /// Initializes the alignment of source factor `alpha` with target factor `beta`, using the
    /// full function table sizes (products of domain sizes) of both.
    pub fn new<T>(cfn: &CostFunctionNetwork<T>, alpha: &FactorOrigin, beta: &FactorOrigin) -> (alignment: Self)
        requires
            cfn.origin_valid(*alpha),
            cfn.origin_valid(*beta),
            is_sub_scope(cfn.origin_variables(*alpha), cfn.origin_variables(*beta)),
            0 < cfn.origin_variables(*beta).len() <= cfn.origin_variables(*alpha).len(),
            cfn.origin_variables(*alpha).len() < usize::MAX,
            variables_difference(cfn.origin_variables(*alpha), cfn.origin_variables(*beta)).len() > 0,
            forall|i: int|
                0 <= i < cfn.origin_variables(*alpha).len() ==> #[trigger] cfn.origin_variables(*alpha)[i]
                    < cfn.spec_num_variables(),
            forall|i: int|
                0 <= i < cfn.origin_variables(*alpha).len() ==> #[trigger] cfn.domain_sizes()[cfn.origin_variables(
                    *alpha,
                )[i] as int] >= 1,
            labeling_count(domains_of(cfn.domain_sizes(), cfn.origin_variables(*alpha))) <= usize::MAX,
            labeling_count(domains_of(cfn.domain_sizes(), cfn.origin_variables(*alpha))) / labeling_count(
                domains_of(cfn.domain_sizes(), cfn.origin_variables(*beta)),
            ) >= labeling_count(
                domains_of(
                    cfn.domain_sizes(),
                    variables_difference(cfn.origin_variables(*alpha), cfn.origin_variables(*beta)),
                ),
            ),
        ensures
            indexes(
                alignment.spec_first_align(),
                cfn.domain_sizes(),
                cfn.origin_variables(*alpha),
                cfn.origin_variables(*beta),
                labeling_count(domains_of(cfn.domain_sizes(), cfn.origin_variables(*beta))) as nat,
            ),
            indexes(
                alignment.spec_second_align(),
                cfn.domain_sizes(),
                cfn.origin_variables(*alpha),
                variables_difference(cfn.origin_variables(*alpha), cfn.origin_variables(*beta)),
                (labeling_count(domains_of(cfn.domain_sizes(), cfn.origin_variables(*alpha)))
                    / labeling_count(domains_of(cfn.domain_sizes(), cfn.origin_variables(*beta)))) as nat,
            ),
    {
        let alpha_variables = cfn.factor_variables(alpha);
        let beta_variables = cfn.factor_variables(beta);
        let diff_variables = cfn.get_variables_difference(alpha, beta);
        let ghost ad = domains_of(cfn.domain_sizes(), alpha_variables@);
        let ghost bd = domains_of(cfn.domain_sizes(), beta_variables@);
        proof {
            lemma_difference_sub_scope(alpha_variables@, beta_variables@);
            lemma_sub_scope_domains(cfn, alpha_variables@, beta_variables@);
            assert forall|j: int| 0 <= j < ad.len() implies #[trigger] ad[j] >= 1 by {}
            assert forall|j: int| 0 <= j < bd.len() implies #[trigger] bd[j] >= 1 by {}
            lemma_prefix_suffix_product(ad, 0);
            assert(ad.take(0) =~= Seq::<int>::empty());
            assert forall|k: int| 0 <= k <= ad.len() implies #[trigger] labeling_count(
                domains_of(cfn.domain_sizes(), alpha_variables@.take(k)),
            ) <= usize::MAX by {
                lemma_prefix_product_bound(ad, k);
                assert(domains_of(cfn.domain_sizes(), alpha_variables@.take(k)) =~= ad.take(k));
            }
            assert forall|k: int| 0 <= k <= bd.len() implies #[trigger] labeling_count(
                domains_of(cfn.domain_sizes(), beta_variables@.take(k)),
            ) <= usize::MAX by {
                lemma_prefix_product_bound(bd, k);
                assert(domains_of(cfn.domain_sizes(), beta_variables@.take(k)) =~= bd.take(k));
                assert(labeling_count(bd) <= labeling_count(ad)) by {
                    lemma_sub_scope_count_bound(cfn, alpha_variables@, beta_variables@);
                }
            }
            lemma_product_positive(bd);
        }
        let alpha_ft_len = cfn.full_function_table_size(alpha);
        let beta_ft_len = cfn.full_function_table_size(beta);
        let diff_ft_len = alpha_ft_len / beta_ft_len;
        GeneralAlignment {
            first_align: AlignmentIndexing::compute_indexing(cfn, &alpha_variables, &beta_variables, beta_ft_len),
            second_align: AlignmentIndexing::compute_indexing(cfn, &alpha_variables, &diff_variables, diff_ft_len),
        }
    }

    /// Positions in the source table of the labelings of the target factor.
    pub closed spec fn spec_first_align(&self) -> Seq<usize> {
        self.first_align@
    }

    /// Positions in the source table of the labelings of the variables not in the target factor.
    pub closed spec fn spec_second_align(&self) -> Seq<usize> {
        self.second_align@
    }

    /// Positions in the source table of the labelings of the target factor.
    pub fn first_align(&self) -> (table: &Vec<usize>)
        ensures
            table@ == self.spec_first_align(),
    {
        &self.first_align
    }

    /// Positions in the source table of the labelings of the variables not in the target factor.
    pub fn second_align(&self) -> (table: &Vec<usize>)
        ensures
            table@ == self.spec_second_align(),
    {
        &self.second_align
    }
}

} // verus!
