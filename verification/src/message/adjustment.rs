use vstd::prelude::*;

use crate::cfn::cost_function_network::{
    domains_of, lemma_difference_sub_scope, variables_difference, CostFunctionNetwork, FactorOrigin,
};
use crate::messages::indexing::{indexes, lemma_product_positive, lemma_sub_scope_domains};
use crate::messages::message_nd::{alignable, AlignmentIndexing};

verus! {

/// Index adjustment tables of a source factor `alpha` and a target factor `beta` whose
/// variables `alpha` strictly contains: `first_block` maps each labeling of `beta` to the
/// position in `alpha`'s table of its zero extension, and `second_block` does the same for the
/// labelings of the variables of `alpha` not in `beta`; an entry of `alpha`'s table is the sum
/// of one entry of each.
pub struct IndexAlignmentTable {
    first_block: Vec<usize>,
    second_block: Vec<usize>,
}

/// The two index adjustment tables of `alpha` and `beta`: the first over the labelings of
/// `beta`, as long as the function table of `beta`; the second over the labelings of the
/// variables of `alpha` not in `beta`, as long as the quotient of the two function table
/// lengths.
fn adjustment_blocks<T>(cfn: &CostFunctionNetwork<T>, alpha: &FactorOrigin, beta: &FactorOrigin) -> (blocks: (
    Vec<usize>,
    Vec<usize>,
))
    requires
        alignable(cfn, *alpha, *beta),
    ensures
        indexes(
            blocks.0@,
            cfn.domain_sizes(),
            cfn.origin_variables(*alpha),
            cfn.origin_variables(*beta),
            cfn.origin_table_len(*beta),
        ),
        indexes(
            blocks.1@,
            cfn.domain_sizes(),
            cfn.origin_variables(*alpha),
            variables_difference(cfn.origin_variables(*alpha), cfn.origin_variables(*beta)),
            cfn.origin_table_len(*alpha) / cfn.origin_table_len(*beta),
        ),
{
    let alpha_vars = cfn.factor_variables(alpha);
    let beta_vars = cfn.factor_variables(beta);
    let alpha_ft_len = cfn.function_table_len(alpha);
    let beta_ft_len = cfn.function_table_len(beta);
    let difference = cfn.get_variables_difference(alpha, beta);
    proof {
        lemma_difference_sub_scope(alpha_vars@, beta_vars@);
        lemma_sub_scope_domains(cfn, alpha_vars@, beta_vars@);
        lemma_product_positive(domains_of(cfn.domain_sizes(), beta_vars@));
    }
    let difference_ft_len = alpha_ft_len / beta_ft_len;
    let first_block = AlignmentIndexing::compute_indexing(cfn, &alpha_vars, &beta_vars, beta_ft_len);
    let second_block = AlignmentIndexing::compute_indexing(cfn, &alpha_vars, &difference, difference_ft_len);
    (first_block, second_block)
}

impl IndexAlignmentTable {
    /// Computes the index adjustment tables of source factor `alpha` and target factor `beta`.
    pub fn new<T>(cfn: &CostFunctionNetwork<T>, alpha: &FactorOrigin, beta: &FactorOrigin) -> (table: Self)
        requires
            alignable(cfn, *alpha, *beta),
        ensures
            indexes(
                table.spec_first_block(),
                cfn.domain_sizes(),
                cfn.origin_variables(*alpha),
                cfn.origin_variables(*beta),
                cfn.origin_table_len(*beta),
            ),
            indexes(
                table.spec_second_block(),
                cfn.domain_sizes(),
                cfn.origin_variables(*alpha),
                variables_difference(cfn.origin_variables(*alpha), cfn.origin_variables(*beta)),
                cfn.origin_table_len(*alpha) / cfn.origin_table_len(*beta),
            ),
    {
        let (first_block, second_block) = adjustment_blocks(cfn, alpha, beta);
        IndexAlignmentTable { first_block, second_block }
    }

    /// The adjustment table over the labelings of the target factor.
    pub closed spec fn spec_first_block(&self) -> Seq<usize> {
        self.first_block@
    }

    /// The adjustment table over the labelings of the variables not in the target factor.
    pub closed spec fn spec_second_block(&self) -> Seq<usize> {
        self.second_block@
    }

    /// The adjustment table over the labelings of the target factor.
    pub fn first_block(&self) -> (block: &Vec<usize>)
        ensures
            block@ == self.spec_first_block(),
    {
        &self.first_block
    }

    /// The adjustment table over the labelings of the variables not in the target factor.
    pub fn second_block(&self) -> (block: &Vec<usize>)
        ensures
            block@ == self.spec_second_block(),
    {
        &self.second_block
    }
}

/// Index adjustment tables kept with an outgoing message of a factor `alpha` towards a factor
/// `beta`; see `IndexAlignmentTable`.
pub struct GeneralOutgoingAlignment {
    first_align: Vec<usize>,
    second_align: Vec<usize>,
}

impl GeneralOutgoingAlignment {
    /// Computes the index adjustment tables of source factor `alpha` and target factor `beta`.
    pub fn new<T>(cfn: &CostFunctionNetwork<T>, alpha: &FactorOrigin, beta: &FactorOrigin) -> (alignment: Self)
        requires
            alignable(cfn, *alpha, *beta),
        ensures
            indexes(
                alignment.spec_first_align(),
                cfn.domain_sizes(),
                cfn.origin_variables(*alpha),
                cfn.origin_variables(*beta),
                cfn.origin_table_len(*beta),
            ),
            indexes(
                alignment.spec_second_align(),
                cfn.domain_sizes(),
                cfn.origin_variables(*alpha),
                variables_difference(cfn.origin_variables(*alpha), cfn.origin_variables(*beta)),
                cfn.origin_table_len(*alpha) / cfn.origin_table_len(*beta),
            ),
    {
        let (first_align, second_align) = adjustment_blocks(cfn, alpha, beta);
        GeneralOutgoingAlignment { first_align, second_align }
    }

    /// The adjustment table over the labelings of the target factor.
    pub closed spec fn spec_first_align(&self) -> Seq<usize> {
        self.first_align@
    }

    /// The adjustment table over the labelings of the variables not in the target factor.
    pub closed spec fn spec_second_align(&self) -> Seq<usize> {
        self.second_align@
    }

    /// The adjustment table over the labelings of the target factor.
    pub fn first_align(&self) -> (align: &Vec<usize>)
        ensures
            align@ == self.spec_first_align(),
    {
        &self.first_align
    }

    /// The adjustment table over the labelings of the variables not in the target factor.
    pub fn second_align(&self) -> (align: &Vec<usize>)
        ensures
            align@ == self.spec_second_align(),
    {
        &self.second_align
    }
}

/// Index adjustment tables kept with the message data of an edge from a factor `alpha` to a
/// factor `beta`; see `IndexAlignmentTable`.
pub struct GeneralMessageData {
    first_index_alignment: Vec<usize>,
    second_index_alignment: Vec<usize>,
}

impl GeneralMessageData {
    /// Computes the index adjustment tables of source factor `alpha` and target factor `beta`.
    pub fn new<T>(cfn: &CostFunctionNetwork<T>, alpha: &FactorOrigin, beta: &FactorOrigin) -> (data: Self)
        requires
            alignable(cfn, *alpha, *beta),
        ensures
            indexes(
                data.spec_first_index_alignment(),
                cfn.domain_sizes(),
                cfn.origin_variables(*alpha),
                cfn.origin_variables(*beta),
                cfn.origin_table_len(*beta),
            ),
            indexes(
                data.spec_second_index_alignment(),
                cfn.domain_sizes(),
                cfn.origin_variables(*alpha),
                variables_difference(cfn.origin_variables(*alpha), cfn.origin_variables(*beta)),
                cfn.origin_table_len(*alpha) / cfn.origin_table_len(*beta),
            ),
    {
        let (first_index_alignment, second_index_alignment) = adjustment_blocks(cfn, alpha, beta);
        GeneralMessageData { first_index_alignment, second_index_alignment }
    }

    /// The adjustment table over the labelings of the target factor.
    pub closed spec fn spec_first_index_alignment(&self) -> Seq<usize> {
        self.first_index_alignment@
    }

    /// The adjustment table over the labelings of the variables not in the target factor.
    pub closed spec fn spec_second_index_alignment(&self) -> Seq<usize> {
        self.second_index_alignment@
    }

    /// The adjustment table over the labelings of the target factor.
    pub fn first_index_alignment(&self) -> (align: &Vec<usize>)
        ensures
            align@ == self.spec_first_index_alignment(),
    {
        &self.first_index_alignment
    }

    /// The adjustment table over the labelings of the variables not in the target factor.
    pub fn second_index_alignment(&self) -> (align: &Vec<usize>)
        ensures
            align@ == self.spec_second_index_alignment(),
    {
        &self.second_index_alignment
    }
}

/// Data kept with a message, by the kind of the factor it targets: for a factor over several
/// variables, its index adjustment tables.
pub enum MessageData {
    GeneralFactor(GeneralMessageData),
}

impl MessageData {
    /// The index adjustment tables kept for a message towards a factor over several variables.
    pub fn general_factor(&self) -> (data: &GeneralMessageData)
        ensures
            *self == MessageData::GeneralFactor(*data),
    {
        match self {
            MessageData::GeneralFactor(data) => data,
        }
    }
}

} // verus!
