use vstd::prelude::*;

use crate::cfn::cost_function_network::{domains_of, labeling_count, strictly_increasing, CostFunctionNetwork, FactorOrigin};
use crate::cfn::solution::Solution;
use crate::messages::indexing::{
    fill_offsets, is_labeling, is_sub_scope, labeling_index, lemma_offset_bound, lemma_offset_nonneg, lemma_position,
    lemma_prefix_product_bound, lemma_prefix_suffix_product, lemma_sub_scope_count_bound,
    lemma_suffix_product_monotone, lemma_suffix_product_positive, offset, position, stride, strides_of,
    suffix_product,
};
use crate::messages::message_nd::AlignmentIndexing;

verus! {

/// The variables of `vars` that `labels` leaves unlabeled, in order.
pub open spec fn free_variables(vars: Seq<usize>, labels: Seq<Option<usize>>) -> Seq<usize>
    decreases vars.len(),
{
    if vars.len() == 0 {
        Seq::empty()
    } else {
        let rest = free_variables(vars.drop_last(), labels);
        if labels[vars.last() as int] is None {
            rest.push(vars.last())
        } else {
            rest
        }
    }
}

/// The labeling of `vars` that takes the labels of `labels` where they are set and, in order,
/// the labels of `f` for the unlabeled variables.
pub open spec fn extend(vars: Seq<usize>, labels: Seq<Option<usize>>, f: Seq<usize>) -> Seq<usize>
    decreases vars.len(),
{
    if vars.len() == 0 {
        Seq::empty()
    } else if labels[vars.last() as int] is Some {
        extend(vars.drop_last(), labels, f).push(labels[vars.last() as int]->0)
    } else {
        extend(vars.drop_last(), labels, f.drop_last()).push(f.last())
    }
}

/// `Σ label * st[i]` over the positions `i` of `vars` whose variable `labels` labels.
pub open spec fn fixed_offset(vars: Seq<usize>, labels: Seq<Option<usize>>, st: Seq<int>) -> int
    decreases vars.len(),
{
    if vars.len() == 0 {
        0
    } else {
        fixed_offset(vars.drop_last(), labels, st) + match labels[vars.last() as int] {
            Some(label) => label * st[vars.len() - 1],
            None => 0,
        }
    }
}

/// The entries of `st` at the positions of `vars` whose variable `labels` leaves unlabeled.
pub open spec fn free_strides(vars: Seq<usize>, labels: Seq<Option<usize>>, st: Seq<int>) -> Seq<int>
    decreases vars.len(),
{
    if vars.len() == 0 {
        Seq::empty()
    } else {
        let rest = free_strides(vars.drop_last(), labels, st);
        if labels[vars.last() as int] is None {
            rest.push(st[vars.len() - 1])
        } else {
            rest
        }
    }
}

pub(crate) proof fn lemma_offset_congruent(l: Seq<usize>, s1: Seq<int>, s2: Seq<int>)
    requires
        s1.len() >= l.len(),
        s2.len() >= l.len(),
        forall|i: int| 0 <= i < l.len() ==> s1[i] == s2[i],
    ensures
        offset(l, s1) == offset(l, s2),
    decreases l.len(),
{
    if l.len() > 0 {
        lemma_offset_congruent(l.drop_last(), s1, s2);
    }
}

/// Shapes of the free variables, strides and extended labelings.
pub(crate) proof fn lemma_free_lengths(vars: Seq<usize>, labels: Seq<Option<usize>>, st: Seq<int>, f: Seq<usize>)
    requires
        f.len() == free_variables(vars, labels).len(),
    ensures
        free_strides(vars, labels, st).len() == free_variables(vars, labels).len(),
        extend(vars, labels, f).len() == vars.len(),
        free_variables(vars, labels).len() <= vars.len(),
    decreases vars.len(),
{
    if vars.len() > 0 {
        if labels[vars.last() as int] is Some {
            lemma_free_lengths(vars.drop_last(), labels, st, f);
        } else {
            lemma_free_lengths(vars.drop_last(), labels, st, f.drop_last());
        }
    }
}

/// The offset of an extended labeling splits into the offset of the set labels and that of the
/// labels of the unlabeled variables.
pub(crate) proof fn lemma_extend_offset(vars: Seq<usize>, labels: Seq<Option<usize>>, f: Seq<usize>, st: Seq<int>)
    requires
        f.len() == free_variables(vars, labels).len(),
        st.len() >= vars.len(),
    ensures
        offset(extend(vars, labels, f), st) == fixed_offset(vars, labels, st) + offset(
            f,
            free_strides(vars, labels, st),
        ),
    decreases vars.len(),
{
    if vars.len() > 0 {
        let n = vars.len() - 1;
        let rest = vars.drop_last();
        lemma_free_lengths(vars, labels, st, f);
        if labels[vars.last() as int] is Some {
            lemma_free_lengths(rest, labels, st, f);
            lemma_extend_offset(rest, labels, f, st);
            let e = extend(rest, labels, f);
            assert(extend(vars, labels, f).drop_last() =~= e);
        } else {
            let f1 = f.drop_last();
            lemma_free_lengths(rest, labels, st, f1);
            lemma_extend_offset(rest, labels, f1, st);
            let e = extend(rest, labels, f1);
            assert(extend(vars, labels, f).drop_last() =~= e);
            let fs = free_strides(vars, labels, st);
            let fs1 = free_strides(rest, labels, st);
            assert(fs =~= fs1.push(st[n]));
            lemma_offset_congruent(f1, fs, fs1);
            assert(f.drop_last() =~= f1);
        }
    }
}

/// Where the labels of `labels` and `f` are within the domains, the extended labeling is a
/// labeling of `vars`.
pub(crate) proof fn lemma_extend_labeling(
    domain_sizes: Seq<usize>,
    vars: Seq<usize>,
    labels: Seq<Option<usize>>,
    f: Seq<usize>,
)
    requires
        is_labeling(f, domains_of(domain_sizes, free_variables(vars, labels))),
        forall|i: int|
            0 <= i < vars.len() && (#[trigger] labels[vars[i] as int]) is Some ==> labels[vars[i] as int]->0
                < domain_sizes[vars[i] as int],
    ensures
        is_labeling(extend(vars, labels, f), domains_of(domain_sizes, vars)),
    decreases vars.len(),
{
    if vars.len() > 0 {
        let rest = vars.drop_last();
        let last = vars.last();
        assert forall|i: int|
            0 <= i < rest.len() && (#[trigger] labels[rest[i] as int]) is Some implies labels[rest[i] as int]->0
                < domain_sizes[rest[i] as int] by {
            assert(rest[i] == vars[i]);
        }
        let fv = free_variables(vars, labels);
        lemma_free_lengths(vars, labels, Seq::empty(), f);
        if labels[last as int] is Some {
            assert(free_variables(rest, labels) == fv);
            lemma_extend_labeling(domain_sizes, rest, labels, f);
            assert(labels[vars[vars.len() - 1] as int] is Some);
        } else {
            let f1 = f.drop_last();
            let fv1 = free_variables(rest, labels);
            assert(fv =~= fv1.push(last));
            assert forall|i: int| 0 <= i < f1.len() implies #[trigger] f1[i] < domains_of(domain_sizes, fv1)[i] by {
                assert(f[i] < domains_of(domain_sizes, fv)[i]);
            }
            lemma_extend_labeling(domain_sizes, rest, labels, f1);
            assert(f.last() < domains_of(domain_sizes, fv)[f.len() - 1]);
        }
        let e = extend(vars, labels, f);
        let d = domains_of(domain_sizes, vars);
        assert forall|i: int| 0 <= i < e.len() implies #[trigger] e[i] < d[i] by {
            if i < vars.len() - 1 {
                let e1 = e.drop_last();
                assert(e[i] == e1[i]);
                assert(d[i] == domains_of(domain_sizes, rest)[i]);
            }
        }
    }
}

/// The free variables of a strictly increasing sequence are strictly increasing and among its
/// variables.
pub(crate) proof fn lemma_free_variables_sub_scope(vars: Seq<usize>, labels: Seq<Option<usize>>)
    requires
        strictly_increasing(vars),
    ensures
        strictly_increasing(free_variables(vars, labels)),
        forall|i: int|
            0 <= i < free_variables(vars, labels).len() ==> vars.contains(#[trigger] free_variables(vars, labels)[i]),
        forall|i: int|
            0 <= i < free_variables(vars, labels).len() ==> (#[trigger] labels[free_variables(vars, labels)[i] as int])
                is None,
    decreases vars.len(),
{
    if vars.len() > 0 {
        let rest = vars.drop_last();
        assert(strictly_increasing(rest)) by {
            assert forall|i: int, j: int| 0 <= i < j < rest.len() implies rest[i] < rest[j] by {
                assert(rest[i] == vars[i] && rest[j] == vars[j]);
            }
        }
        lemma_free_variables_sub_scope(rest, labels);
        let fv1 = free_variables(rest, labels);
        let fv = free_variables(vars, labels);
        assert forall|i: int| 0 <= i < fv1.len() implies vars.contains(#[trigger] fv1[i]) by {
            let j = choose|j: int| 0 <= j < rest.len() && rest[j] == fv1[i];
            assert(vars[j] == fv1[i]);
        }
        if labels[vars.last() as int] is None {
            assert(fv =~= fv1.push(vars.last()));
            assert(vars[vars.len() - 1] == vars.last());
            assert forall|i: int| 0 <= i < fv1.len() implies #[trigger] fv1[i] < vars.last() by {
                let j = choose|j: int| 0 <= j < rest.len() && rest[j] == fv1[i];
                assert(vars[j] == fv1[i]);
            }
        }
    }
}

/// For each variable of `alpha`, its stride in the function table of `beta` where `beta` has
/// it, and 0 where not: the offset of a labeling of `alpha` with these strides is the index in
/// `beta`'s table of its restriction to `beta`.
pub open spec fn target_strides(domain_sizes: Seq<usize>, alpha: Seq<usize>, beta: Seq<usize>) -> Seq<int> {
    Seq::new(
        alpha.len(),
        |i: int|
            if beta.contains(alpha[i]) {
                stride(domain_sizes, beta, alpha[i])
            } else {
                0
            },
    )
}

proof fn lemma_suffix_dominated(domain_sizes: Seq<usize>, alpha: Seq<usize>, beta: Seq<usize>, k: int, a: int)
    requires
        is_sub_scope(alpha, beta),
        forall|i: int| 0 <= i < alpha.len() ==> #[trigger] domain_sizes[alpha[i] as int] >= 1,
        0 <= k <= beta.len(),
        0 <= a,
        k < beta.len() ==> a <= position(alpha, beta[k]),
    ensures
        suffix_product(domains_of(domain_sizes, beta), k) <= suffix_product(domains_of(domain_sizes, alpha), a),
    decreases beta.len() - k,
{
    let ad = domains_of(domain_sizes, alpha);
    let bd = domains_of(domain_sizes, beta);
    assert forall|i: int| 0 <= i < ad.len() implies #[trigger] ad[i] >= 1 by {
        assert(ad[i] == domain_sizes[alpha[i] as int]);
    }
    lemma_suffix_product_positive(ad, a);
    if k < beta.len() {
        let p = position(alpha, beta[k]);
        lemma_position(alpha, beta[k]);
        if k + 1 < beta.len() {
            lemma_positions_increase(alpha, beta, k, k + 1);
        }
        lemma_suffix_dominated(domain_sizes, alpha, beta, k + 1, p + 1);
        lemma_suffix_product_monotone(ad, a, p);
        lemma_suffix_product_positive(bd.drop_last(), 0);
        let x = suffix_product(bd, k + 1);
        let y = suffix_product(ad, p + 1);
        let d = bd[k];
        assert(d == ad[p]);
        assert(x >= 0) by {
            assert forall|i: int| 0 <= i < bd.len() implies #[trigger] bd[i] >= 1 by {
                lemma_position(alpha, beta[i]);
                assert(bd[i] == domain_sizes[alpha[position(alpha, beta[i])] as int]);
            }
            lemma_suffix_product_positive(bd, k + 1);
        }
        assert(d * x <= d * y) by (nonlinear_arith)
            requires
                d >= 1,
                0 <= x <= y,
        ;
    }
}

proof fn lemma_positions_increase(alpha: Seq<usize>, beta: Seq<usize>, i: int, j: int)
    requires
        is_sub_scope(alpha, beta),
        0 <= i < j < beta.len(),
    ensures
        position(alpha, beta[i]) < position(alpha, beta[j]),
{
    lemma_position(alpha, beta[i]);
    lemma_position(alpha, beta[j]);
    assert(beta[i] < beta[j]);
    let pi = position(alpha, beta[i]);
    let pj = position(alpha, beta[j]);
    if pj < pi {
        assert(alpha[pj] < alpha[pi]);
    }
}

/// Each target stride is nonnegative and at most the stride of the same variable in `alpha`.
proof fn lemma_target_strides_bound(domain_sizes: Seq<usize>, alpha: Seq<usize>, beta: Seq<usize>)
    requires
        is_sub_scope(alpha, beta),
        forall|i: int| 0 <= i < alpha.len() ==> #[trigger] domain_sizes[alpha[i] as int] >= 1,
    ensures
        forall|i: int|
            0 <= i < alpha.len() ==> 0 <= #[trigger] target_strides(domain_sizes, alpha, beta)[i] <= strides_of(
                domain_sizes,
                alpha,
                alpha,
            )[i],
{
    let ts = target_strides(domain_sizes, alpha, beta);
    let ad = domains_of(domain_sizes, alpha);
    let bd = domains_of(domain_sizes, beta);
    assert forall|i: int| 0 <= i < ad.len() implies #[trigger] ad[i] >= 1 by {
        assert(ad[i] == domain_sizes[alpha[i] as int]);
    }
    assert forall|i: int| 0 <= i < alpha.len() implies 0 <= #[trigger] ts[i] <= strides_of(domain_sizes, alpha, alpha)[i] by {
        let v = alpha[i];
        lemma_position(alpha, v);
        assert(alpha.contains(v));
        let pa = position(alpha, v);
        assert(pa == i);
        lemma_suffix_product_positive(ad, pa + 1);
        if beta.contains(v) {
            lemma_position(beta, v);
            let j = position(beta, v);
            assert(beta[j] == v);
            lemma_position(alpha, beta[j]);
            if j + 1 < beta.len() {
                lemma_positions_increase(alpha, beta, j, j + 1);
            }
            lemma_suffix_dominated(domain_sizes, alpha, beta, j + 1, pa + 1);
            assert forall|k: int| 0 <= k < bd.len() implies #[trigger] bd[k] >= 1 by {
                lemma_position(alpha, beta[k]);
                assert(bd[k] == domain_sizes[alpha[position(alpha, beta[k])] as int]);
            }
            lemma_suffix_product_positive(bd, j + 1);
        }
    }
}

proof fn lemma_offset_monotone(l: Seq<usize>, s1: Seq<int>, s2: Seq<int>)
    requires
        s1.len() >= l.len(),
        s2.len() >= l.len(),
        forall|i: int| 0 <= i < l.len() ==> 0 <= #[trigger] s1[i] <= s2[i],
    ensures
        offset(l, s1) <= offset(l, s2),
    decreases l.len(),
{
    if l.len() > 0 {
        lemma_offset_monotone(l.drop_last(), s1, s2);
        let a = l.last() as int;
        let x = s1[l.len() - 1];
        let y = s2[l.len() - 1];
        assert(a * x <= a * y) by (nonlinear_arith)
            requires
                a >= 0,
                0 <= x <= y,
        ;
    }
}

/// The entries of `alpha`'s and `beta`'s function tables that a partial labeling leaves open:
/// `free_variables` are the variables of `alpha` that it leaves unlabeled, in order; for each
/// labeling of them, at its index (last variable fastest), `alpha_indices` holds the index in
/// `alpha`'s table of the labeling that extends the partial labeling with it, and
/// `beta_indices` the index in `beta`'s table of the restriction of that labeling to `beta`.
pub struct RestrictedEntries {
    pub free_variables: Vec<usize>,
    pub alpha_indices: Vec<usize>,
    pub beta_indices: Vec<usize>,
}

#[verifier::rlimit(80)]
/// Lists the entries of the tables of `alpha` and of `beta` (whose variables `alpha` contains)
/// that agree with the labels that `solution` sets.
pub fn restricted_entries<T>(
    cfn: &CostFunctionNetwork<T>,
    solution: &Solution,
    alpha: &FactorOrigin,
    beta: &FactorOrigin,
) -> (entries: RestrictedEntries)
    requires
        cfn.origin_valid(*alpha),
        cfn.origin_valid(*beta),
        is_sub_scope(cfn.origin_variables(*alpha), cfn.origin_variables(*beta)),
        0 < cfn.origin_variables(*beta).len() <= cfn.origin_variables(*alpha).len() < usize::MAX,
        forall|i: int|
            0 <= i < cfn.origin_variables(*alpha).len() ==> #[trigger] cfn.origin_variables(*alpha)[i]
                < cfn.spec_num_variables(),
        forall|i: int|
            0 <= i < cfn.origin_variables(*alpha).len() ==> #[trigger] cfn.domain_sizes()[cfn.origin_variables(
                *alpha,
            )[i] as int] >= 1,
        suffix_product(domains_of(cfn.domain_sizes(), cfn.origin_variables(*alpha)), 0) <= usize::MAX,
        solution@.len() == cfn.spec_num_variables(),
        forall|i: int|
            0 <= i < cfn.origin_variables(*alpha).len() && (#[trigger] solution@[cfn.origin_variables(
                *alpha,
            )[i] as int]) is Some ==> solution@[cfn.origin_variables(*alpha)[i] as int]->0
                < cfn.domain_sizes()[cfn.origin_variables(*alpha)[i] as int],
    ensures
        entries.free_variables@ == free_variables(cfn.origin_variables(*alpha), solution@),
        entries.alpha_indices@.len() == labeling_count(domains_of(cfn.domain_sizes(), entries.free_variables@)),
        entries.beta_indices@.len() == labeling_count(domains_of(cfn.domain_sizes(), entries.free_variables@)),
        forall|f: Seq<usize>|
            #![trigger labeling_index(f, domains_of(cfn.domain_sizes(), entries.free_variables@))]
            is_labeling(f, domains_of(cfn.domain_sizes(), entries.free_variables@)) ==> {
                let e = extend(cfn.origin_variables(*alpha), solution@, f);
                let t = labeling_index(f, domains_of(cfn.domain_sizes(), entries.free_variables@));
                &&& entries.alpha_indices@[t] == offset(
                    e,
                    strides_of(cfn.domain_sizes(), cfn.origin_variables(*alpha), cfn.origin_variables(*alpha)),
                )
                &&& entries.beta_indices@[t] == offset(
                    e,
                    target_strides(cfn.domain_sizes(), cfn.origin_variables(*alpha), cfn.origin_variables(*beta)),
                )
            },
{
    let alpha_vars = cfn.factor_variables(alpha);
    let beta_vars = cfn.factor_variables(beta);
    let ghost ds = cfn.domain_sizes();
    let ghost av = alpha_vars@;
    let ghost bv = beta_vars@;
    let ghost labels = solution@;
    let ghost sa = strides_of(ds, av, av);
    let ghost sb = target_strides(ds, av, bv);
    let ghost ad = domains_of(ds, av);
    proof {
        assert(is_sub_scope(av, av)) by {
            assert forall|i: int| 0 <= i < av.len() implies av.contains(#[trigger] av[i]) by {}
        }
        lemma_target_strides_bound(ds, av, bv);
        assert forall|i: int| 0 <= i < bv.len() implies #[trigger] bv[i] < cfn.spec_num_variables()
            && ds[bv[i] as int] >= 1 by {
            lemma_position(av, bv[i]);
            assert(av[position(av, bv[i])] == bv[i]);
        }
        assert forall|i: int| 0 <= i < ad.len() implies #[trigger] ad[i] >= 1 by {
            assert(ad[i] == ds[av[i] as int]);
        }
        assert(suffix_product(domains_of(ds, bv), 0) <= usize::MAX) by {
            lemma_suffix_dominated(ds, av, bv, 0, 0);
        }
    }
    let alpha_strides = AlignmentIndexing::compute_strides(cfn, &alpha_vars, &alpha_vars);
    let beta_strides = AlignmentIndexing::compute_strides(cfn, &beta_vars, &beta_vars);
    let mut free: Vec<usize> = Vec::new();
    let mut free_alpha_strides: Vec<usize> = Vec::new();
    let mut free_beta_strides: Vec<usize> = Vec::new();
    let mut base_alpha: usize = 0;
    let mut base_beta: usize = 0;
    let m = alpha_vars.len();
    for i in 0..m
        invariant
            m == av.len(),
            av == alpha_vars@,
            bv == beta_vars@,
            ds == cfn.domain_sizes(),
            labels == solution@,
            sa == strides_of(ds, av, av),
            sb == target_strides(ds, av, bv),
            ad == domains_of(ds, av),
            is_sub_scope(av, bv),
            forall|k: int| 0 <= k < ad.len() ==> #[trigger] ad[k] >= 1,
            forall|k: int| 0 <= k < av.len() ==> 0 <= #[trigger] sb[k] <= sa[k],
            suffix_product(ad, 0) <= usize::MAX,
            forall|k: int| 0 <= k < av.len() ==> #[trigger] av[k] < labels.len(),
            forall|k: int|
                0 <= k < av.len() && (#[trigger] labels[av[k] as int]) is Some ==> labels[av[k] as int]->0
                    < ds[av[k] as int],
            alpha_strides@.len() == m + 1,
            forall|k: int| 0 <= k < m ==> #[trigger] alpha_strides@[k] == stride(ds, av, av[k]),
            beta_strides@.len() == bv.len() + 1,
            forall|k: int| 0 <= k < bv.len() ==> #[trigger] beta_strides@[k] == stride(ds, bv, bv[k]),
            free@ == free_variables(av.take(i as int), labels),
            free_alpha_strides@.len() == free@.len(),
            free_beta_strides@.len() == free@.len(),
            forall|k: int|
                0 <= k < free@.len() ==> #[trigger] free_alpha_strides@[k] == free_strides(
                    av.take(i as int),
                    labels,
                    sa,
                )[k],
            forall|k: int|
                0 <= k < free@.len() ==> #[trigger] free_beta_strides@[k] == free_strides(
                    av.take(i as int),
                    labels,
                    sb,
                )[k],
            base_alpha == fixed_offset(av.take(i as int), labels, sa),
            base_beta == fixed_offset(av.take(i as int), labels, sb),
    {
        let v = alpha_vars[i];
        let ghost pre = av.take(i as int);
        let ghost next = av.take(i + 1);
        proof {
            assert(next.drop_last() =~= pre);
            assert(next.last() == v);
            lemma_free_lengths(pre, labels, sa, free_variables(pre, labels));
            lemma_free_lengths(pre, labels, sb, free_variables(pre, labels));
        }
        let stride_alpha = alpha_strides[i];
        let mut stride_beta: usize = 0;
        let mut j: usize = 0;
        while j < beta_vars.len()
            invariant
                bv == beta_vars@,
                0 <= j <= bv.len(),
                beta_strides@.len() == bv.len() + 1,
                forall|k: int| 0 <= k < bv.len() ==> #[trigger] beta_strides@[k] == stride(ds, bv, bv[k]),
                strictly_increasing(bv),
                stride_beta == (if bv.take(j as int).contains(v) {
                    stride(ds, bv, v)
                } else {
                    0
                }),
            decreases bv.len() - j,
        {
            proof {
                assert(bv.take(j + 1).drop_last() =~= bv.take(j as int));
                if bv.take(j + 1).contains(v) && !bv.take(j as int).contains(v) {
                    let k = choose|k: int| 0 <= k < j + 1 && #[trigger] bv.take(j + 1)[k] == v;
                    if k < j {
                        assert(bv.take(j as int)[k] == v);
                    }
                }
                if bv.take(j as int).contains(v) {
                    let k = choose|k: int| 0 <= k < j && #[trigger] bv.take(j as int)[k] == v;
                    assert(bv.take(j + 1)[k] == v);
                }
            }
            if beta_vars[j] == v {
                stride_beta = beta_strides[j];
                proof {
                    assert(bv.take(j + 1)[j as int] == v);
                }
            }
            j = j + 1;
        }
        proof {
            assert(bv.take(bv.len() as int) =~= bv);
            assert(stride_alpha == sa[i as int]);
            assert(stride_beta == sb[i as int]);
        }
        match solution.index(v) {
            Some(label) => {
                proof {
                    assert(labels[av[i as int] as int] is Some);
                    assert forall|k: int| 0 <= k < av.len() implies #[trigger] sa[k] >= 0 by {
                        assert(0 <= sb[k] <= sa[k]);
                    }
                    assert forall|k: int| 0 <= k < av.len() implies #[trigger] sb[k] >= 0 by {}
                    assert forall|k: int| 0 <= k < av.len() implies #[trigger] ds[av[k] as int] >= 1 by {
                        assert(ad[k] >= 1);
                    }
                    lemma_fixed_offset_bound(av, labels, sa, i + 1);
                    lemma_fixed_offset_bound(av, labels, sb, i + 1);
                    let x = *label as int;
                    assert(fixed_offset(next, labels, sa) == base_alpha + x * sa[i as int]);
                    assert(fixed_offset(next, labels, sb) == base_beta + x * sb[i as int]);
                    lemma_extended_offset_fits(ds, av, labels, sa, sb);
                }
                base_alpha = base_alpha + *label * stride_alpha;
                base_beta = base_beta + *label * stride_beta;
                proof {
                    assert(free_variables(next, labels) == free_variables(pre, labels));
                    assert(free_strides(next, labels, sa) == free_strides(pre, labels, sa));
                    assert(free_strides(next, labels, sb) == free_strides(pre, labels, sb));
                }
            },
            None => {
                free.push(v);
                free_alpha_strides.push(stride_alpha);
                free_beta_strides.push(stride_beta);
                proof {
                    assert(free_variables(next, labels) == free_variables(pre, labels).push(v));
                    assert(free_strides(next, labels, sa) == free_strides(pre, labels, sa).push(sa[i as int]));
                    assert(free_strides(next, labels, sb) == free_strides(pre, labels, sb).push(sb[i as int]));
                }
            },
        }
    }
    proof {
        assert(av.take(m as int) =~= av);
    }
    let ghost fv = free@;
    let ghost fd = domains_of(ds, fv);
    let ghost fsa = free_strides(av, labels, sa);
    let ghost fsb = free_strides(av, labels, sb);
    proof {
        lemma_free_variables_sub_scope(av, labels);
        lemma_sub_scope_count_bound(cfn, av, fv);
        lemma_prefix_suffix_product(ad, 0);
        assert(ad.take(0) =~= Seq::<int>::empty());
        assert forall|i: int| 0 <= i < fv.len() implies #[trigger] fv[i] < cfn.spec_num_variables() && ds[fv[i] as int]
            >= 1 by {
            let k = choose|k: int| 0 <= k < av.len() && av[k] == fv[i];
            assert(av[k] == fv[i]);
        }
        assert forall|i: int| 0 <= i < fd.len() implies #[trigger] fd[i] >= 1 by {
            assert(fd[i] == ds[fv[i] as int]);
        }
        assert forall|k: int| 0 <= k < av.len() implies #[trigger] sa[k] >= 0 by {
            assert(0 <= sb[k] <= sa[k]);
        }
        assert forall|k: int| 0 <= k < av.len() implies #[trigger] sb[k] >= 0 by {}
        assert forall|k: int| 0 <= k < av.len() implies #[trigger] ds[av[k] as int] >= 1 by {
            assert(ad[k] >= 1);
        }
        lemma_extended_offset_fits(ds, av, labels, sa, sb);
        assert forall|f: Seq<usize>| is_labeling(f, fd) implies base_alpha + #[trigger] offset(f, fsa) <= usize::MAX by {
            lemma_extend_offset(av, labels, f, sa);
            lemma_extend_labeling(ds, av, labels, f);
        }
        assert forall|f: Seq<usize>| is_labeling(f, fd) implies base_beta + #[trigger] offset(f, fsb) <= usize::MAX by {
            lemma_extend_offset(av, labels, f, sb);
            lemma_extend_labeling(ds, av, labels, f);
        }
        lemma_free_strides_nonneg(av, labels, sa);
        lemma_free_strides_nonneg(av, labels, sb);
        lemma_free_lengths(av, labels, sa, fv);
        lemma_free_lengths(av, labels, sb, fv);
    }
    let count = free_labeling_count(cfn, &free, Ghost(labeling_count(ad)));
    if free.len() == 0 {
        // every variable of `alpha` is labeled: a single entry
        let mut alpha_indices: Vec<usize> = Vec::new();
        let mut beta_indices: Vec<usize> = Vec::new();
        alpha_indices.push(base_alpha);
        beta_indices.push(base_beta);
        proof {
            assert forall|f: Seq<usize>| #![trigger labeling_index(f, fd)] is_labeling(f, fd) implies {
                let e = extend(av, labels, f);
                let t = labeling_index(f, fd);
                &&& alpha_indices@[t] == offset(e, sa)
                &&& beta_indices@[t] == offset(e, sb)
            } by {
                lemma_extend_offset(av, labels, f, sa);
                lemma_extend_offset(av, labels, f, sb);
                assert(f.len() == 0);
            }
        }
        return RestrictedEntries { free_variables: free, alpha_indices, beta_indices };
    }
    let alpha_indices = fill_offsets(cfn, &free, &free_alpha_strides, Ghost(fsa), base_alpha, count);
    let beta_indices = fill_offsets(cfn, &free, &free_beta_strides, Ghost(fsb), base_beta, count);
    proof {
        assert forall|f: Seq<usize>| #![trigger labeling_index(f, fd)] is_labeling(f, fd) implies {
            let e = extend(av, labels, f);
            let t = labeling_index(f, fd);
            &&& alpha_indices@[t] == offset(e, sa)
            &&& beta_indices@[t] == offset(e, sb)
        } by {
            lemma_extend_offset(av, labels, f, sa);
            lemma_extend_offset(av, labels, f, sb);
        }
    }
    RestrictedEntries { free_variables: free, alpha_indices, beta_indices }
}

/// The number of labelings of `free`.
fn free_labeling_count<T>(cfn: &CostFunctionNetwork<T>, free: &Vec<usize>, Ghost(bound): Ghost<int>) -> (count: usize)
    requires
        forall|i: int| 0 <= i < free@.len() ==> #[trigger] free@[i] < cfn.spec_num_variables(),
        forall|i: int| 0 <= i < free@.len() ==> #[trigger] cfn.domain_sizes()[free@[i] as int] >= 1,
        labeling_count(domains_of(cfn.domain_sizes(), free@)) <= bound <= usize::MAX,
    ensures
        count == labeling_count(domains_of(cfn.domain_sizes(), free@)),
{
    let ghost fd = domains_of(cfn.domain_sizes(), free@);
    let mut count: usize = 1;
    proof {
        assert forall|i: int| 0 <= i < fd.len() implies #[trigger] fd[i] >= 1 by {}
        assert(fd.take(0) =~= Seq::<int>::empty());
    }
    for i in 0..free.len()
        invariant
            fd == domains_of(cfn.domain_sizes(), free@),
            forall|k: int| 0 <= k < fd.len() ==> #[trigger] fd[k] >= 1,
            forall|k: int| 0 <= k < free@.len() ==> #[trigger] free@[k] < cfn.spec_num_variables(),
            labeling_count(fd) <= bound <= usize::MAX,
            count == labeling_count(fd.take(i as int)),
    {
        proof {
            lemma_prefix_product_bound(fd, i + 1);
            assert(fd.take(i + 1).drop_last() =~= fd.take(i as int));
        }
        count = count * cfn.domain_size(free[i]);
    }
    proof {
        assert(fd.take(free@.len() as int) =~= fd);
    }
    count
}

proof fn lemma_free_strides_nonneg(vars: Seq<usize>, labels: Seq<Option<usize>>, st: Seq<int>)
    requires
        st.len() >= vars.len(),
        forall|i: int| 0 <= i < vars.len() ==> #[trigger] st[i] >= 0,
    ensures
        forall|i: int|
            0 <= i < free_strides(vars, labels, st).len() ==> #[trigger] free_strides(vars, labels, st)[i] >= 0,
    decreases vars.len(),
{
    if vars.len() > 0 {
        lemma_free_strides_nonneg(vars.drop_last(), labels, st);
        let rest = free_strides(vars.drop_last(), labels, st);
        assert(st[vars.len() - 1] >= 0);
        assert forall|i: int| 0 <= i < free_strides(vars, labels, st).len() implies #[trigger] free_strides(
            vars,
            labels,
            st,
        )[i] >= 0 by {
            if i < rest.len() {
                assert(free_strides(vars, labels, st)[i] == rest[i]);
            }
        }
    }
}

/// The offset of the set labels of a prefix of `vars` is at most that of all of `vars`.
proof fn lemma_fixed_offset_bound(vars: Seq<usize>, labels: Seq<Option<usize>>, st: Seq<int>, k: int)
    requires
        0 <= k <= vars.len(),
        st.len() >= vars.len(),
        forall|i: int| 0 <= i < vars.len() ==> #[trigger] st[i] >= 0,
    ensures
        0 <= fixed_offset(vars.take(k), labels, st) <= fixed_offset(vars, labels, st),
    decreases vars.len() - k,
{
    if k == vars.len() {
        assert(vars.take(k) =~= vars);
        lemma_fixed_offset_nonneg(vars, labels, st);
    } else {
        let rest = vars.drop_last();
        assert(rest.take(k) =~= vars.take(k));
        lemma_fixed_offset_bound(rest, labels, st, k);
        if labels[vars.last() as int] is Some {
            let x = labels[vars.last() as int]->0 as int;
            let s = st[vars.len() - 1];
            assert(x * s >= 0) by (nonlinear_arith)
                requires
                    x >= 0,
                    s >= 0,
            ;
        }
    }
}

proof fn lemma_fixed_offset_nonneg(vars: Seq<usize>, labels: Seq<Option<usize>>, st: Seq<int>)
    requires
        st.len() >= vars.len(),
        forall|i: int| 0 <= i < vars.len() ==> #[trigger] st[i] >= 0,
    ensures
        fixed_offset(vars, labels, st) >= 0,
    decreases vars.len(),
{
    if vars.len() > 0 {
        lemma_fixed_offset_nonneg(vars.drop_last(), labels, st);
        if labels[vars.last() as int] is Some {
            let x = labels[vars.last() as int]->0 as int;
            let s = st[vars.len() - 1];
            assert(x * s >= 0) by (nonlinear_arith)
                requires
                    x >= 0,
                    s >= 0,
            ;
        }
    }
}

/// Every extended labeling of `alpha` has offsets within `usize` under both the strides of
/// `alpha` and the target strides, and so do the offsets of the set labels.
proof fn lemma_extended_offset_fits(
    ds: Seq<usize>,
    av: Seq<usize>,
    labels: Seq<Option<usize>>,
    sa: Seq<int>,
    sb: Seq<int>,
)
    requires
        strictly_increasing(av),
        sa == strides_of(ds, av, av),
        forall|k: int| 0 <= k < av.len() ==> #[trigger] ds[av[k] as int] >= 1,
        forall|k: int| 0 <= k < av.len() ==> 0 <= #[trigger] sb[k] <= sa[k],
        sb.len() == av.len(),
        suffix_product(domains_of(ds, av), 0) <= usize::MAX,
        forall|k: int|
            0 <= k < av.len() && (#[trigger] labels[av[k] as int]) is Some ==> labels[av[k] as int]->0
                < ds[av[k] as int],
    ensures
        forall|l: Seq<usize>|
            is_labeling(l, domains_of(ds, av)) ==> 0 <= #[trigger] offset(l, sb) <= offset(l, sa) <= usize::MAX,
        forall|l: Seq<usize>| is_labeling(l, domains_of(ds, av)) ==> #[trigger] offset(l, sa) <= usize::MAX,
        fixed_offset(av, labels, sb) <= fixed_offset(av, labels, sa) <= usize::MAX,
{
    let ad = domains_of(ds, av);
    assert(is_sub_scope(av, av)) by {
        assert forall|i: int| 0 <= i < av.len() implies av.contains(#[trigger] av[i]) by {}
    }
    assert forall|l: Seq<usize>| is_labeling(l, ad) implies #[trigger] offset(l, sa) <= usize::MAX by {
        lemma_offset_sa_bound(ds, av, l, sa);
    }
    assert forall|l: Seq<usize>| is_labeling(l, ad) implies 0 <= #[trigger] offset(l, sb) <= offset(l, sa) <= usize::MAX by {
        lemma_offset_monotone(l, sb, sa);
        lemma_offset_nonneg(l, sb);
        lemma_offset_sa_bound(ds, av, l, sa);
    }
    // the set labels with the free variables at 0
    let fv = free_variables(av, labels);
    let z = Seq::new(fv.len(), |i: int| 0usize);
    lemma_free_variables_sub_scope(av, labels);
    assert(is_labeling(z, domains_of(ds, fv))) by {
        assert forall|i: int| 0 <= i < z.len() implies #[trigger] z[i] < domains_of(ds, fv)[i] by {
            let k = choose|k: int| 0 <= k < av.len() && av[k] == fv[i];
            assert(ds[av[k] as int] >= 1);
        }
    }
    lemma_extend_labeling(ds, av, labels, z);
    lemma_extend_offset(av, labels, z, sa);
    lemma_extend_offset(av, labels, z, sb);
    lemma_free_lengths(av, labels, sa, z);
    lemma_free_lengths(av, labels, sb, z);
    lemma_offset_zero_all(z, free_strides(av, labels, sa));
    lemma_offset_zero_all(z, free_strides(av, labels, sb));
}

proof fn lemma_offset_sa_bound(ds: Seq<usize>, av: Seq<usize>, l: Seq<usize>, sa: Seq<int>)
    requires
        strictly_increasing(av),
        sa == strides_of(ds, av, av),
        forall|k: int| 0 <= k < av.len() ==> #[trigger] ds[av[k] as int] >= 1,
        suffix_product(domains_of(ds, av), 0) <= usize::MAX,
        is_labeling(l, domains_of(ds, av)),
    ensures
        offset(l, sa) <= usize::MAX,
{
    let ad = domains_of(ds, av);
    assert(is_sub_scope(av, av)) by {
        assert forall|i: int| 0 <= i < av.len() implies av.contains(#[trigger] av[i]) by {}
    }
    if av.len() > 0 {
        let n = av.len() as int;
        lemma_offset_bound(ds, av, av, l, n);
        assert(l.take(n) =~= l);
        lemma_position(av, av[n - 1]);
        assert forall|i: int| 0 <= i < ad.len() implies #[trigger] ad[i] >= 1 by {
            assert(ad[i] == ds[av[i] as int]);
        }
        lemma_suffix_product_positive(ad, position(av, av[n - 1]) + 1);
    }
}

proof fn lemma_offset_zero_all(l: Seq<usize>, st: Seq<int>)
    requires
        forall|i: int| 0 <= i < l.len() ==> #[trigger] l[i] == 0,
    ensures
        offset(l, st) == 0,
    decreases l.len(),
{
    if l.len() > 0 {
        lemma_offset_zero_all(l.drop_last(), st);
        assert(l.last() == 0);
        let s = st[l.len() - 1];
        assert(0 * s == 0) by (nonlinear_arith);
    }
}

/// The labeling of `vars` whose index in their function table (last variable fastest) is
/// `index`: each label is the remainder of the index, divided by the domain sizes of the later
/// variables, by the domain size of its variable.
pub fn labeling_of_index<T>(cfn: &CostFunctionNetwork<T>, vars: &Vec<usize>, index: usize) -> (labeling: Vec<usize>)
    requires
        forall|i: int| 0 <= i < vars@.len() ==> #[trigger] vars@[i] < cfn.spec_num_variables(),
        forall|i: int| 0 <= i < vars@.len() ==> #[trigger] cfn.domain_sizes()[vars@[i] as int] >= 1,
        index < labeling_count(domains_of(cfn.domain_sizes(), vars@)),
    ensures
        is_labeling(labeling@, domains_of(cfn.domain_sizes(), vars@)),
        labeling_index(labeling@, domains_of(cfn.domain_sizes(), vars@)) == index,
{
    proof {
        assert(vars@.take(vars@.len() as int) =~= vars@);
    }
    labeling_of_index_prefix(cfn, vars, vars.len(), index)
}

fn labeling_of_index_prefix<T>(cfn: &CostFunctionNetwork<T>, vars: &Vec<usize>, k: usize, index: usize) -> (labeling: Vec<usize>)
    requires
        k <= vars@.len(),
        forall|i: int| 0 <= i < vars@.len() ==> #[trigger] vars@[i] < cfn.spec_num_variables(),
        forall|i: int| 0 <= i < vars@.len() ==> #[trigger] cfn.domain_sizes()[vars@[i] as int] >= 1,
        index < labeling_count(domains_of(cfn.domain_sizes(), vars@.take(k as int))),
    ensures
        is_labeling(labeling@, domains_of(cfn.domain_sizes(), vars@.take(k as int))),
        labeling_index(labeling@, domains_of(cfn.domain_sizes(), vars@.take(k as int))) == index,
    decreases k,
{
    let ghost doms = domains_of(cfn.domain_sizes(), vars@.take(k as int));
    if k == 0 {
        proof {
            assert(doms.len() == 0);
        }
        Vec::new()
    } else {
        let d = cfn.domain_size(vars[k - 1]);
        let ghost prev = domains_of(cfn.domain_sizes(), vars@.take(k - 1));
        proof {
            assert(doms.drop_last() =~= prev);
            assert(doms.last() == d);
            let c = labeling_count(prev);
            assert(labeling_count(doms) == c * d);
            assert(index / d < c) by (nonlinear_arith)
                requires
                    index < c * d,
                    d >= 1,
                    index >= 0,
            ;
        }
        let mut labeling = labeling_of_index_prefix(cfn, vars, k - 1, index / d);
        let ghost before = labeling@;
        labeling.push(index % d);
        proof {
            assert(labeling@.drop_last() =~= before);
            assert((index / d) * d + index % d == index) by (nonlinear_arith)
                requires
                    d >= 1,
            ;
            assert forall|i: int| 0 <= i < labeling@.len() implies #[trigger] labeling@[i] < doms[i] by {
                if i < k - 1 {
                    assert(labeling@[i] == before[i]);
                    assert(doms[i] == prev[i]);
                }
            }
        }
        labeling
    }
}

} // verus!
