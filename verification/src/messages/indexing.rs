use vstd::prelude::*;

use crate::cfn::cost_function_network::{domains_of, labeling_count, strictly_increasing, CostFunctionNetwork};

verus! {

/// Product of `doms[a]`, `doms[a + 1]`, ... up to the last.
pub open spec fn suffix_product(doms: Seq<int>, a: int) -> int
    decreases doms.len() - a,
{
    if a >= doms.len() || a < 0 {
        1
    } else {
        doms[a] * suffix_product(doms, a + 1)
    }
}

/// The position of `v` in `alpha`.
pub open spec fn position(alpha: Seq<usize>, v: usize) -> int {
    choose|j: int| 0 <= j < alpha.len() && alpha[j] == v
}

/// `beta` is a sub-scope of `alpha`: both strictly increasing, every variable of `beta` in `alpha`.
pub open spec fn is_sub_scope(alpha: Seq<usize>, beta: Seq<usize>) -> bool {
    &&& strictly_increasing(alpha)
    &&& strictly_increasing(beta)
    &&& forall|i: int| 0 <= i < beta.len() ==> alpha.contains(#[trigger] beta[i])
}

/// The stride of variable `v` in the function table of `alpha`: the product of the domain sizes
/// of the variables of `alpha` after `v`.
pub open spec fn stride(domain_sizes: Seq<usize>, alpha: Seq<usize>, v: usize) -> int {
    suffix_product(domains_of(domain_sizes, alpha), position(alpha, v) + 1)
}

/// The strides of the variables of `beta` in the function table of `alpha`.
pub open spec fn strides_of(domain_sizes: Seq<usize>, alpha: Seq<usize>, beta: Seq<usize>) -> Seq<int> {
    Seq::new(beta.len(), |i: int| stride(domain_sizes, alpha, beta[i]))
}

/// `l` labels variables with domain sizes `doms`.
pub open spec fn is_labeling(l: Seq<usize>, doms: Seq<int>) -> bool {
    &&& l.len() == doms.len()
    &&& forall|i: int| 0 <= i < l.len() ==> #[trigger] l[i] < doms[i]
}

/// The index of labeling `l` in a function table over domains `doms`
/// (row-major: the last variable varies fastest).
pub open spec fn labeling_index(l: Seq<usize>, doms: Seq<int>) -> int
    decreases l.len(),
{
    if l.len() == 0 {
        0
    } else {
        labeling_index(l.drop_last(), doms.drop_last()) * doms.last() + l.last()
    }
}

/// `Σ l[i] * strides[i]` over the positions of `l`.
pub open spec fn offset(l: Seq<usize>, strides: Seq<int>) -> int
    decreases l.len(),
{
    if l.len() == 0 {
        0
    } else {
        offset(l.drop_last(), strides) + l.last() * strides[l.len() - 1]
    }
}

pub(crate) proof fn lemma_suffix_product_positive(doms: Seq<int>, a: int)
    requires
        forall|i: int| 0 <= i < doms.len() ==> #[trigger] doms[i] >= 1,
    ensures
        suffix_product(doms, a) >= 1,
    decreases doms.len() - a,
{
    if 0 <= a < doms.len() {
        lemma_suffix_product_positive(doms, a + 1);
        let r = suffix_product(doms, a + 1);
        let d = doms[a];
        assert(d * r >= 1) by (nonlinear_arith)
            requires
                d >= 1,
                r >= 1,
        ;
    }
}

pub(crate) proof fn lemma_suffix_product_monotone(doms: Seq<int>, a: int, b: int)
    requires
        forall|i: int| 0 <= i < doms.len() ==> #[trigger] doms[i] >= 1,
        0 <= a <= b,
    ensures
        suffix_product(doms, b) <= suffix_product(doms, a),
    decreases b - a,
{
    if a < b {
        lemma_suffix_product_monotone(doms, a + 1, b);
        if a < doms.len() {
            lemma_suffix_product_positive(doms, a + 1);
            let r = suffix_product(doms, a + 1);
            let d = doms[a];
            assert(r <= d * r) by (nonlinear_arith)
                requires
                    d >= 1,
                    r >= 1,
            ;
        }
    }
}

pub(crate) proof fn lemma_position(alpha: Seq<usize>, v: usize)
    requires
        strictly_increasing(alpha),
        alpha.contains(v),
    ensures
        0 <= position(alpha, v) < alpha.len(),
        alpha[position(alpha, v)] == v,
        forall|j: int| 0 <= j < alpha.len() && alpha[j] == v ==> j == position(alpha, v),
{
    let p = position(alpha, v);
    assert forall|j: int| 0 <= j < alpha.len() && alpha[j] == v implies j == p by {
        if j < p {
            assert(alpha[j] < alpha[p]);
        } else if p < j {
            assert(alpha[p] < alpha[j]);
        }
    }
}

/// `table` is the indexing table from labelings of `beta` to positions in the function table of
/// `alpha`: it has `len` entries; for every labeling `l` of `beta`, the entry at the index of `l`
/// (in `beta`'s own table, last variable fastest) is `Σ l[i] * stride(beta[i])`, the index in
/// `alpha`'s table of the labeling of `alpha` that agrees with `l` and is 0 elsewhere; entries
/// past the number of labelings of `beta` are 0.
pub open spec fn indexes(
    table: Seq<usize>,
    domain_sizes: Seq<usize>,
    alpha: Seq<usize>,
    beta: Seq<usize>,
    len: nat,
) -> bool {
    &&& table.len() == len
    &&& forall|l: Seq<usize>|
        #![trigger labeling_index(l, domains_of(domain_sizes, beta))]
        is_labeling(l, domains_of(domain_sizes, beta)) ==> table[labeling_index(
            l,
            domains_of(domain_sizes, beta),
        )] == offset(l, strides_of(domain_sizes, alpha, beta))
    &&& forall|t: int| labeling_count(domains_of(domain_sizes, beta)) <= t < len ==> #[trigger] table[t] == 0
}

/// The labeling equal to `l` up to position `i` and maximal (each domain size minus one) after it.
pub open spec fn max_after(l: Seq<usize>, doms: Seq<int>, i: int) -> Seq<usize> {
    Seq::new(l.len(), |j: int| if j <= i { l[j] } else { (doms[j] - 1) as usize })
}

pub(crate) proof fn lemma_index_bound(l: Seq<usize>, doms: Seq<int>)
    requires
        is_labeling(l, doms),
    ensures
        0 <= labeling_index(l, doms) < labeling_count(doms),
    decreases l.len(),
{
    if l.len() > 0 {
        let lp = l.drop_last();
        let dp = doms.drop_last();
        lemma_index_bound(lp, dp);
        let x = labeling_index(lp, dp);
        let p = labeling_count(dp);
        let d = doms.last();
        let a = l.last() as int;
        assert(a < d);
        assert(0 <= x * d + a < p * d) by (nonlinear_arith)
            requires
                0 <= x < p,
                0 <= a < d,
        ;
    }
}

pub(crate) proof fn lemma_index_injective(l1: Seq<usize>, l2: Seq<usize>, doms: Seq<int>)
    requires
        is_labeling(l1, doms),
        is_labeling(l2, doms),
        labeling_index(l1, doms) == labeling_index(l2, doms),
    ensures
        l1 == l2,
    decreases l1.len(),
{
    if l1.len() > 0 {
        let dp = doms.drop_last();
        let d = doms.last();
        let x1 = labeling_index(l1.drop_last(), dp);
        let x2 = labeling_index(l2.drop_last(), dp);
        let a1 = l1.last() as int;
        let a2 = l2.last() as int;
        assert(a1 < d && a2 < d);
        lemma_index_bound(l1.drop_last(), dp);
        lemma_index_bound(l2.drop_last(), dp);
        assert(x1 == x2 && a1 == a2) by (nonlinear_arith)
            requires
                x1 * d + a1 == x2 * d + a2,
                0 <= a1 < d,
                0 <= a2 < d,
                x1 >= 0,
                x2 >= 0,
        ;
        lemma_index_injective(l1.drop_last(), l2.drop_last(), dp);
        assert(l1 =~= l2.drop_last().push(l2.last()));
        assert(l2 =~= l2.drop_last().push(l2.last()));
    } else {
        assert(l1 =~= l2);
    }
}

pub(crate) proof fn lemma_index_successor(l: Seq<usize>, doms: Seq<int>, i: int)
    requires
        is_labeling(l, doms),
        forall|j: int| 0 <= j < doms.len() ==> #[trigger] doms[j] <= usize::MAX,
        0 <= i < l.len(),
        l[i] + 1 < doms[i],
        forall|j: int| i < j < l.len() ==> #[trigger] l[j] == 0,
    ensures
        labeling_index(l.update(i, (l[i] + 1) as usize), doms) == labeling_index(
            max_after(l, doms, i),
            doms,
        ) + 1,
    decreases l.len(),
{
    let n = l.len() as int;
    let next = l.update(i, (l[i] + 1) as usize);
    let m = max_after(l, doms, i);
    let dp = doms.drop_last();
    let d = doms.last();
    if i == n - 1 {
        assert(next.drop_last() =~= l.drop_last());
        assert(m =~= l);
    } else {
        let lp = l.drop_last();
        lemma_index_successor(lp, dp, i);
        assert(next.drop_last() =~= lp.update(i, (lp[i] + 1) as usize));
        assert(m.drop_last() =~= max_after(lp, dp, i));
        let x = labeling_index(m.drop_last(), dp);
        assert(next.last() == 0);
        assert(d >= 1);
        assert(m.last() == (d - 1) as usize);
        assert(m.last() as int == d - 1);
        assert(labeling_index(next, doms) == labeling_index(next.drop_last(), dp) * d + next.last());
        assert(labeling_index(m, doms) == x * d + m.last());
        assert((x + 1) * d == x * d + (d - 1) + 1) by (nonlinear_arith);
    }
}

pub(crate) proof fn lemma_index_max(l: Seq<usize>, doms: Seq<int>)
    requires
        l.len() == doms.len(),
        forall|j: int| 0 <= j < l.len() ==> #[trigger] l[j] == doms[j] - 1,
        forall|j: int| 0 <= j < doms.len() ==> #[trigger] doms[j] >= 1,
    ensures
        labeling_index(l, doms) == labeling_count(doms) - 1,
    decreases l.len(),
{
    if l.len() > 0 {
        let dp = doms.drop_last();
        lemma_index_max(l.drop_last(), dp);
        let p = labeling_count(dp);
        let d = doms.last();
        assert((p - 1) * d + (d - 1) == p * d - 1) by (nonlinear_arith);
    }
}

pub(crate) proof fn lemma_offset_update(l: Seq<usize>, strides: Seq<int>, i: int, x: usize)
    requires
        0 <= i < l.len(),
        l.len() <= strides.len(),
    ensures
        offset(l.update(i, x), strides) == offset(l, strides) + (x - l[i]) * strides[i],
    decreases l.len(),
{
    let u = l.update(i, x);
    let n = l.len() as int;
    if i == n - 1 {
        assert(u.drop_last() =~= l.drop_last());
        assert(x * strides[i] == l[i] * strides[i] + (x - l[i]) * strides[i]) by (nonlinear_arith);
    } else {
        lemma_offset_update(l.drop_last(), strides, i, x);
        assert(u.drop_last() =~= l.drop_last().update(i, x));
    }
}

pub(crate) proof fn lemma_offset_term(l: Seq<usize>, strides: Seq<int>, i: int)
    requires
        0 <= i < l.len(),
        l.len() <= strides.len(),
        forall|j: int| 0 <= j < strides.len() ==> #[trigger] strides[j] >= 0,
    ensures
        offset(l, strides) >= l[i] * strides[i],
    decreases l.len(),
{
    let n = l.len() as int;
    lemma_offset_nonneg(l.drop_last(), strides);
    let a = l.last() as int;
    let s = strides[n - 1];
    assert(a * s >= 0) by (nonlinear_arith)
        requires
            a >= 0,
            s >= 0,
    ;
    if i < n - 1 {
        lemma_offset_term(l.drop_last(), strides, i);
    }
}

pub(crate) proof fn lemma_offset_nonneg(l: Seq<usize>, strides: Seq<int>)
    requires
        l.len() <= strides.len(),
        forall|j: int| 0 <= j < strides.len() ==> #[trigger] strides[j] >= 0,
    ensures
        offset(l, strides) >= 0,
    decreases l.len(),
{
    if l.len() > 0 {
        lemma_offset_nonneg(l.drop_last(), strides);
        let a = l.last() as int;
        let s = strides[l.len() - 1];
        assert(a * s >= 0) by (nonlinear_arith)
            requires
                a >= 0,
                s >= 0,
        ;
    }
}

/// The offset of any labeling of `beta` in the table of `alpha` is a valid index of that table.
pub(crate) proof fn lemma_offset_bound(
    domain_sizes: Seq<usize>,
    alpha: Seq<usize>,
    beta: Seq<usize>,
    l: Seq<usize>,
    k: int,
)
    requires
        is_sub_scope(alpha, beta),
        forall|i: int| 0 <= i < alpha.len() ==> #[trigger] domain_sizes[alpha[i] as int] >= 1,
        is_labeling(l, domains_of(domain_sizes, beta)),
        1 <= k <= l.len(),
    ensures
        offset(l.take(k), strides_of(domain_sizes, alpha, beta)) <= suffix_product(
            domains_of(domain_sizes, alpha),
            0,
        ) - suffix_product(
            domains_of(domain_sizes, alpha),
            position(alpha, beta[k - 1]) + 1,
        ),
    decreases k,
{
    let doms = domains_of(domain_sizes, alpha);
    let st = strides_of(domain_sizes, alpha, beta);
    assert forall|i: int| 0 <= i < doms.len() implies #[trigger] doms[i] >= 1 by {
        assert(doms[i] == domain_sizes[alpha[i] as int]);
    }
    let v = beta[k - 1];
    lemma_position(alpha, v);
    let p = position(alpha, v);
    let dk = doms[p];
    let a = l[k - 1] as int;
    assert(dk == domain_sizes[v as int]);
    assert(a <= dk - 1);
    let r = suffix_product(doms, p + 1);
    lemma_suffix_product_positive(doms, p + 1);
    assert(suffix_product(doms, p) == dk * r);
    assert(a * r <= dk * r - r) by (nonlinear_arith)
        requires
            0 <= a <= dk - 1,
            r >= 1,
    ;
    assert(l.take(k).drop_last() =~= l.take(k - 1));
    assert(st[k - 1] == r);
    assert(l.take(k).last() == l[k - 1]);
    assert(offset(l.take(k), st) == offset(l.take(k - 1), st) + a * r);
    if k == 1 {
        lemma_suffix_product_monotone(doms, 0, p);
        assert(l.take(0) =~= Seq::<usize>::empty());
    } else {
        lemma_offset_bound(domain_sizes, alpha, beta, l, k - 1);
        let u = beta[k - 2];
        lemma_position(alpha, u);
        let q = position(alpha, u);
        assert(u < v);
        if p <= q {
            if p < q {
                assert(alpha[p] < alpha[q]);
            }
        }
        lemma_suffix_product_monotone(doms, q + 1, p);
    }
}

/// Every variable of a sub-scope lies in the network and has a nonzero domain size.
pub(crate) proof fn lemma_sub_scope_domains<T>(cfn: &CostFunctionNetwork<T>, alpha: Seq<usize>, beta: Seq<usize>)
    requires
        is_sub_scope(alpha, beta),
        forall|i: int| 0 <= i < alpha.len() ==> #[trigger] alpha[i] < cfn.spec_num_variables(),
        forall|i: int| 0 <= i < alpha.len() ==> #[trigger] cfn.domain_sizes()[alpha[i] as int] >= 1,
    ensures
        forall|i: int| 0 <= i < beta.len() ==> #[trigger] beta[i] < cfn.spec_num_variables(),
        forall|i: int|
            0 <= i < beta.len() ==> #[trigger] domains_of(cfn.domain_sizes(), beta)[i] >= 1
                && domains_of(cfn.domain_sizes(), beta)[i] <= usize::MAX,
{
    assert forall|i: int| 0 <= i < beta.len() implies #[trigger] beta[i] < cfn.spec_num_variables() by {
        assert(alpha.contains(beta[i]));
        let j = choose|j: int| 0 <= j < alpha.len() && alpha[j] == beta[i];
        assert(alpha[j] < cfn.spec_num_variables());
    }
    assert forall|i: int|
        0 <= i < beta.len() implies #[trigger] domains_of(cfn.domain_sizes(), beta)[i] >= 1
            && domains_of(cfn.domain_sizes(), beta)[i] <= usize::MAX by {
        assert(alpha.contains(beta[i]));
        let j = choose|j: int| 0 <= j < alpha.len() && alpha[j] == beta[i];
        assert(cfn.domain_sizes()[alpha[j] as int] >= 1);
    }
}

pub(crate) proof fn lemma_product_positive(doms: Seq<int>)
    requires
        forall|j: int| 0 <= j < doms.len() ==> #[trigger] doms[j] >= 1,
    ensures
        labeling_count(doms) >= 1,
    decreases doms.len(),
{
    if doms.len() > 0 {
        lemma_product_positive(doms.drop_last());
        let p = labeling_count(doms.drop_last());
        let d = doms.last();
        assert(p * d >= 1) by (nonlinear_arith)
            requires
                p >= 1,
                d >= 1,
        ;
    }
}

/// The product of all domains equals the suffix product from the start, and every prefix
/// product times the corresponding suffix product is the whole product.
pub(crate) proof fn lemma_prefix_suffix_product(doms: Seq<int>, a: int)
    requires
        0 <= a <= doms.len(),
    ensures
        labeling_count(doms.take(a)) * suffix_product(doms, a) == labeling_count(doms),
    decreases doms.len() - a,
{
    if a == doms.len() {
        assert(doms.take(a) =~= doms);
    } else {
        lemma_prefix_suffix_product(doms, a + 1);
        assert(doms.take(a + 1).drop_last() =~= doms.take(a));
        let p = labeling_count(doms.take(a));
        let d = doms[a];
        let r = suffix_product(doms, a + 1);
        assert(p * (d * r) == (p * d) * r) by (nonlinear_arith);
    }
}

/// With all domains nonempty, every prefix product is at most the whole product.
pub(crate) proof fn lemma_prefix_product_bound(doms: Seq<int>, a: int)
    requires
        0 <= a <= doms.len(),
        forall|j: int| 0 <= j < doms.len() ==> #[trigger] doms[j] >= 1,
    ensures
        1 <= labeling_count(doms.take(a)) <= labeling_count(doms),
{
    lemma_prefix_suffix_product(doms, a);
    lemma_suffix_product_positive(doms, a);
    let t = doms.take(a);
    assert forall|j: int| 0 <= j < t.len() implies #[trigger] t[j] >= 1 by {}
    lemma_product_positive(t);
    let p = labeling_count(t);
    let r = suffix_product(doms, a);
    assert(p <= p * r) by (nonlinear_arith)
        requires
            p >= 1,
            r >= 1,
    ;
}

/// A sub-scope has at most as many labelings as the scope that contains it.
pub(crate) proof fn lemma_sub_scope_count_bound<T>(cfn: &CostFunctionNetwork<T>, alpha: Seq<usize>, beta: Seq<usize>)
    requires
        is_sub_scope(alpha, beta),
        forall|i: int| 0 <= i < alpha.len() ==> #[trigger] cfn.domain_sizes()[alpha[i] as int] >= 1,
    ensures
        labeling_count(domains_of(cfn.domain_sizes(), beta)) <= labeling_count(domains_of(cfn.domain_sizes(), alpha)),
    decreases alpha.len(),
{
    let ds = cfn.domain_sizes();
    let ad = domains_of(ds, alpha);
    let bd = domains_of(ds, beta);
    if alpha.len() == 0 {
        if beta.len() > 0 {
            assert(alpha.contains(beta[0]));
        }
        assert(bd =~= Seq::<int>::empty());
    } else {
        let a2 = alpha.drop_last();
        assert(domains_of(ds, a2) =~= ad.drop_last());
        let d = ds[alpha.last() as int] as int;
        assert(d >= 1) by {
            assert(ds[alpha[alpha.len() - 1] as int] >= 1);
        }
        assert forall|j: int| 0 <= j < domains_of(ds, a2).len() implies #[trigger] domains_of(ds, a2)[j] >= 1 by {
            assert(ds[alpha[j] as int] >= 1);
        }
        lemma_product_positive(domains_of(ds, a2));
        let pa = labeling_count(domains_of(ds, a2));
        if beta.len() > 0 && beta.last() == alpha.last() {
            let b2 = beta.drop_last();
            assert forall|i: int| 0 <= i < b2.len() implies a2.contains(#[trigger] b2[i]) by {
                assert(alpha.contains(beta[i]));
                let k = choose|k: int| 0 <= k < alpha.len() && alpha[k] == beta[i];
                assert(beta[i] < beta[beta.len() - 1]);
                if k == alpha.len() - 1 {
                    assert(false);
                }
                assert(a2[k] == b2[i]);
            }
            lemma_sub_scope_count_bound(cfn, a2, b2);
            assert(domains_of(ds, b2) =~= bd.drop_last());
            let pb = labeling_count(domains_of(ds, b2));
            assert(pb * d <= pa * d) by (nonlinear_arith)
                requires
                    pb <= pa,
                    d >= 1,
            ;
        } else {
            assert forall|i: int| 0 <= i < beta.len() implies a2.contains(#[trigger] beta[i]) by {
                assert(alpha.contains(beta[i]));
                let k = choose|k: int| 0 <= k < alpha.len() && alpha[k] == beta[i];
                if k == alpha.len() - 1 {
                    if i < beta.len() - 1 {
                        assert(beta[i] < beta[beta.len() - 1]);
                        assert(alpha.contains(beta[beta.len() - 1]));
                        let k2 = choose|k2: int| 0 <= k2 < alpha.len() && alpha[k2] == beta[beta.len() - 1];
                        if k2 < k {
                            assert(alpha[k2] < alpha[k]);
                        }
                    }
                    assert(false);
                }
                assert(a2[k] == beta[i]);
            }
            lemma_sub_scope_count_bound(cfn, a2, beta);
            assert(pa <= pa * d) by (nonlinear_arith)
                requires
                    pa >= 1,
                    d >= 1,
            ;
        }
    }
}

pub(crate) proof fn lemma_zero_labeling(l: Seq<usize>, doms: Seq<int>)
    requires
        l.len() == doms.len(),
        forall|j: int| 0 <= j < l.len() ==> #[trigger] l[j] == 0,
        forall|j: int| 0 <= j < doms.len() ==> #[trigger] doms[j] >= 1,
    ensures
        is_labeling(l, doms),
        labeling_index(l, doms) == 0,
    decreases l.len(),
{
    if l.len() > 0 {
        lemma_zero_labeling(l.drop_last(), doms.drop_last());
    }
}

pub(crate) proof fn lemma_offset_zero(l: Seq<usize>, strides: Seq<int>)
    requires
        forall|j: int| 0 <= j < l.len() ==> #[trigger] l[j] == 0,
    ensures
        offset(l, strides) == 0,
    decreases l.len(),
{
    if l.len() > 0 {
        lemma_offset_zero(l.drop_last(), strides);
    }
}

/// Fills a table of `table_len` entries in which the entry at the index of each labeling `l` of
/// `beta` (last variable fastest) is `base + Σ l[i] * st[i]`, and every other entry is 0, by
/// walking the labelings of `beta` in order and updating the running offset.
pub(crate) fn fill_offsets<T>(
    cfn: &CostFunctionNetwork<T>,
    beta_variables: &Vec<usize>,
    strides: &Vec<usize>,
    Ghost(st): Ghost<Seq<int>>,
    base: usize,
    table_len: usize,
) -> (table: Vec<usize>)
    requires
        0 < beta_variables@.len() < usize::MAX,
        forall|i: int| 0 <= i < beta_variables@.len() ==> #[trigger] beta_variables@[i] < cfn.spec_num_variables(),
        forall|i: int|
            0 <= i < beta_variables@.len() ==> #[trigger] cfn.domain_sizes()[beta_variables@[i] as int] >= 1,
        strides@.len() >= beta_variables@.len(),
        st.len() >= beta_variables@.len(),
        forall|i: int| 0 <= i < beta_variables@.len() ==> #[trigger] strides@[i] == st[i],
        forall|j: int| 0 <= j < st.len() ==> #[trigger] st[j] >= 0,
        forall|l: Seq<usize>|
            is_labeling(l, domains_of(cfn.domain_sizes(), beta_variables@)) ==> base + #[trigger] offset(l, st)
                <= usize::MAX,
        table_len >= labeling_count(domains_of(cfn.domain_sizes(), beta_variables@)),
    ensures
        table@.len() == table_len,
        forall|l: Seq<usize>|
            #![trigger labeling_index(l, domains_of(cfn.domain_sizes(), beta_variables@))]
            is_labeling(l, domains_of(cfn.domain_sizes(), beta_variables@)) ==> table@[labeling_index(
                l,
                domains_of(cfn.domain_sizes(), beta_variables@),
            )] == base + offset(l, st),
        forall|t: int|
            labeling_count(domains_of(cfn.domain_sizes(), beta_variables@)) <= t < table_len ==> #[trigger] table@[t]
                == 0,
{
    let ghost beta = beta_variables@;
    let ghost db = domains_of(cfn.domain_sizes(), beta);
    let ghost total = labeling_count(db);
    let n = beta_variables.len();
    let mut beta_labeling: Vec<usize> = vec![0; n];
    let mut indexing_table: Vec<usize> = vec![0; table_len];
    proof {
        assert forall|i: int| 0 <= i < db.len() implies #[trigger] db[i] >= 1 by {
            assert(db[i] == cfn.domain_sizes()[beta[i] as int]);
        }
        let z = Seq::new(n as nat, |j: int| 0usize);
        assert(beta_labeling@ =~= z);
        lemma_zero_labeling(z, db);
        lemma_index_bound(z, db);
    }
    indexing_table.set(0, base);
    let beta_var_idx_start = n - 1;
    let mut beta_var_idx = beta_var_idx_start;
    let mut table_idx: usize = 0;
    let mut k: usize = base;
    proof {
        assert forall|l: Seq<usize>| is_labeling(l, db) && labeling_index(l, db) <= table_idx implies indexing_table@[labeling_index(l, db)] == base + offset(l, st) by {
            lemma_index_bound(l, db);
            let z = Seq::new(n as nat, |j: int| 0usize);
            lemma_zero_labeling(z, db);
            lemma_index_injective(l, z, db);
            lemma_offset_zero(z, st);
        }
        assert(max_after(beta_labeling@, db, beta_var_idx as int) =~= beta_labeling@);
        lemma_zero_labeling(beta_labeling@, db);
        lemma_offset_zero(beta_labeling@, st);
    }
    loop
        invariant_except_break
            is_labeling(beta_labeling@, db),
            0 <= beta_var_idx < n,
            forall|j: int| beta_var_idx < j < n ==> #[trigger] beta_labeling@[j] == 0,
            table_idx == labeling_index(max_after(beta_labeling@, db, beta_var_idx as int), db),
            k == base + offset(beta_labeling@, st),
            forall|l: Seq<usize>|
                #![trigger labeling_index(l, db)]
                is_labeling(l, db) && labeling_index(l, db) <= table_idx ==> indexing_table@[labeling_index(
                    l,
                    db,
                )] == base + offset(l, st),
            forall|t: int| table_idx < t < table_len ==> #[trigger] indexing_table@[t] == 0,
        invariant
            beta == beta_variables@,
            db == domains_of(cfn.domain_sizes(), beta),
            total == labeling_count(db),
            forall|i: int| 0 <= i < beta.len() ==> #[trigger] beta[i] < cfn.spec_num_variables(),
            forall|i: int| 0 <= i < beta.len() ==> #[trigger] db[i] >= 1 && db[i] <= usize::MAX,
            forall|j: int| 0 <= j < st.len() ==> #[trigger] st[j] >= 0,
            forall|l: Seq<usize>| is_labeling(l, db) ==> base + #[trigger] offset(l, st) <= usize::MAX,
            n == beta.len(),
            n > 0,
            st.len() >= n,
            beta_var_idx_start == n - 1,
            strides@.len() >= n,
            forall|i: int| 0 <= i < n ==> #[trigger] strides@[i] == st[i],
            table_len >= total,
            indexing_table@.len() == table_len,
        ensures
            forall|l: Seq<usize>|
                #![trigger labeling_index(l, db)]
                is_labeling(l, db) ==> indexing_table@[labeling_index(l, db)] == base + offset(l, st),
            forall|t: int| total <= t < table_len ==> #[trigger] indexing_table@[t] == 0,
        decreases total - table_idx, beta_var_idx,
    {
        let ghost l = beta_labeling@;
        let ghost bvi = beta_var_idx as int;
        let domain_size = cfn.domain_size(beta_variables[beta_var_idx]);
        assert(domain_size == db[bvi]);
        proof {
            lemma_index_bound(max_after(l, db, bvi), db);
        }
        if beta_labeling[beta_var_idx] < domain_size - 1 {
            // "Advance" to next label
            let next_label = beta_labeling[beta_var_idx] + 1;
            let ghost next = l.update(bvi, next_label);
            proof {
                lemma_index_successor(l, db, bvi);
                lemma_index_bound(next, db);
                lemma_offset_update(l, st, bvi, next_label);
                assert(base + offset(next, st) <= usize::MAX);
                let b = st[bvi];
                let diff = next_label - l[bvi];
                assert(diff == 1);
                assert(diff * b == b) by (nonlinear_arith)
                    requires
                        diff == 1,
                ;
                assert(base + offset(next, st) == k + st[bvi]);
            }
            let ghost old_table = indexing_table@;
            beta_labeling.set(beta_var_idx, next_label);
            k = k + strides[beta_var_idx];
            table_idx = table_idx + 1;
            indexing_table.set(table_idx, k);
            beta_var_idx = beta_var_idx_start;
            proof {
                assert(max_after(beta_labeling@, db, beta_var_idx as int) =~= beta_labeling@);
                assert forall|lab: Seq<usize>|
                    is_labeling(lab, db) && labeling_index(lab, db) <= table_idx implies indexing_table@[labeling_index(
                        lab,
                        db,
                    )] == base + offset(lab, st) by {
                    if labeling_index(lab, db) == table_idx {
                        lemma_index_injective(lab, next, db);
                    } else {
                        lemma_index_bound(lab, db);
                        assert(indexing_table@[labeling_index(lab, db)] == old_table[labeling_index(lab, db)]);
                    }
                }
            }
        } else {
            // "Carry over" to initial label
            proof {
                lemma_offset_term(l, st, bvi);
                lemma_offset_update(l, st, bvi, 0);
                assert(l[bvi] * st[bvi] == beta_labeling@[bvi] * strides@[bvi]);
                let a = l[bvi] as int;
                let b = st[bvi];
                assert((0 - a) * b == -(a * b)) by (nonlinear_arith);
            }
            k = k - beta_labeling[beta_var_idx] * strides[beta_var_idx];
            beta_labeling.set(beta_var_idx, 0);
            if beta_var_idx == 0 {
                proof {
                    let m = max_after(l, db, 0);
                    assert forall|j: int| 0 <= j < m.len() implies #[trigger] m[j] == db[j] - 1 by {
                        if j == 0 {
                            assert(l[0] == db[0] - 1);
                        }
                    }
                    lemma_index_max(m, db);
                    assert forall|lab: Seq<usize>| is_labeling(lab, db) implies indexing_table@[labeling_index(
                        lab,
                        db,
                    )] == base + offset(lab, st) by {
                        lemma_index_bound(lab, db);
                    }
                    assert(table_idx == total - 1);
                }
                break;
            }
            proof {
                assert(max_after(beta_labeling@, db, bvi - 1) =~= max_after(l, db, bvi));
            }
            beta_var_idx = beta_var_idx - 1;
        }
    }
    indexing_table
}

} // verus!
