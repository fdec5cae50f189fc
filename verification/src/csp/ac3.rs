use vstd::prelude::*;

use std::collections::VecDeque;

use crate::csp::binary_csp::{entry_covers, BinaryCSP};

verus! {

broadcast use vstd::seq_lib::group_filter_ensures;

/// Supporting data structures and implementation of the AC-3 algorithm:
/// the labels of each variable that are still possible, and the queue of pairs of
/// variables `(var_x, var_y)` whose arc is still to be revised.
pub struct AC3 {
    active_domains: Vec<Vec<usize>>,
    queue: VecDeque<(usize, usize)>,
}

/// The labels below `bound` of `var` that satisfy its unary constraint, in increasing order.
pub open spec fn unary_prefix(csp: BinaryCSP, var: int, bound: nat) -> Seq<usize> {
    Seq::new(bound, |l: int| l as usize).filter(|l: usize| csp.unary(var, l as int))
}

/// The labels of `var` that satisfy its unary constraint, in increasing order.
pub open spec fn unary_domain(csp: BinaryCSP, var: int) -> Seq<usize> {
    unary_prefix(csp, var, csp.spec_domain_size())
}

/// The first `k` labels of `domain_x` that have support in `domain_y`, in their order.
pub open spec fn supported_prefix(
    csp: BinaryCSP,
    var_x: int,
    var_y: int,
    domain_x: Seq<usize>,
    domain_y: Seq<usize>,
    k: int,
) -> Seq<usize> {
    domain_x.take(k).filter(|l: usize| has_support(csp, var_x, var_y, l, domain_y))
}

/// The labels of `domain_x` that have support in `domain_y`, in their order.
pub open spec fn revised_domain(
    csp: BinaryCSP,
    var_x: int,
    var_y: int,
    domain_x: Seq<usize>,
    domain_y: Seq<usize>,
) -> Seq<usize> {
    supported_prefix(csp, var_x, var_y, domain_x, domain_y, domain_x.len() as int)
}

proof fn lemma_unary_prefix_step(csp: BinaryCSP, var: int, k: nat)
    requires
        k < usize::MAX,
    ensures
        unary_prefix(csp, var, k + 1) == if csp.unary(var, k as int) {
            unary_prefix(csp, var, k).push(k as usize)
        } else {
            unary_prefix(csp, var, k)
        },
{
    reveal(Seq::filter);
    let s = Seq::new(k + 1, |l: int| l as usize);
    assert(s.drop_last() =~= Seq::new(k, |l: int| l as usize));
    assert(s.last() == k as usize);
}

proof fn lemma_supported_prefix_step(
    csp: BinaryCSP,
    var_x: int,
    var_y: int,
    domain_x: Seq<usize>,
    domain_y: Seq<usize>,
    k: int,
)
    requires
        0 <= k < domain_x.len(),
    ensures
        supported_prefix(csp, var_x, var_y, domain_x, domain_y, k + 1) == if has_support(
            csp,
            var_x,
            var_y,
            domain_x[k],
            domain_y,
        ) {
            supported_prefix(csp, var_x, var_y, domain_x, domain_y, k).push(domain_x[k])
        } else {
            supported_prefix(csp, var_x, var_y, domain_x, domain_y, k)
        },
{
    reveal(Seq::filter);
    assert(domain_x.take(k + 1).drop_last() =~= domain_x.take(k));
}

/// Some label in `domain_y` is consistent with `label_x` under the constraint between
/// `var_x` and `var_y`.
pub open spec fn has_support(
    csp: BinaryCSP,
    var_x: int,
    var_y: int,
    label_x: usize,
    domain_y: Seq<usize>,
) -> bool {
    exists|k: int| 0 <= k < domain_y.len() && csp.binary(var_x, var_y, label_x as int, #[trigger] domain_y[k] as int)
}

/// The pairs `(x, y)` with `y < bound`, `y != x` and a stored constraint between them, in
/// increasing `y`.
pub open spec fn row_pairs(csp: BinaryCSP, x: int, bound: int) -> Seq<(usize, usize)>
    decreases bound,
{
    if bound <= 0 {
        Seq::empty()
    } else {
        row_pairs(csp, x, bound - 1) + if bound - 1 != x && csp.constraint(x, bound - 1).is_some() {
            seq![(x as usize, (bound - 1) as usize)]
        } else {
            Seq::empty()
        }
    }
}

/// The pairs `(x, y)` of distinct variables with `x < rows` and a stored constraint between
/// them, in lexicographic order.
pub open spec fn constrained_pairs(csp: BinaryCSP, rows: int) -> Seq<(usize, usize)>
    decreases rows,
{
    if rows <= 0 {
        Seq::empty()
    } else {
        constrained_pairs(csp, rows - 1) + row_pairs(csp, rows - 1, csp.spec_num_variables() as int)
    }
}

/// A pair of distinct variables of `csp`.
pub open spec fn valid_pair(csp: BinaryCSP, pair: (usize, usize)) -> bool {
    pair.0 != pair.1 && pair.0 < csp.spec_num_variables() && pair.1 < csp.spec_num_variables()
}

/// Total number of labels over all domains.
pub open spec fn total_len(domains: Seq<Seq<usize>>) -> nat
    decreases domains.len(),
{
    if domains.len() == 0 {
        0
    } else {
        total_len(domains.drop_last()) + domains.last().len()
    }
}

proof fn lemma_total_len_update(domains: Seq<Seq<usize>>, i: int, d: Seq<usize>)
    requires
        0 <= i < domains.len(),
    ensures
        total_len(domains.update(i, d)) + domains[i].len() == total_len(domains) + d.len(),
    decreases domains.len(),
{
    let u = domains.update(i, d);
    if i < domains.len() - 1 {
        lemma_total_len_update(domains.drop_last(), i, d);
        assert(u.drop_last() =~= domains.drop_last().update(i, d));
    } else {
        assert(u.drop_last() =~= domains.drop_last());
    }
}

proof fn lemma_row_pairs(csp: BinaryCSP, x: int, bound: int)
    requires
        0 <= x < csp.spec_num_variables(),
        bound <= csp.spec_num_variables(),
        csp.spec_num_variables() <= usize::MAX,
    ensures
        forall|i: int|
            0 <= i < row_pairs(csp, x, bound).len() ==> valid_pair(csp, #[trigger] row_pairs(csp, x, bound)[i])
                && row_pairs(csp, x, bound)[i].0 == x,
        forall|y: usize|
            y < bound && y != x && csp.constraint(x, y as int).is_some() ==> #[trigger] row_pairs(csp, x, bound).contains(
                (x as usize, y),
            ),
    decreases bound,
{
    if bound > 0 {
        lemma_row_pairs(csp, x, bound - 1);
        let prev = row_pairs(csp, x, bound - 1);
        let cur = row_pairs(csp, x, bound);
        assert forall|i: int| 0 <= i < cur.len() implies valid_pair(csp, #[trigger] cur[i]) && cur[i].0 == x by {
            if i >= prev.len() {
                assert(cur[i] == (x as usize, (bound - 1) as usize));
            } else {
                assert(cur[i] == prev[i]);
            }
        }
        assert forall|y: usize|
            y < bound && y != x && csp.constraint(x, y as int).is_some() implies #[trigger] cur.contains(
                (x as usize, y),
            ) by {
            if y < bound - 1 {
                assert(prev.contains((x as usize, y)));
                let k = choose|k: int| 0 <= k < prev.len() && prev[k] == (x as usize, y);
                assert(cur[k] == prev[k]);
            } else {
                assert(cur[prev.len() as int] == (x as usize, y));
            }
        }
    }
}

proof fn lemma_constrained_pairs(csp: BinaryCSP, rows: int)
    requires
        0 <= rows <= csp.spec_num_variables(),
        csp.spec_num_variables() <= usize::MAX,
    ensures
        forall|i: int|
            0 <= i < constrained_pairs(csp, rows).len() ==> valid_pair(
                csp,
                #[trigger] constrained_pairs(csp, rows)[i],
            ),
        forall|x: usize, y: usize|
            x < rows && y < csp.spec_num_variables() && x != y && csp.constraint(x as int, y as int).is_some()
                ==> #[trigger] constrained_pairs(csp, rows).contains((x, y)),
    decreases rows,
{
    if rows > 0 {
        let n = csp.spec_num_variables() as int;
        lemma_constrained_pairs(csp, rows - 1);
        lemma_row_pairs(csp, rows - 1, n);
        let prev = constrained_pairs(csp, rows - 1);
        let row = row_pairs(csp, rows - 1, n);
        let cur = constrained_pairs(csp, rows);
        assert forall|i: int| 0 <= i < cur.len() implies valid_pair(csp, #[trigger] cur[i]) by {
            if i >= prev.len() {
                assert(cur[i] == row[i - prev.len()]);
            }
        }
        assert forall|x: usize, y: usize|
            x < rows && y < n && x != y && csp.constraint(x as int, y as int).is_some() implies #[trigger] cur.contains(
                (x, y),
            ) by {
            if x < rows - 1 {
                assert(prev.contains((x, y)));
                let k = choose|k: int| 0 <= k < prev.len() && prev[k] == (x, y);
                assert(cur[k] == prev[k]);
            } else {
                assert(row.contains((x, y)));
                let k = choose|k: int| 0 <= k < row.len() && row[k] == (x, y);
                assert(cur[prev.len() + k] == row[k]);
            }
        }
    }
}

/// Every element of a filtered sequence is an element of the original.
proof fn lemma_filter_subset(s: Seq<usize>, pred: spec_fn(usize) -> bool)
    ensures
        forall|i: int| 0 <= i < s.filter(pred).len() ==> s.contains(#[trigger] s.filter(pred)[i]),
    decreases s.len(),
{
    reveal(Seq::filter);
    if s.len() > 0 {
        lemma_filter_subset(s.drop_last(), pred);
        let f = s.filter(pred);
        let g = s.drop_last().filter(pred);
        assert forall|i: int| 0 <= i < f.len() implies s.contains(#[trigger] f[i]) by {
            if i < g.len() {
                assert(f[i] == g[i]);
                assert(s.drop_last().contains(g[i]));
                let k = choose|k: int| 0 <= k < s.drop_last().len() && s.drop_last()[k] == g[i];
                assert(s[k] == g[i]);
            } else {
                assert(f[i] == s.last());
                assert(s[s.len() - 1] == s.last());
            }
        }
    }
}

/// Every domain keeps a label.
pub open spec fn no_empty_domain(domains: Seq<Seq<usize>>) -> bool {
    forall|v: int| 0 <= v < domains.len() ==> #[trigger] domains[v].len() > 0
}

/// The arcs queued again after the domain of `var_x` shrank while revising it against `var_y`:
/// `(z, var_x)` for each variable `z < bound` other than both with a stored constraint between
/// `z` and `var_x`, in increasing `z`.
pub open spec fn requeued(csp: BinaryCSP, var_x: usize, var_y: usize, bound: int) -> Seq<(usize, usize)>
    decreases bound,
{
    if bound <= 0 {
        Seq::empty()
    } else {
        requeued(csp, var_x, var_y, bound - 1) + if bound - 1 != var_x && bound - 1 != var_y
            && csp.constraint(bound - 1, var_x as int).is_some() {
            seq![((bound - 1) as usize, var_x)]
        } else {
            Seq::empty()
        }
    }
}

/// The state (domains, queue) where AC-3 starts on `csp`: the unary-consistent labels of each
/// variable, and `pending` followed by every ordered pair of distinct constrained variables.
pub open spec fn ac3_start(csp: BinaryCSP, pending: Seq<(usize, usize)>) -> (Seq<Seq<usize>>, Seq<(usize, usize)>) {
    (
        Seq::new(csp.spec_num_variables(), |v: int| unary_domain(csp, v)),
        pending + constrained_pairs(csp, csp.spec_num_variables() as int),
    )
}

/// One step of AC-3 from `state` (domains, queue): the arc `(x, y)` at the front of the queue
/// leaves it, and the domain of `x` keeps the labels with support in that of `y`; when that
/// removes labels and leaves some, the arcs into `x` are queued again (see `requeued`). A
/// state with an empty queue or an empty domain is final and stays as it is.
pub open spec fn ac3_step(csp: BinaryCSP, state: (Seq<Seq<usize>>, Seq<(usize, usize)>)) -> (
    Seq<Seq<usize>>,
    Seq<(usize, usize)>,
) {
    let (domains, pending) = state;
    if pending.len() == 0 || !no_empty_domain(domains) {
        state
    } else {
        let (x, y) = pending[0];
        let revised = revised_domain(csp, x as int, y as int, domains[x as int], domains[y as int]);
        let rest = pending.drop_first();
        if 0 < revised.len() < domains[x as int].len() {
            (domains.update(x as int, revised), rest + requeued(csp, x, y, csp.spec_num_variables() as int))
        } else {
            (domains.update(x as int, revised), rest)
        }
    }
}

/// The state of AC-3 on `csp` after `k` steps from `state`.
pub open spec fn ac3_run(csp: BinaryCSP, state: (Seq<Seq<usize>>, Seq<(usize, usize)>), k: nat) -> (
    Seq<Seq<usize>>,
    Seq<(usize, usize)>,
)
    decreases k,
{
    if k == 0 {
        state
    } else {
        ac3_step(csp, ac3_run(csp, state, (k - 1) as nat))
    }
}

impl AC3 {
    /// The still-possible labels of each variable.
    pub closed spec fn domains(&self) -> Seq<Seq<usize>> {
        self.active_domains@.map_values(|d: Vec<usize>| d@)
    }

    /// The pairs of variables still to be revised, front first.
    pub closed spec fn pending(&self) -> Seq<(usize, usize)> {
        self.queue@
    }

    /// Every queued pair consists of two distinct variables of `csp`.
    pub open spec fn pending_valid(&self, csp: BinaryCSP) -> bool {
        forall|i: int| 0 <= i < self.pending().len() ==> valid_pair(csp, #[trigger] self.pending()[i])
    }

    /// Every still-possible label is a label of its variable that satisfies the unary constraint.
    pub open spec fn labels_valid(&self, csp: BinaryCSP) -> bool {
        forall|x: int, i: int|
            0 <= x < self.domains().len() && 0 <= i < self.domains()[x].len() ==> {
                let l = #[trigger] self.domains()[x][i];
                l < csp.spec_domain_size() && csp.unary(x, l as int)
            }
    }

    /// No solution of `csp` has been ruled out.
    pub open spec fn keeps_solutions(&self, csp: BinaryCSP) -> bool {
        forall|assignment: Seq<usize>, x: int|
            csp.is_solution(assignment) && 0 <= x < self.domains().len() ==> #[trigger] self.domains()[x].contains(
                #[trigger] assignment[x],
            )
    }

    /// `family` gives each variable of `csp` labels that satisfy its unary constraint, and every
    /// arc between constrained variables holds within it: each label of a variable has a
    /// consistent label of the other variable in the family.
    pub open spec fn is_arc_consistent_family(csp: BinaryCSP, family: Seq<Seq<usize>>) -> bool {
        &&& family.len() == csp.spec_num_variables()
        &&& forall|x: int, i: int|
            0 <= x < family.len() && 0 <= i < family[x].len() ==> #[trigger] family[x][i] < csp.spec_domain_size()
                && csp.unary(x, family[x][i] as int)
        &&& forall|x: usize, y: usize|
            x < family.len() && y < family.len() && x != y && #[trigger] csp.constraint(x as int, y as int).is_some()
                ==> Self::domain_supported(csp, x as int, y as int, family[x as int], family[y as int])
    }

    /// Every label of every arc-consistent family of `csp` is still possible.
    pub open spec fn keeps_families(&self, csp: BinaryCSP) -> bool {
        forall|family: Seq<Seq<usize>>, x: int, i: int|
            Self::is_arc_consistent_family(csp, family) && 0 <= x < self.domains().len() && 0 <= i < family[x].len()
                ==> #[trigger] self.domains()[x].contains(#[trigger] family[x][i])
    }

    /// Every label of `domain_x` has a consistent label of `var_y` in `domain_y`.
    pub open spec fn domain_supported(
        csp: BinaryCSP,
        var_x: int,
        var_y: int,
        domain_x: Seq<usize>,
        domain_y: Seq<usize>,
    ) -> bool {
        forall|i: int|
            0 <= i < domain_x.len() ==> has_support(csp, var_x, var_y, #[trigger] domain_x[i], domain_y)
    }

    /// The arc from `x` to `y` holds in the current domains: every label still possible for `x`
    /// has a consistent label still possible for `y`.
    pub open spec fn arc_holds(&self, csp: BinaryCSP, x: int, y: int) -> bool {
        Self::domain_supported(csp, x, y, self.domains()[x], self.domains()[y])
    }

    /// Every ordered pair `(x, y)` of distinct constrained variables is either still queued or
    /// its arc holds.
    pub open spec fn arcs_checked(&self, csp: BinaryCSP) -> bool {
        forall|x: usize, y: usize|
            x < csp.spec_num_variables() && y < csp.spec_num_variables() && x != y
                && #[trigger] csp.constraint(x as int, y as int).is_some()
                ==> self.pending().contains((x, y)) || self.arc_holds(csp, x as int, y as int)
    }

    /// Creates an empty AC-3 state.
    pub fn new() -> (ac3: Self)
        ensures
            ac3.domains() == Seq::<Seq<usize>>::empty(),
            ac3.pending() == Seq::<(usize, usize)>::empty(),
    {
        let ac3 = AC3 { active_domains: Vec::new(), queue: VecDeque::new() };
        assert(ac3.domains() =~= Seq::<Seq<usize>>::empty());
        ac3
    }

    /// Sets the active domains to the unary-consistent labels of each variable and queues every
    /// ordered pair `(x, y)` of distinct variables with a stored constraint. Stops at the first variable without
    /// any unary-consistent label and returns it.
    fn init(&mut self, csp: &BinaryCSP) -> (wipe_out: Option<usize>)
        requires
            csp.wf(),
        ensures
            match wipe_out {
                Some(var) => {
                    &&& var < csp.spec_num_variables()
                    &&& unary_domain(*csp, var as int).len() == 0
                    &&& forall|v: int| 0 <= v < var ==> #[trigger] unary_domain(*csp, v).len() > 0
                    &&& final(self).domains() == Seq::new(var as nat, |v: int| unary_domain(*csp, v))
                    &&& final(self).pending() == old(self).pending()
                },
                None => {
                    &&& forall|v: int|
                        0 <= v < csp.spec_num_variables() ==> #[trigger] unary_domain(*csp, v).len() > 0
                    &&& final(self).domains() == Seq::new(
                        csp.spec_num_variables(),
                        |v: int| unary_domain(*csp, v),
                    )
                    &&& final(self).pending() == old(self).pending() + constrained_pairs(
                        *csp,
                        csp.spec_num_variables() as int,
                    )
                },
            },
    {
        proof {
            csp.lemma_num_variables_bound();
        }
        let num_variables = csp.num_variables();
        self.active_domains = Vec::with_capacity(num_variables);
        let mut var: usize = 0;
        while var < num_variables
            invariant
                csp.wf(),
                0 <= var <= num_variables,
                num_variables == csp.spec_num_variables(),
                self.pending() == old(self).pending(),
                self.domains() == Seq::new(var as nat, |v: int| unary_domain(*csp, v)),
                forall|v: int| 0 <= v < var ==> #[trigger] unary_domain(*csp, v).len() > 0,
            decreases num_variables - var,
        {
            let mut active_domain: Vec<usize> = Vec::new();
            let domain_size = csp.domain_size(var);
            let mut label: usize = 0;
            while label < domain_size
                invariant
                    csp.wf(),
                    var < csp.spec_num_variables(),
                    0 <= label <= domain_size,
                    domain_size == csp.spec_domain_size(),
                    active_domain@ == unary_prefix(*csp, var as int, label as nat),
                decreases domain_size - label,
            {
                proof {
                    lemma_unary_prefix_step(*csp, var as int, label as nat);
                }
                if *csp.is_unary_satisfied(var, label) {
                    active_domain.push(label);
                }
                label = label + 1;
            }
            if active_domain.len() == 0 {
                return Some(var);
            }
            let ghost before = self.domains();
            assert(active_domain@ == unary_domain(*csp, var as int));
            let ghost added = active_domain@;
            self.active_domains.push(active_domain);
            assert(self.domains() =~= before.push(added));
            assert(self.domains() =~= Seq::new((var + 1) as nat, |v: int| unary_domain(*csp, v)));
            var = var + 1;
        }
        let ghost base = old(self).pending();
        let mut var_x: usize = 0;
        while var_x < num_variables
            invariant
                csp.wf(),
                0 <= var_x <= num_variables,
                num_variables == csp.spec_num_variables(),
                num_variables <= usize::MAX,
                self.pending() == base + constrained_pairs(*csp, var_x as int),
                self.domains() == Seq::new(num_variables as nat, |v: int| unary_domain(*csp, v)),
            decreases num_variables - var_x,
        {
            let ghost row_base = self.pending();
            let mut var_y: usize = 0;
            while var_y < num_variables
                invariant
                    csp.wf(),
                    var_x < num_variables,
                    num_variables == csp.spec_num_variables(),
                    0 <= var_y <= num_variables,
                    self.pending() == row_base + row_pairs(*csp, var_x as int, var_y as int),
                    self.domains() == Seq::new(num_variables as nat, |v: int| unary_domain(*csp, v)),
                decreases num_variables - var_y,
            {
                if var_y != var_x && csp.exists_binary_constraint(var_x, var_y) {
                    self.queue.push_back((var_x, var_y));
                }
                assert(self.pending() =~= row_base + row_pairs(*csp, var_x as int, var_y + 1));
                var_y = var_y + 1;
            }
            assert(self.pending() =~= base + constrained_pairs(*csp, var_x + 1));
            var_x = var_x + 1;
        }
        None
    }

    /// Removes from the domain of `var_x` every label that has no consistent label in the
    /// domain of `var_y`; returns whether a label was removed.
    fn revise(&mut self, csp: &BinaryCSP, var_x: usize, var_y: usize) -> (revised: bool)
        requires
            csp.wf(),
            csp.tables_cover_domains(),
            var_x != var_y,
            var_x < csp.spec_num_variables(),
            var_y < csp.spec_num_variables(),
            var_x < old(self).domains().len(),
            var_y < old(self).domains().len(),
            old(self).labels_valid(*csp),
        ensures
            final(self).domains() == old(self).domains().update(
                var_x as int,
                revised_domain(
                    *csp,
                    var_x as int,
                    var_y as int,
                    old(self).domains()[var_x as int],
                    old(self).domains()[var_y as int],
                ),
            ),
            final(self).pending() == old(self).pending(),
            revised <==> final(self).domains()[var_x as int].len() < old(self).domains()[var_x as int].len(),
            !revised ==> final(self).domains() == old(self).domains(),
    {
        let ghost dx = self.domains()[var_x as int];
        let ghost dy = self.domains()[var_y as int];
        let ghost x = var_x as int;
        let ghost y = var_y as int;
        let mut revised = false;
        let mut upd_domain_x: Vec<usize> = Vec::new();
        let domain_x = &self.active_domains[var_x];
        let domain_y = &self.active_domains[var_y];
        assert(domain_x@ == dx);
        assert(domain_y@ == dy);
        let mut i: usize = 0;
        while i < domain_x.len()
            invariant
                csp.wf(),
                csp.tables_cover_domains(),
                var_x != var_y,
                x == var_x,
                y == var_y,
                var_x < csp.spec_num_variables(),
                var_y < csp.spec_num_variables(),
                domain_x@ == dx,
                domain_y@ == dy,
                forall|k: int| 0 <= k < dx.len() ==> #[trigger] dx[k] < csp.spec_domain_size(),
                forall|k: int| 0 <= k < dy.len() ==> #[trigger] dy[k] < csp.spec_domain_size(),
                0 <= i <= dx.len(),
                upd_domain_x@ == supported_prefix(*csp, x, y, dx, dy, i as int),
                upd_domain_x@.len() <= i,
                revised <==> upd_domain_x@.len() < i,
                !revised ==> upd_domain_x@ == dx.take(i as int),
            decreases dx.len() - i,
        {
            let label_x = domain_x[i];
            proof {
                lemma_supported_prefix_step(*csp, x, y, dx, dy, i as int);
            }
            let mut found_satisfying_assignment = false;
            let mut j: usize = 0;
            while j < domain_y.len()
                invariant_except_break
                    !found_satisfying_assignment,
                    upd_domain_x@ == supported_prefix(*csp, x, y, dx, dy, i as int),
                    forall|k: int| 0 <= k < j ==> !csp.binary(x, y, label_x as int, #[trigger] dy[k] as int),
                invariant
                    csp.wf(),
                    csp.tables_cover_domains(),
                    var_x != var_y,
                    x == var_x,
                    y == var_y,
                    var_x < csp.spec_num_variables(),
                    var_y < csp.spec_num_variables(),
                    domain_y@ == dy,
                    label_x < csp.spec_domain_size(),
                    forall|k: int| 0 <= k < dy.len() ==> #[trigger] dy[k] < csp.spec_domain_size(),
                    0 <= j <= dy.len(),
                ensures
                    found_satisfying_assignment ==> has_support(*csp, x, y, label_x, dy)
                        && upd_domain_x@ == supported_prefix(*csp, x, y, dx, dy, i as int).push(label_x),
                    !found_satisfying_assignment ==> !has_support(*csp, x, y, label_x, dy)
                        && upd_domain_x@ == supported_prefix(*csp, x, y, dx, dy, i as int),
                decreases dy.len() - j,
            {
                let label_y = domain_y[j];
                proof {
                    assert(entry_covers(csp.constraint(x, y), csp.spec_domain_size()));
                    if let Some(t) = csp.constraint(x, y) {
                        assert(t@[label_x as int].len() >= csp.spec_domain_size());
                    }
                }
                if csp.is_binary_satisfied(var_x, var_y, label_x, label_y) {
                    found_satisfying_assignment = true;
                    upd_domain_x.push(label_x);
                    break;
                }
                j = j + 1;
            }
            if !found_satisfying_assignment {
                revised = true;
            }
            proof {
                assert(dx.take(i + 1) =~= dx.take(i as int).push(label_x));
            }
            i = i + 1;
        }
        self.active_domains.set(var_x, upd_domain_x);
        proof {
            assert(dx.take(dx.len() as int) =~= dx);
        }
        assert(self.domains() =~= old(self).domains().update(x, revised_domain(*csp, x, y, dx, dy)));
        assert(!revised ==> self.domains() =~= old(self).domains());
        revised
    }

    /// Runs the AC-3 algorithm on `csp`. Returns `Some(var)` when the domain of `var` is wiped
    /// out (then `csp` has no solution): the first variable without a unary-consistent label,
    /// if any, else the variable whose domain a revision empties; no arc-consistent family of
    /// labels then has a label for it. Returns `None` when every domain keeps a label and every
    /// arc between constrained variables holds; the domains left then hold every label of every
    /// arc-consistent family, so they are the largest such family. Either way the result is that
    /// of the run of `ac3_step` from `ac3_start`: a wiped-out variable is the one whose
    /// revision, at the front of the queue, first empties a domain.
    pub fn run_algorithm(&mut self, csp: &BinaryCSP) -> (wipe_out: Option<usize>)
        requires
            csp.wf(),
            csp.tables_cover_domains(),
            old(self).pending_valid(*csp),
        ensures
            match wipe_out {
                Some(var) => {
                    &&& var < csp.spec_num_variables()
                    &&& !csp.is_satisfiable()
                    &&& forall|family: Seq<Seq<usize>>|
                        Self::is_arc_consistent_family(*csp, family) ==> #[trigger] family[var as int].len() == 0
                    &&& (exists|v: int| 0 <= v < csp.spec_num_variables() && #[trigger] unary_domain(*csp, v).len() == 0)
                        ==> unary_domain(*csp, var as int).len() == 0
                        && forall|v: int| 0 <= v < var ==> #[trigger] unary_domain(*csp, v).len() > 0
                    &&& (forall|v: int| 0 <= v < csp.spec_num_variables() ==> #[trigger] unary_domain(*csp, v).len() > 0)
                        ==> final(self).domains().len() == csp.spec_num_variables()
                        && final(self).domains()[var as int].len() == 0
                        && (forall|v: int|
                            0 <= v < csp.spec_num_variables() && v != var ==> #[trigger] final(self).domains()[v].len() > 0)
                        && exists|k: nat| {
                            let current = #[trigger] ac3_run(*csp, ac3_start(*csp, old(self).pending()), k);
                            &&& no_empty_domain(current.0)
                            &&& current.1.len() > 0
                            &&& current.1[0].0 == var
                            &&& ac3_run(*csp, ac3_start(*csp, old(self).pending()), k + 1) == (final(self).domains(), final(self).pending())
                        }
                },
                None => {
                    &&& final(self).domains().len() == csp.spec_num_variables()
                    &&& forall|x: int| 0 <= x < final(self).domains().len() ==> #[trigger] final(self).domains()[x].len() > 0
                    &&& final(self).labels_valid(*csp)
                    &&& final(self).keeps_solutions(*csp)
                    &&& final(self).keeps_families(*csp)
                    &&& final(self).pending().len() == 0
                    &&& exists|k: nat| #[trigger] ac3_run(*csp, ac3_start(*csp, old(self).pending()), k) == (
                        final(self).domains(),
                        final(self).pending(),
                    )
                    &&& forall|x: usize, y: usize|
                        x < csp.spec_num_variables() && y < csp.spec_num_variables() && x != y
                            && #[trigger] csp.constraint(x as int, y as int).is_some()
                            ==> final(self).arc_holds(*csp, x as int, y as int)
                },
            },
    {
        proof {
            csp.lemma_num_variables_bound();
        }
        let n = csp.num_variables();
        let ghost dom = csp.spec_domain_size();
        if let Some(var) = self.init(csp) {
            proof {
                assert forall|a: Seq<usize>| !csp.is_solution(a) by {
                    if csp.is_solution(a) {
                        let l = a[var as int];
                        let all = Seq::new(dom, |k: int| k as usize);
                        assert(all[l as int] == l);
                        assert(unary_prefix(*csp, var as int, dom).contains(l));
                    }
                }
                assert forall|family: Seq<Seq<usize>>|
                    Self::is_arc_consistent_family(*csp, family) implies #[trigger] family[var as int].len() == 0 by {
                    if family[var as int].len() > 0 {
                        let l = family[var as int][0];
                        let all = Seq::new(dom, |k: int| k as usize);
                        assert(all[l as int] == l);
                        assert(unary_prefix(*csp, var as int, dom).contains(l));
                    }
                }
            }
            return Some(var);
        }
        proof {
            lemma_constrained_pairs(*csp, n as int);
            let d = self.domains();
            assert forall|x: int, i: int| 0 <= x < d.len() && 0 <= i < d[x].len() implies {
                let l = #[trigger] d[x][i];
                l < dom && csp.unary(x, l as int)
            } by {
                let all = Seq::new(dom, |k: int| k as usize);
                lemma_filter_subset(all, |l: usize| csp.unary(x, l as int));
                assert(all.contains(d[x][i]));
            }
            assert forall|a: Seq<usize>, x: int|
                csp.is_solution(a) && 0 <= x < d.len() implies #[trigger] d[x].contains(#[trigger] a[x]) by {
                let all = Seq::new(dom, |k: int| k as usize);
                assert(all[a[x] as int] == a[x]);
            }
            assert forall|family: Seq<Seq<usize>>, x: int, i: int|
                Self::is_arc_consistent_family(*csp, family) && 0 <= x < d.len() && 0 <= i < family[x].len()
                    implies #[trigger] d[x].contains(#[trigger] family[x][i]) by {
                let all = Seq::new(dom, |k: int| k as usize);
                assert(all[family[x][i] as int] == family[x][i]);
            }
            assert forall|i: int| 0 <= i < self.pending().len() implies valid_pair(*csp, #[trigger] self.pending()[i]) by {
                let old_len = old(self).pending().len();
                if i >= old_len {
                    assert(self.pending()[i] == constrained_pairs(*csp, n as int)[i - old_len]);
                } else {
                    assert(self.pending()[i] == old(self).pending()[i]);
                }
            }
            assert forall|x: usize, y: usize|
                x < n && y < n && x != y && #[trigger] csp.constraint(x as int, y as int).is_some() implies self.pending().contains((x, y)) by {
                let cp = constrained_pairs(*csp, n as int);
                assert(cp.contains((x, y)));
                let k = choose|k: int| 0 <= k < cp.len() && cp[k] == (x, y);
                assert(self.pending()[old(self).pending().len() + k] == (x, y));
            }
        }
        let ghost start = (self.domains(), self.pending());
        let ghost mut steps: nat = 0;
        proof {
            assert(start == ac3_start(*csp, old(self).pending()));
        }
        loop
            invariant
                csp.wf(),
                csp.tables_cover_domains(),
                start == ac3_start(*csp, old(self).pending()),
                ac3_run(*csp, start, steps) == (self.domains(), self.pending()),
                n == csp.spec_num_variables(),
                n <= usize::MAX,
                dom == csp.spec_domain_size(),
                forall|v: int| 0 <= v < n ==> #[trigger] unary_domain(*csp, v).len() > 0,
                self.domains().len() == n,
                forall|x: int| 0 <= x < n ==> #[trigger] self.domains()[x].len() > 0,
                self.labels_valid(*csp),
                self.pending_valid(*csp),
                self.keeps_solutions(*csp),
                self.keeps_families(*csp),
                self.arcs_checked(*csp),
            ensures
                self.domains().len() == n,
                forall|x: int| 0 <= x < n ==> #[trigger] self.domains()[x].len() > 0,
                self.labels_valid(*csp),
                self.keeps_solutions(*csp),
                self.keeps_families(*csp),
                self.arcs_checked(*csp),
                self.pending().len() == 0,
                ac3_run(*csp, start, steps) == (self.domains(), self.pending()),
            decreases total_len(self.domains()), self.pending().len(),
        {
            let ghost before = *self;
            let front = self.queue.pop_front();
            let (var_x, var_y) = match front {
                Some(pair) => pair,
                None => break,
            };
            let ghost popped = self.pending();
            proof {
                assert(valid_pair(*csp, before.pending()[0]));
                assert forall|i: int| 0 <= i < popped.len() implies valid_pair(*csp, #[trigger] popped[i]) by {
                    assert(popped[i] == before.pending()[i + 1]);
                }
            }
            let ghost dx = self.domains()[var_x as int];
            let ghost dy = self.domains()[var_y as int];
            let revised = self.revise(csp, var_x, var_y);
            let ghost dx_new = self.domains()[var_x as int];
            proof {
                let x = var_x as int;
                let y = var_y as int;
                let pred = |l: usize| has_support(*csp, x, y, l, dy);
                assert(dx.take(dx.len() as int) =~= dx);
                assert(dx_new == dx.filter(pred));
                lemma_filter_subset(dx, pred);
                lemma_total_len_update(before.domains(), x, dx_new);
                assert(self.domains()[y] == dy);
                // labels stay valid
                assert forall|v: int, i: int|
                    0 <= v < self.domains().len() && 0 <= i < self.domains()[v].len() implies {
                    let l = #[trigger] self.domains()[v][i];
                    l < dom && csp.unary(v, l as int)
                } by {
                    if v == x {
                        assert(dx.contains(dx_new[i]));
                        let k = choose|k: int| 0 <= k < dx.len() && dx[k] == dx_new[i];
                        assert(before.domains()[x][k] == dx[k]);
                    }
                }
                // no solution is lost
                assert forall|a: Seq<usize>, v: int|
                    csp.is_solution(a) && 0 <= v < self.domains().len() implies #[trigger] self.domains()[v].contains(
                    #[trigger] a[v],
                ) by {
                    if v == x {
                        assert(before.domains()[x].contains(a[x]));
                        assert(before.domains()[y].contains(a[y]));
                        let kx = choose|k: int| 0 <= k < dx.len() && dx[k] == a[x];
                        let ky = choose|k: int| 0 <= k < dy.len() && dy[k] == a[y];
                        assert(csp.binary(x, y, a[x] as int, a[y] as int));
                        assert(csp.binary(x, y, dx[kx] as int, dy[ky] as int));
                        assert(pred(dx[kx]));
                    }
                }
                // no label of an arc-consistent family is lost
                assert forall|family: Seq<Seq<usize>>, v: int, i: int|
                    Self::is_arc_consistent_family(*csp, family) && 0 <= v < self.domains().len() && 0 <= i < family[v].len()
                        implies #[trigger] self.domains()[v].contains(#[trigger] family[v][i]) by {
                    if v == x {
                        let l = family[x][i];
                        assert(before.domains()[x].contains(l));
                        let kx = choose|k: int| 0 <= k < dx.len() && dx[k] == l;
                        if csp.constraint(x, y).is_some() {
                            assert(Self::domain_supported(*csp, x, y, family[x], family[y]));
                            assert(has_support(*csp, x, y, family[x][i], family[y]));
                            let k = choose|k: int| 0 <= k < family[y].len() && csp.binary(x, y, l as int, #[trigger] family[y][k] as int);
                            let ly = family[y][k];
                            assert(before.domains()[y].contains(ly));
                            let ky = choose|k: int| 0 <= k < dy.len() && dy[k] == ly;
                            assert(csp.binary(x, y, l as int, dy[ky] as int));
                        } else {
                            assert(dy.len() > 0);
                            assert(csp.binary(x, y, l as int, dy[0] as int));
                        }
                        assert(pred(dx[kx]));
                    }
                }
                // every arc is queued or holds, but for the arcs into `var_x` after a revision
                assert forall|p: usize, q: usize|
                    p < n && q < n && p != q && #[trigger] csp.constraint(p as int, q as int).is_some()
                        && !(revised && q == var_x && p != var_y)
                        implies self.pending().contains((p, q)) || self.arc_holds(*csp, p as int, q as int) by {
                    if (p, q) == (var_x, var_y) {
                        assert forall|i: int| 0 <= i < dx_new.len() implies has_support(
                            *csp,
                            x,
                            y,
                            #[trigger] dx_new[i],
                            dy,
                        ) by {
                            assert(pred(dx_new[i]));
                        }
                    } else if before.pending().contains((p, q)) {
                        let k = choose|k: int| 0 <= k < before.pending().len() && before.pending()[k] == (p, q);
                        if k > 0 {
                            assert(popped[k - 1] == (p, q));
                        }
                    } else if !revised {
                        assert(self.domains() == before.domains());
                    } else if p == var_x {
                        let dq = self.domains()[q as int];
                        assert(dq == before.domains()[q as int]);
                        assert forall|i: int| 0 <= i < dx_new.len() implies has_support(
                            *csp,
                            p as int,
                            q as int,
                            #[trigger] dx_new[i],
                            dq,
                        ) by {
                            assert(dx.contains(dx_new[i]));
                            let k = choose|k: int| 0 <= k < dx.len() && dx[k] == dx_new[i];
                            assert(before.domains()[p as int][k] == dx[k]);
                        }
                    } else if q == var_x {
                        // the arc from `var_y` back to `var_x`: a label of `var_x` that supports a
                        // label of `var_y` is itself supported by it, so it stays
                        assert(p == var_y);
                        assert forall|i: int| 0 <= i < dy.len() implies has_support(
                            *csp,
                            y,
                            x,
                            #[trigger] dy[i],
                            dx_new,
                        ) by {
                            let ly = dy[i];
                            assert(before.domains()[y][i] == ly);
                            assert(has_support(*csp, y, x, ly, dx));
                            let k = choose|k: int| 0 <= k < dx.len() && csp.binary(y, x, ly as int, #[trigger] dx[k] as int);
                            let lx = dx[k];
                            csp.lemma_binary_symmetric(y, x, ly as int, lx as int);
                            assert(csp.binary(x, y, lx as int, dy[i] as int));
                            assert(pred(lx));
                            assert(dx_new.contains(lx));
                            let m = choose|m: int| 0 <= m < dx_new.len() && dx_new[m] == lx;
                            assert(csp.binary(y, x, ly as int, dx_new[m] as int));
                        }
                    } else {
                        assert(self.domains()[p as int] == before.domains()[p as int]);
                        assert(self.domains()[q as int] == before.domains()[q as int]);
                    }
                }
            }
            let ghost prev = (before.domains(), before.pending());
            proof {
                assert(popped =~= before.pending().drop_first());
                assert(no_empty_domain(prev.0));
                assert(dx.take(dx.len() as int) =~= dx);
                let next = ac3_step(*csp, prev);
                assert(next.0 == self.domains());
                assert(0 < dx_new.len() < dx.len() ==> next.1 == popped + requeued(*csp, var_x, var_y, n as int));
                assert(!(0 < dx_new.len() < dx.len()) ==> next.1 == popped);
                assert(ac3_run(*csp, start, steps + 1) == next);
                steps = steps + 1;
            }
            if !revised {
                continue;
            }
            if self.active_domains[var_x].len() == 0 {
                proof {
                    assert forall|a: Seq<usize>| !csp.is_solution(a) by {
                        if csp.is_solution(a) {
                            assert(self.domains()[var_x as int].contains(a[var_x as int]));
                        }
                    }
                    assert forall|family: Seq<Seq<usize>>|
                        Self::is_arc_consistent_family(*csp, family) implies #[trigger] family[var_x as int].len() == 0 by {
                        if family[var_x as int].len() > 0 {
                            assert(self.domains()[var_x as int].contains(family[var_x as int][0]));
                        }
                    }
                    assert forall|v: int| 0 <= v < n && v != var_x implies #[trigger] self.domains()[v].len() > 0 by {
                        assert(self.domains()[v] == before.domains()[v]);
                    }
                    let k = (steps - 1) as nat;
                    assert(ac3_run(*csp, start, k) == prev);
                    assert(ac3_run(*csp, start, k + 1) == (self.domains(), self.pending()));
                }
                return Some(var_x);
            }
            let ghost after_revise = *self;
            let mut var_z: usize = 0;
            while var_z < n
                invariant
                    csp.wf(),
                    n == csp.spec_num_variables(),
                    var_x < n,
                    var_y < n,
                    var_x != var_y,
                    0 <= var_z <= n,
                    self.domains() == after_revise.domains(),
                    after_revise.pending().is_prefix_of(self.pending()),
                    self.pending().len() <= after_revise.pending().len() + var_z,
                    self.pending_valid(*csp),
                    self.pending() == popped + requeued(*csp, var_x, var_y, var_z as int),
                    after_revise.pending() == popped,
                    forall|z: usize|
                        z < var_z && z != var_x && z != var_y && #[trigger] csp.constraint(z as int, var_x as int).is_some()
                            ==> self.pending().contains((z, var_x)),
                decreases n - var_z,
            {
                if var_z != var_x && var_z != var_y && csp.exists_binary_constraint(var_z, var_x) {
                    let ghost prev = self.pending();
                    self.queue.push_back((var_z, var_x));
                    proof {
                        assert(self.pending()[prev.len() as int] == (var_z, var_x));
                        assert forall|z: usize|
                            z < var_z && z != var_x && z != var_y && #[trigger] csp.constraint(z as int, var_x as int).is_some()
                                implies self.pending().contains((z, var_x)) by {
                            let k = choose|k: int| 0 <= k < prev.len() && prev[k] == (z, var_x);
                            assert(self.pending()[k] == (z, var_x));
                        }
                    }
                }
                proof {
                    assert(self.pending() =~= popped + requeued(*csp, var_x, var_y, var_z + 1));
                }
                var_z = var_z + 1;
            }
            proof {
                assert forall|p: usize, q: usize|
                    p < n && q < n && p != q && #[trigger] csp.constraint(p as int, q as int).is_some()
                        implies self.pending().contains((p, q)) || self.arc_holds(*csp, p as int, q as int) by {
                    if after_revise.pending().contains((p, q)) {
                        let k = choose|k: int| 0 <= k < after_revise.pending().len() && after_revise.pending()[k] == (p, q);
                        assert(self.pending()[k] == (p, q));
                    } else if !(q == var_x && p != var_y) {
                        assert(after_revise.arc_holds(*csp, p as int, q as int));
                    }
                }
            }
        }
        None
    }
}

} // verus!
