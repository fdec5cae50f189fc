use vstd::prelude::*;

verus! {

/// The edge of a cycle of `num_vars` variables that ends at `var`: from its predecessor to it.
pub open spec fn spec_edge_prev(var: int, num_vars: int) -> Seq<usize> {
    seq![((num_vars + var - 1) % num_vars) as usize, var as usize]
}

/// The edge of a cycle of `num_vars` variables that starts at `var`: from it to its successor.
pub open spec fn spec_edge_next(var: int, num_vars: int) -> Seq<usize> {
    seq![var as usize, ((var + 1) % num_vars) as usize]
}

/// The edge of a cycle of `num_vars` variables that ends at `var`, from its predecessor.
pub fn edge_prev(var: usize, num_vars: usize) -> (edge: Vec<usize>)
    requires
        num_vars > 0,
        num_vars + var <= usize::MAX,
    ensures
        edge@ == spec_edge_prev(var as int, num_vars as int),
{
    vec![(num_vars + var - 1) % num_vars, var]
}

/// The edge of a cycle of `num_vars` variables that starts at `var`, to its successor.
pub fn edge_next(var: usize, num_vars: usize) -> (edge: Vec<usize>)
    requires
        num_vars > 0,
        var + 1 <= usize::MAX,
    ensures
        edge@ == spec_edge_next(var as int, num_vars as int),
{
    vec![var, (var + 1) % num_vars]
}

/// On a cycle, the edge that ends at a variable is the edge that starts at its predecessor.
pub proof fn lemma_edge_prev_is_next_of_predecessor(var: int, num_vars: int)
    requires
        0 <= var < num_vars,
    ensures
        spec_edge_prev(var, num_vars) == spec_edge_next((num_vars + var - 1) % num_vars, num_vars),
{
    if var == 0 {
        assert((num_vars + var - 1) % num_vars == num_vars - 1) by (nonlinear_arith)
            requires
                var == 0,
                num_vars > 0,
        ;
        assert((num_vars - 1 + 1) % num_vars == 0) by (nonlinear_arith)
            requires
                num_vars > 0,
        ;
    } else {
        assert((num_vars + var - 1) % num_vars == var - 1) by (nonlinear_arith)
            requires
                0 < var < num_vars,
        ;
        assert((var - 1 + 1) % num_vars == var) by (nonlinear_arith)
            requires
                0 < var < num_vars,
        ;
    }
}

/// The cost that the frustrated cycle gives labels `label_0` and `label_1` on an edge: 1 where
/// they differ, except on the edge that closes the cycle (back to its first variable), where
/// 1 is given where they are equal.
pub open spec fn spec_frustrated_cost(closes_cycle: bool, label_0: usize, label_1: usize) -> i32 {
    if (label_0 != label_1) != closes_cycle {
        1
    } else {
        0
    }
}

/// The pairwise cost of the frustrated cycle depends on whether the two labels are equal,
/// not on their order: swapping the labels keeps it, it is 0 or 1, and it is 1 exactly when
/// "the labels differ" and "the edge closes the cycle" disagree. So on an edge that does not
/// close the cycle, equal labels cost 0 and different labels cost 1; on the closing edge it is
/// the other way round.
pub proof fn lemma_frustrated_cost(closes_cycle: bool, label_0: usize, label_1: usize)
    ensures
        spec_frustrated_cost(closes_cycle, label_0, label_1) == spec_frustrated_cost(closes_cycle, label_1, label_0),
        spec_frustrated_cost(closes_cycle, label_0, label_1) == 0 || spec_frustrated_cost(closes_cycle, label_0, label_1) == 1,
        spec_frustrated_cost(closes_cycle, label_0, label_1) == 1 <==> ((label_0 != label_1) != closes_cycle),
        !closes_cycle ==> spec_frustrated_cost(closes_cycle, label_0, label_0) == 0,
        closes_cycle ==> spec_frustrated_cost(closes_cycle, label_0, label_0) == 1,
        label_0 != label_1 ==> spec_frustrated_cost(closes_cycle, label_0, label_1) + spec_frustrated_cost(
            closes_cycle,
            label_0,
            label_0,
        ) == 1,
{
}

/// The pairwise cost of the frustrated cycle on an edge ending at `target`, with first variable
/// `first`: `(label_0 != label_1) ^ (target == first)` as an integer.
pub fn frustrated_cost(target: usize, first: usize, label_0: usize, label_1: usize) -> (cost: i32)
    ensures
        cost == spec_frustrated_cost(target == first, label_0, label_1),
{
    if (label_0 != label_1) ^ (target == first) {
        1
    } else {
        0
    }
}

/// The edges of the cycle over the variables `0..num_vars`, each from a variable to its
/// successor, in order of their first variable.
pub fn cycle_edges(num_vars: usize) -> (edges: Vec<Vec<usize>>)
    requires
        num_vars > 0,
        num_vars < usize::MAX,
    ensures
        edges@.len() == num_vars,
        forall|v: int| 0 <= v < num_vars ==> (#[trigger] edges@[v])@ == spec_edge_next(v, num_vars as int),
{
    let mut edges: Vec<Vec<usize>> = Vec::new();
    for var in 0..num_vars
        invariant
            num_vars > 0,
            num_vars < usize::MAX,
            edges@.len() == var,
            forall|v: int| 0 <= v < var ==> (#[trigger] edges@[v])@ == spec_edge_next(v, num_vars as int),
    {
        edges.push(edge_next(var, num_vars));
    }
    edges
}

} // verus!
