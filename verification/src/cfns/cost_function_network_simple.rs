use vstd::prelude::*;

verus! {

/// Assignment of a label to a variable: `(variable index, label index)`.
pub type AssignOne = (usize, usize);

/// Assignment of labels to two variables.
pub type AssignTwo = [(usize, usize); 2];

/// Whether `a` assigns label `l` to variable `v`.
pub open spec fn assigns(a: AssignOne, v: int, l: int) -> bool {
    a.0 == v && a.1 == l
}

/// Number of times the assignment of label `l` to variable `v` occurs in `s`.
pub open spec fn occurrences(s: Seq<AssignOne>, v: int, l: int) -> nat
    decreases s.len(),
{
    if s.len() == 0 {
        0
    } else {
        occurrences(s.drop_last(), v, l) + if assigns(s.last(), v, l) { 1nat } else { 0nat }
    }
}

/// Whether `s` assigns label `l` to variable `v`.
pub open spec fn involves(s: Seq<AssignOne>, v: int, l: int) -> bool {
    exists|i: int| 0 <= i < s.len() && #[trigger] assigns(s[i], v, l)
}

/// The constant term of the total cost.
struct NullaryCost<T> {
    cost: T,
}

/// The cost of one label of one variable.
struct UnaryCost<T> {
    cost: T,
    parent: AssignOne,
}

/// The cost of a joint assignment of two variables.
struct BinaryCost<T> {
    cost: T,
    parent: AssignTwo,
}

/// The cost of a joint assignment of any number of variables.
struct HigherOrderCost<T> {
    cost: T,
    parent: Vec<AssignOne>,
}

/// A label of a variable, with the cost functions that involve it. Binary and higher-order
/// cost functions are shared between labels: a label holds their indices in the network.
struct Label<T> {
    parent: usize,
    cost_unary: UnaryCost<T>,
    costs_binary: Vec<usize>,
    costs_higher_order: Vec<usize>,
}

struct Variable<T> {
    labels: Vec<Label<T>>,
}

/// A cost function network in which each cost is attached to an explicit assignment: one
/// nullary cost, a unary cost per label, and binary and higher-order costs, each registered
/// at every label of its assignment.
pub struct CostFunctionNetwork<T> {
    cost_nullary: NullaryCost<T>,
    variables: Vec<Variable<T>>,
    costs_binary: Vec<BinaryCost<T>>,
    costs_higher_order: Vec<HigherOrderCost<T>>,
}

impl<T> CostFunctionNetwork<T> {
    /// The constant term of the total cost.
    pub closed spec fn nullary(&self) -> T {
        self.cost_nullary.cost
    }

    pub closed spec fn num_vars(&self) -> nat {
        self.variables@.len()
    }

    /// Number of labels of variable `v`.
    pub closed spec fn num_labels(&self, v: int) -> nat {
        self.variables@[v].labels@.len()
    }

    /// Whether `a` names a label of a variable of the network.
    pub open spec fn valid_assignment(&self, a: AssignOne) -> bool {
        a.0 < self.num_vars() && a.1 < self.num_labels(a.0 as int)
    }

    /// Unary cost of label `l` of variable `v`.
    pub closed spec fn unary(&self, v: int, l: int) -> T {
        self.variables@[v].labels@[l].cost_unary.cost
    }

    /// Indices of the binary cost functions registered at label `l` of variable `v`.
    pub closed spec fn binary_at(&self, v: int, l: int) -> Seq<usize> {
        self.variables@[v].labels@[l].costs_binary@
    }

    /// Indices of the higher-order cost functions registered at label `l` of variable `v`.
    pub closed spec fn higher_order_at(&self, v: int, l: int) -> Seq<usize> {
        self.variables@[v].labels@[l].costs_higher_order@
    }

    /// The binary cost functions, in order of addition: cost and assignment.
    pub closed spec fn binary_costs(&self) -> Seq<(T, Seq<AssignOne>)> {
        self.costs_binary@.map_values(|c: BinaryCost<T>| (c.cost, c.parent@))
    }

    /// The higher-order cost functions, in order of addition: cost and assignment.
    pub closed spec fn higher_order_costs(&self) -> Seq<(T, Seq<AssignOne>)> {
        self.costs_higher_order@.map_values(|c: HigherOrderCost<T>| (c.cost, c.parent@))
    }

    /// Every label knows its variable and its own assignment, every cost function's
    /// assignment names labels of the network, and every cost function registered at a
    /// label exists and involves that label.
    pub closed spec fn wf(&self) -> bool {
        &&& forall|v: int, l: int|
            0 <= v < self.variables@.len() && 0 <= l < self.variables@[v].labels@.len() ==> {
                let label = #[trigger] self.variables@[v].labels@[l];
                &&& label.parent == v
                &&& assigns(label.cost_unary.parent, v, l)
                &&& forall|k: int|
                    0 <= k < label.costs_binary@.len() ==> {
                        let e = #[trigger] label.costs_binary@[k];
                        &&& e < self.costs_binary@.len()
                        &&& involves(self.costs_binary@[e as int].parent@, v, l)
                    }
                &&& forall|k: int|
                    0 <= k < label.costs_higher_order@.len() ==> {
                        let e = #[trigger] label.costs_higher_order@[k];
                        &&& e < self.costs_higher_order@.len()
                        &&& involves(self.costs_higher_order@[e as int].parent@, v, l)
                    }
            }
        &&& forall|e: int, i: int|
            0 <= e < self.costs_binary@.len() && 0 <= i < 2 ==> self.valid_assignment(
                #[trigger] self.costs_binary@[e].parent@[i],
            )
        &&& forall|e: int, i: int|
            0 <= e < self.costs_higher_order@.len() && 0 <= i
                < self.costs_higher_order@[e].parent@.len() ==> self.valid_assignment(
                #[trigger] self.costs_higher_order@[e].parent@[i],
            )
    }
}

/// An assignment that occurs in a sequence is involved in it.
proof fn lemma_occurrences_involves(s: Seq<AssignOne>, v: int, l: int)
    requires
        occurrences(s, v, l) > 0,
    ensures
        involves(s, v, l),
    decreases s.len(),
{
    if assigns(s.last(), v, l) {
        assert(assigns(s[s.len() - 1], v, l));
    } else {
        lemma_occurrences_involves(s.drop_last(), v, l);
        let i = choose|i: int| 0 <= i < s.drop_last().len() && #[trigger] assigns(s.drop_last()[i], v, l);
        assert(assigns(s[i], v, l));
    }
}

/// After a cost function is added and registered at the labels of its assignment, the
/// network is well formed again.
proof fn lemma_registered<T>(
    before: CostFunctionNetwork<T>,
    after: CostFunctionNetwork<T>,
    assignment: Seq<AssignOne>,
    cost_idx: usize,
    higher_order: bool,
)
    requires
        before.wf(),
        after.variables@.len() == before.variables@.len(),
        forall|v: int| 0 <= v < before.variables@.len() ==> #[trigger] after.variables@[v].labels@.len() == before.variables@[v].labels@.len(),
        higher_order ==> after.costs_binary == before.costs_binary,
        higher_order ==> cost_idx == before.costs_higher_order@.len(),
        higher_order ==> after.costs_higher_order@.drop_last() == before.costs_higher_order@,
        higher_order ==> after.costs_higher_order@.len() == before.costs_higher_order@.len() + 1,
        !higher_order ==> after.costs_higher_order == before.costs_higher_order,
        !higher_order ==> cost_idx == before.costs_binary@.len(),
        !higher_order ==> after.costs_binary@.drop_last() == before.costs_binary@,
        !higher_order ==> after.costs_binary@.len() == before.costs_binary@.len() + 1,
        higher_order ==> after.costs_higher_order@.last().parent@ == assignment,
        !higher_order ==> after.costs_binary@.last().parent@ == assignment,
        forall|i: int| 0 <= i < assignment.len() ==> before.valid_assignment(#[trigger] assignment[i]),
        forall|v: int, l: int| 0 <= v < before.variables@.len() && 0 <= l < before.variables@[v].labels@.len() ==> {
            let b = before.variables@[v].labels@[l];
            let a = #[trigger] after.variables@[v].labels@[l];
            let added = Seq::new(occurrences(assignment, v, l), |k: int| cost_idx);
            &&& a.parent == b.parent
            &&& a.cost_unary == b.cost_unary
            &&& a.costs_binary@ == if higher_order { b.costs_binary@ } else { b.costs_binary@ + added }
            &&& a.costs_higher_order@ == if higher_order { b.costs_higher_order@ + added } else { b.costs_higher_order@ }
        },
    ensures
        after.wf(),
{
    assert forall|v: int, l: int|
        0 <= v < after.variables@.len() && 0 <= l < after.variables@[v].labels@.len() implies {
            let label = #[trigger] after.variables@[v].labels@[l];
            &&& label.parent == v
            &&& assigns(label.cost_unary.parent, v, l)
            &&& forall|k: int|
                0 <= k < label.costs_binary@.len() ==> {
                    let e = #[trigger] label.costs_binary@[k];
                    &&& e < after.costs_binary@.len()
                    &&& involves(after.costs_binary@[e as int].parent@, v, l)
                }
            &&& forall|k: int|
                0 <= k < label.costs_higher_order@.len() ==> {
                    let e = #[trigger] label.costs_higher_order@[k];
                    &&& e < after.costs_higher_order@.len()
                    &&& involves(after.costs_higher_order@[e as int].parent@, v, l)
                }
        } by {
        let b = before.variables@[v].labels@[l];
        let a = after.variables@[v].labels@[l];
        let n = occurrences(assignment, v, l);
        if n > 0 {
            lemma_occurrences_involves(assignment, v, l);
        }
        assert forall|k: int| 0 <= k < a.costs_binary@.len() implies {
            let e = #[trigger] a.costs_binary@[k];
            &&& e < after.costs_binary@.len()
            &&& involves(after.costs_binary@[e as int].parent@, v, l)
        } by {
            if k < b.costs_binary@.len() {
                assert(a.costs_binary@[k] == b.costs_binary@[k]);
                let e = b.costs_binary@[k];
                if !higher_order {
                    assert(after.costs_binary@[e as int] == after.costs_binary@.drop_last()[e as int]);
                }
            }
        }
        assert forall|k: int| 0 <= k < a.costs_higher_order@.len() implies {
            let e = #[trigger] a.costs_higher_order@[k];
            &&& e < after.costs_higher_order@.len()
            &&& involves(after.costs_higher_order@[e as int].parent@, v, l)
        } by {
            if k < b.costs_higher_order@.len() {
                assert(a.costs_higher_order@[k] == b.costs_higher_order@[k]);
                let e = b.costs_higher_order@[k];
                if higher_order {
                    assert(after.costs_higher_order@[e as int] == after.costs_higher_order@.drop_last()[e as int]);
                }
            }
        }
    }
    assert forall|e: int, i: int| 0 <= e < after.costs_binary@.len() && 0 <= i < 2 implies after.valid_assignment(
        #[trigger] after.costs_binary@[e].parent@[i],
    ) by {
        if !higher_order && e < before.costs_binary@.len() {
            assert(after.costs_binary@[e] == after.costs_binary@.drop_last()[e]);
        }
    }
    assert forall|e: int, i: int|
        0 <= e < after.costs_higher_order@.len() && 0 <= i < after.costs_higher_order@[e].parent@.len() implies after.valid_assignment(
        #[trigger] after.costs_higher_order@[e].parent@[i],
    ) by {
        if higher_order && e < before.costs_higher_order@.len() {
            assert(after.costs_higher_order@[e] == after.costs_higher_order@.drop_last()[e]);
        }
    }
}

fn new_label<T>(var_idx: usize, label_idx: usize, cost: T) -> (label: Label<T>)
    ensures
        label.parent == var_idx,
        label.cost_unary.cost == cost,
        label.cost_unary.parent == (var_idx, label_idx),
        label.costs_binary@ == Seq::<usize>::empty(),
        label.costs_higher_order@ == Seq::<usize>::empty(),
{
    Label {
        parent: var_idx,
        cost_unary: UnaryCost { cost, parent: (var_idx, label_idx) },
        costs_binary: Vec::new(),
        costs_higher_order: Vec::new(),
    }
}

impl<T> CostFunctionNetwork<T> {
    /// Records the cost function `cost_idx` (binary, or higher-order where `higher_order`) at
    /// each label of `assignment`, once per occurrence.
    fn register(&mut self, assignment: &[AssignOne], cost_idx: usize, higher_order: bool)
        requires
            forall|i: int| 0 <= i < assignment@.len() ==> old(self).valid_assignment(#[trigger] assignment@[i]),
        ensures
            final(self).cost_nullary == old(self).cost_nullary,
            final(self).costs_binary == old(self).costs_binary,
            final(self).costs_higher_order == old(self).costs_higher_order,
            final(self).variables@.len() == old(self).variables@.len(),
            forall|v: int| 0 <= v < old(self).variables@.len() ==> #[trigger] final(self).variables@[v].labels@.len() == old(self).variables@[v].labels@.len(),
            forall|v: int, l: int| 0 <= v < old(self).variables@.len() && 0 <= l < old(self).variables@[v].labels@.len() ==> {
                let before = old(self).variables@[v].labels@[l];
                let after = #[trigger] final(self).variables@[v].labels@[l];
                let added = Seq::new(occurrences(assignment@, v, l), |k: int| cost_idx);
                &&& after.parent == before.parent
                &&& after.cost_unary == before.cost_unary
                &&& after.costs_binary@ == if higher_order { before.costs_binary@ } else { before.costs_binary@ + added }
                &&& after.costs_higher_order@ == if higher_order { before.costs_higher_order@ + added } else { before.costs_higher_order@ }
            },
    {
        let ghost before = *self;
        let mut i: usize = 0;
        while i < assignment.len()
            invariant
                0 <= i <= assignment@.len(),
                forall|j: int| 0 <= j < assignment@.len() ==> before.valid_assignment(#[trigger] assignment@[j]),
                self.cost_nullary == before.cost_nullary,
                self.costs_binary == before.costs_binary,
                self.costs_higher_order == before.costs_higher_order,
                self.variables@.len() == before.variables@.len(),
                forall|v: int| 0 <= v < before.variables@.len() ==> #[trigger] self.variables@[v].labels@.len() == before.variables@[v].labels@.len(),
                forall|v: int, l: int| 0 <= v < before.variables@.len() && 0 <= l < before.variables@[v].labels@.len() ==> {
                    let b = before.variables@[v].labels@[l];
                    let a = #[trigger] self.variables@[v].labels@[l];
                    let added = Seq::new(occurrences(assignment@.take(i as int), v, l), |k: int| cost_idx);
                    &&& a.parent == b.parent
                    &&& a.cost_unary == b.cost_unary
                    &&& a.costs_binary@ == if higher_order { b.costs_binary@ } else { b.costs_binary@ + added }
                    &&& a.costs_higher_order@ == if higher_order { b.costs_higher_order@ + added } else { b.costs_higher_order@ }
                },
            decreases assignment@.len() - i,
        {
            let (var_idx, label_idx) = assignment[i];
            assert(before.valid_assignment(assignment@[i as int]));
            let ghost prev = *self;
            if higher_order {
                self.variables[var_idx].labels[label_idx].costs_higher_order.push(cost_idx);
            } else {
                self.variables[var_idx].labels[label_idx].costs_binary.push(cost_idx);
            }
            proof {
                assert(assignment@.take(i + 1).drop_last() =~= assignment@.take(i as int));
                assert(assignment@.take(i + 1).last() == (var_idx, label_idx));
                assert forall|v: int| 0 <= v < before.variables@.len() implies #[trigger] self.variables@[v].labels@.len() == before.variables@[v].labels@.len() by {
                    if v != var_idx {
                        assert(self.variables@[v] == prev.variables@[v]);
                    }
                }
                assert forall|v: int, l: int| 0 <= v < before.variables@.len() && 0 <= l < before.variables@[v].labels@.len() implies {
                    let b = before.variables@[v].labels@[l];
                    let a = #[trigger] self.variables@[v].labels@[l];
                    let added = Seq::new(occurrences(assignment@.take(i + 1), v, l), |k: int| cost_idx);
                    &&& a.parent == b.parent
                    &&& a.cost_unary == b.cost_unary
                    &&& a.costs_binary@ == if higher_order { b.costs_binary@ } else { b.costs_binary@ + added }
                    &&& a.costs_higher_order@ == if higher_order { b.costs_higher_order@ + added } else { b.costs_higher_order@ }
                } by {
                    let b = before.variables@[v].labels@[l];
                    let p = prev.variables@[v].labels@[l];
                    let a = self.variables@[v].labels@[l];
                    let c = occurrences(assignment@.take(i as int), v, l);
                    let old_added = Seq::new(c, |k: int| cost_idx);
                    if v == var_idx && l == label_idx {
                        assert(occurrences(assignment@.take(i + 1), v, l) == c + 1);
                        assert(old_added.push(cost_idx) =~= Seq::new(c + 1, |k: int| cost_idx));
                        if higher_order {
                            assert(a.costs_higher_order@ == p.costs_higher_order@.push(cost_idx));
                            assert(a.costs_higher_order@ =~= b.costs_higher_order@ + Seq::new(c + 1, |k: int| cost_idx));
                        } else {
                            assert(a.costs_binary@ == p.costs_binary@.push(cost_idx));
                            assert(a.costs_binary@ =~= b.costs_binary@ + Seq::new(c + 1, |k: int| cost_idx));
                        }
                    } else {
                        assert(occurrences(assignment@.take(i + 1), v, l) == c);
                        if v == var_idx {
                            assert(a == p);
                        } else {
                            assert(self.variables@[v] == prev.variables@[v]);
                        }
                    }
                }
            }
            i = i + 1;
        }
        assert(assignment@.take(assignment@.len() as int) =~= assignment@);
    }
}


impl<T> CostFunctionNetwork<T> {
    /// The two networks have the same variables, labels and cost functions, and the same
    /// registrations of cost functions at labels (their nullary and unary costs may differ).
    pub open spec fn same_structure(&self, other: &Self) -> bool {
        &&& self.num_vars() == other.num_vars()
        &&& forall|v: int| 0 <= v < self.num_vars() ==> #[trigger] self.num_labels(v) == other.num_labels(v)
        &&& self.binary_costs() == other.binary_costs()
        &&& self.higher_order_costs() == other.higher_order_costs()
        &&& forall|v: int, l: int|
            0 <= v < self.num_vars() && 0 <= l < self.num_labels(v) ==> #[trigger] self.binary_at(v, l)
                == other.binary_at(v, l) && self.higher_order_at(v, l) == other.higher_order_at(v, l)
    }

    /// The two networks have the same unary cost at every label.
    pub open spec fn same_unary(&self, other: &Self) -> bool {
        forall|v: int, l: int|
            0 <= v < self.num_vars() && 0 <= l < self.num_labels(v) ==> #[trigger] self.unary(v, l)
                == other.unary(v, l)
    }

    /// No binary or higher-order cost function exists.
    pub open spec fn has_no_joint_costs(&self) -> bool {
        &&& self.binary_costs().len() == 0
        &&& self.higher_order_costs().len() == 0
        &&& forall|v: int, l: int|
            0 <= v < self.num_vars() && 0 <= l < self.num_labels(v) ==> #[trigger] self.binary_at(v, l)
                == Seq::<usize>::empty() && self.higher_order_at(v, l) == Seq::<usize>::empty()
    }

    /// The constant term of the total cost.
    pub fn cost_nullary(&self) -> (cost: &T)
        ensures
            *cost == self.nullary(),
    {
        &self.cost_nullary.cost
    }

    /// Number of variables.
    pub fn num_variables(&self) -> (n: usize)
        ensures
            n == self.num_vars(),
    {
        self.variables.len()
    }

    /// Number of labels of variable `var_idx`.
    pub fn domain_size(&self, var_idx: usize) -> (n: usize)
        requires
            var_idx < self.num_vars(),
        ensures
            n == self.num_labels(var_idx as int),
    {
        self.variables[var_idx].labels.len()
    }

    /// Unary cost of label `label_idx` of variable `var_idx`.
    pub fn cost_unary(&self, var_idx: usize, label_idx: usize) -> (cost: &T)
        requires
            self.valid_assignment((var_idx, label_idx)),
        ensures
            *cost == self.unary(var_idx as int, label_idx as int),
    {
        &self.variables[var_idx].labels[label_idx].cost_unary.cost
    }

    /// Indices of the binary cost functions registered at a label.
    pub fn costs_binary_at(&self, var_idx: usize, label_idx: usize) -> (indices: &[usize])
        requires
            self.valid_assignment((var_idx, label_idx)),
        ensures
            indices@ == self.binary_at(var_idx as int, label_idx as int),
    {
        self.variables[var_idx].labels[label_idx].costs_binary.as_slice()
    }

    /// Indices of the higher-order cost functions registered at a label.
    pub fn costs_higher_order_at(&self, var_idx: usize, label_idx: usize) -> (indices: &[usize])
        requires
            self.valid_assignment((var_idx, label_idx)),
        ensures
            indices@ == self.higher_order_at(var_idx as int, label_idx as int),
    {
        self.variables[var_idx].labels[label_idx].costs_higher_order.as_slice()
    }

    /// Cost and assignment of binary cost function `idx`.
    pub fn cost_binary(&self, idx: usize) -> (cost: (&T, AssignTwo))
        requires
            idx < self.binary_costs().len(),
        ensures
            *cost.0 == self.binary_costs()[idx as int].0,
            cost.1@ == self.binary_costs()[idx as int].1,
    {
        (&self.costs_binary[idx].cost, self.costs_binary[idx].parent)
    }

    /// Cost and assignment of higher-order cost function `idx`.
    pub fn cost_higher_order(&self, idx: usize) -> (cost: (&T, &[AssignOne]))
        requires
            idx < self.higher_order_costs().len(),
        ensures
            *cost.0 == self.higher_order_costs()[idx as int].0,
            cost.1@ == self.higher_order_costs()[idx as int].1,
    {
        (&self.costs_higher_order[idx].cost, self.costs_higher_order[idx].parent.as_slice())
    }
}


impl<T: Default> CostFunctionNetwork<T> {
    /// An empty network: no variables and no cost functions; the nullary cost is `T`'s default.
    pub fn new() -> (cfn: Self)
        ensures
            cfn.wf(),
            cfn.num_vars() == 0,
            cfn.has_no_joint_costs(),
            call_ensures(T::default, (), cfn.nullary()),
    {
        CostFunctionNetwork {
            cost_nullary: NullaryCost { cost: T::default() },
            variables: Vec::new(),
            costs_binary: Vec::new(),
            costs_higher_order: Vec::new(),
        }
    }

    /// A network with one variable per entry of `domain_sizes`, having that many labels (each
    /// with `T`'s default unary cost), and no binary or higher-order cost functions; the nullary
    /// cost is `T`'s default. `self` is left as it is.
    pub fn from_domain_sizes(&mut self, domain_sizes: &Vec<usize>) -> (cfn: Self)
        ensures
            *final(self) == *old(self),
            cfn.wf(),
            cfn.num_vars() == domain_sizes@.len(),
            forall|v: int| 0 <= v < domain_sizes@.len() ==> #[trigger] cfn.num_labels(v) == domain_sizes@[v],
            cfn.has_no_joint_costs(),
            call_ensures(T::default, (), cfn.nullary()),
            forall|v: int, l: int|
                0 <= v < cfn.num_vars() && 0 <= l < cfn.num_labels(v) ==> call_ensures(
                    T::default,
                    (),
                    #[trigger] cfn.unary(v, l),
                ),
    {
        let mut variables: Vec<Variable<T>> = Vec::new();
        let mut var_idx: usize = 0;
        while var_idx < domain_sizes.len()
            invariant
                var_idx <= domain_sizes@.len(),
                variables@.len() == var_idx,
                forall|v: int| 0 <= v < var_idx ==> (#[trigger] variables@[v]).labels@.len() == domain_sizes@[v],
                forall|v: int, l: int| 0 <= v < var_idx && 0 <= l < variables@[v].labels@.len() ==> {
                    let label = #[trigger] variables@[v].labels@[l];
                    &&& label.parent == v
                    &&& assigns(label.cost_unary.parent, v, l)
                    &&& label.costs_binary@.len() == 0
                    &&& label.costs_higher_order@.len() == 0
                    &&& call_ensures(T::default, (), label.cost_unary.cost)
                },
            decreases domain_sizes@.len() - var_idx,
        {
            let domain_size = domain_sizes[var_idx];
            let mut labels: Vec<Label<T>> = Vec::new();
            let mut label_idx: usize = 0;
            while label_idx < domain_size
                invariant
                    label_idx <= domain_size,
                    labels@.len() == label_idx,
                    forall|l: int| 0 <= l < label_idx ==> {
                        let label = #[trigger] labels@[l];
                        &&& label.parent == var_idx
                        &&& assigns(label.cost_unary.parent, var_idx as int, l)
                        &&& label.costs_binary@.len() == 0
                        &&& label.costs_higher_order@.len() == 0
                        &&& call_ensures(T::default, (), label.cost_unary.cost)
                    },
                decreases domain_size - label_idx,
            {
                labels.push(new_label(var_idx, label_idx, T::default()));
                label_idx = label_idx + 1;
            }
            variables.push(Variable { labels });
            var_idx = var_idx + 1;
        }
        let cfn = CostFunctionNetwork {
            cost_nullary: NullaryCost { cost: T::default() },
            variables,
            costs_binary: Vec::new(),
            costs_higher_order: Vec::new(),
        };
        proof {
            assert(cfn.binary_costs().len() == 0);
            assert(cfn.higher_order_costs().len() == 0);
            assert forall|v: int, l: int|
                0 <= v < cfn.num_vars() && 0 <= l < cfn.num_labels(v) implies #[trigger] cfn.binary_at(v, l)
                    == Seq::<usize>::empty() && cfn.higher_order_at(v, l) == Seq::<usize>::empty() by {
                let label = cfn.variables@[v].labels@[l];
                assert(label.costs_binary@ =~= Seq::<usize>::empty());
                assert(label.costs_higher_order@ =~= Seq::<usize>::empty());
            }
            assert(cfn.has_no_joint_costs());
        }
        cfn
    }

    /// A network with nullary cost `nullary_cost_value` and one variable per row of
    /// `unary_costs`, whose labels carry the costs of that row, with no binary or
    /// higher-order cost functions. `self` is left as it is.
    pub fn from_costs(&mut self, nullary_cost_value: T, unary_costs: Vec<Vec<T>>) -> (cfn: Self)
        ensures
            *final(self) == *old(self),
            cfn.wf(),
            cfn.nullary() == nullary_cost_value,
            cfn.num_vars() == unary_costs@.len(),
            forall|v: int| 0 <= v < unary_costs@.len() ==> #[trigger] cfn.num_labels(v) == unary_costs@[v]@.len(),
            forall|v: int, l: int|
                0 <= v < unary_costs@.len() && 0 <= l < unary_costs@[v]@.len() ==> #[trigger] cfn.unary(v, l)
                    == unary_costs@[v]@[l],
            cfn.has_no_joint_costs(),
    {
        let ghost rows_view = unary_costs@;
        let num_rows = unary_costs.len();
        let mut rows = unary_costs;
        let mut variables: Vec<Variable<T>> = Vec::new();
        let mut var_idx: usize = 0;
        while rows.len() > 0
            invariant
                var_idx <= rows_view.len(),
                rows_view.len() == num_rows,
                rows@ == rows_view.skip(var_idx as int),
                variables@.len() == var_idx,
                forall|v: int| 0 <= v < var_idx ==> (#[trigger] variables@[v]).labels@.len() == rows_view[v]@.len(),
                forall|v: int, l: int| 0 <= v < var_idx && 0 <= l < variables@[v].labels@.len() ==> {
                    let label = #[trigger] variables@[v].labels@[l];
                    &&& label.parent == v
                    &&& assigns(label.cost_unary.parent, v, l)
                    &&& label.cost_unary.cost == rows_view[v]@[l]
                    &&& label.costs_binary@.len() == 0
                    &&& label.costs_higher_order@.len() == 0
                },
            decreases rows@.len(),
        {
            let row = rows.remove(0);
            assert(row == rows_view[var_idx as int]);
            assert(rows@ =~= rows_view.skip(var_idx + 1));
            let ghost row_view = row@;
            let row_len = row.len();
            let mut costs = row;
            let mut labels: Vec<Label<T>> = Vec::new();
            let mut label_idx: usize = 0;
            while costs.len() > 0
                invariant
                    label_idx <= row_view.len(),
                    row_view.len() == row_len,
                    costs@ == row_view.skip(label_idx as int),
                    labels@.len() == label_idx,
                    forall|l: int| 0 <= l < label_idx ==> {
                        let label = #[trigger] labels@[l];
                        &&& label.parent == var_idx
                        &&& assigns(label.cost_unary.parent, var_idx as int, l)
                        &&& label.cost_unary.cost == row_view[l]
                        &&& label.costs_binary@.len() == 0
                        &&& label.costs_higher_order@.len() == 0
                    },
                decreases costs@.len(),
            {
                let cost = costs.remove(0);
                assert(cost == row_view[label_idx as int]);
                assert(costs@ =~= row_view.skip(label_idx + 1));
                labels.push(new_label(var_idx, label_idx, cost));
                label_idx = label_idx + 1;
            }
            assert(label_idx == row_view.len());
            variables.push(Variable { labels });
            var_idx = var_idx + 1;
        }
        let cfn = CostFunctionNetwork {
            cost_nullary: NullaryCost { cost: nullary_cost_value },
            variables,
            costs_binary: Vec::new(),
            costs_higher_order: Vec::new(),
        };
        proof {
            assert(cfn.binary_costs().len() == 0);
            assert(cfn.higher_order_costs().len() == 0);
            assert forall|v: int, l: int|
                0 <= v < cfn.num_vars() && 0 <= l < cfn.num_labels(v) implies #[trigger] cfn.binary_at(v, l)
                    == Seq::<usize>::empty() && cfn.higher_order_at(v, l) == Seq::<usize>::empty() by {
                let label = cfn.variables@[v].labels@[l];
                assert(label.costs_binary@ =~= Seq::<usize>::empty());
                assert(label.costs_higher_order@ =~= Seq::<usize>::empty());
            }
            assert(cfn.has_no_joint_costs());
        }
        cfn
    }
}


impl<T: Default> CostFunctionNetwork<T> {
    /// Sets the nullary cost.
    pub fn set_cost_nullary(self, nullary_cost_value: T) -> (cfn: Self)
        requires
            self.wf(),
        ensures
            cfn.wf(),
            cfn.nullary() == nullary_cost_value,
            cfn.same_structure(&self),
            cfn.same_unary(&self),
    {
        let mut net = self;
        net.cost_nullary.cost = nullary_cost_value;
        net
    }

    /// Adds a variable with no labels.
    pub fn add_variable(self) -> (cfn: Self)
        requires
            self.wf(),
        ensures
            cfn.wf(),
            cfn.nullary() == self.nullary(),
            cfn.num_vars() == self.num_vars() + 1,
            cfn.num_labels(self.num_vars() as int) == 0,
            forall|v: int| 0 <= v < self.num_vars() ==> #[trigger] cfn.num_labels(v) == self.num_labels(v),
            cfn.binary_costs() == self.binary_costs(),
            cfn.higher_order_costs() == self.higher_order_costs(),
            forall|v: int, l: int|
                0 <= v < self.num_vars() && 0 <= l < self.num_labels(v) ==> #[trigger] cfn.binary_at(v, l)
                    == self.binary_at(v, l) && cfn.higher_order_at(v, l) == self.higher_order_at(v, l)
                    && cfn.unary(v, l) == self.unary(v, l),
    {
        let ghost before = self;
        let mut net = self;
        net.variables.push(Variable { labels: Vec::new() });
        proof {
            assert(net.binary_costs() =~= before.binary_costs());
            assert(net.higher_order_costs() =~= before.higher_order_costs());
            assert forall|v: int| 0 <= v < before.variables@.len() implies #[trigger] net.variables@[v]
                == before.variables@[v] by {}
        }
        net
    }

    /// Adds a label to variable `var_idx`, with the default unary cost and no binary or
    /// higher-order cost function.
    pub fn add_label(self, var_idx: usize) -> (cfn: Self)
        requires
            self.wf(),
            var_idx < self.num_vars(),
        ensures
            cfn.wf(),
            cfn.nullary() == self.nullary(),
            cfn.num_vars() == self.num_vars(),
            cfn.num_labels(var_idx as int) == self.num_labels(var_idx as int) + 1,
            forall|v: int| 0 <= v < self.num_vars() && v != var_idx ==> #[trigger] cfn.num_labels(v) == self.num_labels(v),
            cfn.binary_costs() == self.binary_costs(),
            cfn.higher_order_costs() == self.higher_order_costs(),
            forall|v: int, l: int|
                0 <= v < self.num_vars() && 0 <= l < self.num_labels(v) ==> #[trigger] cfn.binary_at(v, l)
                    == self.binary_at(v, l) && cfn.higher_order_at(v, l) == self.higher_order_at(v, l)
                    && cfn.unary(v, l) == self.unary(v, l),
            cfn.binary_at(var_idx as int, self.num_labels(var_idx as int) as int) == Seq::<usize>::empty(),
            cfn.higher_order_at(var_idx as int, self.num_labels(var_idx as int) as int) == Seq::<usize>::empty(),
            call_ensures(T::default, (), cfn.unary(var_idx as int, self.num_labels(var_idx as int) as int)),
    {
        let ghost before = self;
        let mut net = self;
        let label_idx = net.variables[var_idx].labels.len();
        net.variables[var_idx].labels.push(new_label(var_idx, label_idx, T::default()));
        proof {
            assert(net.binary_costs() =~= before.binary_costs());
            assert(net.higher_order_costs() =~= before.higher_order_costs());
            assert forall|v: int, l: int|
                0 <= v < before.variables@.len() && 0 <= l < before.variables@[v].labels@.len() implies
                #[trigger] net.variables@[v].labels@[l] == before.variables@[v].labels@[l] by {
                if v != var_idx {
                    assert(net.variables@[v] == before.variables@[v]);
                }
            }
            assert forall|v: int| 0 <= v < before.variables@.len() && v != var_idx implies #[trigger] net.variables@[v]
                == before.variables@[v] by {}
        }
        net
    }

    /// Sets the unary cost of label `label_idx` of variable `var_idx`.
    pub fn set_cost_unary(self, var_idx: usize, label_idx: usize, unary_cost_value: T) -> (cfn: Self)
        requires
            self.wf(),
            self.valid_assignment((var_idx, label_idx)),
        ensures
            cfn.wf(),
            cfn.nullary() == self.nullary(),
            cfn.same_structure(&self),
            cfn.unary(var_idx as int, label_idx as int) == unary_cost_value,
            forall|v: int, l: int|
                0 <= v < self.num_vars() && 0 <= l < self.num_labels(v) && (v != var_idx || l != label_idx)
                    ==> #[trigger] cfn.unary(v, l) == self.unary(v, l),
    {
        let ghost before = self;
        let mut net = self;
        net.variables[var_idx].labels[label_idx].cost_unary.cost = unary_cost_value;
        proof {
            assert(net.binary_costs() =~= before.binary_costs());
            assert(net.higher_order_costs() =~= before.higher_order_costs());
            assert forall|v: int, l: int|
                0 <= v < before.variables@.len() && 0 <= l < before.variables@[v].labels@.len() implies {
                    let a = #[trigger] net.variables@[v].labels@[l];
                    let b = before.variables@[v].labels@[l];
                    &&& a.parent == b.parent
                    &&& a.cost_unary.parent == b.cost_unary.parent
                    &&& a.costs_binary == b.costs_binary
                    &&& a.costs_higher_order == b.costs_higher_order
                    &&& (v != var_idx || l != label_idx) ==> a == b
                } by {
                if v != var_idx {
                    assert(net.variables@[v] == before.variables@[v]);
                }
            }
        }
        net
    }

    /// Adds a binary cost function on `assignment` with cost `cost_value`, and registers it at
    /// both labels of `assignment`.
    pub fn add_cost_binary(self, assignment: AssignTwo, cost_value: T) -> (cfn: Self)
        requires
            self.wf(),
            self.valid_assignment(assignment[0]),
            self.valid_assignment(assignment[1]),
        ensures
            cfn.wf(),
            cfn.nullary() == self.nullary(),
            cfn.same_unary(&self),
            cfn.num_vars() == self.num_vars(),
            forall|v: int| 0 <= v < self.num_vars() ==> #[trigger] cfn.num_labels(v) == self.num_labels(v),
            cfn.binary_costs() == self.binary_costs().push((cost_value, assignment@)),
            cfn.higher_order_costs() == self.higher_order_costs(),
            forall|v: int, l: int|
                0 <= v < self.num_vars() && 0 <= l < self.num_labels(v) ==> #[trigger] cfn.binary_at(v, l)
                    == self.binary_at(v, l) + Seq::new(
                    occurrences(assignment@, v, l),
                    |k: int| self.binary_costs().len() as usize,
                ) && cfn.higher_order_at(v, l) == self.higher_order_at(v, l),
    {
        let ghost before = self;
        let mut net = self;
        let cost_idx = net.costs_binary.len();
        assert(assignment@[0] == assignment[0] && assignment@[1] == assignment[1]);
        net.register(assignment.as_slice(), cost_idx, false);
        net.costs_binary.push(BinaryCost { cost: cost_value, parent: assignment });
        proof {
            assert(net.costs_binary@.drop_last() =~= before.costs_binary@);
            lemma_registered(before, net, assignment@, cost_idx, false);
            assert(net.binary_costs() =~= before.binary_costs().push((cost_value, assignment@)));
            assert(net.higher_order_costs() =~= before.higher_order_costs());
            assert forall|v: int, l: int|
                0 <= v < net.num_vars() && 0 <= l < net.num_labels(v) implies #[trigger] net.unary(v, l)
                    == before.unary(v, l) by {
                assert(net.variables@[v].labels@[l].cost_unary == before.variables@[v].labels@[l].cost_unary);
            }
        }
        net
    }

    /// Adds a higher-order cost function on `assignment` with cost `cost_value`, and
    /// registers it at each label of `assignment`, once per occurrence.
    pub fn add_cost_higher_order(self, assignment: Vec<AssignOne>, cost_value: T) -> (cfn: Self)
        requires
            self.wf(),
            forall|i: int| 0 <= i < assignment@.len() ==> self.valid_assignment(#[trigger] assignment@[i]),
        ensures
            cfn.wf(),
            cfn.nullary() == self.nullary(),
            cfn.same_unary(&self),
            cfn.num_vars() == self.num_vars(),
            forall|v: int| 0 <= v < self.num_vars() ==> #[trigger] cfn.num_labels(v) == self.num_labels(v),
            cfn.binary_costs() == self.binary_costs(),
            cfn.higher_order_costs() == self.higher_order_costs().push((cost_value, assignment@)),
            forall|v: int, l: int|
                0 <= v < self.num_vars() && 0 <= l < self.num_labels(v) ==> #[trigger] cfn.higher_order_at(v, l)
                    == self.higher_order_at(v, l) + Seq::new(
                    occurrences(assignment@, v, l),
                    |k: int| self.higher_order_costs().len() as usize,
                ) && cfn.binary_at(v, l) == self.binary_at(v, l),
    {
        let ghost before = self;
        let mut net = self;
        let cost_idx = net.costs_higher_order.len();
        let ghost assignment_view = assignment@;
        net.register(assignment.as_slice(), cost_idx, true);
        net.costs_higher_order.push(HigherOrderCost { cost: cost_value, parent: assignment });
        proof {
            assert(net.costs_higher_order@.drop_last() =~= before.costs_higher_order@);
            lemma_registered(before, net, assignment_view, cost_idx, true);
            assert(net.higher_order_costs() =~= before.higher_order_costs().push((cost_value, assignment_view)));
            assert(net.binary_costs() =~= before.binary_costs());
            assert forall|v: int, l: int|
                0 <= v < net.num_vars() && 0 <= l < net.num_labels(v) implies #[trigger] net.unary(v, l)
                    == before.unary(v, l) by {
                assert(net.variables@[v].labels@[l].cost_unary == before.variables@[v].labels@[l].cost_unary);
            }
        }
        net
    }
}

} // verus!
