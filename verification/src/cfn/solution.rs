use vstd::prelude::*;
use vstd::string::StringExecFns;

use crate::cfn::cost_function_network::CostFunctionNetwork;
use crate::cfn::uai::{option_text, option_to_string};

verus! {

/// A (possibly partial) solution to a cost function network: for each variable, its label,
/// or `None` while the variable is unlabeled.
pub struct Solution {
    labels: Vec<Option<usize>>,
}

/// Number of the given variables that are labeled.
pub open spec fn count_labeled(labels: Seq<Option<usize>>, variables: Seq<usize>) -> nat
    decreases variables.len(),
{
    if variables.len() == 0 {
        0
    } else {
        count_labeled(labels, variables.drop_last()) + if labels[variables.last() as int] is Some {
            1nat
        } else {
            0nat
        }
    }
}

/// Counting labeled variables: none are counted in an empty list, a single variable counts 1
/// exactly when it is labeled, and the count of two lists one after the other is the sum of
/// their counts. So the count is the number of positions of the list whose variable is
/// labeled: at most the length of the list, and all of it when every listed variable is
/// labeled.
pub proof fn lemma_count_labeled(labels: Seq<Option<usize>>, first: Seq<usize>, second: Seq<usize>, variable: usize)
    ensures
        count_labeled(labels, Seq::empty()) == 0,
        count_labeled(labels, seq![variable]) == if labels[variable as int] is Some {
            1nat
        } else {
            0nat
        },
        count_labeled(labels, first + second) == count_labeled(labels, first) + count_labeled(labels, second),
        count_labeled(labels, first) <= first.len(),
        (forall|i: int| 0 <= i < first.len() ==> (#[trigger] labels[first[i] as int]) is Some) ==> count_labeled(
            labels,
            first,
        ) == first.len(),
        (forall|i: int| 0 <= i < first.len() ==> (#[trigger] labels[first[i] as int]) is None) ==> count_labeled(
            labels,
            first,
        ) == 0,
    decreases second.len(),
{
    assert(seq![variable].drop_last() =~= Seq::<usize>::empty());
    lemma_count_labeled_bounds(labels, first);
    if second.len() > 0 {
        lemma_count_labeled(labels, first, second.drop_last(), variable);
        assert((first + second).drop_last() =~= first + second.drop_last());
        assert((first + second).last() == second.last());
    } else {
        assert(first + second =~= first);
    }
}

proof fn lemma_count_labeled_bounds(labels: Seq<Option<usize>>, vars: Seq<usize>)
    ensures
        count_labeled(labels, vars) <= vars.len(),
        (forall|i: int| 0 <= i < vars.len() ==> (#[trigger] labels[vars[i] as int]) is Some) ==> count_labeled(
            labels,
            vars,
        ) == vars.len(),
        (forall|i: int| 0 <= i < vars.len() ==> (#[trigger] labels[vars[i] as int]) is None) ==> count_labeled(
            labels,
            vars,
        ) == 0,
    decreases vars.len(),
{
    if vars.len() > 0 {
        let rest = vars.drop_last();
        lemma_count_labeled_bounds(labels, rest);
        if forall|i: int| 0 <= i < vars.len() ==> (#[trigger] labels[vars[i] as int]) is Some {
            assert forall|i: int| 0 <= i < rest.len() implies (#[trigger] labels[rest[i] as int]) is Some by {
                assert(rest[i] == vars[i]);
            }
            assert(labels[vars[vars.len() - 1] as int] is Some);
        }
        if forall|i: int| 0 <= i < vars.len() ==> (#[trigger] labels[vars[i] as int]) is None {
            assert forall|i: int| 0 <= i < rest.len() implies (#[trigger] labels[rest[i] as int]) is None by {
                assert(rest[i] == vars[i]);
            }
            assert(labels[vars[vars.len() - 1] as int] is None);
        }
    }
}

/// The text `"t"` for each text `t`, separated by `, ` and enclosed in brackets.
pub open spec fn quoted_list(parts: Seq<Seq<char>>) -> Seq<char> {
    seq!['['] + quoted_items(parts) + seq![']']
}

/// The text `"t"` for each text `t`, separated by `, `.
pub open spec fn quoted_items(parts: Seq<Seq<char>>) -> Seq<char>
    decreases parts.len(),
{
    if parts.len() == 0 {
        Seq::empty()
    } else if parts.len() == 1 {
        seq!['"'] + parts[0] + seq!['"']
    } else {
        quoted_items(parts.drop_last()) + seq![',', ' ', '"'] + parts.last() + seq!['"']
    }
}

impl View for Solution {
    type V = Seq<Option<usize>>;

    closed spec fn view(&self) -> Seq<Option<usize>> {
        self.labels@
    }
}

impl Solution {
    /// Creates a solution for the given cost function network with every variable unlabeled.
    pub fn new<T>(cfn: &CostFunctionNetwork<T>) -> (solution: Self)
        ensures
            solution@.len() == cfn.spec_num_variables(),
            forall|i: int| 0 <= i < solution@.len() ==> (#[trigger] solution@[i]) is None,
    {
        let mut labels: Vec<Option<usize>> = Vec::new();
        let n = cfn.num_variables();
        for i in 0..n
            invariant
                labels@.len() == i,
                forall|j: int| 0 <= j < i ==> (#[trigger] labels@[j]) is None,
        {
            labels.push(None);
        }
        Solution { labels }
    }

    /// Checks if every variable in `variables` is labeled.
    pub fn is_fully_labeled(&self, variables: &Vec<usize>) -> (fully: bool)
        requires
            forall|i: int| 0 <= i < variables@.len() ==> #[trigger] variables@[i] < self@.len(),
        ensures
            fully == forall|i: int| 0 <= i < variables@.len() ==> (#[trigger] self@[variables@[i] as int]) is Some,
    {
        for i in 0..variables.len()
            invariant
                forall|i: int| 0 <= i < variables@.len() ==> #[trigger] variables@[i] < self@.len(),
                forall|j: int| 0 <= j < i ==> (#[trigger] self@[variables@[j] as int]) is Some,
        {
            if self.labels[variables[i]].is_none() {
                return false;
            }
        }
        true
    }

    /// Returns the number of labeled variables in `variables` (counting repeats).
    pub fn num_labeled(&self, variables: &Vec<usize>) -> (num: usize)
        requires
            forall|i: int| 0 <= i < variables@.len() ==> #[trigger] variables@[i] < self@.len(),
        ensures
            num == count_labeled(self@, variables@),
    {
        let mut num_labeled: usize = 0;
        for i in 0..variables.len()
            invariant
                forall|i: int| 0 <= i < variables@.len() ==> #[trigger] variables@[i] < self@.len(),
                num_labeled == count_labeled(self@, variables@.take(i as int)),
                num_labeled <= i,
        {
            assert(variables@.take(i + 1).drop_last() =~= variables@.take(i as int));
            if self.labels[variables[i]].is_some() {
                num_labeled = num_labeled + 1;
            }
        }
        assert(variables@.take(variables@.len() as int) =~= variables@);
        num_labeled
    }

    /// Returns the labels as texts: the decimal label, or `None`.
    fn labels_to_vec_string(&self) -> (texts: Vec<String>)
        ensures
            texts@.len() == self@.len(),
            forall|i: int| 0 <= i < texts@.len() ==> (#[trigger] texts@[i])@ == option_text(self@[i]),
    {
        let mut texts: Vec<String> = Vec::new();
        for i in 0..self.labels.len()
            invariant
                texts@.len() == i,
                forall|j: int| 0 <= j < i ==> (#[trigger] texts@[j])@ == option_text(self@[j]),
        {
            texts.push(option_to_string(self.labels[i]));
        }
        texts
    }

    /// The solution as text: the list of labels as quoted texts, such as `["0", "None"]`.
    pub fn to_string(&self) -> (text: String)
        ensures
            text@ == quoted_list(self@.map_values(|l: Option<usize>| option_text(l))),
    {
        let texts = self.labels_to_vec_string();
        let ghost parts = self@.map_values(|l: Option<usize>| option_text(l));
        let mut text = String::from_str("[");
        proof {
            reveal_strlit("[");
            reveal_strlit("\"");
            reveal_strlit(", \"");
            reveal_strlit("]");
        }
        for i in 0..texts.len()
            invariant
                parts == self@.map_values(|l: Option<usize>| option_text(l)),
                texts@.len() == parts.len(),
                forall|j: int| 0 <= j < texts@.len() ==> (#[trigger] texts@[j])@ == parts[j],
                text@ == seq!['['] + quoted_items(parts.take(i as int)),
        {
            assert(parts.take(i + 1).drop_last() =~= parts.take(i as int));
            proof {
                reveal_strlit("\"");
                reveal_strlit(", \"");
            }
            if i == 0 {
                text.append("\"");
            } else {
                text.append(", \"");
            }
            text.append(texts[i].as_str());
            text.append("\"");
            assert(text@ =~= seq!['['] + quoted_items(parts.take(i + 1)));
        }
        proof {
            reveal_strlit("]");
        }
        text.append("]");
        assert(parts.take(texts.len() as int) =~= parts);
        text
    }

    /// The label of variable `index`.
    pub fn index(&self, index: usize) -> (label: &Option<usize>)
        requires
            index < self@.len(),
        ensures
            *label == self@[index as int],
    {
        &self.labels[index]
    }

    /// A mutable reference to the label of variable `index`.
    pub fn index_mut(&mut self, index: usize) -> (label: &mut Option<usize>)
        requires
            index < old(self)@.len(),
        ensures
            *label == old(self)@[index as int],
            final(self)@ == old(self)@.update(index as int, *final(label)),
    {
        &mut self.labels[index]
    }

    /// The solution with the given labels.
    pub fn from(value: Vec<Option<usize>>) -> (solution: Self)
        ensures
            solution@ == value@,
    {
        Solution { labels: value }
    }
}

/// The strides of a function table over `vars` (row-major, the last variable fastest), counted
/// from the last variable: stride `k` is the product of the domain sizes of the last `k`
/// variables, so 1 for the last variable, then the stride of position `k - 1` times the domain
/// size of the `k`-th variable from the end.
pub open spec fn table_stride(domain_sizes: Seq<usize>, vars: Seq<usize>, k: int) -> int
    decreases k,
{
    if k <= 0 {
        1
    } else {
        table_stride(domain_sizes, vars, k - 1) * domain_sizes[vars[vars.len() - k] as int]
    }
}

/// The index that a function table over `vars` gives to the labels of `labels`, summed over the
/// first `k` positions counted from the last variable: the label of the last variable times
/// stride 0, that of the one before times stride 1, and so on.
pub open spec fn table_index(domain_sizes: Seq<usize>, vars: Seq<usize>, labels: Seq<Option<usize>>, k: int) -> int
    decreases k,
{
    if k <= 0 {
        0
    } else {
        table_index(domain_sizes, vars, labels, k - 1) + table_stride(domain_sizes, vars, k - 1)
            * labels[vars[vars.len() - k] as int]->0
    }
}

/// Computes the position in the function table of a factor over `variables` of the entry for
/// the labels of `solution`, which labels all of them, as the table indexes its entries (see
/// `table_index`).
pub fn function_table_index<T>(cfn: &CostFunctionNetwork<T>, variables: &Vec<usize>, solution: &Solution) -> (index: usize)
    requires
        solution@.len() == cfn.spec_num_variables(),
        forall|i: int| 0 <= i < variables@.len() ==> #[trigger] variables@[i] < cfn.spec_num_variables(),
        forall|i: int| 0 <= i < variables@.len() ==> (#[trigger] solution@[variables@[i] as int]) is Some,
        forall|k: int| 0 <= k < variables@.len() ==> #[trigger] table_stride(cfn.domain_sizes(), variables@, k) <= usize::MAX,
        forall|k: int|
            0 <= k <= variables@.len() ==> #[trigger] table_index(cfn.domain_sizes(), variables@, solution@, k) <= usize::MAX,
    ensures
        index == table_index(cfn.domain_sizes(), variables@, solution@, variables@.len() as int),
{
    let ghost ds = cfn.domain_sizes();
    let ghost vars = variables@;
    let n = variables.len();
    let mut strides: Vec<usize> = vec![1; n];
    let mut k: usize = 1;
    while k < n
        invariant
            vars == variables@,
            ds == cfn.domain_sizes(),
            n == vars.len(),
            1 <= k,
            k <= n || n == 0,
            strides@.len() == n,
            forall|i: int| 0 <= i < vars.len() ==> #[trigger] vars[i] < cfn.spec_num_variables(),
            forall|j: int| 0 <= j < n ==> #[trigger] table_stride(ds, vars, j) <= usize::MAX,
            forall|j: int| 0 <= j < k && j < n ==> #[trigger] strides@[j] == table_stride(ds, vars, j),
        decreases n - k,
    {
        proof {
            assert(table_stride(ds, vars, k as int) == table_stride(ds, vars, k - 1) * ds[vars[n - k] as int]);
            assert(table_stride(ds, vars, k as int) <= usize::MAX);
        }
        let value = strides[k - 1] * cfn.domain_size(variables[n - k]);
        strides.set(k, value);
        k = k + 1;
    }
    let mut index: usize = 0;
    let mut j: usize = 0;
    while j < n
        invariant
            vars == variables@,
            ds == cfn.domain_sizes(),
            n == vars.len(),
            j <= n,
            strides@.len() == n,
            solution@.len() == cfn.spec_num_variables(),
            forall|i: int| 0 <= i < vars.len() ==> #[trigger] vars[i] < cfn.spec_num_variables(),
            forall|i: int| 0 <= i < vars.len() ==> (#[trigger] solution@[vars[i] as int]) is Some,
            forall|i: int| 0 <= i < n ==> #[trigger] strides@[i] == table_stride(ds, vars, i),
            forall|i: int| 0 <= i <= n ==> #[trigger] table_index(ds, vars, solution@, i) <= usize::MAX,
            index == table_index(ds, vars, solution@, j as int),
        decreases n - j,
    {
        let variable = variables[n - 1 - j];
        let label = match solution.index(variable) {
            Some(label) => *label,
            None => 0,
        };
        proof {
            assert(table_index(ds, vars, solution@, j + 1) == index + strides@[j as int] * label);
            assert(table_index(ds, vars, solution@, j + 1) <= usize::MAX);
        }
        index = index + strides[j] * label;
        j = j + 1;
    }
    index
}

} // verus!
