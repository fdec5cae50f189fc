use vstd::prelude::*;

use crate::data_structures::bits::max_bits;
use crate::data_structures::compressed_bit_table::CompressedBitTable;
use crate::tables::jagged_table::JaggedTable;
use crate::tables::justified_table::{rows_have_width, rows_view};

verus! {

/// A binary constraint satisfaction problem.
///
/// Unary constraints are indexed by variable, then label (true = consistent).
/// Binary constraints are indexed by two variables `(var_x, var_y)` in upper-triangular fashion:
/// * `var_x == var_y` is impossible (because the constraint is binary),
/// * `var_x > var_y` is swapped to ensure `var_x <= var_y` (because order doesn't matter), and
///   the labels with them: a table stored for `(var_x, var_y)` is indexed by the label of the
///   smaller variable first,
/// * `var_y` is replaced by `var_y - var_x - 1`, because all earlier entries do not exist.
/// A missing binary constraint (`None`) means that every pair of labels is consistent.
///
/// All variables share one domain size: that of the unary constraint table.
pub struct BinaryCSP {
    unary_constraints: CompressedBitTable,
    binary_constraints: JaggedTable<Option<CompressedBitTable>>,
}

/// Every row of `rows` is all `true` and has length `width`.
pub open spec fn all_true_rows(rows: Seq<Seq<bool>>, width: nat) -> bool {
    forall|i: int| 0 <= i < rows.len() ==> #[trigger] rows[i] == Seq::new(width, |j: int| true)
}

/// A stored constraint table, if any, is well formed.
pub open spec fn entry_wf(entry: Option<CompressedBitTable>) -> bool {
    match entry {
        Some(t) => t.wf(),
        None => true,
    }
}

/// A stored constraint table, if any, has at least `size` rows of at least `size` entries.
pub open spec fn entry_covers(entry: Option<CompressedBitTable>, size: nat) -> bool {
    match entry {
        Some(t) => t@.len() >= size && forall|r: int| 0 <= r < t@.len() ==> #[trigger] t@[r].len() >= size,
        None => true,
    }
}

/// A stored constraint table, if any, has an entry at (`label_x`, `label_y`).
pub open spec fn entry_has(entry: Option<CompressedBitTable>, label_x: int, label_y: int) -> bool {
    match entry {
        Some(t) => 0 <= label_x < t@.len() && 0 <= label_y < t@[label_x].len(),
        None => true,
    }
}

/// A triangular table of absent binary constraints for `num_variables` variables.
fn empty_binary_constraints(num_variables: usize) -> (table: JaggedTable<Option<CompressedBitTable>>)
    ensures
        table.wf(),
        table@.len() == num_variables,
        forall|x: int|
            0 <= x < num_variables ==> (#[trigger] table@[x]).len() == num_variables - x - 1,
        forall|x: int, k: int|
            0 <= x < num_variables && 0 <= k < table@[x].len() ==> (#[trigger] table@[x][k]).is_none(),
{
    let mut rows: Vec<Vec<Option<CompressedBitTable>>> = Vec::new();
    for var in 0..num_variables
        invariant
            rows@.len() == var,
            forall|x: int| 0 <= x < var ==> (#[trigger] rows@[x])@.len() == num_variables - x - 1,
            forall|x: int, k: int|
                0 <= x < var && 0 <= k < rows@[x]@.len() ==> (#[trigger] rows@[x]@[k]).is_none(),
    {
        let mut row: Vec<Option<CompressedBitTable>> = Vec::new();
        let row_len = num_variables - var - 1;
        for k in 0..row_len
            invariant
                row@.len() == k,
                forall|i: int| 0 <= i < k ==> (#[trigger] row@[i]).is_none(),
        {
            row.push(None);
        }
        rows.push(row);
    }
    let ghost rs = rows@;
    let table = JaggedTable::from(rows);
    assert forall|x: int| 0 <= x < num_variables implies (#[trigger] table@[x]).len() == num_variables
        - x - 1 by {
        assert(table@[x] == rs[x]@);
    }
    assert forall|x: int, k: int|
        0 <= x < num_variables && 0 <= k < table@[x].len() implies (#[trigger] table@[x][k]).is_none() by {
        assert(table@[x] == rs[x]@);
    }
    table
}

/// The columns of `rows` (each of length `width`) as rows.
pub open spec fn transposed(rows: Seq<Seq<bool>>, width: nat) -> Seq<Seq<bool>> {
    Seq::new(width, |j: int| Seq::new(rows.len(), |i: int| rows[i][j]))
}

/// The transposed table of `rows`, which are nonempty and all of the same length.
fn transpose(rows: &Vec<Vec<bool>>) -> (columns: Vec<Vec<bool>>)
    requires
        rows.len() > 0,
        rows_have_width(rows@, rows@[0]@.len()),
    ensures
        columns@.len() == rows@[0]@.len(),
        rows_have_width(columns@, rows@.len()),
        rows_view(columns@) == transposed(rows_view(rows@), rows@[0]@.len()),
{
    let width = rows[0].len();
    let mut columns: Vec<Vec<bool>> = Vec::new();
    for j in 0..width
        invariant
            width == rows@[0]@.len(),
            rows_have_width(rows@, width as nat),
            columns@.len() == j,
            forall|c: int| 0 <= c < j ==> (#[trigger] columns@[c])@.len() == rows@.len(),
            forall|c: int, i: int|
                #![trigger columns@[c]@[i]]
                0 <= c < j && 0 <= i < rows@.len() ==> columns@[c]@[i] == rows@[i]@[c],
    {
        let mut column: Vec<bool> = Vec::new();
        for i in 0..rows.len()
            invariant
                width == rows@[0]@.len(),
                rows_have_width(rows@, width as nat),
                j < width,
                column@.len() == i,
                forall|k: int| 0 <= k < i ==> column@[k] == rows@[k]@[j as int],
        {
            assert(rows@[i as int]@.len() == width);
            column.push(rows[i][j]);
        }
        columns.push(column);
    }
    let ghost t = transposed(rows_view(rows@), width as nat);
    assert forall|c: int| 0 <= c < width implies #[trigger] rows_view(columns@)[c] =~= t[c] by {}
    assert(rows_view(columns@) =~= t);
    columns
}

impl BinaryCSP {
    /// The constraint tables are consistent with each other.
    pub closed spec fn wf(&self) -> bool {
        let n = self.binary_constraints@.len();
        &&& self.unary_constraints.wf()
        &&& self.binary_constraints.wf()
        &&& self.unary_constraints@.len() <= n
        &&& forall|x: int| 0 <= x < n ==> (#[trigger] self.binary_constraints@[x]).len() == n - x - 1
        &&& forall|x: int, k: int|
            0 <= x < n && 0 <= k < self.binary_constraints@[x].len() ==> entry_wf(
                #[trigger] self.binary_constraints@[x][k],
            )
    }

    /// Number of variables.
    pub closed spec fn spec_num_variables(&self) -> nat {
        self.unary_constraints@.len()
    }

    /// Size of the (common) domain of the variables.
    pub closed spec fn spec_domain_size(&self) -> nat {
        self.unary_constraints.spec_inner_len()
    }

    /// Whether `label` of `var` satisfies the unary constraint.
    pub closed spec fn unary(&self, var: int, label: int) -> bool {
        self.unary_constraints@[var][label]
    }

    /// The stored binary constraint between `var_x` and `var_y` (in either order).
    pub closed spec fn constraint(&self, var_x: int, var_y: int) -> Option<CompressedBitTable> {
        let (a, b) = if var_x <= var_y { (var_x, var_y) } else { (var_y, var_x) };
        self.binary_constraints@[a][b - a - 1]
    }

    /// Whether labels `label_x` of `var_x` and `label_y` of `var_y` are consistent: true when
    /// no binary constraint exists, else the constraint table's entry at the labels of the
    /// smaller variable, then of the larger one (so the order of the pair does not matter).
    pub open spec fn binary(&self, var_x: int, var_y: int, label_x: int, label_y: int) -> bool {
        match self.constraint(var_x, var_y) {
            Some(t) => if var_x <= var_y {
                t@[label_x][label_y]
            } else {
                t@[label_y][label_x]
            },
            None => true,
        }
    }

    /// The constraint between two variables does not depend on their order, and neither does
    /// the consistency of two labels.
    pub proof fn lemma_binary_symmetric(&self, var_x: int, var_y: int, label_x: int, label_y: int)
        requires
            var_x != var_y,
        ensures
            self.constraint(var_x, var_y) == self.constraint(var_y, var_x),
            self.binary(var_x, var_y, label_x, label_y) == self.binary(var_y, var_x, label_y, label_x),
    {
    }

    /// Every stored binary constraint table covers all pairs of labels.
    pub open spec fn tables_cover_domains(&self) -> bool {
        forall|x: int, y: int|
            0 <= x < self.spec_num_variables() && 0 <= y < self.spec_num_variables() && x != y
                ==> entry_covers(#[trigger] self.constraint(x, y), self.spec_domain_size())
    }

    /// `assignment` gives every variable a label that satisfies all unary constraints and,
    /// for every ordered pair of distinct variables, the binary constraint between them.
    pub open spec fn is_solution(&self, assignment: Seq<usize>) -> bool {
        &&& assignment.len() == self.spec_num_variables()
        &&& forall|x: int|
            0 <= x < assignment.len() ==> #[trigger] assignment[x] < self.spec_domain_size()
                && self.unary(x, assignment[x] as int)
        &&& forall|x: int, y: int|
            0 <= x < assignment.len() && 0 <= y < assignment.len() && x != y ==> #[trigger] self.binary(
                x,
                y,
                assignment[x] as int,
                assignment[y] as int,
            )
    }

    /// The problem has a solution.
    pub open spec fn is_satisfiable(&self) -> bool {
        exists|assignment: Seq<usize>| self.is_solution(assignment)
    }

    /// The number of variables fits in a `usize`.
    pub proof fn lemma_num_variables_bound(&self)
        requires
            self.wf(),
        ensures
            self.spec_num_variables() <= usize::MAX,
    {
        self.unary_constraints.lemma_len_bound();
    }

    /// Initializes a binary CSP with consistent unary constraints and no binary constraints.
    /// All domain sizes must be equal.
    pub fn new(domain_sizes: &Vec<usize>) -> (csp: Self)
        requires
            forall|i: int| 0 <= i < domain_sizes@.len() ==> #[trigger] domain_sizes@[i] == domain_sizes@[0],
            domain_sizes@.len() > 0 ==> domain_sizes@.len() * domain_sizes@[0] <= max_bits(),
        ensures
            csp.wf(),
            domain_sizes@.len() > 0 ==> csp.spec_domain_size() == domain_sizes@[0],
            csp.spec_num_variables() == if domain_sizes@.len() > 0 && domain_sizes@[0] > 0 {
                domain_sizes@.len()
            } else {
                0
            },
            forall|x: int, l: int|
                0 <= x < csp.spec_num_variables() && 0 <= l < csp.spec_domain_size()
                    ==> #[trigger] csp.unary(x, l),
            forall|x: int, y: int|
                0 <= x < csp.spec_num_variables() && 0 <= y < csp.spec_num_variables() && x != y
                    ==> (#[trigger] csp.constraint(x, y)).is_none(),
    {
        let num_variables = domain_sizes.len();
        let mut unary_constraints: Vec<Vec<bool>> = Vec::new();
        for var in 0..num_variables
            invariant
                num_variables == domain_sizes@.len(),
                unary_constraints@.len() == var,
                forall|i: int| 0 <= i < var ==> #[trigger] unary_constraints@[i]@ == Seq::new(
                    domain_sizes@[i] as nat,
                    |j: int| true,
                ),
        {
            let row = vec![true; domain_sizes[var]];
            assert(row@ =~= Seq::new(domain_sizes@[var as int] as nat, |j: int| true));
            unary_constraints.push(row);
        }
        let ghost rows = unary_constraints@;
        let unary = CompressedBitTable::from(unary_constraints);
        let binary = empty_binary_constraints(num_variables);
        let csp = BinaryCSP { unary_constraints: unary, binary_constraints: binary };
        proof {
            if num_variables > 0 && domain_sizes@[0] > 0 {
                assert forall|x: int, l: int|
                    0 <= x < csp.spec_num_variables() && 0 <= l < csp.spec_domain_size()
                        implies #[trigger] csp.unary(x, l) by {
                    assert(csp.unary_constraints@[x] == rows[x]@);
                }
            }
        }
        csp
    }

    /// Initializes a binary CSP with the given unary constraints (one row of labels per
    /// variable, all rows of the same length) and no binary constraints.
    pub fn from_unary_constraints(unary_constraints: Vec<Vec<bool>>) -> (csp: Self)
        requires
            unary_constraints.len() > 0 ==> rows_have_width(
                unary_constraints@,
                unary_constraints@[0]@.len(),
            ),
            unary_constraints.len() > 0 ==> unary_constraints.len() * unary_constraints@[0]@.len()
                <= max_bits(),
        ensures
            csp.wf(),
            unary_constraints.len() > 0 ==> csp.spec_domain_size() == unary_constraints@[0]@.len(),
            unary_constraints.len() > 0 && unary_constraints@[0]@.len() > 0 ==> csp.spec_num_variables()
                == unary_constraints.len(),
            unary_constraints.len() == 0 || unary_constraints@[0]@.len() == 0
                ==> csp.spec_num_variables() == 0,
            forall|x: int, l: int|
                0 <= x < csp.spec_num_variables() && 0 <= l < csp.spec_domain_size()
                    ==> #[trigger] csp.unary(x, l) == unary_constraints@[x]@[l],
            forall|x: int, y: int|
                0 <= x < csp.spec_num_variables() && 0 <= y < csp.spec_num_variables() && x != y
                    ==> (#[trigger] csp.constraint(x, y)).is_none(),
    {
        let num_variables = unary_constraints.len();
        let ghost rows = unary_constraints@;
        let unary = CompressedBitTable::from(unary_constraints);
        let binary = empty_binary_constraints(num_variables);
        let csp = BinaryCSP { unary_constraints: unary, binary_constraints: binary };
        proof {
            if num_variables > 0 && rows[0]@.len() > 0 {
                assert(csp.unary_constraints@ == rows_view(rows));
            }
        }
        csp
    }

    /// Number of variables.
    pub fn num_variables(&self) -> (n: usize)
        requires
            self.wf(),
        ensures
            n == self.spec_num_variables(),
    {
        self.unary_constraints.len()
    }

    /// The range of all variables.
    pub fn var_range(&self) -> (range: std::ops::Range<usize>)
        requires
            self.wf(),
        ensures
            range.start == 0,
            range.end == self.spec_num_variables(),
    {
        0..self.num_variables()
    }

    /// The range of all variables after `var`.
    pub fn var_range_from(&self, var: usize) -> (range: std::ops::Range<usize>)
        requires
            self.wf(),
            var < usize::MAX,
        ensures
            range.start == var + 1,
            range.end == self.spec_num_variables(),
    {
        var + 1..self.num_variables()
    }

    /// Domain size of `var` (the same for every variable).
    pub fn domain_size(&self, var: usize) -> (size: usize)
        ensures
            size == self.spec_domain_size(),
    {
        self.unary_constraints.inner_len()
    }

    /// The range of labels of `var`.
    pub fn domain_range(&self, var: usize) -> (range: std::ops::Range<usize>)
        ensures
            range.start == 0,
            range.end == self.spec_domain_size(),
    {
        0..self.domain_size(var)
    }

    /// The two variables in increasing order.
    fn sorted_vars(&self, var_x: usize, var_y: usize) -> (sorted: (usize, usize))
        ensures
            var_x <= var_y ==> sorted == (var_x, var_y),
            var_x > var_y ==> sorted == (var_y, var_x),
    {
        match var_x <= var_y {
            true => (var_x, var_y),
            false => (var_y, var_x),
        }
    }

    /// Position of the binary constraint between two distinct variables in the triangular table.
    fn binary_constraint_index(&self, var_x: usize, var_y: usize) -> (index: (usize, usize))
        requires
            self.wf(),
            var_x != var_y,
            var_x < self.spec_num_variables(),
            var_y < self.spec_num_variables(),
        ensures
            var_x < var_y ==> index == (var_x, (var_y - var_x - 1) as usize),
            var_x > var_y ==> index == (var_y, (var_x - var_y - 1) as usize),
            index.0 < self.binary_constraints@.len(),
            index.1 < self.binary_constraints@[index.0 as int].len(),
    {
        let (var_x, var_y) = self.sorted_vars(var_x, var_y);
        (var_x, var_y - var_x - 1)
    }

    /// Sets the binary constraint between two distinct variables (given as a table of label pairs
    /// indexed by the label of `var_x`, then that of `var_y`; all rows of the same length). The
    /// table is stored indexed by the labels of the smaller variable first, so it is transposed
    /// when `var_x` is the larger one.
    pub fn add_binary_constraint(
        &mut self,
        var_x: usize,
        var_y: usize,
        binary_constraint: Vec<Vec<bool>>,
    ) -> (csp: &mut Self)
        requires
            old(self).wf(),
            var_x != var_y,
            var_x < old(self).spec_num_variables(),
            var_y < old(self).spec_num_variables(),
            binary_constraint.len() > 0 ==> rows_have_width(
                binary_constraint@,
                binary_constraint@[0]@.len(),
            ),
            binary_constraint.len() > 0 ==> binary_constraint.len() * binary_constraint@[0]@.len()
                <= max_bits(),
        ensures
            csp.wf(),
            csp.spec_num_variables() == old(self).spec_num_variables(),
            csp.spec_domain_size() == old(self).spec_domain_size(),
            forall|x: int, l: int| #[trigger] csp.unary(x, l) == old(self).unary(x, l),
            csp.constraint(var_x as int, var_y as int) matches Some(t) && (
            binary_constraint.len() > 0 && binary_constraint@[0]@.len() > 0 ==> t@ == if var_x < var_y {
                rows_view(binary_constraint@)
            } else {
                transposed(rows_view(binary_constraint@), binary_constraint@[0]@.len())
            }) && (binary_constraint.len() == 0 || binary_constraint@[0]@.len() == 0 ==> t@.len()
                == 0),
            forall|lx: int, ly: int|
                0 <= lx < binary_constraint.len() && 0 <= ly < binary_constraint@[lx]@.len() ==> #[trigger] csp.binary(
                    var_x as int,
                    var_y as int,
                    lx,
                    ly,
                ) == binary_constraint@[lx]@[ly],
            forall|x: int, y: int|
                0 <= x < csp.spec_num_variables() && 0 <= y < csp.spec_num_variables() && x != y
                    && !((x == var_x && y == var_y) || (x == var_y && y == var_x))
                    ==> #[trigger] csp.constraint(x, y) == old(self).constraint(x, y),
            *final(self) == *final(csp),
    {
        let ghost rows = binary_constraint@;
        let ghost original_x = var_x;
        let ghost original_y = var_y;
        let oriented = if var_x < var_y || binary_constraint.len() == 0 {
            binary_constraint
        } else {
            transpose(&binary_constraint)
        };
        proof {
            if oriented@.len() > 0 && !(original_x < original_y) {
                let w = rows[0]@.len();
                assert(oriented@[0]@.len() == rows.len());
                assert(oriented@.len() * oriented@[0]@.len() == rows.len() * w) by (nonlinear_arith)
                    requires oriented@.len() == w, oriented@[0]@.len() == rows.len();
            }
        }
        let (var_x, var_y) = self.binary_constraint_index(var_x, var_y);
        let table = CompressedBitTable::from(oriented);
        let ghost before = *self;
        *self.binary_constraints.index_mut([var_x, var_y]) = Some(table);
        proof {
            let n = self.binary_constraints@.len();
            assert forall|x: int, k: int|
                0 <= x < n && 0 <= k < self.binary_constraints@[x].len() implies entry_wf(
                    #[trigger] self.binary_constraints@[x][k],
                ) by {
                if x != var_x || k != var_y {
                    assert(self.binary_constraints@[x][k] == before.binary_constraints@[x][k]);
                }
            }
            assert forall|x: int, y: int|
                0 <= x < self.spec_num_variables() && 0 <= y < self.spec_num_variables() && x != y
                    && !((x == var_x && y == var_y + var_x + 1) || (x == var_y + var_x + 1 && y == var_x))
                    implies #[trigger] self.constraint(x, y) == before.constraint(x, y) by {
                let (a, b) = if x <= y { (x, y) } else { (y, x) };
                assert(a != var_x || b - a - 1 != var_y);
            }
            assert(self.constraint(original_x as int, original_y as int) == Some(table));
            if rows.len() > 0 && rows[0]@.len() > 0 {
                let w = rows[0]@.len();
                assert forall|lx: int, ly: int| 0 <= lx < rows.len() && 0 <= ly < rows[lx]@.len() implies #[trigger] self.binary(
                    original_x as int,
                    original_y as int,
                    lx,
                    ly,
                ) == rows[lx]@[ly] by {
                    assert(rows[lx]@.len() == w);
                }
            } else if rows.len() > 0 {
                assert forall|lx: int, ly: int| 0 <= lx < rows.len() && 0 <= ly < rows[lx]@.len() implies #[trigger] self.binary(
                    original_x as int,
                    original_y as int,
                    lx,
                    ly,
                ) == rows[lx]@[ly] by {
                    assert(rows[lx]@.len() == 0);
                }
            }
        }
        self
    }

    /// Whether `label` of `var` satisfies the unary constraint.
    pub fn is_unary_satisfied(&self, var: usize, label: usize) -> (satisfied: &bool)
        requires
            self.wf(),
            var < self.spec_num_variables(),
            label < self.spec_domain_size(),
        ensures
            *satisfied == self.unary(var as int, label as int),
    {
        self.unary_constraints.get([var, label])
    }

    /// Whether labels `label_x` of `var_x` and `label_y` of `var_y` satisfy the binary constraint
    /// between the two variables (true when there is none).
    pub fn is_binary_satisfied(
        &self,
        var_x: usize,
        var_y: usize,
        label_x: usize,
        label_y: usize,
    ) -> (satisfied: bool)
        requires
            self.wf(),
            var_x != var_y,
            var_x < self.spec_num_variables(),
            var_y < self.spec_num_variables(),
            var_x < var_y ==> entry_has(self.constraint(var_x as int, var_y as int), label_x as int, label_y as int),
            var_x > var_y ==> entry_has(self.constraint(var_x as int, var_y as int), label_y as int, label_x as int),
        ensures
            satisfied == self.binary(var_x as int, var_y as int, label_x as int, label_y as int),
    {
        let (label_a, label_b) = if var_x < var_y {
            (label_x, label_y)
        } else {
            (label_y, label_x)
        };
        let (var_x, var_y) = self.binary_constraint_index(var_x, var_y);
        match self.binary_constraints.index([var_x, var_y]) {
            Some(table) => {
                proof {
                    assert(table.wf());
                    table.lemma_row_lengths();
                }
                *table.get([label_a, label_b])
            },
            None => true,
        }
    }

    /// Whether a binary constraint between `var_x` and `var_y` is stored.
    pub fn exists_binary_constraint(&self, var_x: usize, var_y: usize) -> (exists: bool)
        requires
            self.wf(),
            var_x != var_y,
            var_x < self.spec_num_variables(),
            var_y < self.spec_num_variables(),
        ensures
            exists == self.constraint(var_x as int, var_y as int).is_some(),
    {
        let (var_x, var_y) = self.binary_constraint_index(var_x, var_y);
        self.binary_constraints.index([var_x, var_y]).is_some()
    }
}

} // verus!
