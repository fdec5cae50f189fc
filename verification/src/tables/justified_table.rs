use vstd::prelude::*;

verus! {

/// A 2-dimensional table stored contiguously in memory and indexed manually.
/// Serves to replace `Vec<Vec<T>>` in cases when all inner rows have the same length.
pub struct JustifiedTable<T> {
    index_shift: usize,
    data: Vec<T>,
}

/// Every row of `rows` has length `width`.
pub open spec fn rows_have_width<T>(rows: Seq<Vec<T>>, width: nat) -> bool {
    forall|i: int| 0 <= i < rows.len() ==> (#[trigger] rows[i])@.len() == width
}

/// The rows of `rows`, each as a sequence.
pub open spec fn rows_view<T>(rows: Seq<Vec<T>>) -> Seq<Seq<T>> {
    rows.map_values(|r: Vec<T>| r@)
}

/// Distinct cells of a table with rows of length `w` sit at distinct flat positions.
pub proof fn lemma_distinct_positions(w: int, i: int, j: int, i0: int, j0: int)
    requires
        0 <= i,
        0 <= i0,
        0 <= j < w,
        0 <= j0 < w,
        i != i0 || j != j0,
    ensures
        i * w + j != i0 * w + j0,
{
    if i < i0 {
        assert(i * w + j < i0 * w) by (nonlinear_arith)
            requires
                i < i0,
                0 <= j < w,
        ;
    } else if i0 < i {
        assert(i0 * w + j0 < i * w) by (nonlinear_arith)
            requires
                i0 < i,
                0 <= j0 < w,
        ;
    }
}

impl<T> View for JustifiedTable<T> {
    type V = Seq<Seq<T>>;

    /// The table as a sequence of rows.
    closed spec fn view(&self) -> Seq<Seq<T>> {
        let w = self.index_shift as int;
        Seq::new(
            self.rows(),
            |i: int| Seq::new(self.index_shift as nat, |j: int| self.data@[i * w + j]),
        )
    }
}

impl<T> JustifiedTable<T> {
    /// The stored data splits into whole rows.
    pub closed spec fn wf(&self) -> bool {
        &&& self.index_shift == 0 ==> self.data@.len() == 0
        &&& self.index_shift > 0 ==> self.data@.len() % (self.index_shift as nat) == 0
    }

    closed spec fn rows(&self) -> nat {
        if self.index_shift == 0 {
            0
        } else {
            self.data@.len() / (self.index_shift as nat)
        }
    }

    /// Length of each row (the same for every row).
    pub closed spec fn spec_inner_len(&self) -> nat {
        self.index_shift as nat
    }

    /// Creates an empty table.
    pub fn new() -> (table: Self)
        ensures
            table.wf(),
            table@ == Seq::<Seq<T>>::empty(),
            table.spec_inner_len() == 0,
    {
        let table = JustifiedTable { index_shift: 0, data: Vec::new() };
        assert(table@ =~= Seq::<Seq<T>>::empty());
        table
    }

    proof fn lemma_position(&self, i: int, j: int)
        requires
            self.wf(),
            0 <= i < self.rows(),
            0 <= j < self.index_shift,
        ensures
            0 <= i * (self.index_shift as int) + j < self.data@.len(),
    {
        let w = self.index_shift as int;
        let n = self.data@.len() as int;
        assert(n == (n / w) * w) by (nonlinear_arith)
            requires
                w > 0,
                n % w == 0,
        ;
        assert(0 <= i * w + j < n) by (nonlinear_arith)
            requires
                0 <= i < n / w,
                0 <= j < w,
                n == (n / w) * w,
        ;
    }

    proof fn lemma_view(&self)
        requires
            self.wf(),
        ensures
            self@.len() == self.rows(),
            self.data@.len() == self.rows() * self.index_shift,
            forall|i: int| 0 <= i < self.rows() ==> (#[trigger] self@[i]).len() == self.index_shift,
            forall|i: int, j: int|
                0 <= i < self.rows() && 0 <= j < self.index_shift ==> #[trigger] self@[i][j]
                    == self.data@[i * (self.index_shift as int) + j],
    {
        let w = self.index_shift as int;
        let n = self.data@.len() as int;
        if w > 0 {
            assert(n == (n / w) * w) by (nonlinear_arith)
                requires
                    w > 0,
                    n % w == 0,
            ;
        }
    }

    /// The flat, row-major contents.
    pub fn flat_iter(&self) -> (data: &[T])
        requires
            self.wf(),
        ensures
            data@.len() == self@.len() * self.spec_inner_len(),
            forall|i: int, j: int|
                0 <= i < self@.len() && 0 <= j < self.spec_inner_len() ==> self@[i][j]
                    == #[trigger] data@[i * (self.spec_inner_len() as int) + j],
    {
        proof {
            self.lemma_view();
        }
        self.data.as_slice()
    }

    /// Computes the position in the flat contents of the entry at `index`.
    fn internal_index(&self, index: [usize; 2]) -> (internal: usize)
        requires
            self.wf(),
            index[0] < self@.len(),
            index[1] < self.spec_inner_len(),
        ensures
            internal == index[0] * self.index_shift + index[1],
            internal < self.data@.len(),
    {
        proof {
            self.lemma_position(index[0] as int, index[1] as int);
            assert(self.index_shift * index[0] == index[0] * self.index_shift) by (nonlinear_arith);
            assert(self.data.len() == self.data@.len());
        }
        self.index_shift * index[0] + index[1]
    }

    /// Number of rows.
    pub fn len(&self) -> (len: usize)
        requires
            self.wf(),
        ensures
            len == self@.len(),
    {
        if self.index_shift != 0 {
            self.data.len() / self.index_shift
        } else {
            0
        }
    }

    /// Length of row `index`.
    pub fn inner_len(&self, index: usize) -> (len: usize)
        requires
            self.wf(),
            index < self@.len(),
        ensures
            len == self@[index as int].len(),
            len == self.spec_inner_len(),
    {
        let _ = self.internal_index([index, 0]);
        self.index_shift
    }

    /// The entry at `index` (row, column).
    pub fn index(&self, index: [usize; 2]) -> (value: &T)
        requires
            self.wf(),
            index[0] < self@.len(),
            index[1] < self.spec_inner_len(),
        ensures
            *value == self@[index[0] as int][index[1] as int],
    {
        let internal = self.internal_index(index);
        &self.data[internal]
    }

    /// A mutable reference to the entry at `index` (row, column).
    pub fn index_mut(&mut self, index: [usize; 2]) -> (value: &mut T)
        requires
            old(self).wf(),
            index[0] < old(self)@.len(),
            index[1] < old(self).spec_inner_len(),
        ensures
            *value == old(self)@[index[0] as int][index[1] as int],
            final(self).wf(),
            final(self).spec_inner_len() == old(self).spec_inner_len(),
            final(self)@ == old(self)@.update(
                index[0] as int,
                old(self)@[index[0] as int].update(index[1] as int, *final(value)),
            ),
    {
        let internal = self.internal_index(index);
        proof {
            let before = *self;
            before.lemma_view();
            assert forall|after: Self, x: T|
                #![trigger after@, before.data@.update(internal as int, x)]
                after.index_shift == before.index_shift && after.data@ == before.data@.update(
                    internal as int,
                    x,
                ) implies after.wf() && after@ == before@.update(
                index[0] as int,
                before@[index[0] as int].update(index[1] as int, x),
            ) by {
                before.lemma_update(after, index[0] as int, index[1] as int, x);
            }
        }
        &mut self.data[internal]
    }

    /// Writing `x` at the flat position of cell (`i0`, `j0`) writes that cell and no other.
    proof fn lemma_update(self, after: Self, i0: int, j0: int, x: T)
        requires
            self.wf(),
            0 <= i0 < self@.len(),
            0 <= j0 < self.index_shift,
            after.index_shift == self.index_shift,
            after.data@ == self.data@.update(i0 * (self.index_shift as int) + j0, x),
        ensures
            after.wf(),
            after@ == self@.update(i0, self@[i0].update(j0, x)),
    {
        let w = self.index_shift as int;
        let expected = self@.update(i0, self@[i0].update(j0, x));
        self.lemma_view();
        self.lemma_position(i0, j0);
        assert(after.data@.len() == self.data@.len());
        after.lemma_view();
        assert forall|i: int| 0 <= i < self.rows() implies #[trigger] after@[i] =~= expected[i] by {
            assert forall|j: int| 0 <= j < w implies #[trigger] after@[i][j] == expected[i][j] by {
                assert(after@[i][j] == after.data@[i * w + j]);
                assert(self@[i][j] == self.data@[i * w + j]);
                if i != i0 || j != j0 {
                    lemma_distinct_positions(w, i, j, i0, j0);
                    self.lemma_position(i, j);
                }
            }
        }
        assert(after@ =~= expected);
    }

    /// Builds a table from its rows, which must all have the same length.
    pub fn from(value: Vec<Vec<T>>) -> (table: Self)
        requires
            value.len() > 0 ==> rows_have_width(value@, value@[0]@.len()),
        ensures
            table.wf(),
            value.len() == 0 ==> table@ == Seq::<Seq<T>>::empty() && table.spec_inner_len() == 0,
            value.len() > 0 ==> table.spec_inner_len() == value@[0]@.len(),
            value.len() > 0 && value@[0]@.len() > 0 ==> table@ == rows_view(value@),
            value.len() > 0 && value@[0]@.len() == 0 ==> table@ == Seq::<Seq<T>>::empty(),
    {
        if value.len() == 0 {
            return JustifiedTable::new();
        }
        let index_shift = value[0].len();
        let ghost rows = value@;
        let ghost w = index_shift as int;
        let mut data: Vec<T> = Vec::new();
        for row in it: value
            invariant
                rows == it.seq(),
                rows.len() > 0,
                rows_have_width(rows, w as nat),
                w == rows[0]@.len(),
                data@.len() == it.index() * w,
                forall|a: int, b: int|
                    0 <= a < it.index() && 0 <= b < w ==> #[trigger] data@[a * w + b]
                        == rows[a]@[b],
        {
            let ghost k = it.index() as int;
            let mut row = row;
            assert(row == rows[k]);
            data.append(&mut row);
            assert forall|a: int, b: int| 0 <= a < k + 1 && 0 <= b < w implies #[trigger] data@[a
                * w + b] == rows[a]@[b] by {
                if a < k {
                    assert(0 <= a * w + b < k * w) by (nonlinear_arith)
                        requires
                            0 <= a < k,
                            0 <= b < w,
                    ;
                }
            }
            assert((k + 1) * w == k * w + w) by (nonlinear_arith);
        }
        let table = JustifiedTable { index_shift, data };
        proof {
            let n = rows.len() as int;
            if w > 0 {
                assert((n * w) % w == 0 && (n * w) / w == n) by (nonlinear_arith)
                    requires
                        w > 0,
                        n >= 0,
                ;
                table.lemma_view();
                assert forall|i: int| 0 <= i < n implies #[trigger] table@[i] =~= rows_view(rows)[i] by {
                    assert forall|j: int| 0 <= j < w implies #[trigger] table@[i][j] == rows[i]@[j] by {
                        assert(table@[i][j] == table.data@[i * w + j]);
                    }
                }
                assert(table@ =~= rows_view(rows));
            } else {
                assert(table@ =~= Seq::<Seq<T>>::empty());
            }
        }
        table
    }
}

} // verus!
