use vstd::prelude::*;

use crate::tables::justified_table::rows_view;

verus! {

/// A 2-dimensional table stored contiguously in memory and indexed manually.
/// Serves to replace `Vec<Vec<T>>` in cases when inner rows might have different lengths.
pub struct JaggedTable<T> {
    index_shift: Vec<usize>,
    data: Vec<T>,
}

impl<T> View for JaggedTable<T> {
    type V = Seq<Seq<T>>;

    /// The table as a sequence of rows.
    closed spec fn view(&self) -> Seq<Seq<T>> {
        Seq::new(
            (self.index_shift@.len() - 1) as nat,
            |i: int| self.data@.subrange(self.index_shift@[i] as int, self.index_shift@[i + 1] as int),
        )
    }
}

impl<T> JaggedTable<T> {
    /// Row `i` occupies positions `index_shift[i] .. index_shift[i + 1]` of the flat data.
    pub closed spec fn wf(&self) -> bool {
        &&& self.index_shift@.len() >= 1
        &&& self.index_shift@[0] == 0
        &&& self.index_shift@.last() == self.data@.len()
        &&& forall|i: int, j: int|
            0 <= i <= j < self.index_shift@.len() ==> self.index_shift@[i] <= self.index_shift@[j]
    }

    /// The flat, row-major contents.
    pub closed spec fn flat(&self) -> Seq<T> {
        self.data@
    }

    /// Creates an empty table.
    pub fn new() -> (table: Self)
        ensures
            table.wf(),
            table@ == Seq::<Seq<T>>::empty(),
    {
        let table = JaggedTable { index_shift: vec![0; 1], data: Vec::new() };
        assert(table@ =~= Seq::<Seq<T>>::empty());
        table
    }

    /// The flat, row-major contents: the rows one after another.
    pub fn flat_iter(&self) -> (data: &[T])
        requires
            self.wf(),
        ensures
            data@ == self.flat(),
            data@ == self@.flatten(),
    {
        proof {
            self.lemma_flatten(self@.len() as int);
            assert(self.data@.subrange(0, self.data@.len() as int) =~= self.data@);
            assert(self@.take(self@.len() as int) =~= self@);
        }
        self.data.as_slice()
    }

    proof fn lemma_flatten(&self, k: int)
        requires
            self.wf(),
            0 <= k <= self@.len(),
        ensures
            self@.take(k).flatten() == self.data@.subrange(0, self.index_shift@[k] as int),
        decreases k,
    {
        if k > 0 {
            self.lemma_flatten(k - 1);
            let rows = self@.take(k);
            self@.take(k - 1).lemma_flatten_push(self@[k - 1]);
            assert(self@.take(k - 1).push(self@[k - 1]) =~= rows);
            assert(self.data@.subrange(0, self.index_shift@[k - 1] as int) + self@[k - 1]
                =~= self.data@.subrange(0, self.index_shift@[k] as int));
        } else {
            assert(self@.take(0) =~= Seq::<Seq<T>>::empty());
            assert(self.data@.subrange(0, 0) =~= Seq::<T>::empty());
        }
    }

    /// Computes the position in the flat contents of the entry at `index`.
    fn internal_index(&self, index: [usize; 2]) -> (internal: usize)
        requires
            self.wf(),
            index[0] < self@.len(),
            index[1] < self@[index[0] as int].len(),
        ensures
            internal == self.index_shift@[index[0] as int] + index[1],
            internal < self.data@.len(),
    {
        let internal_index = self.index_shift[index[0]] + index[1];
        internal_index
    }

    /// Number of rows.
    pub fn len(&self) -> (len: usize)
        requires
            self.wf(),
        ensures
            len == self@.len(),
    {
        self.index_shift.len() - 1
    }

    /// Length of row `index` (0 for an empty row).
    pub fn inner_len(&self, index: usize) -> (len: usize)
        requires
            self.wf(),
            index < self@.len(),
        ensures
            len == self@[index as int].len(),
    {
        assert(self.index_shift.len() == self.index_shift@.len());
        self.index_shift[index + 1] - self.index_shift[index]
    }

    /// The entry at `index` (row, column).
    pub fn index(&self, index: [usize; 2]) -> (value: &T)
        requires
            self.wf(),
            index[0] < self@.len(),
            index[1] < self@[index[0] as int].len(),
        ensures
            *value == self@[index[0] as int][index[1] as int],
    {
        let internal_index = self.internal_index(index);
        &self.data[internal_index]
    }

    /// A mutable reference to the entry at `index` (row, column).
    pub fn index_mut(&mut self, index: [usize; 2]) -> (value: &mut T)
        requires
            old(self).wf(),
            index[0] < old(self)@.len(),
            index[1] < old(self)@[index[0] as int].len(),
        ensures
            *value == old(self)@[index[0] as int][index[1] as int],
            final(self).wf(),
            final(self)@ == old(self)@.update(
                index[0] as int,
                old(self)@[index[0] as int].update(index[1] as int, *final(value)),
            ),
    {
        let idx = self.internal_index(index);
        proof {
            let before = *self;
            assert forall|after: Self, x: T|
                #![trigger after@, before.data@.update(idx as int, x)]
                after.index_shift == before.index_shift && after.data@ == before.data@.update(
                    idx as int,
                    x,
                ) implies after.wf() && after@ == before@.update(
                index[0] as int,
                before@[index[0] as int].update(index[1] as int, x),
            ) by {
                before.lemma_update(after, index[0] as int, index[1] as int, x);
            }
        }
        &mut self.data[idx]
    }

    /// Writing `x` at the flat position of cell (`i0`, `j0`) writes that cell and no other.
    proof fn lemma_update(self, after: Self, i0: int, j0: int, x: T)
        requires
            self.wf(),
            0 <= i0 < self@.len(),
            0 <= j0 < self@[i0].len(),
            after.index_shift == self.index_shift,
            after.data@ == self.data@.update(self.index_shift@[i0] + j0, x),
        ensures
            after.wf(),
            after@ == self@.update(i0, self@[i0].update(j0, x)),
    {
        let expected = self@.update(i0, self@[i0].update(j0, x));
        assert forall|i: int| 0 <= i < after@.len() implies #[trigger] after@[i] =~= expected[i] by {
            assert forall|j: int| 0 <= j < after@[i].len() implies #[trigger] after@[i][j]
                == expected[i][j] by {
                if i < i0 {
                    assert(self.index_shift@[i + 1] <= self.index_shift@[i0]);
                } else if i > i0 {
                    assert(self.index_shift@[i0 + 1] <= self.index_shift@[i]);
                }
            }
        }
        assert(after@ =~= expected);
    }

    /// Builds a table from its rows.
    pub fn from(value: Vec<Vec<T>>) -> (table: Self)
        ensures
            table.wf(),
            table@ == rows_view(value@),
    {
        let ghost rows = value@;
        let mut index_shift: Vec<usize> = Vec::new();
        index_shift.push(0);
        let mut data: Vec<T> = Vec::new();
        for row in it: value
            invariant
                rows == it.seq(),
                index_shift@.len() == it.index() + 1,
                index_shift@[0] == 0,
                index_shift@.last() == data@.len(),
                forall|i: int, j: int|
                    0 <= i <= j < index_shift@.len() ==> index_shift@[i] <= index_shift@[j],
                forall|i: int|
                    0 <= i < it.index() ==> #[trigger] data@.subrange(
                        index_shift@[i] as int,
                        index_shift@[i + 1] as int,
                    ) == rows[i]@,
        {
            let ghost k = it.index() as int;
            let ghost old_data = data@;
            let ghost old_shift = index_shift@;
            let mut row = row;
            assert(row == rows[k]);
            data.append(&mut row);
            index_shift.push(data.len());
            assert forall|i: int| 0 <= i < k + 1 implies #[trigger] data@.subrange(
                index_shift@[i] as int,
                index_shift@[i + 1] as int,
            ) == rows[i]@ by {
                if i < k {
                    assert(old_shift[i + 1] <= old_shift[k]);
                    assert(data@.subrange(index_shift@[i] as int, index_shift@[i + 1] as int)
                        =~= old_data.subrange(old_shift[i] as int, old_shift[i + 1] as int));
                } else {
                    assert(data@.subrange(index_shift@[i] as int, index_shift@[i + 1] as int)
                        =~= rows[k]@);
                }
            }
        }
        let table = JaggedTable { index_shift, data };
        assert(table@ =~= rows_view(rows));
        table
    }
}

} // verus!
