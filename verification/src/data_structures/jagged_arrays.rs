use vstd::prelude::*;

use crate::data_structures::bits::{bits, bitvec_index, bitvec_len, bitvec_new, bitvec_push, bitvec_set, max_bits, BitStorage};
use crate::tables::justified_table::rows_view;

verus! {

/// A 2-dimensional array stored contiguously in memory and indexed manually.
/// Serves to replace `Vec<Vec<T>>` in cases when inner rows might have different lengths.
pub struct JaggedArray2<T> {
    index_shift: Vec<usize>,
    data: Vec<T>,
}

impl<T> View for JaggedArray2<T> {
    type V = Seq<Seq<T>>;

    /// The table as a sequence of rows.
    closed spec fn view(&self) -> Seq<Seq<T>> {
        Seq::new(
            (self.index_shift@.len() - 1) as nat,
            |i: int| self.data@.subrange(self.index_shift@[i] as int, self.index_shift@[i + 1] as int),
        )
    }
}

impl<T> JaggedArray2<T> {
    /// Row `i` occupies positions `index_shift[i] .. index_shift[i + 1]` of the flat data.
    pub closed spec fn wf(&self) -> bool {
        &&& self.index_shift@.len() >= 1
        &&& self.index_shift@[0] == 0
        &&& self.index_shift@.last() == self.data@.len()
        &&& forall|i: int, j: int|
            0 <= i <= j < self.index_shift@.len() ==> self.index_shift@[i] <= self.index_shift@[j]
    }

    /// The flat, row-major contents.
    pub closed spec fn flat(&self) -> Seq<T> {
        self.data@
    }

    /// Creates an empty table.
    pub fn new() -> (table: Self)
        ensures
            table.wf(),
            table@ == Seq::<Seq<T>>::empty(),
    {
        let table = JaggedArray2 { index_shift: vec![0; 1], data: Vec::new() };
        assert(table@ =~= Seq::<Seq<T>>::empty());
        table
    }

    /// Computes the position in the flat contents of the entry at `index`.
    fn internal_index(&self, index: [usize; 2]) -> (internal: usize)
        requires
            self.wf(),
            index[0] < self@.len(),
            index[1] < self@[index[0] as int].len(),
        ensures
            internal == self.index_shift@[index[0] as int] + index[1],
            internal < self.data@.len(),
    {
        let internal_index = self.index_shift[index[0]] + index[1];
        internal_index
    }

    /// Number of rows.
    pub fn len(&self) -> (len: usize)
        requires
            self.wf(),
        ensures
            len == self@.len(),
    {
        self.index_shift.len() - 1
    }

    /// Length of row `index`.
    pub fn inner_len(&self, index: usize) -> (len: usize)
        requires
            self.wf(),
            index < self@.len(),
        ensures
            len == self@[index as int].len(),
    {
        assert(self.index_shift.len() == self.index_shift@.len());
        self.index_shift[index + 1] - self.index_shift[index]
    }

    /// The entry at `index` (row, column).
    pub fn get(&self, index: [usize; 2]) -> (value: &T)
        requires
            self.wf(),
            index[0] < self@.len(),
            index[1] < self@[index[0] as int].len(),
        ensures
            *value == self@[index[0] as int][index[1] as int],
    {
        let internal_index = self.internal_index(index);
        &self.data[internal_index]
    }

    /// A mutable reference to the entry at `index` (row, column).
    pub fn get_mut(&mut self, index: [usize; 2]) -> (value: &mut T)
        requires
            old(self).wf(),
            index[0] < old(self)@.len(),
            index[1] < old(self)@[index[0] as int].len(),
        ensures
            *value == old(self)@[index[0] as int][index[1] as int],
            final(self).wf(),
            final(self)@ == old(self)@.update(
                index[0] as int,
                old(self)@[index[0] as int].update(index[1] as int, *final(value)),
            ),
    {
        let idx = self.internal_index(index);
        proof {
            let before = *self;
            assert forall|after: Self, x: T|
                #![trigger after@, before.data@.update(idx as int, x)]
                after.index_shift == before.index_shift && after.data@ == before.data@.update(
                    idx as int,
                    x,
                ) implies after.wf() && after@ == before@.update(
                index[0] as int,
                before@[index[0] as int].update(index[1] as int, x),
            ) by {
                before.lemma_update(after, index[0] as int, index[1] as int, x);
            }
        }
        &mut self.data[idx]
    }

    /// Overwrites the entry at `index` (row, column).
    pub fn set(&mut self, index: [usize; 2], value: T)
        requires
            old(self).wf(),
            index[0] < old(self)@.len(),
            index[1] < old(self)@[index[0] as int].len(),
        ensures
            final(self).wf(),
            final(self)@ == old(self)@.update(
                index[0] as int,
                old(self)@[index[0] as int].update(index[1] as int, value),
            ),
    {
        let internal_index = self.internal_index(index);
        let ghost before = *self;
        self.data.set(internal_index, value);
        proof {
            before.lemma_update(*self, index[0] as int, index[1] as int, value);
        }
    }

    /// Writing `x` at the flat position of cell (`i0`, `j0`) writes that cell and no other.
    proof fn lemma_update(self, after: Self, i0: int, j0: int, x: T)
        requires
            self.wf(),
            0 <= i0 < self@.len(),
            0 <= j0 < self@[i0].len(),
            after.index_shift == self.index_shift,
            after.data@ == self.data@.update(self.index_shift@[i0] + j0, x),
        ensures
            after.wf(),
            after@ == self@.update(i0, self@[i0].update(j0, x)),
    {
        let expected = self@.update(i0, self@[i0].update(j0, x));
        assert forall|i: int| 0 <= i < after@.len() implies #[trigger] after@[i] =~= expected[i] by {
            assert forall|j: int| 0 <= j < after@[i].len() implies #[trigger] after@[i][j]
                == expected[i][j] by {
                if i < i0 {
                    assert(self.index_shift@[i + 1] <= self.index_shift@[i0]);
                } else if i > i0 {
                    assert(self.index_shift@[i0 + 1] <= self.index_shift@[i]);
                }
            }
        }
        assert(after@ =~= expected);
    }

    /// Builds a table from its rows.
    pub fn from(value: Vec<Vec<T>>) -> (table: Self)
        ensures
            table.wf(),
            table@ == rows_view(value@),
    {
        let ghost rows = value@;
        let mut index_shift: Vec<usize> = Vec::new();
        index_shift.push(0);
        let mut data: Vec<T> = Vec::new();
        for row in it: value
            invariant
                rows == it.seq(),
                index_shift@.len() == it.index() + 1,
                index_shift@[0] == 0,
                index_shift@.last() == data@.len(),
                forall|i: int, j: int|
                    0 <= i <= j < index_shift@.len() ==> index_shift@[i] <= index_shift@[j],
                forall|i: int|
                    0 <= i < it.index() ==> #[trigger] data@.subrange(
                        index_shift@[i] as int,
                        index_shift@[i + 1] as int,
                    ) == rows[i]@,
        {
            let ghost k = it.index() as int;
            let ghost old_data = data@;
            let ghost old_shift = index_shift@;
            let mut row = row;
            assert(row == rows[k]);
            data.append(&mut row);
            index_shift.push(data.len());
            assert forall|i: int| 0 <= i < k + 1 implies #[trigger] data@.subrange(
                index_shift@[i] as int,
                index_shift@[i + 1] as int,
            ) == rows[i]@ by {
                if i < k {
                    assert(old_shift[i + 1] <= old_shift[k]);
                    assert(data@.subrange(index_shift@[i] as int, index_shift@[i + 1] as int)
                        =~= old_data.subrange(old_shift[i] as int, old_shift[i + 1] as int));
                } else {
                    assert(data@.subrange(index_shift@[i] as int, index_shift@[i + 1] as int)
                        =~= rows[k]@);
                }
            }
        }
        let table = JaggedArray2 { index_shift, data };
        assert(table@ =~= rows_view(rows));
        table
    }
}

/// Total number of entries in `rows`.
pub open spec fn total_len(rows: Seq<Vec<bool>>) -> int
    decreases rows.len(),
{
    if rows.len() == 0 {
        0
    } else {
        total_len(rows.drop_last()) + rows.last()@.len()
    }
}

/// A 2-dimensional array of bits stored contiguously in a bit-vector and indexed manually.
/// Serves to replace `Vec<Vec<bool>>` in cases when inner rows might have different lengths.
pub struct JaggedBitArray2 {
    index_shift: Vec<usize>,
    data: BitStorage,
}

impl View for JaggedBitArray2 {
    type V = Seq<Seq<bool>>;

    /// The table as a sequence of rows.
    closed spec fn view(&self) -> Seq<Seq<bool>> {
        Seq::new(
            (self.index_shift@.len() - 1) as nat,
            |i: int| bits(self.data).subrange(self.index_shift@[i] as int, self.index_shift@[i + 1] as int),
        )
    }
}

impl JaggedBitArray2 {
    /// Row `i` occupies positions `index_shift[i] .. index_shift[i + 1]` of the bits.
    pub closed spec fn wf(&self) -> bool {
        &&& self.index_shift@.len() >= 1
        &&& self.index_shift@[0] == 0
        &&& self.index_shift@.last() == bits(self.data).len()
        &&& forall|i: int, j: int|
            0 <= i <= j < self.index_shift@.len() ==> self.index_shift@[i] <= self.index_shift@[j]
    }

    /// Creates an empty table.
    pub fn new() -> (table: Self)
        ensures
            table.wf(),
            table@ == Seq::<Seq<bool>>::empty(),
    {
        let table = JaggedBitArray2 { index_shift: vec![0; 1], data: bitvec_new() };
        assert(table@ =~= Seq::<Seq<bool>>::empty());
        table
    }

    /// Number of rows.
    pub fn len(&self) -> (len: usize)
        requires
            self.wf(),
        ensures
            len == self@.len(),
    {
        self.index_shift.len() - 1
    }

    /// Length of row `index`.
    pub fn inner_len(&self, index: usize) -> (len: usize)
        requires
            self.wf(),
            index < self@.len(),
        ensures
            len == self@[index as int].len(),
    {
        assert(self.index_shift.len() == self.index_shift@.len());
        self.index_shift[index + 1] - self.index_shift[index]
    }

    /// Computes the position in the bits of the entry at `index`.
    fn internal_index(&self, index: [usize; 2]) -> (internal: usize)
        requires
            self.wf(),
            index[0] < self@.len(),
            index[1] < self@[index[0] as int].len(),
        ensures
            internal == self.index_shift@[index[0] as int] + index[1],
            internal < bits(self.data).len(),
    {
        self.index_shift[index[0]] + index[1]
    }

    /// The entry at `index` (row, column).
    pub fn get(&self, index: [usize; 2]) -> (value: &bool)
        requires
            self.wf(),
            index[0] < self@.len(),
            index[1] < self@[index[0] as int].len(),
        ensures
            *value == self@[index[0] as int][index[1] as int],
    {
        let internal_index = self.internal_index(index);
        bitvec_index(&self.data, internal_index)
    }

    /// Overwrites the entry at `index` (row, column).
    pub fn set(&mut self, index: [usize; 2], value: bool)
        requires
            old(self).wf(),
            index[0] < old(self)@.len(),
            index[1] < old(self)@[index[0] as int].len(),
        ensures
            final(self).wf(),
            final(self)@ == old(self)@.update(
                index[0] as int,
                old(self)@[index[0] as int].update(index[1] as int, value),
            ),
    {
        let internal_index = self.internal_index(index);
        let ghost before = *self;
        bitvec_set(&mut self.data, internal_index, value);
        proof {
            let i0 = index[0] as int;
            let j0 = index[1] as int;
            let expected = before@.update(i0, before@[i0].update(j0, value));
            assert forall|i: int| 0 <= i < self@.len() implies #[trigger] self@[i] =~= expected[i] by {
                assert forall|j: int| 0 <= j < self@[i].len() implies #[trigger] self@[i][j] == expected[i][j] by {
                    if i < i0 {
                        assert(before.index_shift@[i + 1] <= before.index_shift@[i0]);
                    } else if i > i0 {
                        assert(before.index_shift@[i0 + 1] <= before.index_shift@[i]);
                    }
                }
            }
            assert(self@ =~= expected);
        }
    }

    /// Builds a table from its rows.
    pub fn from(value: Vec<Vec<bool>>) -> (table: Self)
        requires
            total_len(value@) <= max_bits(),
        ensures
            table.wf(),
            table@ == rows_view(value@),
    {
        let ghost rows = value@;
        let mut index_shift: Vec<usize> = Vec::new();
        index_shift.push(0);
        let mut data = bitvec_new();
        let mut r: usize = 0;
        while r < value.len()
            invariant
                rows == value@,
                0 <= r <= rows.len(),
                total_len(rows) <= max_bits(),
                index_shift@.len() == r + 1,
                index_shift@[0] == 0,
                index_shift@.last() == bits(data).len(),
                bits(data).len() == total_len(rows.take(r as int)),
                forall|i: int, j: int| 0 <= i <= j < index_shift@.len() ==> index_shift@[i] <= index_shift@[j],
                forall|i: int|
                    0 <= i < r ==> #[trigger] bits(data).subrange(index_shift@[i] as int, index_shift@[i + 1] as int)
                        == rows[i]@,
            decreases rows.len() - r,
        {
            let ghost old_data = bits(data);
            let ghost old_shift = index_shift@;
            proof {
                assert(rows.take(r + 1).drop_last() =~= rows.take(r as int));
                lemma_total_len_prefix(rows, r + 1);
            }
            let row = &value[r];
            let mut c: usize = 0;
            while c < row.len()
                invariant
                    rows == value@,
                    r < rows.len(),
                    *row == rows[r as int],
                    0 <= c <= row@.len(),
                    old_data.len() + row@.len() <= max_bits(),
                    bits(data) == old_data + row@.take(c as int),
                decreases row@.len() - c,
            {
                bitvec_push(&mut data, row[c]);
                proof {
                    assert(row@.take(c + 1) =~= row@.take(c as int).push(row@[c as int]));
                    assert(old_data + row@.take(c + 1) =~= (old_data + row@.take(c as int)).push(row@[c as int]));
                }
                c = c + 1;
            }
            proof {
                assert(row@.take(row@.len() as int) =~= row@);
            }
            index_shift.push(bitvec_len(&data));
            proof {
                assert forall|i: int| 0 <= i < r + 1 implies #[trigger] bits(data).subrange(
                    index_shift@[i] as int,
                    index_shift@[i + 1] as int,
                ) == rows[i]@ by {
                    if i < r {
                        assert(old_shift[i + 1] <= old_shift[r as int]);
                        assert(bits(data).subrange(index_shift@[i] as int, index_shift@[i + 1] as int)
                            =~= old_data.subrange(old_shift[i] as int, old_shift[i + 1] as int));
                    } else {
                        assert(bits(data).subrange(index_shift@[i] as int, index_shift@[i + 1] as int) =~= rows[r as int]@);
                    }
                }
            }
            r = r + 1;
        }
        let table = JaggedBitArray2 { index_shift, data };
        assert(table@ =~= rows_view(rows));
        table
    }
}

proof fn lemma_total_len_prefix(rows: Seq<Vec<bool>>, k: int)
    requires
        0 <= k <= rows.len(),
    ensures
        total_len(rows.take(k)) <= total_len(rows),
    decreases rows.len() - k,
{
    if k < rows.len() {
        assert(rows.drop_last().take(k) =~= rows.take(k));
        lemma_total_len_prefix(rows.drop_last(), k);
    } else {
        assert(rows.take(k) =~= rows);
    }
}

} // verus!
