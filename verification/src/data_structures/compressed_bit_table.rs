use vstd::prelude::*;

use crate::data_structures::bits::{
    bits, bitvec_index, bitvec_len, bitvec_new, bitvec_push, bitvec_set, max_bits, BitStorage,
};
use crate::tables::justified_table::{lemma_distinct_positions, rows_have_width, rows_view};

verus! {

/// A 2-dimensional bool table stored contiguously in memory and indexed manually.
/// Each bool takes exactly one bit of memory.
/// Serves to replace `Vec<Vec<bool>>` in cases when all inner rows have the same length.
pub struct CompressedBitTable {
    inner_len: usize,
    data: BitStorage,
}

impl View for CompressedBitTable {
    type V = Seq<Seq<bool>>;

    /// The table as a sequence of rows.
    closed spec fn view(&self) -> Seq<Seq<bool>> {
        let w = self.inner_len as int;
        Seq::new(
            self.rows(),
            |i: int| Seq::new(self.inner_len as nat, |j: int| bits(self.data)[i * w + j]),
        )
    }
}

impl CompressedBitTable {
    /// The stored bits split into whole rows.
    pub closed spec fn wf(&self) -> bool {
        &&& self.inner_len == 0 ==> bits(self.data).len() == 0
        &&& bits(self.data).len() <= max_bits()
        &&& self.inner_len > 0 ==> bits(self.data).len() % (self.inner_len as nat) == 0
    }

    closed spec fn rows(&self) -> nat {
        if self.inner_len == 0 {
            0
        } else {
            bits(self.data).len() / (self.inner_len as nat)
        }
    }

    /// Length of each row.
    pub closed spec fn spec_inner_len(&self) -> nat {
        self.inner_len as nat
    }

    /// Creates an empty table.
    pub fn new() -> (table: Self)
        ensures
            table.wf(),
            table@ == Seq::<Seq<bool>>::empty(),
            table.spec_inner_len() == 0,
    {
        let table = CompressedBitTable { inner_len: 0, data: bitvec_new() };
        assert(table@ =~= Seq::<Seq<bool>>::empty());
        table
    }

    /// The number of rows is bounded by the capacity of a bit-vector.
    pub proof fn lemma_len_bound(&self)
        requires
            self.wf(),
        ensures
            self@.len() <= max_bits(),
    {
        let w = self.inner_len as nat;
        if w > 0 {
            let n = bits(self.data).len();
            assert(n / w <= n) by (nonlinear_arith)
                requires
                    w > 0,
            ;
        }
    }

    /// Every row has the table's row length.
    pub proof fn lemma_row_lengths(&self)
        ensures
            forall|i: int| 0 <= i < self@.len() ==> (#[trigger] self@[i]).len() == self.spec_inner_len(),
    {
    }

    proof fn lemma_rows(&self)
        requires
            self.wf(),
        ensures
            self@.len() == self.rows(),
            bits(self.data).len() == self.rows() * self.inner_len,
    {
        let w = self.inner_len as int;
        let n = bits(self.data).len() as int;
        if w > 0 {
            assert(self.rows() == n / w);
            assert(n == (n / w) * w) by (nonlinear_arith)
                requires
                    w > 0,
                    n % w == 0,
            ;
            assert(self.rows() * self.inner_len == (n / w) * w);
        } else {
            assert(self.rows() == 0);
        }
    }

    proof fn lemma_in_bounds(&self, i: int, j: int)
        requires
            self.wf(),
            0 <= i < self@.len(),
            0 <= j < self.spec_inner_len(),
        ensures
            0 <= i * self.inner_len + j < bits(self.data).len(),
    {
        self.lemma_rows();
        let w = self.inner_len as int;
        assert(0 <= i * w + j < self.rows() * w) by (nonlinear_arith)
            requires
                0 <= i < self.rows(),
                0 <= j < w,
        ;
    }

    /// Computes the position in the flat contents of the entry at `index`.
    fn internal_index(&self, index: [usize; 2]) -> (internal: usize)
        requires
            self.wf(),
            index[1] < self.inner_len,
            index[0] * self.inner_len + index[1] < bits(self.data).len(),
        ensures
            internal == index[0] * self.inner_len + index[1],
    {
        proof {
            assert(self.inner_len * index[0] == index[0] * self.inner_len) by (nonlinear_arith);
        }
        let internal_index = self.inner_len * index[0] + index[1];
        internal_index
    }

    /// The entry at `index` (row, column).
    pub fn get(&self, index: [usize; 2]) -> (value: &bool)
        requires
            self.wf(),
            index[0] < self@.len(),
            index[1] < self.spec_inner_len(),
        ensures
            *value == self@[index[0] as int][index[1] as int],
    {
        proof {
            self.lemma_in_bounds(index[0] as int, index[1] as int);
            self.lemma_rows();
        }
        bitvec_index(&self.data, self.internal_index(index))
    }

    /// Overwrites the entry at `index` (row, column).
    pub fn set(&mut self, index: [usize; 2], value: bool)
        requires
            old(self).wf(),
            index[0] < old(self)@.len(),
            index[1] < old(self).spec_inner_len(),
        ensures
            final(self).wf(),
            final(self).spec_inner_len() == old(self).spec_inner_len(),
            final(self)@ == old(self)@.update(
                index[0] as int,
                old(self)@[index[0] as int].update(index[1] as int, value),
            ),
    {
        proof {
            self.lemma_in_bounds(index[0] as int, index[1] as int);
            self.lemma_rows();
        }
        let ghost before = *self;
        let idx = self.internal_index(index);
        bitvec_set(&mut self.data, idx, value);
        proof {
            let i0 = index[0] as int;
            let j0 = index[1] as int;
            let w = self.inner_len as int;
            let expected = before@.update(i0, before@[i0].update(j0, value));
            self.lemma_rows();
            assert forall|i: int| 0 <= i < self.rows() implies #[trigger] self@[i] =~= expected[i] by {
                assert forall|j: int| 0 <= j < w implies #[trigger] self@[i][j] == expected[i][j] by {
                    if i != i0 || j != j0 {
                        lemma_distinct_positions(w, i, j, i0, j0);
                        before.lemma_in_bounds(i, j);
                    }
                }
            }
            assert(self@ =~= expected);
        }
    }

    /// Number of rows.
    pub fn len(&self) -> (len: usize)
        requires
            self.wf(),
        ensures
            len == self@.len(),
    {
        if self.inner_len != 0 {
            bitvec_len(&self.data) / self.inner_len
        } else {
            0
        }
    }

    /// Length of each row.
    pub fn inner_len(&self) -> (len: usize)
        ensures
            len == self.spec_inner_len(),
    {
        self.inner_len
    }

    /// Builds a table from its rows, which must all have the same length.
    pub fn from(value: Vec<Vec<bool>>) -> (table: Self)
        requires
            value.len() > 0 ==> rows_have_width(value@, value@[0]@.len()),
            value.len() > 0 ==> value.len() * value@[0]@.len() <= max_bits(),
        ensures
            table.wf(),
            value.len() == 0 ==> table@ == Seq::<Seq<bool>>::empty() && table.spec_inner_len() == 0,
            value.len() > 0 ==> table.spec_inner_len() == value@[0]@.len(),
            value.len() > 0 && value@[0]@.len() > 0 ==> table@ == rows_view(value@),
            value.len() > 0 && value@[0]@.len() == 0 ==> table@ == Seq::<Seq<bool>>::empty(),
    {
        if value.len() == 0 {
            return CompressedBitTable::new();
        }
        let index_shift = value[0].len();
        let ghost rows = value@;
        let ghost w = index_shift as int;
        let ghost n = rows.len() as int;
        let mut data = bitvec_new();
        for row in it: value
            invariant
                rows == it.seq(),
                n == rows.len(),
                n > 0,
                rows_have_width(rows, w as nat),
                w == rows[0]@.len(),
                n * w <= max_bits(),
                bits(data).len() == it.index() * w,
                forall|a: int, b: int|
                    0 <= a < it.index() && 0 <= b < w ==> #[trigger] bits(data)[a * w + b]
                        == rows[a]@[b],
        {
            let ghost k = it.index() as int;
            assert(row == rows[k]);
            assert((k + 1) * w == k * w + w) by (nonlinear_arith);
            assert((k + 1) * w <= n * w) by (nonlinear_arith)
                requires
                    k + 1 <= n,
                    w >= 0,
            ;
            let ghost before = bits(data);
            assert(rows[k]@.len() == w);
            for bit in jt: row
                invariant
                    rows == it.seq(),
                    0 <= k < n,
                    rows_have_width(rows, w as nat),
                    jt.seq() == rows[k]@,
                    rows[k]@.len() == w,
                    (k + 1) * w <= max_bits(),
                    (k + 1) * w == k * w + w,
                    before.len() == k * w,
                    bits(data).len() == k * w + jt.index(),
                    forall|b: int| 0 <= b < k * w ==> #[trigger] bits(data)[b] == before[b],
                    forall|b: int| 0 <= b < jt.index() ==> #[trigger] bits(data)[k * w + b] == rows[k]@[b],
            {
                assert(jt.index() < w);
                bitvec_push(&mut data, bit);
            }
            assert forall|a: int, b: int| 0 <= a < k + 1 && 0 <= b < w implies #[trigger] bits(data)[a
                * w + b] == rows[a]@[b] by {
                if a < k {
                    assert(0 <= a * w + b < k * w) by (nonlinear_arith)
                        requires
                            0 <= a < k,
                            0 <= b < w,
                    ;
                }
            }
        }
        let table = CompressedBitTable { inner_len: index_shift, data };
        proof {
            if w > 0 {
                assert((n * w) % w == 0 && (n * w) / w == n) by (nonlinear_arith)
                    requires
                        w > 0,
                        n >= 0,
                ;
                assert forall|i: int| 0 <= i < n implies #[trigger] table@[i] =~= rows_view(rows)[i] by {
                    assert forall|j: int| 0 <= j < w implies #[trigger] table@[i][j] == rows[i]@[j] by {
                        assert(rows[i]@.len() == w);
                    }
                }
                assert(table@ =~= rows_view(rows));
            } else {
                assert(table@ =~= Seq::<Seq<bool>>::empty());
            }
        }
        table
    }
}

} // verus!
