use vstd::prelude::*;

use crate::tables::justified_table::rows_have_width;

verus! {

broadcast use vstd::layout::layout_of_primitives;

/// A 2-dimensional table of bits stored contiguously in memory and indexed manually.
/// Each entry takes exactly one bit: entry `p` (in row-major order) is bit `p % 8` of storage
/// unit `p / 8`, a `u8`.
/// Serves to replace a table of booleans (rows of 0/1 values) in cases when all inner rows
/// have the same length.
pub struct CompressedBitTable {
    index_shift: usize,
    len: usize,
    data: Vec<u8>,
}

/// Number of bits held by one storage unit of a `CompressedBitTable`.
pub open spec fn storage_size() -> nat {
    vstd::layout::size_of::<u8>() * 8
}

/// Bit `b` (0 or 1) of `unit`.
pub open spec fn bit_at(unit: u8, b: u8) -> u8 {
    (unit >> b) & 1
}

/// Entry `p` of the packed storage `data`: bit `p % 8` of unit `p / 8`.
pub open spec fn packed_bit(data: Seq<u8>, p: int) -> u8 {
    bit_at(data[p / 8], (p % 8) as u8)
}

/// `a / b`, rounded up.
pub open spec fn spec_div_up(a: int, b: int) -> int {
    (a + (b - 1)) / b
}

/// The entries of `rows`, each reduced to its lowest bit.
pub open spec fn bit_rows(rows: Seq<Vec<u8>>) -> Seq<Seq<u8>> {
    rows.map_values(|r: Vec<u8>| r@.map_values(|x: u8| x & 1))
}

impl View for CompressedBitTable {
    type V = Seq<Seq<u8>>;

    /// The table as a sequence of rows of bits (each 0 or 1).
    closed spec fn view(&self) -> Seq<Seq<u8>> {
        let w = self.index_shift as int;
        Seq::new(
            self.rows(),
            |i: int| Seq::new(self.index_shift as nat, |j: int| packed_bit(self.data@, i * w + j)),
        )
    }
}

/// Setting bit `b` of `unit` to the lowest bit of `value` changes that bit alone.
proof fn lemma_set_bit(unit: u8, value: u8, b: u8, c: u8)
    requires
        b < 8,
        c < 8,
    ensures
        bit_at((unit & !(1u8 << b)) | ((value & 1) << b), c) == if c == b {
            value & 1
        } else {
            bit_at(unit, c)
        },
{
    let n: u8 = (unit & !(1u8 << b)) | ((value & 1) << b);
    assert(c == b ==> (n >> c) & 1 == value & 1) by (bit_vector)
        requires
            b < 8,
            c < 8,
            n == (unit & !(1u8 << b)) | ((value & 1) << b),
    ;
    assert(c != b ==> (n >> c) & 1 == (unit >> c) & 1) by (bit_vector)
        requires
            b < 8,
            c < 8,
            n == (unit & !(1u8 << b)) | ((value & 1) << b),
    ;
}

/// Or-ing the lowest bit of `x` into bit `b` of a unit whose bits from `b` up are 0 sets that
/// bit and keeps the bits below it; the bits above it stay 0.
proof fn lemma_or_bit(unit: u8, x: u8, b: u8)
    requires
        b < 8,
        unit >> b == 0,
    ensures
        forall|c: u8| c < b ==> #[trigger] bit_at(unit | ((x & 1) << b), c) == bit_at(unit, c),
        bit_at(unit | ((x & 1) << b), b) == x & 1,
        (unit | ((x & 1) << b)) >> (b + 1) as u8 == 0,
{
    let n: u8 = unit | ((x & 1) << b);
    assert forall|c: u8| c < b implies #[trigger] bit_at(n, c) == bit_at(unit, c) by {
        assert((n >> c) & 1 == (unit >> c) & 1) by (bit_vector)
            requires
                c < b,
                b < 8,
                n == unit | ((x & 1) << b),
        ;
    }
    assert((n >> b) & 1 == x & 1) by (bit_vector)
        requires
            b < 8,
            unit >> b == 0,
            n == unit | ((x & 1) << b),
    ;
    let b1: u8 = (b + 1) as u8;
    assert(n >> b1 == 0) by (bit_vector)
        requires
            b < 8,
            b1 == b + 1,
            unit >> b == 0,
            n == unit | ((x & 1) << b),
    ;
}

impl CompressedBitTable {
    /// The storage holds the entries (a whole number of rows) packed eight to a unit; the bits
    /// past the last entry are 0.
    pub closed spec fn wf(&self) -> bool {
        &&& self.data@.len() == spec_div_up(self.len as int, storage_size() as int)
        &&& forall|p: int| self.len <= p < self.data@.len() * 8 ==> #[trigger] packed_bit(self.data@, p) == 0
        &&& self.index_shift == 0 ==> self.len == 0
        &&& self.index_shift > 0 ==> self.len % self.index_shift == 0
    }

    closed spec fn rows(&self) -> nat {
        if self.index_shift == 0 {
            0
        } else {
            (self.len / self.index_shift) as nat
        }
    }

    /// Length of each row.
    pub closed spec fn spec_inner_len(&self) -> nat {
        self.index_shift as nat
    }

    /// The storage units, in row-major order.
    pub closed spec fn storage(&self) -> Seq<u8> {
        self.data@
    }

    /// Creates an empty table.
    pub fn new() -> (table: Self)
        ensures
            table.wf(),
            table@ == Seq::<Seq<u8>>::empty(),
            table.spec_inner_len() == 0,
    {
        let table = CompressedBitTable { index_shift: 0, len: 0, data: Vec::new() };
        assert(spec_div_up(0, 8) == 0);
        assert(table@ =~= Seq::<Seq<u8>>::empty());
        table
    }

    /// The storage units, each holding eight entries in row-major order from its lowest bit
    /// up; the bits of the last unit beyond the last entry are 0.
    pub fn flat_iter(&self) -> (data: &[u8])
        requires
            self.wf(),
        ensures
            data@ == self.storage(),
            data@.len() == spec_div_up((self@.len() * self.spec_inner_len()) as int, storage_size() as int),
            forall|i: int, j: int|
                0 <= i < self@.len() && 0 <= j < self.spec_inner_len() ==> self@[i][j]
                    == #[trigger] packed_bit(data@, i * (self.spec_inner_len() as int) + j),
            forall|p: int|
                self@.len() * self.spec_inner_len() <= p < data@.len() * 8 ==> #[trigger] packed_bit(data@, p) == 0,
    {
        proof {
            self.lemma_rows();
        }
        self.data.as_slice()
    }

    proof fn lemma_rows(&self)
        requires
            self.wf(),
        ensures
            self@.len() == self.rows(),
            self.len == self.rows() * self.index_shift,
    {
        let w = self.index_shift as int;
        let n = self.len as int;
        if w > 0 {
            assert(self.rows() == n / w);
            assert(self.rows() * self.index_shift == (n / w) * w);
            assert(n == (n / w) * w) by (nonlinear_arith)
                requires
                    w > 0,
                    n % w == 0,
            ;
            assert(self.len == self.rows() * self.index_shift);
        } else {
            assert(self.len == 0);
            assert(self.rows() == 0);
        }
    }

    /// Computes the position in the flat contents of the entry at `index`.
    fn internal_index(&self, index: [usize; 2]) -> (internal: usize)
        requires
            self.wf(),
            index[1] < self.index_shift,
            index[0] * self.index_shift + index[1] < self.len,
        ensures
            internal == index[0] * self.index_shift + index[1],
    {
        proof {
            assert(self.index_shift * index[0] == index[0] * self.index_shift) by (nonlinear_arith);
        }
        let internal_index = self.index_shift * index[0] + index[1];
        internal_index
    }

    /// Splits a position into the index of its storage unit and the bit within it.
    fn array_bit_index(&self, index: [usize; 2]) -> (pos: (usize, u8))
        requires
            self.wf(),
            index[1] < self.index_shift,
            index[0] * self.index_shift + index[1] < self.len,
        ensures
            pos.0 == (index[0] * self.index_shift + index[1]) / 8,
            pos.1 == (index[0] * self.index_shift + index[1]) % 8,
            pos.0 < self.data@.len(),
    {
        let internal_index = self.internal_index(index);
        let size = compressed_storage_size();
        proof {
            lemma_div_up(self.len as int, 8);
            let p = internal_index as int;
            assert(p / 8 < spec_div_up(self.len as int, 8)) by {
                vstd::arithmetic::div_mod::lemma_fundamental_div_mod(p, 8);
                vstd::arithmetic::div_mod::lemma_mod_bound(p, 8);
                assert((p / 8) * 8 <= p);
                assert(spec_div_up(self.len as int, 8) * 8 >= self.len);
                if p / 8 >= spec_div_up(self.len as int, 8) {
                    assert((p / 8) * 8 >= spec_div_up(self.len as int, 8) * 8) by (nonlinear_arith)
                        requires
                            p / 8 >= spec_div_up(self.len as int, 8),
                    ;
                }
            }
        }
        (internal_index / size, (internal_index % size) as u8)
    }

    proof fn lemma_in_bounds(&self, i: int, j: int)
        requires
            self.wf(),
            0 <= i < self@.len(),
            0 <= j < self.spec_inner_len(),
        ensures
            i * self.index_shift + j < self.len,
    {
        self.lemma_rows();
        let w = self.index_shift as int;
        assert(i * w + j < self.rows() * w) by (nonlinear_arith)
            requires
                0 <= i < self.rows(),
                0 <= j < w,
        ;
    }

    /// The bit (0 or 1) at `index` (row, column).
    pub fn get(&self, index: [usize; 2]) -> (bit: u8)
        requires
            self.wf(),
            index[0] < self@.len(),
            index[1] < self.spec_inner_len(),
        ensures
            bit == self@[index[0] as int][index[1] as int],
    {
        proof {
            self.lemma_in_bounds(index[0] as int, index[1] as int);
            self.lemma_rows();
        }
        let (array_index, bit_index) = self.array_bit_index(index);
        (self.data[array_index] >> bit_index) & 1
    }

    /// Sets the bit at `index` (row, column) to the lowest bit of `value`.
    pub fn set(&mut self, index: [usize; 2], value: u8)
        requires
            old(self).wf(),
            index[0] < old(self)@.len(),
            index[1] < old(self).spec_inner_len(),
        ensures
            final(self).wf(),
            final(self).spec_inner_len() == old(self).spec_inner_len(),
            final(self)@ == old(self)@.update(
                index[0] as int,
                old(self)@[index[0] as int].update(index[1] as int, value & 1),
            ),
    {
        proof {
            self.lemma_in_bounds(index[0] as int, index[1] as int);
            self.lemma_rows();
        }
        let ghost before = *self;
        let (array_index, bit_index) = self.array_bit_index(index);
        let unit = self.data[array_index];
        self.data.set(array_index, (unit & !(1u8 << bit_index)) | ((value & 1) << bit_index));
        proof {
            let i0 = index[0] as int;
            let j0 = index[1] as int;
            let w = self.index_shift as int;
            let p0 = i0 * w + j0;
            let expected = before@.update(i0, before@[i0].update(j0, value & 1));
            vstd::arithmetic::div_mod::lemma_fundamental_div_mod(p0, 8);
            vstd::arithmetic::div_mod::lemma_mod_bound(p0, 8);
            assert forall|p: int| self.len <= p < self.data@.len() * 8 implies #[trigger] packed_bit(self.data@, p) == 0 by {
                assert(packed_bit(before.data@, p) == 0);
                vstd::arithmetic::div_mod::lemma_fundamental_div_mod(p, 8);
                vstd::arithmetic::div_mod::lemma_mod_bound(p, 8);
                vstd::arithmetic::div_mod::lemma_div_pos_is_pos(p, 8);
                if p / 8 == p0 / 8 {
                    lemma_set_bit(unit, value, bit_index, (p % 8) as u8);
                }
            }
            self.lemma_rows();
            assert forall|i: int| 0 <= i < self.rows() implies #[trigger] self@[i] =~= expected[i] by {
                assert forall|j: int| 0 <= j < w implies #[trigger] self@[i][j] == expected[i][j] by {
                    let p = i * w + j;
                    before.lemma_in_bounds(i, j);
                    vstd::arithmetic::div_mod::lemma_fundamental_div_mod(p, 8);
                    vstd::arithmetic::div_mod::lemma_fundamental_div_mod(p0, 8);
                    vstd::arithmetic::div_mod::lemma_mod_bound(p, 8);
                    vstd::arithmetic::div_mod::lemma_mod_bound(p0, 8);
                    if i != i0 || j != j0 {
                        crate::tables::justified_table::lemma_distinct_positions(w, i, j, i0, j0);
                        if p / 8 == p0 / 8 {
                            lemma_set_bit(unit, value, bit_index, (p % 8) as u8);
                        }
                    } else {
                        lemma_set_bit(unit, value, bit_index, bit_index);
                    }
                }
            }
            assert(self@ =~= expected);
        }
    }

    /// Number of rows.
    pub fn len(&self) -> (len: usize)
        requires
            self.wf(),
        ensures
            len == self@.len(),
    {
        if self.index_shift != 0 {
            self.len / self.index_shift
        } else {
            0
        }
    }

    /// Length of row `index`.
    pub fn inner_len(&self, index: usize) -> (len: usize)
        requires
            self.wf(),
            index < self@.len(),
        ensures
            len == self.spec_inner_len(),
            len == self@[index as int].len(),
    {
        proof {
            self.lemma_in_bounds(index as int, 0);
        }
        let _ = self.internal_index([index, 0]);
        self.index_shift
    }

    /// Builds a table from rows of 0/1 values, which must all have the same length;
    /// each entry keeps its lowest bit.
    pub fn from(value: Vec<Vec<u8>>) -> (table: Self)
        requires
            value.len() > 0 ==> rows_have_width(value@, value@[0]@.len()),
            value.len() > 0 ==> value.len() * value@[0]@.len() + storage_size() <= usize::MAX,
        ensures
            table.wf(),
            value.len() == 0 ==> table@ == Seq::<Seq<u8>>::empty() && table.spec_inner_len() == 0,
            value.len() > 0 ==> table.spec_inner_len() == value@[0]@.len(),
            value.len() > 0 && value@[0]@.len() > 0 ==> table@ == bit_rows(value@),
            value.len() > 0 && value@[0]@.len() == 0 ==> table@ == Seq::<Seq<u8>>::empty(),
    {
        if value.len() == 0 {
            return CompressedBitTable::new();
        }
        let index_shift = value[0].len();
        let num_rows = value.len();
        let ghost rows = value@;
        let ghost w = index_shift as int;
        // flatten the rows
        let mut flat: Vec<u8> = Vec::new();
        for row in it: value
            invariant
                rows == it.seq(),
                rows.len() > 0,
                rows_have_width(rows, w as nat),
                w == rows[0]@.len(),
                flat@.len() == it.index() * w,
                forall|a: int, b: int|
                    0 <= a < it.index() && 0 <= b < w ==> #[trigger] flat@[a * w + b]
                        == rows[a]@[b],
        {
            let ghost k = it.index() as int;
            let mut row = row;
            assert(row == rows[k]);
            flat.append(&mut row);
            assert forall|a: int, b: int| 0 <= a < k + 1 && 0 <= b < w implies #[trigger] flat@[a
                * w + b] == rows[a]@[b] by {
                if a < k {
                    assert(0 <= a * w + b < k * w) by (nonlinear_arith)
                        requires
                            0 <= a < k,
                            0 <= b < w,
                    ;
                }
            }
            assert((k + 1) * w == k * w + w) by (nonlinear_arith);
        }
        proof {
            assert(flat@.len() == num_rows * index_shift);
            assert(flat.len() == flat@.len());
        }
        let len = num_rows * index_shift;
        let size = compressed_storage_size();
        // pad the flat contents to a whole number of storage units
        let ghost unpadded = flat@;
        let mut padding = vec![0u8; diff_to_next_multiple(len, size)];
        let ghost zeros = padding@;
        flat.append(&mut padding);
        proof {
            lemma_div_up(len as int, 8);
            assert(flat@.subrange(0, len as int) =~= unpadded);
            assert forall|p: int| len <= p < flat@.len() implies #[trigger] flat@[p] == 0 by {
                assert(flat@[p] == zeros[p - len]);
            }
        }
        let num_chunks = flat.len() / size;
        proof {
            assert(flat@.len() == spec_div_up(len as int, 8) * 8);
            assert(num_chunks == spec_div_up(len as int, 8)) by {
                vstd::arithmetic::div_mod::lemma_div_multiples_vanish(spec_div_up(len as int, 8), 8);
            }
        }
        // compress each storage unit
        let mut data: Vec<u8> = Vec::new();
        let mut c: usize = 0;
        while c < num_chunks
            invariant
                size == 8,
                num_chunks == spec_div_up(len as int, 8),
                flat@.len() == num_chunks * 8,
                0 <= c <= num_chunks,
                data@.len() == c,
                forall|k: int, b: u8| 0 <= k < c && b < 8 ==> #[trigger] bit_at(data@[k], b) == flat@[k * 8 + b] & 1,
            decreases num_chunks - c,
        {
            proof {
                assert((c + 1) * 8 <= num_chunks * 8) by (nonlinear_arith)
                    requires
                        c < num_chunks,
                ;
                assert(c * 8 + 8 <= flat.len());
            }
            let chunk = &flat[c * size..(c + 1) * size];
            let unit = compress_chunk(chunk);
            let ghost prev = data@;
            data.push(unit);
            proof {
                assert forall|k: int, b: u8| 0 <= k < c + 1 && b < 8 implies #[trigger] bit_at(data@[k], b) == flat@[k * 8 + b] & 1 by {
                    if k == c {
                        assert(chunk@[b as int] == flat@[c * 8 + b]);
                    } else {
                        assert(data@[k] == prev[k]);
                    }
                }
            }
            c = c + 1;
        }
        let table = CompressedBitTable { index_shift, len, data };
        proof {
            let n = rows.len() as int;
            if w > 0 {
                assert((n * w) % w == 0 && (n * w) / w == n) by (nonlinear_arith)
                    requires
                        w > 0,
                        n >= 0,
                ;
                assert(table.rows() == n);
                assert forall|i: int| 0 <= i < n implies #[trigger] table@[i] =~= bit_rows(rows)[i] by {
                    assert forall|j: int| 0 <= j < w implies #[trigger] table@[i][j]
                        == bit_rows(rows)[i][j] by {
                        let p = i * w + j;
                        assert(0 <= p < n * w) by (nonlinear_arith)
                            requires
                                0 <= i < n,
                                0 <= j < w,
                                p == i * w + j,
                        ;
                        vstd::arithmetic::div_mod::lemma_fundamental_div_mod(p, 8);
                        vstd::arithmetic::div_mod::lemma_mod_bound(p, 8);
                        vstd::arithmetic::div_mod::lemma_div_pos_is_pos(p, 8);
                        let q = p / 8;
                        assert(q < num_chunks) by (nonlinear_arith)
                            requires
                                q * 8 <= p,
                                p < n * w,
                                n * w <= num_chunks * 8,
                        ;
                        assert(bit_at(table.data@[q], (p % 8) as u8) == flat@[q * 8 + (p % 8) as u8] & 1);
                        assert(q * 8 + p % 8 == p);
                        assert(flat@[p] == unpadded[p]);
                        assert(flat@[p] == rows[i]@[j]);
                        assert(table@[i][j] == packed_bit(table.data@, p));
                        assert(rows[i]@.len() == w);
                        assert(bit_rows(rows)[i][j] == rows[i]@[j] & 1);
                    }
                }
                assert(table@ =~= bit_rows(rows));
            } else {
                assert(table@ =~= Seq::<Seq<u8>>::empty());
            }
            assert forall|p: int| len <= p < table.data@.len() * 8 implies #[trigger] packed_bit(table.data@, p) == 0 by {
                vstd::arithmetic::div_mod::lemma_fundamental_div_mod(p, 8);
                vstd::arithmetic::div_mod::lemma_mod_bound(p, 8);
                vstd::arithmetic::div_mod::lemma_div_pos_is_pos(p, 8);
                let q = p / 8;
                assert(q < num_chunks) by (nonlinear_arith)
                    requires
                        q * 8 <= p,
                        p < num_chunks * 8,
                ;
                assert(bit_at(table.data@[q], (p % 8) as u8) == flat@[q * 8 + (p % 8) as u8] & 1);
                assert(flat@[p] == 0);
                assert(0u8 & 1 == 0) by (bit_vector);
            }
        }
        table
    }
}

/// Number of bits held by one storage unit.
fn compressed_storage_size() -> (size: usize)
    ensures
        size == storage_size(),
        size == 8,
{
    std::mem::size_of::<u8>() * 8
}

/// Packs one storage unit's worth of 0/1 values (the lowest bit of each) into a storage unit,
/// the first value in the lowest bit.
fn compress_chunk(chunk: &[u8]) -> (value: u8)
    requires
        chunk@.len() == storage_size(),
    ensures
        forall|b: u8| b < 8 ==> #[trigger] bit_at(value, b) == chunk@[b as int] & 1,
{
    let size = compressed_storage_size();
    assert(chunk.len() == size);
    let mut value: u8 = 0;
    let mut bit_index: u8 = 0;
    assert((0u8 >> 0u8) == 0) by (bit_vector);
    while (bit_index as usize) < chunk.len()
        invariant
            chunk@.len() == 8,
            0 <= bit_index <= 8,
            bit_index < 8 ==> value >> bit_index == 0,
            forall|b: u8| b < bit_index ==> #[trigger] bit_at(value, b) == chunk@[b as int] & 1,
        decreases 8 - bit_index,
    {
        let x = chunk[bit_index as usize];
        proof {
            lemma_or_bit(value, x, bit_index);
        }
        value = value | ((x & 1) << bit_index);
        bit_index = bit_index + 1;
    }
    value
}

/// Divides `a` by `b` and rounds up if needed:
/// if `a = k * b`, returns `k`; if `a = k * b + c` with `0 < c < b`, returns `k + 1`.
pub fn div_up(a: usize, b: usize) -> (q: usize)
    requires
        b > 0,
        a + (b - 1) <= usize::MAX,
    ensures
        q == spec_div_up(a as int, b as int),
        q * b >= a,
        q * b < a + b,
{
    proof {
        lemma_div_up(a as int, b as int);
    }
    (a + (b - 1)) / b
}

proof fn lemma_div_up(a: int, b: int)
    requires
        a >= 0,
        b > 0,
    ensures
        spec_div_up(a, b) * b >= a,
        spec_div_up(a, b) * b < a + b,
        spec_div_up(a, b) * b - a == (b - 1) - (a + (b - 1)) % b,
{
    let s = a + (b - 1);
    vstd::arithmetic::div_mod::lemma_fundamental_div_mod(s, b);
    assert(0 <= s % b < b) by {
        vstd::arithmetic::div_mod::lemma_mod_bound(s, b);
    }
    assert(b * (s / b) == (s / b) * b) by (nonlinear_arith);
}

/// The difference between `a` and the next multiple of `b`:
/// 0 if `a = k * b`, and `b - c` if `a = k * b + c` with `0 < c < b`.
/// Equivalent to `div_up(a, b) * b - a`.
pub fn diff_to_next_multiple(a: usize, b: usize) -> (d: usize)
    requires
        b > 0,
        a + (b - 1) <= usize::MAX,
    ensures
        d == spec_div_up(a as int, b as int) * b - a,
        d < b,
{
    proof {
        lemma_div_up(a as int, b as int);
        vstd::arithmetic::div_mod::lemma_mod_bound((a + (b - 1)) as int, b as int);
    }
    (b - 1) - (a + (b - 1)) % b
}

} // verus!
