use srmp::data_structures::compressed_bit_table::CompressedBitTable as BitTable;
use srmp::data_structures::jagged_arrays::{JaggedArray2, JaggedBitArray2};
use srmp::tables::compressed_bit_table::{div_up, diff_to_next_multiple, CompressedBitTable};
use srmp::tables::jagged_table::JaggedTable;
use srmp::tables::justified_table::JustifiedTable;

#[test]
fn justified_table_new() {
    let table: JustifiedTable<u32> = JustifiedTable::new();
    assert_eq!(table.len(), 0);
    assert!(table.flat_iter().is_empty());
}

#[test]
fn justified_table_from_rows() {
    let mut table = JustifiedTable::from(vec![vec![1, 2, 3], vec![4, 5, 6]]);
    assert_eq!(table.len(), 2);
    assert_eq!(table.inner_len(1), 3);
    assert_eq!(*table.index([1, 0]), 4);
    assert_eq!(*table.index([0, 2]), 3);
    *table.index_mut([0, 1]) = 20;
    assert_eq!(table.flat_iter(), &[1, 20, 3, 4, 5, 6]);
}

#[test]
fn justified_table_with_empty_rows_has_no_rows() {
    let table: JustifiedTable<u8> = JustifiedTable::from(vec![vec![], vec![]]);
    assert_eq!(table.len(), 0);
}

#[test]
fn jagged_table_from_rows() {
    let mut table = JaggedTable::from(vec![vec![1], vec![], vec![2, 3, 4]]);
    assert_eq!(table.len(), 3);
    assert_eq!(table.inner_len(0), 1);
    assert_eq!(table.inner_len(2), 3);
    assert_eq!(*table.index([2, 1]), 3);
    *table.index_mut([2, 2]) = 40;
    assert_eq!(table.flat_iter(), &[1, 2, 3, 40]);
    let empty: JaggedTable<u8> = JaggedTable::new();
    assert_eq!(empty.len(), 0);
}

#[test]
fn jagged_array_get_set() {
    let mut array = JaggedArray2::from(vec![vec![7, 8], vec![9], vec![]]);
    assert_eq!(array.len(), 3);
    assert_eq!(array.inner_len(2), 0);
    assert_eq!(*array.get([0, 1]), 8);
    array.set([1, 0], 90);
    *array.get_mut([0, 0]) = 70;
    assert_eq!(*array.get([1, 0]), 90);
    assert_eq!(*array.get([0, 0]), 70);
}

#[test]
fn compressed_bit_table_keeps_lowest_bits() {
    let mut table = CompressedBitTable::from(vec![vec![1, 0, 3], vec![2, 1, 1]]);
    assert_eq!(table.len(), 2);
    assert_eq!(table.inner_len(1), 3);
    assert_eq!(table.get([0, 0]), 1);
    assert_eq!(table.get([0, 2]), 1);
    assert_eq!(table.get([1, 0]), 0);
    // bits 1, 0, 1, 0, 1, 1 packed from the lowest bit up
    assert_eq!(table.flat_iter(), &[0b110101]);
    // an entry takes the lowest bit of the value it is set to
    table.set([1, 1], 0);
    assert_eq!(table.get([1, 1]), 0);
    table.set([1, 1], 3);
    assert_eq!(table.get([1, 1]), 1);
    table.set([0, 0], 2);
    assert_eq!(table.get([0, 0]), 0);
    assert_eq!(table.get([0, 2]), 1);
    assert_eq!(table.flat_iter(), &[0b110100]);
}

#[test]
fn compressed_bit_table_sets_a_zero_bit() {
    let mut table = CompressedBitTable::from(vec![vec![0u8, 0u8]]);
    table.set([0, 1], 1);
    assert_eq!(table.get([0, 1]), 1);
    assert_eq!(table.get([0, 0]), 0);
}

#[test]
fn compressed_bit_table_packs_eight_bits_per_unit() {
    let table = CompressedBitTable::from(vec![vec![1u8; 8]; 2]);
    assert_eq!(table.flat_iter().len(), 2);
    assert_eq!(table.flat_iter(), &[255, 255]);
    let table = CompressedBitTable::from(vec![vec![1u8; 3]; 3]);
    assert_eq!(table.len(), 3);
    assert_eq!(table.flat_iter(), &[255, 1]);
    assert_eq!(table.get([2, 2]), 1);
}

#[test]
fn rounding_helpers() {
    assert_eq!(div_up(10, 5), 2);
    assert_eq!(div_up(11, 5), 3);
    assert_eq!(div_up(0, 3), 0);
    assert_eq!(diff_to_next_multiple(10, 5), 0);
    assert_eq!(diff_to_next_multiple(11, 5), 4);
    assert_eq!(diff_to_next_multiple(14, 5), 1);
}

#[test]
fn bit_table_get_set() {
    let mut table = BitTable::from(vec![vec![true, false], vec![false, false], vec![true, true]]);
    assert_eq!(table.len(), 3);
    assert_eq!(table.inner_len(), 2);
    assert!(*table.get([2, 1]));
    assert!(!*table.get([0, 1]));
    table.set([0, 1], true);
    table.set([2, 0], false);
    assert!(*table.get([0, 1]));
    assert!(!*table.get([2, 0]));
    let empty = BitTable::new();
    assert_eq!(empty.len(), 0);
}

#[test]
fn jagged_bit_array_rows() {
    let mut table = JaggedBitArray2::from(vec![vec![true, false], vec![], vec![false, false, true]]);
    assert_eq!(table.len(), 3);
    assert_eq!(table.inner_len(0), 2);
    assert_eq!(table.inner_len(1), 0);
    assert_eq!(table.inner_len(2), 3);
    assert!(*table.get([0, 0]));
    assert!(!*table.get([0, 1]));
    assert!(*table.get([2, 2]));
    table.set([2, 0], true);
    table.set([0, 0], false);
    assert!(*table.get([2, 0]));
    assert!(!*table.get([0, 0]));
    assert!(!*table.get([2, 1]));
    let empty = JaggedBitArray2::new();
    assert_eq!(empty.len(), 0);
}

#[test]
fn jagged_table_empty_row_has_length_zero() {
    let table = JaggedTable::from(vec![vec![], vec![7]]);
    assert_eq!(table.inner_len(0), 0);
    assert_eq!(table.inner_len(1), 1);
    assert_eq!(table.len(), 2);
}
