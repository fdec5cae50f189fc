pub mod bits;
pub mod compressed_bit_table;
pub mod hypergraph;
pub mod jagged_arrays;
