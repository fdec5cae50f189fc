pub mod compressed_bit_table;
pub mod jagged_table;
pub mod justified_table;
