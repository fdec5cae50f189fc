pub mod ac3;
pub mod binary_csp;
