pub mod cost_function_network;
pub mod general_cfn;
pub mod general_uai;
pub mod relaxation;
pub mod schedule;
pub mod solution;
pub mod srmp;
pub mod text;
pub mod uai;
pub mod uai_laws;
