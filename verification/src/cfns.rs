pub mod cost_function_network_simple;
