pub mod cfn;
pub mod cfns;
pub mod csp;
pub mod data_structures;
pub mod message;
pub mod messages;
pub mod osac;
pub mod tables;
