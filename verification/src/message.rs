pub mod message_1d;
pub mod message_general;
pub mod adjustment;
