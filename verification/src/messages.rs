pub mod indexing;
pub mod message_nd;
pub mod restricted;
