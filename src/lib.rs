//! Decision logic of a parallel map: the tokens that workers send back, the
//! completion guard that makes every worker send exactly one of them, the
//! handling of one received token by the unordered iterator, and the reorder
//! buffer that turns the completion stream back into input order.
pub mod token;
pub mod reorder;
pub mod laws;

pub use token::{Packet, Received, Completion, unordered_step};
pub use reorder::{Reorder, ReorderModel, Polled};

