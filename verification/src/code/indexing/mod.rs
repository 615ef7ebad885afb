//! What the index stores of a call.

pub mod receiver;
