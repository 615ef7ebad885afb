//! What only Rust source says.

pub mod receiver;
