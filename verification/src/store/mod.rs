//! Where a store lives.

pub mod namespace;
