//! The code index: parsing source, and finding what is written twice.

pub mod duplication;
pub mod indexing;
pub mod parsing;
