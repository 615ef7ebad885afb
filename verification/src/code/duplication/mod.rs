//! Duplication detection over the code index.

pub mod bits;
pub mod body;
pub mod cluster;
pub mod components;
pub mod dense;
pub mod embed;
pub mod laws;
pub mod linkage;
pub mod simhash;
pub mod store;
pub mod union_find;
