//! Syntax trees, and what is read off them.

pub mod caching_parser;
pub mod grammar;
pub mod rust;
pub mod syntax;
