//! What the command line does to its own process.

pub mod priority;
