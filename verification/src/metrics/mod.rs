//! What is measured, and what of it may be kept.

pub mod privacy;
