//! Measuring models and retrieval against written-down answers.

pub mod embedding_gap;
pub mod fixture;
