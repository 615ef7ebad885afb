//! The server: who may reach it, and what it answers of itself.

pub mod common;
