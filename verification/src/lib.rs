//! A knowledge base over a repository: finding code that is written twice,
//! typing the receivers of calls, and the rules around the stores, the server
//! and the telemetry.
//!
//! What each function does is stated in its contract over the views of its
//! arguments. The modules:
//!
//! * [`code::duplication`]: bodies, their fingerprints, the clusters they form,
//!   and the semantic pass over what the clusters leave open.
//! * [`code::parsing`]: syntax trees, the parser that caches them, and the type
//!   of the expression that a Rust method call was made on.
//! * [`code::indexing`]: what the index stores of a receiver.
//! * [`audit`]: the duplication audit, step by step.
//! * [`store`], [`mcp`], [`metrics`], [`cli`], [`eval`]: namespaces, access to
//!   the server, query telemetry, scheduling priority, evaluation fixtures.

pub mod audit;
pub mod cli;
pub mod code;
pub mod eval;
pub mod mcp;
pub mod metrics;
pub mod sorting;
pub mod store;
pub mod text;
