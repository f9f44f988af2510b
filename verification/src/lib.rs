//! A server-authoritative engine for a turn-based, resource-trading territory
//! game played on a generated hexagonal board.
//!
//! Every function in this crate carries a contract that the verifier checks.
pub mod chance;
pub mod error;
pub mod games;
pub mod search;
