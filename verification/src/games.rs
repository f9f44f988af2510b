//! The games that the engine can run, and the machinery they share.
pub mod base;
pub mod hexagon;
