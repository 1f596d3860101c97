//! The protocols by which the engine is driven.
pub mod uci;
pub mod words;
