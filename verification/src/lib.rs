//! Move generation and perft for a bitboard chess engine.
pub mod cache;
pub mod chess;
pub mod err;
pub mod protocols;
pub mod text;
pub mod version;
