//! Board geometry, attack tables, move generation and perft.
pub mod bitboard;
pub mod board;
pub mod fen;
pub mod magic;
pub mod mover;
pub mod moves;
pub mod perft;
pub mod soundness;
pub mod square;
pub mod tables;

pub use bitboard::BitBoard;
pub use board::Board;
pub use magic::Magic;
pub use moves::{AvailableMoves, AvailableMovesIter, Move};
pub use perft::Report;
pub use square::{Color, Piece, Role, Square};
pub use tables::AttackTables;
