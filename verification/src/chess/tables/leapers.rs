//! Knights and kings: the squares they reach do not depend on other pieces.
use crate::chess::bitboard::{group_holds, holds, with};
use crate::chess::square::{file_of, on_board, rank_of, square_at, Square};
use vstd::prelude::*;

verus! {

/// The distance between two coordinates.
pub open spec fn gap(a: int, b: int) -> int {
    if a <= b {
        b - a
    } else {
        a - b
    }
}

/// Whether a knight on square `from` reaches square `to`: one file and two
/// ranks away, or two files and one rank.
pub open spec fn knight_reach(from: int, to: int) -> bool {
    let df = gap(file_of(from), file_of(to));
    let dr = gap(rank_of(from), rank_of(to));
    0 <= from < 64 && 0 <= to < 64 && ((df == 1 && dr == 2) || (df == 2 && dr == 1))
}

/// Whether a king on square `from` reaches square `to`: another square at
/// most one file and one rank away.
pub open spec fn king_reach(from: int, to: int) -> bool {
    let df = gap(file_of(from), file_of(to));
    let dr = gap(rank_of(from), rank_of(to));
    0 <= from < 64 && 0 <= to < 64 && from != to && df <= 1 && dr <= 1
}

/// The square on `file` and `rank`, where the two name one.
pub fn square_on(file: i8, rank: i8) -> (r: Option<Square>)
    ensures
        r is Some <==> on_board(file as int, rank as int),
        r matches Some(sq) ==> sq.idx() == square_at(file as int, rank as int),
{
    if 0 <= file && file < 8 && 0 <= rank && rank < 8 {
        Some(Square::new((8 * file + rank) as u8))
    } else {
        None
    }
}

/// Adds to `bb` the square on `file` and `rank`, where the two name one.
fn add_target(bb: u64, file: i8, rank: i8) -> (r: u64)
    ensures
        forall|t: int|
            holds(r, t) <==> holds(bb, t) || (0 <= t < 64 && file_of(t) == file && rank_of(t)
                == rank),
{
    match square_on(file, rank) {
        Some(sq) => with(bb, sq),
        None => bb,
    }
}

/// The squares that a knight on `sq` reaches.
pub fn knight_attacks_from(sq: Square) -> (bb: u64)
    ensures
        forall|t: int| holds(bb, t) <==> knight_reach(sq.idx(), t),
{
    broadcast use group_holds;
    let f = sq.file() as i8;
    let r = sq.rank() as i8;
    let bb: u64 = 0;
    let bb = add_target(bb, f + 1, r + 2);
    let bb = add_target(bb, f + 1, r - 2);
    let bb = add_target(bb, f - 1, r + 2);
    let bb = add_target(bb, f - 1, r - 2);
    let bb = add_target(bb, f + 2, r + 1);
    let bb = add_target(bb, f + 2, r - 1);
    let bb = add_target(bb, f - 2, r + 1);
    let bb = add_target(bb, f - 2, r - 1);
    bb
}

/// The squares that a king on `sq` reaches.
pub fn king_attacks_from(sq: Square) -> (bb: u64)
    ensures
        forall|t: int| holds(bb, t) <==> king_reach(sq.idx(), t),
{
    broadcast use group_holds;
    let f = sq.file() as i8;
    let r = sq.rank() as i8;
    let bb: u64 = 0;
    let bb = add_target(bb, f + 1, r + 1);
    let bb = add_target(bb, f + 1, r);
    let bb = add_target(bb, f + 1, r - 1);
    let bb = add_target(bb, f, r + 1);
    let bb = add_target(bb, f, r - 1);
    let bb = add_target(bb, f - 1, r + 1);
    let bb = add_target(bb, f - 1, r);
    let bb = add_target(bb, f - 1, r - 1);
    bb
}

/// The squares that a knight on square number `i` reaches.
fn knight_attacks_at(i: usize) -> (bb: u64)
    requires
        i < 64,
    ensures
        forall|t: int| holds(bb, t) <==> knight_reach(i as int, t),
{
    knight_attacks_from(Square::new(i as u8))
}

/// The squares that a king on square number `i` reaches.
fn king_attacks_at(i: usize) -> (bb: u64)
    requires
        i < 64,
    ensures
        forall|t: int| holds(bb, t) <==> king_reach(i as int, t),
{
    king_attacks_from(Square::new(i as u8))
}

/// For each square, the squares that a knight on it reaches.
pub fn boxed_knight_attacks() -> (table: Box<[u64; 64]>)
    ensures
        forall|i: int, t: int|
            0 <= i < 64 ==> (holds(#[trigger] table@[i], t) <==> #[trigger] knight_reach(i, t)),
{
    let table: [u64; 64] = array_init::array_init(knight_attacks_at);
    assert forall|i: int, t: int| 0 <= i < 64 implies (holds(#[trigger] table@[i], t)
        <==> #[trigger] knight_reach(i, t)) by {
        assert(call_ensures(knight_attacks_at, (i as usize,), table@[i]));
    }
    Box::new(table)
}

/// For each square, the squares that a king on it reaches.
pub fn boxed_king_attacks() -> (table: Box<[u64; 64]>)
    ensures
        forall|i: int, t: int|
            0 <= i < 64 ==> (holds(#[trigger] table@[i], t) <==> #[trigger] king_reach(i, t)),
{
    let table: [u64; 64] = array_init::array_init(king_attacks_at);
    assert forall|i: int, t: int| 0 <= i < 64 implies (holds(#[trigger] table@[i], t)
        <==> #[trigger] king_reach(i, t)) by {
        assert(call_ensures(king_attacks_at, (i as usize,), table@[i]));
    }
    Box::new(table)
}

} // verus!
