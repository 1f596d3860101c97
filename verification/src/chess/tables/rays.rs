//! Sliding pieces: rays along files, ranks and diagonals, cut short by the
//! first piece in the way.
use crate::chess::bitboard::{contains, group_holds, holds, members, with};
use crate::chess::square::{file_of, on_board, rank_of, square_at, Square};
use crate::chess::tables::leapers::square_on;
use vstd::prelude::*;

verus! {

/// The four families of lines through a square.
#[derive(Copy, Clone, Debug, PartialEq, Eq, Structural)]
pub enum Line {
    /// Along the file: the rank changes.
    File,
    /// Along the rank: the file changes.
    Rank,
    /// Towards higher files and higher ranks.
    Diagonal,
    /// Towards higher files and lower ranks.
    AntiDiagonal,
}

/// The file reached from `from` after `k` steps along `line`; negative `k`
/// counts steps the other way.
pub open spec fn file_along(line: Line, from: int, k: int) -> int {
    match line {
        Line::File => file_of(from),
        _ => file_of(from) + k,
    }
}

/// The rank reached from `from` after `k` steps along `line`.
pub open spec fn rank_along(line: Line, from: int, k: int) -> int {
    match line {
        Line::File => rank_of(from) + k,
        Line::Rank => rank_of(from),
        Line::Diagonal => rank_of(from) + k,
        Line::AntiDiagonal => rank_of(from) - k,
    }
}

/// Whether `k` steps from `from` along `line` stay on the board.
pub open spec fn step_on_board(line: Line, from: int, k: int) -> bool {
    on_board(file_along(line, from, k), rank_along(line, from, k))
}

/// The square `k` steps from `from` along `line`.
pub open spec fn step_square(line: Line, from: int, k: int) -> int {
    square_at(file_along(line, from, k), rank_along(line, from, k))
}

/// How many steps along `line` would lead from `from` to `to`, if `to` lies
/// on that line.
pub open spec fn steps_between(line: Line, from: int, to: int) -> int {
    match line {
        Line::File => rank_of(to) - rank_of(from),
        _ => file_of(to) - file_of(from),
    }
}

/// Whether `j` lies strictly between 0 and `k`.
pub open spec fn inside(j: int, k: int) -> bool {
    (0 < j < k) || (k < j < 0)
}

/// Whether no square strictly between `from` and the square `k` steps away
/// along `line` is one of `blockers`.
pub open spec fn clear_path(line: Line, from: int, k: int, blockers: Set<int>) -> bool {
    forall|j: int| inside(j, k) ==> !blockers.contains(#[trigger] step_square(line, from, j))
}

/// Whether a slider on `from` reaches `to` along `line` when pieces stand on
/// `blockers`: `to` is another square of the line and nothing stands strictly
/// between the two. What stands on `to` itself does not matter.
pub open spec fn slides(line: Line, from: int, to: int, blockers: Set<int>) -> bool {
    let k = steps_between(line, from, to);
    &&& 0 <= from < 64
    &&& 0 <= to < 64
    &&& k != 0
    &&& step_on_board(line, from, k)
    &&& to == step_square(line, from, k)
    &&& clear_path(line, from, k, blockers)
}

/// `clear_path` with the blockers given as a bitboard.
pub open spec fn clear_run(line: Line, from: int, k: int, occ: u64) -> bool {
    clear_path(line, from, k, members(occ))
}

/// `slides` with the blockers given as a bitboard.
pub open spec fn slide_reach(line: Line, from: int, to: int, occ: u64) -> bool {
    slides(line, from, to, members(occ))
}

/// Whether the occupancy of square `x` can matter to a slider on `from`
/// along `line`: `x` is another square of the line and the line goes on
/// behind it.
pub open spec fn relevant(line: Line, from: int, x: int) -> bool {
    let k = steps_between(line, from, x);
    &&& 0 <= from < 64
    &&& 0 <= x < 64
    &&& k != 0
    &&& x == step_square(line, from, k)
    &&& step_on_board(line, from, if k > 0 { k + 1 } else { k - 1 })
}

/// The coordinates `k` steps from `(file, rank)` along `line`.
pub fn step_from(line: Line, file: i8, rank: i8, k: i8) -> (r: (i8, i8))
    requires
        0 <= file < 8,
        0 <= rank < 8,
        -9 <= k <= 9,
    ensures
        r.0 == file_along(line, square_at(file as int, rank as int), k as int),
        r.1 == rank_along(line, square_at(file as int, rank as int), k as int),
{
    match line {
        Line::File => (file, rank + k),
        Line::Rank => (file + k, rank),
        Line::Diagonal => (file + k, rank + k),
        Line::AntiDiagonal => (file + k, rank - k),
    }
}

/// Walks from `from` along `line`, forwards or backwards, and collects the
/// squares up to and including the first member of `occ`.
fn cast(line: Line, from: Square, forwards: bool, occ: u64) -> (bb: u64)
    ensures
        forall|t: int|
            holds(bb, t) <==> slide_reach(line, from.idx(), t, occ) && (steps_between(
                line,
                from.idx(),
                t,
            ) > 0) == forwards,
{
    broadcast use group_holds;
    let f = from.file() as i8;
    let r = from.rank() as i8;
    let ghost origin = from.idx();
    let mut bb: u64 = 0;
    let mut n: i8 = 1;
    let mut blocked = false;
    while n < 8 && !blocked
        invariant
            1 <= n <= 8,
            0 <= f < 8,
            0 <= r < 8,
            origin == from.idx(),
            origin == square_at(f as int, r as int),
            file_of(origin) == f,
            rank_of(origin) == r,
            !blocked ==> clear_run(line, origin, signed(forwards, n as int), occ),
            !blocked ==> forall|t: int|
                holds(bb, t) <==> slide_reach(line, origin, t, occ) && (steps_between(
                    line,
                    origin,
                    t,
                ) > 0) == forwards && gap_steps(line, origin, t) < n,
            blocked ==> forall|t: int|
                holds(bb, t) <==> slide_reach(line, origin, t, occ) && (steps_between(
                    line,
                    origin,
                    t,
                ) > 0) == forwards,
        decreases 8 - n + (if blocked { 0int } else { 1 }),
    {
        let k: i8 = if forwards { n } else { -n };
        let (nf, nr) = step_from(line, f, r, k);
        match square_on(nf, nr) {
            Some(sq) => {
                let ghost before = bb;
                bb = with(bb, sq);
                proof {
                    let x = sq.idx();
                    assert(steps_between(line, origin, x) == k);
                    assert(slide_reach(line, origin, x, occ));
                }
                if contains(occ, sq) {
                    blocked = true;
                    proof {
                        let x = sq.idx();
                        assert(x == step_square(line, origin, k as int));
                        assert forall|t: int|
                            slide_reach(line, origin, t, occ) && (steps_between(line, origin, t)
                                > 0) == forwards implies gap_steps(line, origin, t) <= n by {
                            let kt = steps_between(line, origin, t);
                            if gap_steps(line, origin, t) > n {
                                assert(inside(k as int, kt));
                                assert(!holds(occ, step_square(line, origin, k as int)));
                            }
                        }
                        assert forall|t: int|
                            slide_reach(line, origin, t, occ) && (steps_between(line, origin, t)
                                > 0) == forwards && gap_steps(line, origin, t)
                                == n implies t == x by {}
                    }
                } else {
                    proof {
                        let x = sq.idx();
                        assert forall|j: int| inside(j, signed(forwards, n + 1)) implies !holds(
                            occ,
                            #[trigger] step_square(line, origin, j),
                        ) by {
                            if j != k {
                                assert(inside(j, signed(forwards, n as int)));
                            }
                        }
                        assert forall|t: int|
                            slide_reach(line, origin, t, occ) && (steps_between(line, origin, t)
                                > 0) == forwards && gap_steps(line, origin, t)
                                == n implies t == x by {}
                    }
                    n = n + 1;
                }
            },
            None => {
                blocked = true;
                proof {
                    assert forall|t: int|
                        slide_reach(line, origin, t, occ) && (steps_between(line, origin, t) > 0)
                            == forwards implies gap_steps(line, origin, t) < n by {}
                }
            },
        }
    }
    proof {
        assert forall|t: int|
            slide_reach(line, origin, t, occ) implies gap_steps(line, origin, t) < 8 by {}
    }
    bb
}

/// `n` steps forwards, or `n` steps backwards.
pub open spec fn signed(forwards: bool, n: int) -> int {
    if forwards {
        n
    } else {
        -n
    }
}

/// The number of steps along `line` between `from` and `to`, without its sign.
pub open spec fn gap_steps(line: Line, from: int, to: int) -> int {
    let k = steps_between(line, from, to);
    if k < 0 {
        -k
    } else {
        k
    }
}

/// Walks from `from` along `line`, forwards or backwards, and collects the
/// squares behind which the line goes on.
fn inner_squares(line: Line, from: Square, forwards: bool) -> (bb: u64)
    ensures
        forall|x: int|
            holds(bb, x) <==> relevant(line, from.idx(), x) && (steps_between(line, from.idx(), x)
                > 0) == forwards,
{
    broadcast use group_holds;
    let f = from.file() as i8;
    let r = from.rank() as i8;
    let ghost origin = from.idx();
    let mut bb: u64 = 0;
    let mut n: i8 = 1;
    let mut done = false;
    while n < 8 && !done
        invariant
            1 <= n <= 8,
            0 <= f < 8,
            0 <= r < 8,
            origin == from.idx(),
            origin == square_at(f as int, r as int),
            file_of(origin) == f,
            rank_of(origin) == r,
            !done ==> forall|x: int|
                holds(bb, x) <==> relevant(line, origin, x) && (steps_between(line, origin, x) > 0)
                    == forwards && gap_steps(line, origin, x) < n,
            done ==> forall|x: int|
                holds(bb, x) <==> relevant(line, origin, x) && (steps_between(line, origin, x) > 0)
                    == forwards,
        decreases 8 - n + (if done { 0int } else { 1 }),
    {
        let k: i8 = if forwards { n } else { -n };
        let beyond: i8 = if forwards { n + 1 } else { -n - 1 };
        let (nf, nr) = step_from(line, f, r, k);
        let (bf, br) = step_from(line, f, r, beyond);
        match (square_on(nf, nr), square_on(bf, br)) {
            (Some(sq), Some(_)) => {
                bb = with(bb, sq);
                proof {
                    let x = sq.idx();
                    assert(steps_between(line, origin, x) == k);
                    assert(relevant(line, origin, x));
                    assert forall|t: int|
                        relevant(line, origin, t) && (steps_between(line, origin, t) > 0)
                            == forwards && gap_steps(line, origin, t) == n implies t == x by {}
                }
                n = n + 1;
            },
            _ => {
                done = true;
                proof {
                    assert forall|t: int|
                        relevant(line, origin, t) && (steps_between(line, origin, t) > 0)
                            == forwards implies gap_steps(line, origin, t) < n by {}
                }
            },
        }
    }
    proof {
        assert forall|t: int| relevant(line, origin, t) implies gap_steps(line, origin, t) < 8 by {}
    }
    bb
}

/// The squares whose occupancy can matter to a slider on `from` along `line`.
pub fn relevant_mask(line: Line, from: Square) -> (bb: u64)
    ensures
        forall|x: int| holds(bb, x) <==> relevant(line, from.idx(), x),
{
    broadcast use group_holds;
    let up = inner_squares(line, from, true);
    let down = inner_squares(line, from, false);
    up | down
}

/// Two occupancies that agree on the relevant squares give a slider the same
/// squares.
pub proof fn lemma_only_relevant_matter(line: Line, from: int, a: u64, b: u64)
    requires
        forall|x: int| relevant(line, from, x) ==> holds(a, x) == holds(b, x),
    ensures
        forall|t: int| slide_reach(line, from, t, a) == slide_reach(line, from, t, b),
{
    assert forall|t: int| slide_reach(line, from, t, a) == slide_reach(line, from, t, b) by {
        let k = steps_between(line, from, t);
        if 0 <= from < 64 && 0 <= t < 64 && k != 0 && step_on_board(line, from, k) && t
            == step_square(line, from, k) {
            assert forall|j: int| inside(j, k) implies holds(
                a,
                #[trigger] step_square(line, from, j),
            ) == holds(b, step_square(line, from, j)) by {
                let x = step_square(line, from, j);
                assert(steps_between(line, from, x) == j);
                assert(relevant(line, from, x));
            }
        }
    }
}

/// The squares that a slider on `from` reaches along `line`, found by
/// walking the line both ways until a member of `occ` is met.
pub fn ray_attacks(line: Line, from: Square, occ: u64) -> (bb: u64)
    ensures
        forall|t: int| holds(bb, t) <==> slide_reach(line, from.idx(), t, occ),
{
    broadcast use group_holds;
    let up = cast(line, from, true, occ);
    let down = cast(line, from, false, occ);
    up | down
}

} // verus!
