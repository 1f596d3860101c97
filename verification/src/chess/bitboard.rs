//! Sets of squares packed into 64-bit words.
//!
//! A square is numbered `8 * file + rank`, so the eight squares of a file are
//! eight neighbouring bits and one step north is one bit up.
use crate::chess::square::{file_of, on_board, rank_of, square_at, Square};
use vstd::prelude::*;

verus! {

/// A set of squares: bit `i` is set when square `i` is a member.
pub type BitBoard = u64;

/// Whether square `sq` is a member of `bb`. No square outside `0..64` ever is.
pub open spec fn holds(bb: u64, sq: int) -> bool {
    0 <= sq < 64 && (bb >> (sq as u64)) & 1 == 1
}

/// The squares of `bb` as a set.
pub open spec fn members(bb: u64) -> Set<int> {
    Set::new(|sq: int| holds(bb, sq))
}

proof fn lemma_bits_of_ops(a: u64, b: u64, i: u64)
    by (bit_vector)
    requires
        i < 64,
    ensures
        ((a & b) >> i) & 1 == 1 <==> ((a >> i) & 1 == 1 && (b >> i) & 1 == 1),
        ((a | b) >> i) & 1 == 1 <==> ((a >> i) & 1 == 1 || (b >> i) & 1 == 1),
        ((!a) >> i) & 1 == 1 <==> !((a >> i) & 1 == 1),
        (0u64 >> i) & 1 == 0,
{
}

proof fn lemma_bits_of_shifts(a: u64, k: u64, i: u64)
    by (bit_vector)
    requires
        i < 64,
        k < 64,
    ensures
        ((a << k) >> i) & 1 == 1 <==> (i >= k && (a >> ((i - k) as u64)) & 1 == 1),
        ((a >> k) >> i) & 1 == 1 <==> (i + k < 64 && (a >> ((i + k) as u64)) & 1 == 1),
        ((1u64 << k) >> i) & 1 == 1 <==> i == k,
{
}

/// Membership in an intersection.
pub broadcast proof fn lemma_holds_and(a: u64, b: u64, i: int)
    ensures
        #[trigger] holds(a & b, i) <==> holds(a, i) && holds(b, i),
{
    if 0 <= i < 64 {
        lemma_bits_of_ops(a, b, i as u64);
    }
}

/// Membership in a union.
pub broadcast proof fn lemma_holds_or(a: u64, b: u64, i: int)
    ensures
        #[trigger] holds(a | b, i) <==> holds(a, i) || holds(b, i),
{
    if 0 <= i < 64 {
        lemma_bits_of_ops(a, b, i as u64);
    }
}

/// Membership in a complement.
pub broadcast proof fn lemma_holds_not(a: u64, i: int)
    ensures
        #[trigger] holds(!a, i) <==> 0 <= i < 64 && !holds(a, i),
{
    if 0 <= i < 64 {
        lemma_bits_of_ops(a, a, i as u64);
    }
}

/// The empty set has no member.
pub broadcast proof fn lemma_holds_zero(i: int)
    ensures
        !#[trigger] holds(0u64, i),
{
    if 0 <= i < 64 {
        lemma_bits_of_ops(0, 0, i as u64);
    }
}

/// Shifting up by `k` moves every member up by `k`; members that would pass
/// square 63 are dropped.
pub broadcast proof fn lemma_holds_shl(a: u64, k: u64, i: int)
    requires
        k < 64,
    ensures
        #[trigger] holds(a << k, i) <==> 0 <= i < 64 && holds(a, i - k),
{
    if 0 <= i < 64 {
        lemma_bits_of_shifts(a, k, i as u64);
    }
}

/// Shifting down by `k` moves every member down by `k`.
pub broadcast proof fn lemma_holds_shr(a: u64, k: u64, i: int)
    requires
        k < 64,
    ensures
        #[trigger] holds(a >> k, i) <==> 0 <= i && holds(a, i + k),
{
    if 0 <= i < 64 {
        lemma_bits_of_shifts(a, k, i as u64);
    }
}

/// `1 << k` is the set that holds square `k` alone.
pub broadcast proof fn lemma_holds_single(k: u64, i: int)
    requires
        k < 64,
    ensures
        #[trigger] holds(1u64 << k, i) <==> i == k,
{
    if 0 <= i < 64 {
        lemma_bits_of_shifts(0, k, i as u64);
    }
}

pub broadcast group group_holds {
    lemma_holds_and,
    lemma_holds_or,
    lemma_holds_not,
    lemma_holds_zero,
    lemma_holds_shl,
    lemma_holds_shr,
    lemma_holds_single,
}

proof fn lemma_xor_facts(a: u64, b: u64, i: u64)
    by (bit_vector)
    requires
        i < 64,
    ensures
        ((a ^ b) >> i) & 1 == 1 <==> ((a >> i) & 1 == 1) != ((b >> i) & 1 == 1),
        a ^ b == 0 ==> a == b,
{
}

/// Two sets with the same members are the same word.
pub proof fn lemma_holds_ext(a: u64, b: u64)
    requires
        forall|i: int| 0 <= i < 64 ==> holds(a, i) == holds(b, i),
    ensures
        a == b,
{
    let x = a ^ b;
    if x != 0 {
        vstd::std_specs::bits::axiom_u64_trailing_zeros(x);
        let tz = vstd::std_specs::bits::u64_trailing_zeros(x) as u64;
        lemma_xor_facts(a, b, tz);
        assert(holds(a, tz as int) != holds(b, tz as int));
    } else {
        lemma_xor_facts(a, b, 0);
    }
}

/// The lowest member of a set that is not empty.
pub fn lowest(bb: u64) -> (sq: Square)
    requires
        bb != 0,
    ensures
        holds(bb, sq.idx()),
        forall|j: int| 0 <= j < sq.idx() ==> !holds(bb, j),
{
    proof {
        vstd::std_specs::bits::axiom_u64_trailing_zeros(bb);
    }
    let tz: u32 = bb.trailing_zeros();
    let sq = Square::new(tz as u8);
    assert forall|j: int| 0 <= j < sq.idx() implies !holds(bb, j) by {
        let ju = j as u64;
        assert((bb >> ju) & 1u64 == 0u64);
    }
    sq
}

/// The set that holds `sq` alone.
pub fn single(sq: Square) -> (bb: u64)
    ensures
        forall|j: int| holds(bb, j) <==> j == sq.idx(),
        bb == 1u64 << (sq.idx() as u64),
{
    broadcast use group_holds;
    let i = sq.i();
    1u64 << i
}

/// Whether `sq` is a member of `bb`.
pub fn contains(bb: u64, sq: Square) -> (r: bool)
    ensures
        r == holds(bb, sq.idx()),
{
    let i = sq.i();
    (bb >> i) & 1 == 1
}

/// The set without `sq`.
pub fn without(bb: u64, sq: Square) -> (r: u64)
    ensures
        forall|j: int| holds(r, j) <==> holds(bb, j) && j != sq.idx(),
        r == bb & !(1u64 << (sq.idx() as u64)),
{
    broadcast use group_holds;
    let i = sq.i();
    bb & !(1u64 << i)
}

/// The set with `sq` added.
pub fn with(bb: u64, sq: Square) -> (r: u64)
    ensures
        forall|j: int| holds(r, j) <==> holds(bb, j) || j == sq.idx(),
        r == bb | (1u64 << (sq.idx() as u64)),
{
    broadcast use group_holds;
    let i = sq.i();
    bb | (1u64 << i)
}

proof fn lemma_lines_of_board(f: u64, r: u64, i: u64)
    by (bit_vector)
    requires
        f < 8,
        r < 8,
        i < 64,
    ensures
        ((0xffu64 << (8 * f)) >> i) & 1 == 1 <==> i / 8 == f,
        ((0x0101_0101_0101_0101u64 << r) >> i) & 1 == 1 <==> i % 8 == r,
{
}

/// The squares of file `file`.
pub fn file_bb(file: u8) -> (bb: u64)
    requires
        file < 8,
    ensures
        forall|sq: int| holds(bb, sq) <==> 0 <= sq < 64 && file_of(sq) == file,
{
    let bb = 0xffu64 << (8 * file);
    assert forall|sq: int| holds(bb, sq) <==> 0 <= sq < 64 && file_of(sq) == file by {
        if 0 <= sq < 64 {
            lemma_lines_of_board(file as u64, 0, sq as u64);
        }
    }
    bb
}

/// The squares of rank `rank`.
pub fn rank_bb(rank: u8) -> (bb: u64)
    requires
        rank < 8,
    ensures
        forall|sq: int| holds(bb, sq) <==> 0 <= sq < 64 && rank_of(sq) == rank,
{
    let bb = 0x0101_0101_0101_0101u64 << rank;
    assert forall|sq: int| holds(bb, sq) <==> 0 <= sq < 64 && rank_of(sq) == rank by {
        if 0 <= sq < 64 {
            lemma_lines_of_board(0, rank as u64, sq as u64);
        }
    }
    bb
}

/// Moves every member of `bb` by `files` files and `ranks` ranks, each at
/// most one step either way. A member that would leave the board is
/// dropped: it never comes back in on the other side.
pub fn step_all(bb: u64, files: i8, ranks: i8) -> (r: u64)
    requires
        -1 <= files <= 1,
        -1 <= ranks <= 1,
    ensures
        forall|t: int|
            holds(r, t) <==> 0 <= t < 64 && on_board(file_of(t) - files, rank_of(t) - ranks)
                && holds(bb, square_at(file_of(t) - files, rank_of(t) - ranks)),
{
    broadcast use group_holds;
    let mut keep = bb;
    if files == 1 {
        keep = keep & !file_bb(7);
    }
    if files == -1 {
        keep = keep & !file_bb(0);
    }
    if ranks == 1 {
        keep = keep & !rank_bb(7);
    }
    if ranks == -1 {
        keep = keep & !rank_bb(0);
    }
    assert forall|s: int|
        holds(keep, s) <==> holds(bb, s) && on_board(file_of(s) + files, rank_of(s) + ranks) by {}
    let delta: i8 = 8 * files + ranks;
    let r = if delta >= 0 {
        keep << (delta as u64)
    } else {
        keep >> ((-delta) as u64)
    };
    assert forall|t: int|
        holds(r, t) <==> 0 <= t < 64 && on_board(file_of(t) - files, rank_of(t) - ranks) && holds(
            bb,
            square_at(file_of(t) - files, rank_of(t) - ranks),
        ) by {
        let s = t - delta;
        if delta >= 0 {
            lemma_holds_shl(keep, delta as u64, t);
        } else {
            lemma_holds_shr(keep, (-delta) as u64, t);
        }
        assert(holds(r, t) <==> 0 <= t < 64 && holds(keep, s));
        if 0 <= t < 64 {
            assert(square_at(file_of(t) - files, rank_of(t) - ranks) == s);
            if 0 <= s < 64 {
                if on_board(file_of(s) + files, rank_of(s) + ranks) {
                    assert(file_of(t) == file_of(s) + files && rank_of(t) == rank_of(s) + ranks);
                }
                if on_board(file_of(t) - files, rank_of(t) - ranks) {
                    assert(file_of(s) == file_of(t) - files && rank_of(s) == rank_of(t) - ranks);
                }
            }
        }
    }
    r
}

/// Moves every member of `bb` one rank up; the members of the last rank
/// are dropped.
pub fn north(bb: u64) -> (r: u64)
    ensures
        forall|t: int|
            holds(r, t) <==> 0 <= t < 64 && rank_of(t) >= 1 && holds(bb, t - 1),
{
    step_all(bb, 0, 1)
}

/// Moves every member of `bb` one rank down; the members of the first rank
/// are dropped.
pub fn south(bb: u64) -> (r: u64)
    ensures
        forall|t: int|
            holds(r, t) <==> 0 <= t < 64 && rank_of(t) <= 6 && holds(bb, t + 1),
{
    step_all(bb, 0, -1)
}

} // verus!
