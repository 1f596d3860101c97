//! Why the magics of this library are sound: each brings the occupancy of
//! every relevant square of its line to a bit of its own in the index.
use crate::chess::bitboard::{
    holds, lemma_holds_and, lemma_holds_ext, lemma_holds_not, lemma_holds_shl, lemma_holds_shr,
    lemma_holds_zero,
};
use crate::chess::magic::{magics_sound, same_reach, wrapping_product, Magic, TABLE_SIZE};
use crate::chess::square::{file_of, rank_of};
use crate::chess::tables::rays::{lemma_only_relevant_matter, relevant, Line};
use vstd::prelude::*;

verus! {

/// The squares of the diagonal from a1 to h8.
pub const MAIN_DIAGONAL: u64 = 0x8040_2010_0804_0201;

/// The squares of the diagonal from a8 to h1.
pub const ANTI_DIAGONAL: u64 = 0x0102_0408_1020_4080;

/// The squares that are on no edge of the board.
pub const INNER: u64 = 0x007e_7e7e_7e7e_7e00;

proof fn lemma_constants(i: u64)
    by (bit_vector)
    requires
        i < 64,
    ensures
        (0x7fu64 >> i) & 1 == 1 <==> i < 7,
        (0x0001_0101_0101_0100u64 >> i) & 1 == 1 <==> i % 8 == 0 && 8 <= i <= 48,
        (0x8040_2010_0804_0201u64 >> i) & 1 == 1 <==> i % 9 == 0,
        (0x0102_0408_1020_4080u64 >> i) & 1 == 1 <==> i % 7 == 0 && 7 <= i <= 56,
        (0x007e_7e7e_7e7e_7e00u64 >> i) & 1 == 1 <==> 1 <= i / 8 <= 6 && 1 <= i % 8 <= 6,
{
}

proof fn lemma_file_index(occ: u64, a: u64, j: u64)
    by (bit_vector)
    requires
        a <= 56,
        j < 6,
    ensures
        ((occ & (0x7fu64 << a)) >> ((a + 1) as u64)) < 64,
        (((occ & (0x7fu64 << a)) >> ((a + 1) as u64)) >> j) & 1 == (occ >> ((a + 1 + j) as u64))
            & 1,
{
}

proof fn lemma_rank_index(occ: u64, r: u64, j: u64)
    by (bit_vector)
    requires
        r < 8,
        j < 6,
    ensures
        (wrapping_product(occ & (0x0001_0101_0101_0100u64 << r), 0x0004_0810_2040_8000u64 >> r)
            >> 58) < 64,
        ((wrapping_product(occ & (0x0001_0101_0101_0100u64 << r), 0x0004_0810_2040_8000u64 >> r)
            >> 58) >> j) & 1 == (occ >> (8 * (j + 1) + r)) & 1,
{
}

proof fn lemma_diagonal_index(v: u64, s: u64, j: u64)
    by (bit_vector)
    requires
        s <= 56,
        s % 8 == 0,
        j < 6,
    ensures
        (wrapping_product(v, 0x0202_0202_0202_0202u64) >> 58) < 64,
        v & !((0x8040_2010_0804_0201u64 << s) & 0x007e_7e7e_7e7e_7e00u64) == 0 ==> ((
        wrapping_product(v, 0x0202_0202_0202_0202u64) >> 58) >> j) & 1 == (v >> (9 * (j + 1) + s))
            & 1,
        v & !((0x8040_2010_0804_0201u64 >> s) & 0x007e_7e7e_7e7e_7e00u64) == 0 ==> ((
        wrapping_product(v, 0x0202_0202_0202_0202u64) >> 58) >> j) & 1 == (if 9 * (j + 1) >= s {
            (v >> ((9 * (j + 1) - s) as u64)) & 1
        } else {
            0
        }),
        v & !((0x0102_0408_1020_4080u64 << s) & 0x007e_7e7e_7e7e_7e00u64) == 0 ==> ((
        wrapping_product(v, 0x0202_0202_0202_0202u64) >> 58) >> j) & 1 == (v >> (56 + s - 7 * (j
            + 1)) as u64) & 1,
        v & !((0x0102_0408_1020_4080u64 >> s) & 0x007e_7e7e_7e7e_7e00u64) == 0 ==> ((
        wrapping_product(v, 0x0202_0202_0202_0202u64) >> 58) >> j) & 1 == (if 56 >= s + 7 * (j
            + 1) {
            (v >> ((56 - s - 7 * (j + 1)) as u64)) & 1
        } else {
            0
        }),
{
}

/// The bit of the index that the occupancy of a relevant square is
/// brought to: along a rank the squares are told apart by their files, along
/// the other lines by their ranks.
pub open spec fn slot(line: Line, x: int) -> int {
    match line {
        Line::Rank => file_of(x) - 1,
        _ => rank_of(x) - 1,
    }
}

/// A relevant square lies on the line of its slider, on no edge that the
/// line runs into.
pub proof fn lemma_relevant_is_inner(line: Line, sq: int, x: int)
    requires
        relevant(line, sq, x),
    ensures
        0 <= sq < 64,
        0 <= x < 64,
        0 <= slot(line, x) < 6,
        match line {
            Line::File => file_of(x) == file_of(sq),
            Line::Rank => rank_of(x) == rank_of(sq),
            Line::Diagonal => file_of(x) - rank_of(x) == file_of(sq) - rank_of(sq) && 1 <= file_of(
                x,
            ) <= 6,
            Line::AntiDiagonal => file_of(x) + rank_of(x) == file_of(sq) + rank_of(sq) && 1
                <= file_of(x) <= 6,
        },
{
}

/// The magic of a slider brings the occupancy of each relevant square to
/// the bit of the index that is the slot of the square, and every index is
/// in the table.
pub proof fn lemma_index_shows_relevant(m: Magic, line: Line, sq: int, occ: u64, x: int)
    requires
        0 <= sq < 64,
        m.is_for(line, sq),
        relevant(line, sq, x),
    ensures
        m.index_of(occ) < TABLE_SIZE,
        holds(m.mask_of(), x),
        holds(m.index_of(occ), slot(line, x)) <==> holds(occ, x),
{
    lemma_relevant_is_inner(line, sq, x);
    let j = slot(line, x);
    let mask = m.mask_of();
    let v = occ & mask;
    assert(m.index_of(occ) == wrapping_product(v, m.multiplier_of()) >> (m.shift_of() as u64));
    match line {
        Line::File => {
            let a = 8 * file_of(sq);
            assert(wrapping_product(v, 1) == v);
            lemma_file_index(occ, a as u64, j as u64);
            lemma_holds_shl(0x7fu64, a as u64, x);
            lemma_constants((x - a) as u64);
            assert(x == a + 1 + j);
        },
        Line::Rank => {
            let r = rank_of(sq);
            lemma_rank_index(occ, r as u64, j as u64);
            lemma_holds_shl(0x0001_0101_0101_0100u64, r as u64, x);
            lemma_constants((x - r) as u64);
            assert(x == 8 * (j + 1) + r);
        },
        Line::Diagonal => {
            let c = file_of(sq) - rank_of(sq);
            let s = if c >= 0 {
                8 * c
            } else {
                -8 * c
            };
            let full = if c >= 0 {
                MAIN_DIAGONAL << (s as u64)
            } else {
                MAIN_DIAGONAL >> (s as u64)
            };
            assert forall|i: int| 0 <= i < 64 implies !holds(v & !(full & INNER), i) by {
                lemma_holds_and(occ, mask, i);
                lemma_holds_and(v, !(full & INNER), i);
                lemma_holds_not(full & INNER, i);
                lemma_holds_and(full, INNER, i);
                if holds(mask, i) {
                    lemma_relevant_is_inner(line, sq, i);
                    lemma_constants(i as u64);
                    if c >= 0 {
                        lemma_holds_shl(MAIN_DIAGONAL, s as u64, i);
                        lemma_constants((i - s) as u64);
                        assert(i - s == 9 * rank_of(i));
                    } else {
                        lemma_holds_shr(MAIN_DIAGONAL, s as u64, i);
                        assert(i + s == 9 * rank_of(i));
                        lemma_constants((i + s) as u64);
                    }
                }
            }
            lemma_mask_is_empty(v & !(full & INNER));
            lemma_diagonal_index(v, s as u64, j as u64);
            lemma_holds_and(occ, mask, x);
            if c >= 0 {
                assert(x == 9 * (j + 1) + s);
            } else {
                assert(x == 9 * (j + 1) - s);
            }
        },
        Line::AntiDiagonal => {
            let c = file_of(sq) + rank_of(sq) - 7;
            let s = if c >= 0 {
                8 * c
            } else {
                -8 * c
            };
            let full = if c >= 0 {
                ANTI_DIAGONAL << (s as u64)
            } else {
                ANTI_DIAGONAL >> (s as u64)
            };
            assert forall|i: int| 0 <= i < 64 implies !holds(v & !(full & INNER), i) by {
                lemma_holds_and(occ, mask, i);
                lemma_holds_and(v, !(full & INNER), i);
                lemma_holds_not(full & INNER, i);
                lemma_holds_and(full, INNER, i);
                if holds(mask, i) {
                    lemma_relevant_is_inner(line, sq, i);
                    lemma_constants(i as u64);
                    if c >= 0 {
                        lemma_holds_shl(ANTI_DIAGONAL, s as u64, i);
                        lemma_constants((i - s) as u64);
                        assert(i - s == 56 - 7 * rank_of(i));
                    } else {
                        lemma_holds_shr(ANTI_DIAGONAL, s as u64, i);
                        assert(i + s == 56 - 7 * rank_of(i));
                        lemma_constants((i + s) as u64);
                    }
                }
            }
            lemma_mask_is_empty(v & !(full & INNER));
            lemma_diagonal_index(v, s as u64, j as u64);
            lemma_holds_and(occ, mask, x);
            if c >= 0 {
                assert(x == 56 + s - 7 * (j + 1));
            } else {
                assert(x == 56 - s - 7 * (j + 1));
            }
        },
    }
}

/// A word without a member is zero.
proof fn lemma_mask_is_empty(bb: u64)
    requires
        forall|i: int| 0 <= i < 64 ==> !holds(bb, i),
    ensures
        bb == 0,
{
    assert forall|i: int| 0 <= i < 64 implies holds(bb, i) == holds(0u64, i) by {
        lemma_holds_zero(i);
    }
    lemma_holds_ext(bb, 0);
}

/// The magic of a slider is sound for it: its mask holds every relevant
/// square, every index is in the table, and two occupancies with the same
/// index give the slider the same squares.
pub proof fn lemma_magic_is_sound(m: Magic, line: Line, sq: int)
    requires
        0 <= sq < 64,
        m.is_for(line, sq),
    ensures
        m.sound_for(line, sq),
{
    assert forall|x: int| relevant(line, sq, x) implies holds(m.mask_of(), x) by {
        lemma_index_shows_relevant(m, line, sq, 0, x);
    }
    assert forall|occ: u64| #[trigger] m.index_of(occ) < TABLE_SIZE by {
        lemma_index_in_table(m, line, sq, occ);
    }
    assert forall|a: u64, b: u64| #[trigger]
        m.index_of(a) == #[trigger] m.index_of(b) implies same_reach(line, sq, a, b) by {
        assert forall|x: int| relevant(line, sq, x) implies holds(a, x) == holds(b, x) by {
            lemma_index_shows_relevant(m, line, sq, a, x);
            lemma_index_shows_relevant(m, line, sq, b, x);
        }
        lemma_only_relevant_matter(line, sq, a, b);
    }
}

/// Every index that the magic of a slider gives is in the table.
pub proof fn lemma_index_in_table(m: Magic, line: Line, sq: int, occ: u64)
    requires
        0 <= sq < 64,
        m.is_for(line, sq),
    ensures
        m.index_of(occ) < TABLE_SIZE,
{
    let v = occ & m.mask_of();
    assert(m.index_of(occ) == wrapping_product(v, m.multiplier_of()) >> (m.shift_of() as u64));
    match line {
        Line::File => {
            assert(wrapping_product(v, 1) == v);
            lemma_file_index(occ, (8 * file_of(sq)) as u64, 0);
        },
        Line::Rank => {
            lemma_rank_index(occ, rank_of(sq) as u64, 0);
        },
        _ => {
            lemma_diagonal_index(v, 0, 0);
        },
    }
}

/// Every magic that this library uses is sound for its slider.
pub proof fn lemma_magics_sound()
    ensures
        magics_sound(),
{
    assert forall|line: Line, sq: int, m: Magic|
        0 <= sq < 64 && #[trigger] m.is_for(line, sq) implies m.sound_for(line, sq) by {
        lemma_magic_is_sound(m, line, sq);
    }
}

} // verus!
