//! Magic indexing: a mask, a multiplier and a shift that turn the occupancy
//! of a line into a small index, and the attack tables built on it.
use crate::chess::bitboard::{group_holds, holds, lemma_holds_ext};
use crate::chess::square::{file_of, rank_of, Square};
use crate::chess::tables::rays::{
    lemma_only_relevant_matter, ray_attacks, relevant, relevant_mask, slide_reach, Line,
};
use crate::text::{push_radix, push_text, radix_digits};
use vstd::prelude::*;

verus! {

/// `array_init::array_init`: it calls the initializer once for each index
/// from 0 up to, not including, the length of the array, and puts what the
/// call for index `i` returned at position `i`.
pub assume_specification<F, T, const N: usize>[ array_init::array_init::<F, T, N> ](
    initializer: F,
) -> (r: [T; N]) where F: FnMut(usize) -> T
    requires
        forall|i: usize| i < N ==> call_requires(initializer, (i,)),
    ensures
        forall|i: int| 0 <= i < N ==> call_ensures(initializer, (i as usize,), #[trigger] r@[i]),
;

/// The number of entries of an attack table: one for each occupancy of the
/// six inner squares of a line.
pub const TABLE_SIZE: usize = 64;

/// A mask, a multiplier and a right shift.
#[derive(Debug, Copy, Clone)]
pub struct Magic {
    mask: u64,
    multiplier: u64,
    right_shift: usize,
}

/// The product of two words, modulo 2^64.
pub open spec fn wrapping_product(x: u64, y: u64) -> u64 {
    ((x as nat * y as nat) % 0x1_0000_0000_0000_0000nat) as u64
}

/// Whether two occupancies let a slider on `from` reach the same squares
/// along `line`.
pub open spec fn same_reach(line: Line, from: int, a: u64, b: u64) -> bool {
    forall|x: int| slide_reach(line, from, x, a) == slide_reach(line, from, x, b)
}

impl Magic {
    #[verifier::type_invariant]
    pub closed spec fn shift_in_range(self) -> bool {
        self.right_shift < 64
    }

    /// The squares whose occupancy enters the index.
    pub closed spec fn mask_of(self) -> u64 {
        self.mask
    }

    /// The constant that the masked occupancy is multiplied by.
    pub closed spec fn multiplier_of(self) -> u64 {
        self.multiplier
    }

    /// The number of bits that the product is shifted down by.
    pub closed spec fn shift_of(self) -> int {
        self.right_shift as int
    }

    /// The index that the magic gives occupancy `bb`: the occupancy is
    /// masked, multiplied modulo 2^64 and shifted down.
    pub open spec fn index_of(self, bb: u64) -> u64 {
        wrapping_product(bb & self.mask_of(), self.multiplier_of()) >> (self.shift_of() as u64)
    }

    /// Whether the magic indexes a table of `TABLE_SIZE` attack sets for a
    /// slider on `from` along `line`: every index is in the table, and two
    /// occupancies with the same index give the slider the same squares.
    pub open spec fn sound_for(self, line: Line, from: int) -> bool {
        &&& forall|x: int| relevant(line, from, x) ==> holds(self.mask_of(), x)
        &&& forall|occ: u64| #[trigger] self.index_of(occ) < TABLE_SIZE
        &&& forall|a: u64, b: u64|
            #[trigger] self.index_of(a) == #[trigger] self.index_of(b) ==> same_reach(
                line,
                from,
                a,
                b,
            )
    }

    /// A magic from its three parts.
    pub fn new(mask: u64, multiplier: u64, right_shift: usize) -> (m: Magic)
        requires
            right_shift < 64,
        ensures
            m.mask_of() == mask,
            m.multiplier_of() == multiplier,
            m.shift_of() == right_shift,
    {
        Magic { mask, multiplier, right_shift }
    }

    /// The index that the magic gives occupancy `bb`.
    ///
    /// See [https://www.chessprogramming.org/Magic_BitBoards] for more information.
    pub fn magify(&self, bb: u64) -> (index: u64)
        ensures
            index == self.index_of(bb),
    {
        proof {
            use_type_invariant(self);
        }
        (bb & self.mask).wrapping_mul(self.multiplier) >> self.right_shift
    }

    /// The magic as text: the mask and the multiplier in hexadecimal, the
    /// shift in octal.
    pub open spec fn text(self) -> Seq<char> {
        "(BB & 0x"@ + radix_digits(self.mask_of() as nat, 16) + ") * 0x"@ + radix_digits(
            self.multiplier_of() as nat,
            16,
        ) + " >> 0o"@ + radix_digits(self.shift_of() as nat, 8)
    }

    /// The magic as text.
    pub fn to_text(&self) -> (s: String)
        ensures
            s@ == self.text(),
    {
        let mut s = String::new();
        push_text(&mut s, "(BB & 0x");
        push_radix(&mut s, self.mask, 16);
        push_text(&mut s, ") * 0x");
        push_radix(&mut s, self.multiplier, 16);
        push_text(&mut s, " >> 0o");
        push_radix(&mut s, self.right_shift as u64, 8);
        proof {
            assert(s@ =~= self.text());
        }
        s
    }

    /// Whether the magic is the one that this library uses for a slider on
    /// square `sq` along `line`.
    pub open spec fn is_for(self, line: Line, sq: int) -> bool {
        match line {
            Line::File => {
                &&& self.mask_of() == 0x7fu64 << ((8 * file_of(sq)) as u64)
                &&& self.multiplier_of() == 1
                &&& self.shift_of() == 8 * file_of(sq) + 1
            },
            Line::Rank => {
                &&& self.mask_of() == 0x0001_0101_0101_0100u64 << (rank_of(sq) as u64)
                &&& self.multiplier_of() == 0x0004_0810_2040_8000u64 >> (rank_of(sq) as u64)
                &&& self.shift_of() == 58
            },
            _ => {
                &&& forall|x: int| holds(self.mask_of(), x) <==> relevant(line, sq, x)
                &&& self.multiplier_of() == 0x0202_0202_0202_0202u64
                &&& self.shift_of() == 58
            },
        }
    }

    /// The magic for a slider on `sq` along `line`.
    ///
    /// Along a file the six inner squares are neighbouring bits and a shift
    /// alone brings them down. Along a rank they lie eight bits apart, and
    /// the multiplier gathers them in the top six bits. On a diagonal each
    /// inner square has a rank of its own, and multiplying by the second
    /// rank copies each into the top byte at the place of its rank.
    pub fn for_line(line: Line, sq: Square) -> (m: Magic)
        ensures
            m.is_for(line, sq.idx()),
    {
        let file = sq.file() as usize;
        let rank = sq.rank() as usize;
        match line {
            Line::File => {
                let area = file * 8;
                Magic { mask: 0x7fu64 << area, multiplier: 1, right_shift: area + 1 }
            },
            Line::Rank => Magic {
                mask: 0x0001_0101_0101_0100u64 << rank,
                multiplier: 0x0004_0810_2040_8000u64 >> rank,
                right_shift: 58,
            },
            _ => Magic {
                mask: relevant_mask(line, sq),
                multiplier: 0x0202_0202_0202_0202u64,
                right_shift: 58,
            },
        }
    }

    /// The magic for a slider on square number `i` along its file.
    fn file_at(i: usize) -> (m: Magic)
        requires
            i < 64,
        ensures
            m.is_for(Line::File, i as int),
    {
        Magic::for_line(Line::File, Square::new(i as u8))
    }

    /// The magic for a slider on square number `i` along its rank.
    fn rank_at(i: usize) -> (m: Magic)
        requires
            i < 64,
        ensures
            m.is_for(Line::Rank, i as int),
    {
        Magic::for_line(Line::Rank, Square::new(i as u8))
    }

    /// The magic for a slider on square number `i` along its rising diagonal.
    fn main_diagonal_at(i: usize) -> (m: Magic)
        requires
            i < 64,
        ensures
            m.is_for(Line::Diagonal, i as int),
    {
        Magic::for_line(Line::Diagonal, Square::new(i as u8))
    }

    /// The magic for a slider on square number `i` along its falling diagonal.
    fn anti_diagonal_at(i: usize) -> (m: Magic)
        requires
            i < 64,
        ensures
            m.is_for(Line::AntiDiagonal, i as int),
    {
        Magic::for_line(Line::AntiDiagonal, Square::new(i as u8))
    }

    /// For each square, the magic of a slider on it along its file.
    pub fn by_file() -> (magics: Box<[Magic; 64]>)
        ensures
            forall|i: int| 0 <= i < 64 ==> (#[trigger] magics@[i]).is_for(Line::File, i),
    {
        Box::new(
            array_init::array_init(
                Magic::file_at,
            ),
        )
    }

    /// For each square, the magic of a slider on it along its rank.
    pub fn by_rank() -> (magics: Box<[Magic; 64]>)
        ensures
            forall|i: int| 0 <= i < 64 ==> (#[trigger] magics@[i]).is_for(Line::Rank, i),
    {
        Box::new(
            array_init::array_init(
                Magic::rank_at,
            ),
        )
    }

    /// For each square, the magic of a slider on it along the diagonal that
    /// rises towards the h-file.
    pub fn by_main_diagonal() -> (magics: [Magic; 64])
        ensures
            forall|i: int| 0 <= i < 64 ==> (#[trigger] magics@[i]).is_for(Line::Diagonal, i),
    {
        array_init::array_init(
            Magic::main_diagonal_at,
        )
    }

    /// For each square, the magic of a slider on it along the diagonal that
    /// falls towards the h-file.
    pub fn by_anti_diagonal() -> (magics: [Magic; 64])
        ensures
            forall|i: int| 0 <= i < 64 ==> (#[trigger] magics@[i]).is_for(Line::AntiDiagonal, i),
    {
        array_init::array_init(
            Magic::anti_diagonal_at,
        )
    }
}

proof fn lemma_subset_walk(s: u64, m: u64, t: u64)
    by (bit_vector)
    requires
        s & !m == 0,
        t & !m == 0,
    ensures
        t <= m,
        (t & m) & m == t & m,
        s != m ==> (s | !m) < 0xffff_ffff_ffff_ffffu64,
        s != m ==> (((s | !m) + 1) as u64 & m) & !m == 0,
        s != m ==> (((s | !m) + 1) as u64 & m) > s,
        s != m && t > s ==> t >= (((s | !m) + 1) as u64 & m),
{
}

proof fn lemma_masking(occ: u64, m: u64)
    by (bit_vector)
    ensures
        (occ & m) & !m == 0,
        (occ & m) & m == occ & m,
{
}

/// A table slot that has been filled holds the attack set of the occupancy
/// that filled it, and that occupancy has the slot's index.
spec fn slot_ok(
    magic: Magic,
    line: Line,
    from: int,
    table: Seq<u64>,
    filled: Seq<bool>,
    source: Seq<u64>,
    i: int,
) -> bool {
    filled[i] ==> {
        &&& magic.index_of(source[i]) == i
        &&& forall|x: int| holds(table[i], x) <==> slide_reach(line, from, x, source[i])
    }
}

/// The occupancy `t` has been probed: its slot is filled by an occupancy
/// that gives the slider the same squares.
spec fn probed(
    magic: Magic,
    line: Line,
    from: int,
    filled: Seq<bool>,
    source: Seq<u64>,
    t: u64,
) -> bool {
    let i = magic.index_of(t) as int;
    i < TABLE_SIZE && filled[i] && same_reach(line, from, t, source[i])
}

impl Magic {
    /// Builds the attack table of a slider on `sq` along `line` for this
    /// magic, by probing every subset of the mask: the entry at the index of
    /// an occupancy is the set of squares that the slider reaches under it.
    ///
    /// Returns `None` where the magic is not sound for that slider: the mask
    /// misses a relevant square, an index falls outside the table, or two
    /// occupancies with different attack sets share an index.
    pub fn attack_table(&self, line: Line, sq: Square) -> (r: Option<Vec<u64>>)
        ensures
            r is Some <==> self.sound_for(line, sq.idx()),
            r matches Some(table) ==> table@.len() == TABLE_SIZE && forall|occ: u64, x: int|
                holds(#[trigger] table@[self.index_of(occ) as int], x) <==> #[trigger] slide_reach(
                    line,
                    sq.idx(),
                    x,
                    occ,
                ),
    {
        broadcast use group_holds;
        let mask = self.mask;
        let ghost from = sq.idx();
        let needed = relevant_mask(line, sq);
        if needed & !mask != 0 {
            proof {
                if forall|x: int| 0 <= x < 64 ==> !holds(needed & !mask, x) {
                    lemma_holds_ext(needed & !mask, 0);
                }
            }
            return None;
        }
        assert forall|x: int| relevant(line, from, x) implies holds(mask, x) by {
            assert(!holds(needed & !mask, x));
        }
        let mut table: Vec<u64> = Vec::new();
        let mut filled: Vec<bool> = Vec::new();
        let mut n: usize = 0;
        while n < TABLE_SIZE
            invariant
                n <= TABLE_SIZE,
                table@.len() == n,
                filled@.len() == n,
                forall|i: int| 0 <= i < n ==> !filled@[i],
            decreases TABLE_SIZE - n,
        {
            table.push(0);
            filled.push(false);
            n = n + 1;
        }
        let ghost mut source: Seq<u64> = Seq::new(TABLE_SIZE as nat, |i: int| 0u64);
        let mut s: u64 = 0;
        proof {
            lemma_masking(0, mask);
            assert(0u64 & !mask == 0) by (bit_vector);
        }
        loop
            invariant_except_break
                s & !mask == 0,
                forall|t: u64| t & !mask == 0 && t < s ==> probed(*self, line, from, filled@, source, t),
            invariant
                mask == self.mask_of(),
                from == sq.idx(),
                table@.len() == TABLE_SIZE,
                filled@.len() == TABLE_SIZE,
                source.len() == TABLE_SIZE,
                forall|x: int| relevant(line, from, x) ==> holds(mask, x),
                forall|i: int|
                    0 <= i < TABLE_SIZE ==> slot_ok(*self, line, from, table@, filled@, source, i),
            ensures
                forall|t: u64| t & !mask == 0 ==> probed(*self, line, from, filled@, source, t),
            decreases mask - s,
        {
            proof {
                lemma_subset_walk(s, mask, s);
            }
            let index = self.magify(s);
            if index >= TABLE_SIZE as u64 {
                return None;
            }
            let i = index as usize;
            let attacks = ray_attacks(line, sq, s);
            let ghost old_filled = filled@;
            let ghost old_source = source;
            let ghost old_table = table@;
            if filled[i] {
                if table[i] != attacks {
                    proof {
                        assert(slot_ok(*self, line, from, table@, filled@, source, i as int));
                        if same_reach(line, from, source[i as int], s) {
                            assert forall|x: int| 0 <= x < 64 implies holds(table@[i as int], x)
                                == holds(attacks, x) by {
                                assert(holds(attacks, x) <==> slide_reach(line, from, x, s));
                                assert(holds(table@[i as int], x) <==> slide_reach(
                                    line,
                                    from,
                                    x,
                                    source[i as int],
                                ));
                            }
                            lemma_holds_ext(table@[i as int], attacks);
                        }
                        assert(self.index_of(source[i as int]) == self.index_of(s));
                    }
                    return None;
                }
                proof {
                    assert(slot_ok(*self, line, from, table@, filled@, source, i as int));
                    assert forall|x: int|
                        slide_reach(line, from, x, s) == slide_reach(
                            line,
                            from,
                            x,
                            source[i as int],
                        ) by {
                        assert(holds(attacks, x) <==> slide_reach(line, from, x, s));
                        assert(holds(table@[i as int], x) <==> slide_reach(
                            line,
                            from,
                            x,
                            source[i as int],
                        ));
                    }
                }
            } else {
                table.set(i, attacks);
                filled.set(i, true);
                proof {
                    source = source.update(i as int, s);
                    assert forall|j: int| 0 <= j < TABLE_SIZE implies slot_ok(
                        *self,
                        line,
                        from,
                        table@,
                        filled@,
                        source,
                        j,
                    ) by {
                        assert(slot_ok(*self, line, from, old_table, old_filled, old_source, j));
                    }
                    assert forall|t: u64| t & !mask == 0 && t < s implies probed(
                        *self,
                        line,
                        from,
                        filled@,
                        source,
                        t,
                    ) by {
                        assert(probed(*self, line, from, old_filled, old_source, t));
                    }
                }
            }
            assert(probed(*self, line, from, filled@, source, s));
            if s == mask {
                proof {
                    assert forall|t: u64| t & !mask == 0 implies probed(
                        *self,
                        line,
                        from,
                        filled@,
                        source,
                        t,
                    ) by {
                        lemma_subset_walk(s, mask, t);
                    }
                }
                break ;
            }
            let ghost prev = s;
            let ghost next = ((s | !mask) + 1) as u64 & mask;
            proof {
                lemma_subset_walk(s, mask, next);
            }
            s = ((s | !mask) + 1) & mask;
            proof {
                assert(s == next);
                assert forall|t: u64| t & !mask == 0 && t < s implies probed(
                    *self,
                    line,
                    from,
                    filled@,
                    source,
                    t,
                ) by {
                    lemma_subset_walk(prev, mask, t);
                }
            }
        }
        proof {
            assert forall|occ: u64|
                probed(*self, line, from, filled@, source, occ) && self.index_of(occ)
                    == self.index_of(occ & mask) by {
                let t = occ & mask;
                lemma_masking(occ, mask);
                assert(probed(*self, line, from, filled@, source, t));
                lemma_only_relevant_matter(line, from, occ, t);
            }
            assert forall|occ: u64, x: int|
                holds(#[trigger] table@[self.index_of(occ) as int], x) <==> #[trigger] slide_reach(
                    line,
                    from,
                    x,
                    occ,
                ) by {
                let i = self.index_of(occ) as int;
                assert(probed(*self, line, from, filled@, source, occ));
                assert(slot_ok(*self, line, from, table@, filled@, source, i));
            }
            assert forall|occ: u64| #[trigger] self.index_of(occ) < TABLE_SIZE by {
                assert(probed(*self, line, from, filled@, source, occ));
            }
            assert forall|a: u64, b: u64| #[trigger]
                self.index_of(a) == #[trigger] self.index_of(b) implies same_reach(
                line,
                from,
                a,
                b,
            ) by {
                assert(probed(*self, line, from, filled@, source, a));
                assert(probed(*self, line, from, filled@, source, b));
            }
        }
        Some(table)
    }
}

/// Whether every magic that this library uses is sound for its slider.
pub open spec fn magics_sound() -> bool {
    forall|line: Line, sq: int, m: Magic|
        0 <= sq < 64 && #[trigger] m.is_for(line, sq) ==> m.sound_for(line, sq)
}

} // verus!
