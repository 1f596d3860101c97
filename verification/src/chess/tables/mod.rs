//! Attack sets: what a piece reaches from each square.
//!
//! The tables are built once and never change. Knights and kings have one
//! attack set per square. A slider has, for each square and each line
//! through it, one attack set per index that the magic of that square and
//! line gives the occupancy of the board.
pub mod leapers;
pub mod rays;

use crate::chess::bitboard::{group_holds, holds, lemma_holds_ext};
use crate::chess::magic::{Magic, TABLE_SIZE};
use crate::chess::soundness::lemma_magic_is_sound;
use crate::chess::square::Square;
use crate::chess::tables::leapers::{
    boxed_king_attacks, boxed_knight_attacks, king_reach, knight_reach,
};
use crate::chess::tables::rays::{slide_reach, Line};
use vstd::prelude::*;

verus! {

/// The place of a line among the four.
pub open spec fn line_number(line: Line) -> int {
    match line {
        Line::File => 0,
        Line::Rank => 1,
        Line::Diagonal => 2,
        Line::AntiDiagonal => 3,
    }
}

/// The attack tables of knights, kings and sliders.
pub struct AttackTables {
    knights: Box<[u64; 64]>,
    kings: Box<[u64; 64]>,
    by_file: Box<[Magic; 64]>,
    by_rank: Box<[Magic; 64]>,
    by_main_diagonal: [Magic; 64],
    by_anti_diagonal: [Magic; 64],
    slides: Vec<Vec<u64>>,
}

impl AttackTables {
    /// The magic that the tables hold for a slider on `sq` along `line`.
    closed spec fn magic_at(self, line: Line, sq: int) -> Magic {
        match line {
            Line::File => self.by_file@[sq],
            Line::Rank => self.by_rank@[sq],
            Line::Diagonal => self.by_main_diagonal@[sq],
            Line::AntiDiagonal => self.by_anti_diagonal@[sq],
        }
    }

    /// The table of a slider on `sq` along `line` gives, at the index of
    /// every occupancy, the squares that the slider reaches under it.
    closed spec fn line_ok(self, line: Line, sq: int) -> bool {
        let magic = self.magic_at(line, sq);
        let table = self.slides@[line_number(line) * 64 + sq]@;
        &&& table.len() == TABLE_SIZE
        &&& forall|occ: u64| #[trigger] magic.index_of(occ) < TABLE_SIZE
        &&& forall|occ: u64, x: int|
            holds(#[trigger] table[magic.index_of(occ) as int], x) <==> #[trigger] slide_reach(
                line,
                sq,
                x,
                occ,
            )
    }

    #[verifier::type_invariant]
    pub closed spec fn wf(self) -> bool {
        &&& forall|i: int, t: int|
            0 <= i < 64 ==> (holds(#[trigger] self.knights@[i], t) <==> #[trigger] knight_reach(
                i,
                t,
            ))
        &&& forall|i: int, t: int|
            0 <= i < 64 ==> (holds(#[trigger] self.kings@[i], t) <==> #[trigger] king_reach(i, t))
        &&& self.slides@.len() == 256
        &&& forall|line: Line, sq: int| 0 <= sq < 64 ==> #[trigger] self.line_ok(line, sq)
    }

    /// The attack set that the tables hold for a knight on `sq`.
    pub closed spec fn knight_set(self, sq: int) -> u64 {
        self.knights@[sq]
    }

    /// The attack set that the tables hold for a king on `sq`.
    pub closed spec fn king_set(self, sq: int) -> u64 {
        self.kings@[sq]
    }

    /// The attack set that the tables hold for a slider on `sq` along
    /// `line` at the magic index of the occupancy `occ`.
    pub closed spec fn line_set(self, line: Line, sq: int, occ: u64) -> u64 {
        self.slides@[line_number(line) * 64 + sq]@[self.magic_at(line, sq).index_of(occ) as int]
    }

    /// Whether the tables hold what walking the board gives: for every
    /// square the jumps of the knight and the steps of the king, and for
    /// every square, line and occupancy the squares that a slider reaches
    /// before it is blocked.
    pub open spec fn agrees_with_rays(self) -> bool {
        &&& forall|sq: int, t: int|
            0 <= sq < 64 ==> (holds(#[trigger] self.knight_set(sq), t) <==> #[trigger] knight_reach(
                sq,
                t,
            ))
        &&& forall|sq: int, t: int|
            0 <= sq < 64 ==> (holds(#[trigger] self.king_set(sq), t) <==> #[trigger] king_reach(
                sq,
                t,
            ))
        &&& forall|line: Line, sq: int, occ: u64, t: int|
            0 <= sq < 64 ==> (holds(#[trigger] self.line_set(line, sq, occ), t)
                <==> #[trigger] slide_reach(line, sq, t, occ))
    }

    /// Tables are never anything else.
    pub proof fn lemma_agrees_with_rays(self)
        requires
            self.wf(),
        ensures
            self.agrees_with_rays(),
    {
        assert forall|line: Line, sq: int, occ: u64, t: int| 0 <= sq < 64 implies (holds(
            #[trigger] self.line_set(line, sq, occ),
            t,
        ) <==> #[trigger] slide_reach(line, sq, t, occ)) by {
            assert(self.line_ok(line, sq));
            let magic = self.magic_at(line, sq);
            let table = self.slides@[line_number(line) * 64 + sq]@;
            assert(holds(table[magic.index_of(occ) as int], t) <==> slide_reach(line, sq, t, occ));
        }
    }

    /// What the tables hold for a slider is, bit for bit, what walking its
    /// line until a piece is met gives, under every occupancy.
    pub proof fn lemma_lookup_is_ray_cast(self, line: Line, sq: int, occ: u64, walked: u64)
        requires
            self.agrees_with_rays(),
            0 <= sq < 64,
            forall|t: int| holds(walked, t) <==> slide_reach(line, sq, t, occ),
        ensures
            self.line_set(line, sq, occ) == walked,
    {
        let held = self.line_set(line, sq, occ);
        assert forall|t: int| 0 <= t < 64 implies holds(held, t) == holds(walked, t) by {
            assert(holds(held, t) <==> slide_reach(line, sq, t, occ));
        }
        lemma_holds_ext(held, walked);
    }

    /// Builds the tables. For each slider the magic is probed on every
    /// subset of its mask, and the attack set found by walking the line is
    /// stored at the index that the magic gives the subset.
    pub fn new() -> (tables: AttackTables)
        ensures
            tables.agrees_with_rays(),
    {
        let knights = boxed_knight_attacks();
        let kings = boxed_king_attacks();
        let by_file = Magic::by_file();
        let by_rank = Magic::by_rank();
        let by_main_diagonal = Magic::by_main_diagonal();
        let by_anti_diagonal = Magic::by_anti_diagonal();
        let mut slides: Vec<Vec<u64>> = Vec::new();
        let mut n: usize = 0;
        while n < 256
            invariant
                n <= 256,
                slides@.len() == n,
                forall|i: int| 0 <= i < 64 ==> (#[trigger] by_file@[i]).is_for(Line::File, i),
                forall|i: int| 0 <= i < 64 ==> (#[trigger] by_rank@[i]).is_for(Line::Rank, i),
                forall|i: int|
                    0 <= i < 64 ==> (#[trigger] by_main_diagonal@[i]).is_for(Line::Diagonal, i),
                forall|i: int|
                    0 <= i < 64 ==> (#[trigger] by_anti_diagonal@[i]).is_for(
                        Line::AntiDiagonal,
                        i,
                    ),
                forall|line: Line, sq: int|
                    0 <= sq < 64 && line_number(line) * 64 + sq < n ==> #[trigger] built_ok(
                        slides@,
                        pick(by_file@, by_rank@, by_main_diagonal@, by_anti_diagonal@, line, sq),
                        line,
                        sq,
                    ),
            decreases 256 - n,
        {
            let sq = Square::new((n % 64) as u8);
            let (line, magic) = if n < 64 {
                (Line::File, by_file[n % 64])
            } else if n < 128 {
                (Line::Rank, by_rank[n % 64])
            } else if n < 192 {
                (Line::Diagonal, by_main_diagonal[n % 64])
            } else {
                (Line::AntiDiagonal, by_anti_diagonal[n % 64])
            };
            assert(magic.is_for(line, sq.idx()));
            assert(line_number(line) * 64 + sq.idx() == n);
            proof {
                lemma_magic_is_sound(magic, line, sq.idx());
            }
            let table = magic.attack_table(line, sq).unwrap();
            let ghost before = slides@;
            slides.push(table);
            proof {
                assert forall|l: Line, s: int|
                    0 <= s < 64 && line_number(l) * 64 + s < n + 1 implies #[trigger] built_ok(
                    slides@,
                    pick(by_file@, by_rank@, by_main_diagonal@, by_anti_diagonal@, l, s),
                    l,
                    s,
                ) by {
                    if line_number(l) * 64 + s < n {
                        assert(built_ok(
                            before,
                            pick(by_file@, by_rank@, by_main_diagonal@, by_anti_diagonal@, l, s),
                            l,
                            s,
                        ));
                    } else {
                        assert(l == line && s == sq.idx());
                    }
                }
            }
            n = n + 1;
        }
        proof {
            let ghost candidate = AttackTables {
                knights,
                kings,
                by_file,
                by_rank,
                by_main_diagonal,
                by_anti_diagonal,
                slides,
            };
            assert forall|line: Line, sq: int| 0 <= sq < 64 implies #[trigger] candidate.line_ok(
                line,
                sq,
            ) by {
                assert(built_ok(
                    slides@,
                    pick(by_file@, by_rank@, by_main_diagonal@, by_anti_diagonal@, line, sq),
                    line,
                    sq,
                ));
            }
            assert(candidate.wf());
            candidate.lemma_agrees_with_rays();
        }
        let tables = AttackTables {
            knights,
            kings,
            by_file,
            by_rank,
            by_main_diagonal,
            by_anti_diagonal,
            slides,
        };
        tables
    }

    /// The squares that a knight on `from` reaches.
    pub fn knight_attacks(&self, from: Square) -> (bb: u64)
        ensures
            bb == self.knight_set(from.idx()),
            forall|t: int| holds(bb, t) <==> knight_reach(from.idx(), t),
    {
        proof {
            use_type_invariant(self);
        }
        let i = from.i();
        let bb = self.knights[i];
        assert forall|t: int| holds(bb, t) <==> knight_reach(from.idx(), t) by {
            assert(holds(self.knights@[i as int], t) <==> knight_reach(i as int, t));
        }
        bb
    }

    /// The squares that a king on `from` reaches.
    pub fn king_attacks(&self, from: Square) -> (bb: u64)
        ensures
            bb == self.king_set(from.idx()),
            forall|t: int| holds(bb, t) <==> king_reach(from.idx(), t),
    {
        proof {
            use_type_invariant(self);
        }
        let i = from.i();
        let bb = self.kings[i];
        assert forall|t: int| holds(bb, t) <==> king_reach(from.idx(), t) by {
            assert(holds(self.kings@[i as int], t) <==> king_reach(i as int, t));
        }
        bb
    }

    /// The squares that a slider on `from` reaches along `line` when the
    /// squares of `occ` are occupied, looked up at the magic index of `occ`.
    pub fn line_attacks(&self, line: Line, from: Square, occ: u64) -> (bb: u64)
        ensures
            bb == self.line_set(line, from.idx(), occ),
            forall|t: int| holds(bb, t) <==> slide_reach(line, from.idx(), t, occ),
    {
        proof {
            use_type_invariant(self);
        }
        let i = from.i();
        assert(self.line_ok(line, i as int));
        let (magic, base): (Magic, usize) = match line {
            Line::File => (self.by_file[i], 0),
            Line::Rank => (self.by_rank[i], 64),
            Line::Diagonal => (self.by_main_diagonal[i], 128),
            Line::AntiDiagonal => (self.by_anti_diagonal[i], 192),
        };
        assert(magic == self.magic_at(line, i as int));
        assert(base + i == line_number(line) * 64 + i);
        let index = magic.magify(occ);
        assert(magic.index_of(occ) < TABLE_SIZE);
        let bb = self.slides[base + i][index as usize];
        assert forall|t: int| holds(bb, t) <==> slide_reach(line, from.idx(), t, occ) by {
            let table = self.slides@[line_number(line) * 64 + i]@;
            assert(holds(table[magic.index_of(occ) as int], t) <==> slide_reach(
                line,
                i as int,
                t,
                occ,
            ));
        }
        bb
    }

    /// The squares that a rook on `from` reaches: along its file and along
    /// its rank.
    pub fn rook_attacks(&self, from: Square, occ: u64) -> (bb: u64)
        ensures
            forall|t: int|
                holds(bb, t) <==> slide_reach(Line::File, from.idx(), t, occ) || slide_reach(
                    Line::Rank,
                    from.idx(),
                    t,
                    occ,
                ),
    {
        broadcast use group_holds;
        self.line_attacks(Line::File, from, occ) | self.line_attacks(Line::Rank, from, occ)
    }

    /// The squares that a bishop on `from` reaches: along its two diagonals.
    pub fn bishop_attacks(&self, from: Square, occ: u64) -> (bb: u64)
        ensures
            forall|t: int|
                holds(bb, t) <==> slide_reach(Line::Diagonal, from.idx(), t, occ) || slide_reach(
                    Line::AntiDiagonal,
                    from.idx(),
                    t,
                    occ,
                ),
    {
        broadcast use group_holds;
        self.line_attacks(Line::Diagonal, from, occ) | self.line_attacks(
            Line::AntiDiagonal,
            from,
            occ,
        )
    }
}

/// The magic for a slider on `sq` along `line`, out of the four arrays.
spec fn pick(
    by_file: Seq<Magic>,
    by_rank: Seq<Magic>,
    by_main_diagonal: Seq<Magic>,
    by_anti_diagonal: Seq<Magic>,
    line: Line,
    sq: int,
) -> Magic {
    match line {
        Line::File => by_file[sq],
        Line::Rank => by_rank[sq],
        Line::Diagonal => by_main_diagonal[sq],
        Line::AntiDiagonal => by_anti_diagonal[sq],
    }
}

/// The table built for a slider on `sq` along `line` is in its place and
/// right under every occupancy, and its magic is sound.
spec fn built_ok(slides: Seq<Vec<u64>>, magic: Magic, line: Line, sq: int) -> bool {
    let table = slides[line_number(line) * 64 + sq]@;
    &&& magic.sound_for(line, sq)
    &&& table.len() == TABLE_SIZE
    &&& forall|occ: u64, x: int|
        holds(#[trigger] table[magic.index_of(occ) as int], x) <==> #[trigger] slide_reach(
            line,
            sq,
            x,
            occ,
        )
}

} // verus!
