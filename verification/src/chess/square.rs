//! Colors, roles, pieces and the squares of the board.
use crate::err::Error;
use vstd::prelude::*;
use vstd::string::StrSliceExecFns;

verus! {

/// One of the two sides.
#[derive(Copy, Clone, Debug, PartialEq, Eq, Hash, Structural)]
pub enum Color {
    White,
    Black,
}

impl Color {
    /// The opposing side.
    pub open spec fn other(self) -> Color {
        match self {
            Color::White => Color::Black,
            Color::Black => Color::White,
        }
    }

    /// The opposing side.
    pub fn opponent(self) -> (c: Color)
        ensures
            c == self.other(),
    {
        match self {
            Color::White => Color::Black,
            Color::Black => Color::White,
        }
    }
}

/// What kind of piece stands on a square.
#[derive(Copy, Clone, Debug, PartialEq, Eq, Hash, Structural)]
pub enum Role {
    Pawn,
    Knight,
    Bishop,
    Rook,
    Queen,
    King,
}

/// A piece: its side and its role.
#[derive(Copy, Clone, Debug, PartialEq, Eq, Hash, Structural)]
pub struct Piece {
    pub color: Color,
    pub role: Role,
}

/// A square of the board, numbered `8 * file + rank`: `a1` is 0, `a8` is 7,
/// `b1` is 8 and `h8` is 63.
#[derive(Copy, Clone, Debug, PartialEq, Eq, Hash, Structural)]
pub struct Square {
    index: u8,
}

/// The file of square number `sq`, counted from 0 at the a-file.
pub open spec fn file_of(sq: int) -> int {
    sq / 8
}

/// The rank of square number `sq`, counted from 0 at the first rank.
pub open spec fn rank_of(sq: int) -> int {
    sq % 8
}

/// The number of the square on file `file` and rank `rank`.
pub open spec fn square_at(file: int, rank: int) -> int {
    8 * file + rank
}

/// Whether `file` and `rank` name a square of the board.
pub open spec fn on_board(file: int, rank: int) -> bool {
    0 <= file < 8 && 0 <= rank < 8
}

/// The square number that two characters spell, such as `e2`, if they spell one.
pub open spec fn spell_square(s: Seq<char>) -> Option<int> {
    if s.len() == 2 && 'a' <= s[0] <= 'h' && '1' <= s[1] <= '8' {
        Some(square_at(s[0] as int - 'a' as int, s[1] as int - '1' as int))
    } else {
        None
    }
}

/// The two characters that name square number `sq`.
pub open spec fn square_name(sq: int) -> Seq<char> {
    seq![(('a' as int + file_of(sq)) as u8) as char, (('1' as int + rank_of(sq)) as u8) as char]
}

impl Square {
    #[verifier::type_invariant]
    pub closed spec fn in_range(self) -> bool {
        self.index < 64
    }

    /// The number of the square. For a square held by running code it lies
    /// in `0..64`.
    pub closed spec fn idx(self) -> int {
        self.index as int
    }

    /// The square numbered `i`, as a value of specifications.
    pub closed spec fn of(i: int) -> Square {
        Square { index: i as u8 }
    }

    /// `of` and `idx` undo each other on every square of the board.
    pub proof fn lemma_of_idx_all()
        ensures
            forall|i: int| 0 <= i < 64 ==> (#[trigger] Square::of(i)).idx() == i,
            forall|sq: Square| Square::of(#[trigger] sq.idx()) == sq,
    {
    }

    /// The number of squares on the board.
    pub fn count() -> (n: usize)
        ensures
            n == 64,
    {
        64
    }

    /// The square numbered `i`.
    pub fn new(i: u8) -> (sq: Square)
        requires
            i < 64,
        ensures
            sq.idx() == i,
            sq == Square::of(i as int),
    {
        Square { index: i }
    }

    /// The number of the square.
    pub fn i(self) -> (i: usize)
        ensures
            i == self.idx(),
            i < 64,
    {
        proof {
            use_type_invariant(self);
        }
        self.index as usize
    }

    /// The file of the square, counted from 0 at the a-file.
    pub fn file(self) -> (f: u8)
        ensures
            f == file_of(self.idx()),
            f < 8,
    {
        proof {
            use_type_invariant(self);
        }
        self.index / 8
    }

    /// The rank of the square, counted from 0 at the first rank.
    pub fn rank(self) -> (r: u8)
        ensures
            r == rank_of(self.idx()),
            r < 8,
    {
        proof {
            use_type_invariant(self);
        }
        self.index % 8
    }

    /// The square `delta` numbers further on, or `None` where that number
    /// is off the board.
    pub fn shift(self, delta: i32) -> (r: Option<Square>)
        ensures
            r is Some <==> 0 <= self.idx() + delta < 64,
            r matches Some(sq) ==> sq.idx() == self.idx() + delta,
    {
        proof {
            use_type_invariant(self);
        }
        if delta < -64 || delta > 64 {
            return None;
        }
        let target: i32 = self.index as i32 + delta;
        if 0 <= target && target < 64 {
            Some(Square { index: target as u8 })
        } else {
            None
        }
    }

    /// Reads a square from its two-character name: a file letter from `a`
    /// to `h`, then a rank digit from `1` to `8`.
    pub fn from_str(s: &str) -> (r: Result<Square, Error>)
        ensures
            match spell_square(s@) {
                Some(i) => r matches Ok(sq) && sq.idx() == i,
                None => r == Err::<Square, Error>(Error::InvalidSquare),
            },
    {
        if s.unicode_len() != 2 {
            return Err(Error::InvalidSquare);
        }
        let f = s.get_char(0);
        let r = s.get_char(1);
        if 'a' <= f && f <= 'h' && '1' <= r && r <= '8' {
            let file: u8 = (f as u32 - 'a' as u32) as u8;
            let rank: u8 = (r as u32 - '1' as u32) as u8;
            Ok(Square { index: 8 * file + rank })
        } else {
            Err(Error::InvalidSquare)
        }
    }

    /// The two-character name of the square.
    pub fn to_text(self) -> (s: String)
        ensures
            s@ == square_name(self.idx()),
    {
        proof {
            use_type_invariant(self);
        }
        let f: char = (('a' as u8) + self.index / 8) as char;
        let r: char = (('1' as u8) + self.index % 8) as char;
        let mut s = String::new();
        s.push(f);
        s.push(r);
        proof {
            assert(s@ =~= square_name(self.idx()));
        }
        s
    }
}

} // verus!
