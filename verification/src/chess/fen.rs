//! Forsyth-Edwards notation: a position as one line of text.
//!
//! Of the six fields of the notation a board holds the first two, the
//! placement of the pieces and the side to move. The other four are written
//! as `-`, `-`, `0` and `1`, and are not looked at when a position is read.
use crate::chess::board::{Board, Position};
use crate::chess::square::{square_at, Color, Piece, Role, Square};
use crate::err::Error;
use vstd::prelude::*;
use vstd::string::StrSliceExecFns;

verus! {

/// The letter of a role, in lower case.
pub open spec fn role_letter(role: Role) -> char {
    match role {
        Role::Pawn => 'p',
        Role::Knight => 'n',
        Role::Bishop => 'b',
        Role::Rook => 'r',
        Role::Queen => 'q',
        Role::King => 'k',
    }
}

/// The letter of a piece: that of its role, in upper case for White and in
/// lower case for Black.
pub open spec fn piece_letter(piece: Piece) -> char {
    match piece.color {
        Color::Black => role_letter(piece.role),
        Color::White => ((role_letter(piece.role) as u8 - 32) as u8) as char,
    }
}

/// The piece that a letter names, if it names one.
pub open spec fn piece_of_letter(c: char) -> Option<Piece> {
    if c == 'P' {
        Some(Piece { color: Color::White, role: Role::Pawn })
    } else if c == 'N' {
        Some(Piece { color: Color::White, role: Role::Knight })
    } else if c == 'B' {
        Some(Piece { color: Color::White, role: Role::Bishop })
    } else if c == 'R' {
        Some(Piece { color: Color::White, role: Role::Rook })
    } else if c == 'Q' {
        Some(Piece { color: Color::White, role: Role::Queen })
    } else if c == 'K' {
        Some(Piece { color: Color::White, role: Role::King })
    } else if c == 'p' {
        Some(Piece { color: Color::Black, role: Role::Pawn })
    } else if c == 'n' {
        Some(Piece { color: Color::Black, role: Role::Knight })
    } else if c == 'b' {
        Some(Piece { color: Color::Black, role: Role::Bishop })
    } else if c == 'r' {
        Some(Piece { color: Color::Black, role: Role::Rook })
    } else if c == 'q' {
        Some(Piece { color: Color::Black, role: Role::Queen })
    } else if c == 'k' {
        Some(Piece { color: Color::Black, role: Role::King })
    } else {
        None
    }
}

/// The count of a run of empty squares as a character.
pub open spec fn gap_digit(gap: int) -> char {
    (('0' as int + gap) as u8) as char
}

/// `text`, with the count of a run of `gap` empty squares written after it
/// where the run is not empty.
pub open spec fn with_gap(text: Seq<char>, gap: int) -> Seq<char> {
    if gap > 0 {
        text.push(gap_digit(gap))
    } else {
        text
    }
}

/// The text of the first `files` squares of rank `rank`, and the length of
/// the run of empty squares that it ends in and has not written yet.
pub open spec fn rank_scan(squares: Seq<Option<Piece>>, rank: int, files: int) -> (Seq<char>, int)
    decreases files,
{
    if files <= 0 {
        (Seq::empty(), 0)
    } else {
        let (text, gap) = rank_scan(squares, rank, files - 1);
        match squares[square_at(files - 1, rank)] {
            Some(piece) => (with_gap(text, gap).push(piece_letter(piece)), 0),
            None => (text, gap + 1),
        }
    }
}

/// The text of rank `rank`: from the a-file to the h-file, each piece as
/// its letter and each run of empty squares as its length.
pub open spec fn rank_text(squares: Seq<Option<Piece>>, rank: int) -> Seq<char> {
    let (text, gap) = rank_scan(squares, rank, 8);
    with_gap(text, gap)
}

/// The text of the highest `ranks` ranks, highest first, with a slash
/// between one rank and the next.
pub open spec fn placement_text(squares: Seq<Option<Piece>>, ranks: int) -> Seq<char>
    decreases ranks,
{
    if ranks <= 0 {
        Seq::empty()
    } else if ranks == 1 {
        rank_text(squares, 7)
    } else {
        placement_text(squares, ranks - 1).push('/') + rank_text(squares, 8 - ranks)
    }
}

/// The letter of the side to move.
pub open spec fn color_letter(color: Color) -> char {
    match color {
        Color::White => 'w',
        Color::Black => 'b',
    }
}

/// The position in Forsyth-Edwards notation, with `separator` between one
/// field and the next.
pub open spec fn fen_text(pos: Position, separator: char) -> Seq<char> {
    placement_text(pos.squares, 8).push(separator).push(color_letter(pos.to_move)).push(
        separator,
    ).push('-').push(separator).push('-').push(separator).push('0').push(separator).push('1')
}

/// The character that shows a square in a diagram: the letter of its
/// piece, or a dot.
pub open spec fn cell(square: Option<Piece>) -> char {
    match square {
        Some(piece) => piece_letter(piece),
        None => '.',
    }
}

/// The board as a diagram: eight lines, from the last rank to the first,
/// each with the eight squares of its rank from the a-file to the h-file
/// and a line feed.
pub open spec fn diagram_text(squares: Seq<Option<Piece>>) -> Seq<char> {
    Seq::new(
        72,
        |i: int|
            if i % 9 == 8 {
                '\n'
            } else {
                cell(squares[square_at(i % 9, 7 - i / 9)])
            },
    )
}

/// Where the reading of a placement stands: the pieces read so far, and
/// the rank and the file of the square that comes next.
pub struct Reading {
    pub squares: Seq<Option<Piece>>,
    pub rank: int,
    pub file: int,
}

/// The reading after one more character, or `None` where the character
/// cannot follow: a slash ends a rank that is full and is not the last, a
/// digit from 1 to 8 skips as many squares of the rank, a letter puts its
/// piece on the next square of the rank.
pub open spec fn read_char(at: Reading, c: char) -> Option<Reading> {
    if c == '/' {
        if at.file == 8 && at.rank > 0 {
            Some(Reading { squares: at.squares, rank: at.rank - 1, file: 0 })
        } else {
            None
        }
    } else if '1' <= c <= '8' {
        let skip = c as int - '0' as int;
        if at.file + skip <= 8 {
            Some(Reading { squares: at.squares, rank: at.rank, file: at.file + skip })
        } else {
            None
        }
    } else {
        match piece_of_letter(c) {
            Some(piece) if at.file < 8 => Some(
                Reading {
                    squares: at.squares.update(square_at(at.file, at.rank), Some(piece)),
                    rank: at.rank,
                    file: at.file + 1,
                },
            ),
            _ => None,
        }
    }
}

/// The reading after the characters of `s`, from an empty board and the
/// a-file of the last rank.
pub open spec fn read_chars(s: Seq<char>) -> Option<Reading>
    decreases s.len(),
{
    if s.len() == 0 {
        Some(Reading { squares: Seq::new(64, |sq: int| None::<Piece>), rank: 7, file: 0 })
    } else {
        match read_chars(s.drop_last()) {
            Some(at) => read_char(at, s.last()),
            None => None,
        }
    }
}

/// The placement that a text writes, if it writes one: eight full ranks.
pub open spec fn spell_placement(s: Seq<char>) -> Option<Seq<Option<Piece>>> {
    match read_chars(s) {
        Some(at) if at.rank == 0 && at.file == 8 => Some(at.squares),
        _ => None,
    }
}

/// The side that a text names: `w` or `b`.
pub open spec fn spell_color(s: Seq<char>) -> Option<Color> {
    if s == seq!['w'] {
        Some(Color::White)
    } else if s == seq!['b'] {
        Some(Color::Black)
    } else {
        None
    }
}

/// The letter of a piece.
pub fn letter_of(piece: Piece) -> (c: char)
    ensures
        c == piece_letter(piece),
{
    let lower = match piece.role {
        Role::Pawn => 'p',
        Role::Knight => 'n',
        Role::Bishop => 'b',
        Role::Rook => 'r',
        Role::Queen => 'q',
        Role::King => 'k',
    };
    match piece.color {
        Color::Black => lower,
        Color::White => ((lower as u8) - 32) as char,
    }
}

/// The piece that a letter names, if it names one.
pub fn piece_for(c: char) -> (r: Option<Piece>)
    ensures
        r == piece_of_letter(c),
{
    if c == 'P' {
        Some(Piece { color: Color::White, role: Role::Pawn })
    } else if c == 'N' {
        Some(Piece { color: Color::White, role: Role::Knight })
    } else if c == 'B' {
        Some(Piece { color: Color::White, role: Role::Bishop })
    } else if c == 'R' {
        Some(Piece { color: Color::White, role: Role::Rook })
    } else if c == 'Q' {
        Some(Piece { color: Color::White, role: Role::Queen })
    } else if c == 'K' {
        Some(Piece { color: Color::White, role: Role::King })
    } else if c == 'p' {
        Some(Piece { color: Color::Black, role: Role::Pawn })
    } else if c == 'n' {
        Some(Piece { color: Color::Black, role: Role::Knight })
    } else if c == 'b' {
        Some(Piece { color: Color::Black, role: Role::Bishop })
    } else if c == 'r' {
        Some(Piece { color: Color::Black, role: Role::Rook })
    } else if c == 'q' {
        Some(Piece { color: Color::Black, role: Role::Queen })
    } else if c == 'k' {
        Some(Piece { color: Color::Black, role: Role::King })
    } else {
        None
    }
}

impl Board {
    /// The position in Forsyth-Edwards notation, with `separator` between
    /// one field and the next.
    pub fn fmt_fen(&self, separator: char) -> (s: String)
        ensures
            s@ == fen_text(self@, separator),
    {
        proof {
            use_type_invariant(self);
        }
        let ghost squares = self@.squares;
        let mut s = String::new();
        let mut ranks: u8 = 0;
        while ranks < 8
            invariant
                self.wf(),
                squares == self@.squares,
                0 <= ranks <= 8,
                s@ == placement_text(squares, ranks as int),
            decreases 8 - ranks,
        {
            let rank: u8 = 7 - ranks;
            let ghost head = if ranks > 0 {
                s@.push('/')
            } else {
                s@
            };
            if ranks > 0 {
                s.push('/');
            }
            let mut gap: u8 = 0;
            let mut file: u8 = 0;
            while file < 8
                invariant
                    self.wf(),
                    squares == self@.squares,
                    0 <= file <= 8,
                    0 <= rank < 8,
                    0 <= gap <= file,
                    s@ == head + rank_scan(squares, rank as int, file as int).0,
                    gap == rank_scan(squares, rank as int, file as int).1,
                decreases 8 - file,
            {
                let ghost before = rank_scan(squares, rank as int, file as int);
                match self.piece_opt_at(Square::new(8 * file + rank)) {
                    Some(piece) => {
                        if gap > 0 {
                            s.push((('0' as u8) + gap) as char);
                        }
                        s.push(letter_of(piece));
                        gap = 0;
                        proof {
                            assert(s@ =~= head + with_gap(before.0, before.1).push(
                                piece_letter(piece),
                            ));
                        }
                    },
                    None => {
                        gap = gap + 1;
                    },
                }
                file = file + 1;
            }
            if gap > 0 {
                s.push((('0' as u8) + gap) as char);
            }
            proof {
                assert(s@ =~= head + rank_text(squares, rank as int));
                assert(s@ =~= placement_text(squares, ranks as int + 1));
            }
            ranks = ranks + 1;
        }
        s.push(separator);
        s.push(
            match self.color_to_move() {
                Color::White => 'w',
                Color::Black => 'b',
            },
        );
        s.push(separator);
        s.push('-');
        s.push(separator);
        s.push('-');
        s.push(separator);
        s.push('0');
        s.push(separator);
        s.push('1');
        s
    }

    /// The board as a diagram.
    pub fn diagram(&self) -> (s: String)
        ensures
            s@ == diagram_text(self@.squares),
    {
        proof {
            use_type_invariant(self);
        }
        let ghost whole = diagram_text(self@.squares);
        let mut s = String::new();
        let mut line: u8 = 0;
        while line < 8
            invariant
                self.wf(),
                whole == diagram_text(self@.squares),
                0 <= line <= 8,
                s@ == whole.take(9 * line),
            decreases 8 - line,
        {
            let mut file: u8 = 0;
            while file < 8
                invariant
                    self.wf(),
                    whole == diagram_text(self@.squares),
                    0 <= line < 8,
                    0 <= file <= 8,
                    s@ == whole.take(9 * line + file),
                decreases 8 - file,
            {
                let c = match self.piece_opt_at(Square::new(8 * file + (7 - line))) {
                    Some(piece) => letter_of(piece),
                    None => '.',
                };
                s.push(c);
                proof {
                    let i = 9 * line + file;
                    assert(i % 9 == file && i / 9 == line);
                    assert(s@ =~= whole.take(i + 1));
                }
                file = file + 1;
            }
            s.push('\n');
            proof {
                let i = 9 * line + 8;
                assert(i % 9 == 8);
                assert(s@ =~= whole.take(i + 1));
            }
            line = line + 1;
        }
        proof {
            assert(whole.take(72) =~= whole);
        }
        s
    }

    /// Reads a position from the first two fields of its Forsyth-Edwards
    /// notation: the placement of the pieces and the side to move.
    ///
    /// The placement is refused where it does not write eight full ranks,
    /// and the side where it is neither `w` nor `b`; a placement that is
    /// refused is reported before the side is looked at.
    pub fn from_fen(placement: &str, side: &str) -> (r: Result<Board, Error>)
        ensures
            match (spell_placement(placement@), spell_color(side@)) {
                (Some(squares), Some(color)) => r matches Ok(board) && board.wf()
                    && board@.squares == squares && board@.to_move == color,
                (None, _) => r == Err::<Board, Error>(Error::InvalidFen),
                (Some(_), None) => r == Err::<Board, Error>(Error::InvalidColor),
            },
    {
        let mut board = Board::empty(Color::White);
        let mut rank: u8 = 7;
        let mut file: u8 = 0;
        let count = placement.unicode_len();
        let mut i: usize = 0;
        proof {
            assert(placement@.take(0) =~= Seq::<char>::empty());
            assert(board@.squares =~= Seq::new(64, |sq: int| None::<Piece>));
        }
        while i < count
            invariant
                count == placement@.len(),
                0 <= i <= count,
                board.wf(),
                board@.to_move == Color::White,
                0 <= rank < 8,
                0 <= file <= 8,
                read_chars(placement@.take(i as int)) == Some(
                    Reading { squares: board@.squares, rank: rank as int, file: file as int },
                ),
            decreases count - i,
        {
            let c = placement.get_char(i);
            proof {
                let upto = placement@.take(i as int + 1);
                assert(upto.drop_last() =~= placement@.take(i as int));
                assert(upto.last() == c);
                if read_chars(upto) is None {
                    lemma_reading_stays_refused(placement@, i as int + 1);
                }
            }
            if c == '/' {
                if file == 8 && rank > 0 {
                    rank = rank - 1;
                    file = 0;
                } else {
                    return Err(Error::InvalidFen);
                }
            } else if '1' <= c && c <= '8' {
                let skip: u8 = (c as u32 - '0' as u32) as u8;
                if file + skip <= 8 {
                    file = file + skip;
                } else {
                    return Err(Error::InvalidFen);
                }
            } else {
                match piece_for(c) {
                    Some(piece) => {
                        if file < 8 {
                            board.set_at_square(Square::new(8 * file + rank), Some(piece));
                            file = file + 1;
                        } else {
                            return Err(Error::InvalidFen);
                        }
                    },
                    None => {
                        return Err(Error::InvalidFen);
                    },
                }
            }
            i = i + 1;
        }
        proof {
            assert(placement@.take(count as int) =~= placement@);
        }
        if !(rank == 0 && file == 8) {
            return Err(Error::InvalidFen);
        }
        if side.unicode_len() != 1 {
            proof {
                assert(seq!['w'].len() == 1 && seq!['b'].len() == 1);
            }
            return Err(Error::InvalidColor);
        }
        let c = side.get_char(0);
        if c == 'w' {
            proof {
                assert(side@ =~= seq!['w']);
            }
            Ok(board)
        } else if c == 'b' {
            proof {
                assert(side@ =~= seq!['b']);
                assert(seq!['b'][0] != seq!['w'][0]);
            }
            board.flip_turn();
            Ok(board)
        } else {
            proof {
                assert(seq!['w'][0] == 'w' && seq!['b'][0] == 'b');
            }
            Err(Error::InvalidColor)
        }
    }
}

/// Once the beginning of a text is refused, the text is refused.
pub proof fn lemma_reading_stays_refused(s: Seq<char>, n: int)
    requires
        0 <= n <= s.len(),
        read_chars(s.take(n)) is None,
    ensures
        read_chars(s) is None,
    decreases s.len() - n,
{
    if n < s.len() {
        assert(s.take(n + 1).drop_last() =~= s.take(n));
        lemma_reading_stays_refused(s, n + 1);
    } else {
        assert(s.take(n) =~= s);
    }
}

} // verus!
