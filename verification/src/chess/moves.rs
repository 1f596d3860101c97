//! Moves, and the buffer that move generation fills.
use crate::chess::square::{spell_square, square_name, Role, Square};
use crate::err::Error;
use vstd::prelude::*;
use vstd::string::{StrSliceExecFns, StringExecFns};

verus! {

/// One move: where a piece leaves, where it lands, the role it promotes to
/// and the role it captures.
///
/// The captured role is a record for taking the move back; it says nothing
/// about whether the move is legal.
#[derive(Copy, Clone, Debug, PartialEq, Eq, Structural)]
pub struct Move {
    pub from: Square,
    pub to: Square,
    pub promotion: Option<Role>,
    pub capture: Option<Role>,
}

/// The role that a promotion letter names: `n`, `b`, `r`, `q` and `k` in
/// either case name their piece, and every other character a pawn.
pub open spec fn role_of_letter(c: char) -> Role {
    if c == 'n' || c == 'N' {
        Role::Knight
    } else if c == 'b' || c == 'B' {
        Role::Bishop
    } else if c == 'r' || c == 'R' {
        Role::Rook
    } else if c == 'q' || c == 'Q' {
        Role::Queen
    } else if c == 'k' || c == 'K' {
        Role::King
    } else {
        Role::Pawn
    }
}

/// The promotion that the text of a move names: the role of its sixth
/// character, where it has one.
pub open spec fn spell_promotion(s: Seq<char>) -> Option<Role> {
    if s.len() > 5 {
        Some(role_of_letter(s[5]))
    } else {
        None
    }
}

/// The text of a move: the name of the square it leaves, then the name of
/// the square it lands on.
pub open spec fn move_text(m: Move) -> Seq<char> {
    square_name(m.from.idx()) + square_name(m.to.idx())
}

/// The move that a text writes, if it writes one: at least four
/// characters, of which the first two name the square that the move leaves
/// and the next two the square that it lands on.
pub open spec fn spell_move(s: Seq<char>) -> Option<Move> {
    if s.len() >= 4 {
        match (spell_square(s.subrange(0, 2)), spell_square(s.subrange(2, 4))) {
            (Some(from), Some(to)) => Some(
                Move {
                    from: Square::of(from),
                    to: Square::of(to),
                    promotion: spell_promotion(s),
                    capture: None,
                },
            ),
            _ => None,
        }
    } else {
        None
    }
}

impl Role {
    /// The role that a promotion letter names.
    pub fn from_letter(c: char) -> (r: Role)
        ensures
            r == role_of_letter(c),
    {
        if c == 'n' || c == 'N' {
            Role::Knight
        } else if c == 'b' || c == 'B' {
            Role::Bishop
        } else if c == 'r' || c == 'R' {
            Role::Rook
        } else if c == 'q' || c == 'Q' {
            Role::Queen
        } else if c == 'k' || c == 'K' {
            Role::King
        } else {
            Role::Pawn
        }
    }
}

impl Move {
    /// A move to fill a slot with: from the first square to itself.
    pub fn new_garbage() -> (m: Move)
        ensures
            m.from.idx() == 0,
            m.to.idx() == 0,
            m.promotion is None,
            m.capture is None,
    {
        Move { from: Square::new(0), to: Square::new(0), promotion: None, capture: None }
    }

    /// Reads a move from text of at least four characters: the name of the
    /// square it leaves, then the name of the square it lands on. Whether
    /// the move can be played is not looked at, and no capture is recorded.
    pub fn from_str(s: &str) -> (r: Result<Move, Error>)
        requires
            s@.len() >= 4,
        ensures
            match (spell_square(s@.subrange(0, 2)), spell_square(s@.subrange(2, 4))) {
                (Some(from), Some(to)) => r matches Ok(m) && m.from.idx() == from && m.to.idx()
                    == to && m.promotion == spell_promotion(s@) && m.capture is None,
                _ => r == Err::<Move, Error>(Error::InvalidSquare),
            },
    {
        let from = match Square::from_str(s.substring_char(0, 2)) {
            Ok(sq) => sq,
            Err(_) => {
                return Err(Error::InvalidSquare);
            },
        };
        let to = match Square::from_str(s.substring_char(2, 4)) {
            Ok(sq) => sq,
            Err(_) => {
                return Err(Error::InvalidSquare);
            },
        };
        let promotion = if s.unicode_len() > 5 {
            Some(Role::from_letter(s.get_char(5)))
        } else {
            None
        };
        Ok(Move { from, to, promotion, capture: None })
    }

    /// Reads a move from text of any length: text of fewer than four
    /// characters is refused like text that names no square.
    pub fn parse(s: &str) -> (r: Result<Move, Error>)
        ensures
            match spell_move(s@) {
                Some(m) => r == Ok::<Move, Error>(m),
                None => r == Err::<Move, Error>(Error::InvalidSquare),
            },
    {
        if s.unicode_len() < 4 {
            return Err(Error::InvalidSquare);
        }
        let r = Move::from_str(s);
        proof {
            Square::lemma_of_idx_all();
        }
        r
    }

    /// The text of the move: the name of the square it leaves, then the
    /// name of the square it lands on.
    pub fn to_text(&self) -> (s: String)
        ensures
            s@ == move_text(*self),
    {
        let mut s = self.from.to_text();
        let to = self.to.to_text();
        s.append(to.as_str());
        s
    }
}

/// Reading the name of a square gives the square back.
pub proof fn lemma_square_name_round_trip(sq: int)
    requires
        0 <= sq < 64,
    ensures
        spell_square(square_name(sq)) == Some(sq),
{
}

/// Reading the text of a move gives back the squares that it leaves and
/// lands on, and no promotion.
pub proof fn lemma_move_text_round_trip(from: int, to: int)
    requires
        0 <= from < 64,
        0 <= to < 64,
    ensures
        ({
            let text = square_name(from) + square_name(to);
            &&& text.len() == 4
            &&& spell_square(text.subrange(0, 2)) == Some(from)
            &&& spell_square(text.subrange(2, 4)) == Some(to)
            &&& spell_promotion(text) is None
        }),
{
    let text = square_name(from) + square_name(to);
    assert(text.subrange(0, 2) =~= square_name(from));
    assert(text.subrange(2, 4) =~= square_name(to));
    lemma_square_name_round_trip(from);
    lemma_square_name_round_trip(to);
}

/// The moves found for a position, in the order in which they were found.
#[derive(Clone)]
pub struct AvailableMoves {
    buf: Vec<Move>,
}

impl View for AvailableMoves {
    type V = Seq<Move>;

    closed spec fn view(&self) -> Seq<Move> {
        self.buf@
    }
}

impl Default for AvailableMoves {
    /// An empty buffer with room for the moves of any position.
    fn default() -> (moves: AvailableMoves)
        ensures
            moves@ == Seq::<Move>::empty(),
    {
        AvailableMoves { buf: Vec::with_capacity(140) }
    }
}

impl AvailableMoves {
    /// The moves, first found first.
    pub fn as_slice(&self) -> (moves: &[Move])
        ensures
            moves@ == self@,
    {
        self.buf.as_slice()
    }

    /// Adds a move at the end.
    pub fn push(&mut self, m: Move)
        ensures
            final(self)@ == old(self)@.push(m),
    {
        self.buf.push(m);
    }

    /// The number of moves.
    pub fn len(&self) -> (n: usize)
        ensures
            n == self@.len(),
    {
        self.buf.len()
    }

    /// The move found as number `i`.
    pub fn get(&self, i: usize) -> (m: Move)
        requires
            i < self@.len(),
        ensures
            m == self@[i as int],
    {
        self.buf[i]
    }

    /// Empties the buffer, so that it can be filled again.
    pub fn clear(&mut self)
        ensures
            final(self)@ == Seq::<Move>::empty(),
    {
        self.buf.clear();
    }

    /// The moves, first found first, as a vector of their own.
    pub fn into_vec(self) -> (moves: Vec<Move>)
        ensures
            moves@ == self@,
    {
        self.buf
    }

    /// A walk over the moves from the last found to the first.
    pub fn iter(&self) -> (it: AvailableMovesIter<'_>)
        ensures
            it.remaining() == self@.reverse(),
    {
        let it = AvailableMovesIter { available_moves: self, index: self.buf.len() };
        proof {
            assert(self@.subrange(0, self@.len() as int) =~= self@);
        }
        it
    }
}

/// A walk over the moves of a buffer from the last found to the first.
pub struct AvailableMovesIter<'a> {
    available_moves: &'a AvailableMoves,
    index: usize,
}

impl<'a> AvailableMovesIter<'a> {
    #[verifier::type_invariant]
    closed spec fn index_in_range(self) -> bool {
        self.index <= self.available_moves@.len()
    }

    /// The moves that the walk has still to give, next first.
    pub closed spec fn remaining(self) -> Seq<Move> {
        self.available_moves@.subrange(0, self.index as int).reverse()
    }

    /// Gives the next move of the walk, or `None` when every move was given.
    pub fn next(&mut self) -> (r: Option<Move>)
        ensures
            match r {
                Some(m) => old(self).remaining().len() > 0 && m == old(self).remaining()[0]
                    && final(self).remaining() == old(self).remaining().drop_first(),
                None => old(self).remaining().len() == 0 && final(self).remaining() == old(
                    self,
                ).remaining(),
            },
    {
        proof {
            use_type_invariant(&*self);
        }
        if self.index == 0 {
            None
        } else {
            let ghost before = self.remaining();
            self.index -= 1;
            let m = self.available_moves.get(self.index);
            proof {
                assert(self.remaining() =~= before.drop_first());
            }
            Some(m)
        }
    }
}

/// Walking a buffer backwards gives the same moves as walking it forwards,
/// each as often; only the order differs.
pub proof fn lemma_both_walks_give_same_moves(moves: Seq<Move>)
    ensures
        moves.reverse().to_multiset() == moves.to_multiset(),
        moves.reverse().to_set() == moves.to_set(),
        moves.reverse().len() == moves.len(),
{
    moves.lemma_reverse_to_multiset();
    assert forall|m: Move| moves.reverse().contains(m) <==> moves.contains(m) by {
        if moves.reverse().contains(m) {
            let i = choose|i: int| 0 <= i < moves.reverse().len() && moves.reverse()[i] == m;
            assert(moves[moves.len() - 1 - i] == m);
        }
        if moves.contains(m) {
            let i = choose|i: int| 0 <= i < moves.len() && moves[i] == m;
            assert(moves.reverse()[moves.len() - 1 - i] == m);
        }
    }
    assert(moves.reverse().to_set() =~= moves.to_set());
}

} // verus!
