//! The position: which piece stands where, and whose turn it is.
use crate::chess::bitboard::{
    contains, group_holds, holds, lemma_holds_ext, lowest, single, without,
};
use crate::chess::moves::Move;
use crate::chess::square::{file_of, rank_of, Color, Piece, Role, Square};
use vstd::prelude::*;

verus! {

/// A position seen square by square: the mathematical model of a [`Board`].
pub struct Position {
    /// What stands on each of the 64 squares.
    pub squares: Seq<Option<Piece>>,
    /// The side that moves next.
    pub to_move: Color,
}

impl Position {
    /// The role of the piece on `sq`, if one stands there.
    pub open spec fn role_at(self, sq: int) -> Option<Role> {
        match self.squares[sq] {
            Some(p) => Some(p.role),
            None => None,
        }
    }

    /// Whether a piece of `color` stands on `sq`.
    pub open spec fn has_color(self, color: Color, sq: int) -> bool {
        0 <= sq < 64 && (self.squares[sq] matches Some(p) && p.color == color)
    }

    /// Whether a piece of the side to move stands on `sq`.
    pub open spec fn own(self, sq: int) -> bool {
        self.has_color(self.to_move, sq)
    }

    /// Whether a piece of the side that does not move stands on `sq`.
    pub open spec fn enemy(self, sq: int) -> bool {
        self.has_color(self.to_move.other(), sq)
    }

    /// Whether any piece stands on `sq`.
    pub open spec fn occupied(self, sq: int) -> bool {
        0 <= sq < 64 && self.squares[sq] is Some
    }

    /// Whether a piece of the side to move with role `role` stands on `sq`.
    pub open spec fn own_role(self, role: Role, sq: int) -> bool {
        0 <= sq < 64 && self.squares[sq] == Some(Piece { color: self.to_move, role })
    }

    /// Whether exactly one square holds a king of `color`.
    pub open spec fn has_one_king(self, color: Color) -> bool {
        exists|sq: int|
            {
                &&& 0 <= sq < 64
                &&& #[trigger] self.squares[sq] == Some(Piece { color, role: Role::King })
                &&& forall|other: int|
                    0 <= other < 64 && #[trigger] self.squares[other] == Some(
                        Piece { color, role: Role::King },
                    ) ==> other == sq
            }
    }

    /// The position after `m`: whatever stands on `m.from` is lifted and put
    /// on `m.to`, as the promotion role where the move names one; whatever
    /// stood on `m.to` is gone; the turn passes to the other side.
    pub open spec fn apply(self, m: Move) -> Position {
        let lifted = self.squares[m.from.idx()];
        let placed = match (lifted, m.promotion) {
            (Some(p), Some(role)) => Some(Piece { color: p.color, role }),
            _ => lifted,
        };
        Position {
            squares: self.squares.update(m.from.idx(), None).update(m.to.idx(), placed),
            to_move: self.to_move.other(),
        }
    }

    /// The position before `m` was made, given what `m` captured: the turn
    /// goes back, the piece on `m.to` returns to `m.from` (as a pawn where
    /// the move promoted), and `m.to` gets the captured role back, in the
    /// color of the side that did not make the move.
    pub open spec fn revert(self, m: Move, captured: Option<Role>) -> Position {
        let piece = self.squares[m.to.idx()];
        let restored = match (piece, m.promotion) {
            (Some(p), Some(_)) => Some(Piece { color: p.color, role: Role::Pawn }),
            _ => piece,
        };
        let back = match captured {
            Some(role) => Some(Piece { color: self.to_move, role }),
            None => None,
        };
        Position {
            squares: self.squares.update(m.to.idx(), back).update(m.from.idx(), restored),
            to_move: self.to_move.other(),
        }
    }
}

/// The position as bitboards: one per color and one per role.
#[derive(Copy, Clone, Debug, PartialEq, Eq, Hash, Structural)]
pub struct Board {
    white: u64,
    black: u64,
    pawns: u64,
    knights: u64,
    bishops: u64,
    rooks: u64,
    queens: u64,
    kings: u64,
    color_to_move: Color,
}

impl View for Board {
    type V = Position;

    open spec fn view(&self) -> Position {
        Position {
            squares: Seq::new(64, |sq: int| self.piece_on(sq)),
            to_move: self.side_to_move(),
        }
    }
}

impl Board {
    /// The squares that hold a piece of `color`.
    pub closed spec fn color_set(self, color: Color) -> u64 {
        match color {
            Color::White => self.white,
            Color::Black => self.black,
        }
    }

    /// The squares that hold a piece of role `role`.
    pub closed spec fn role_set(self, role: Role) -> u64 {
        match role {
            Role::Pawn => self.pawns,
            Role::Knight => self.knights,
            Role::Bishop => self.bishops,
            Role::Rook => self.rooks,
            Role::Queen => self.queens,
            Role::King => self.kings,
        }
    }

    /// The side that moves next.
    pub closed spec fn side_to_move(self) -> Color {
        self.color_to_move
    }

    /// How many of the six role bitboards hold `sq`.
    pub open spec fn roles_on(self, sq: int) -> int {
        (if holds(self.role_set(Role::Pawn), sq) { 1int } else { 0 })
        + (if holds(self.role_set(Role::Knight), sq) { 1int } else { 0 })
        + (if holds(self.role_set(Role::Bishop), sq) { 1int } else { 0 })
        + (if holds(self.role_set(Role::Rook), sq) { 1int } else { 0 })
        + (if holds(self.role_set(Role::Queen), sq) { 1int } else { 0 })
        + (if holds(self.role_set(Role::King), sq) { 1int } else { 0 })
    }

    /// How many of the two color bitboards hold `sq`.
    pub open spec fn colors_on(self, sq: int) -> int {
        (if holds(self.color_set(Color::White), sq) { 1int } else { 0 })
        + (if holds(self.color_set(Color::Black), sq) { 1int } else { 0 })
    }

    /// The bitboards agree on `sq`: it is held by no bitboard at all, or by
    /// exactly one color and exactly one role.
    pub open spec fn square_ok(self, sq: int) -> bool {
        self.roles_on(sq) <= 1 && self.colors_on(sq) == self.roles_on(sq)
    }

    /// The bitboards agree on every square. A board held by running code
    /// is never anything else.
    #[verifier::type_invariant]
    pub open spec fn wf(self) -> bool {
        forall|sq: int| 0 <= sq < 64 ==> #[trigger] self.square_ok(sq)
    }

    /// The role that the role bitboards give `sq`.
    pub open spec fn role_on(self, sq: int) -> Option<Role> {
        if holds(self.role_set(Role::Pawn), sq) {
            Some(Role::Pawn)
        } else if holds(self.role_set(Role::Knight), sq) {
            Some(Role::Knight)
        } else if holds(self.role_set(Role::Bishop), sq) {
            Some(Role::Bishop)
        } else if holds(self.role_set(Role::Rook), sq) {
            Some(Role::Rook)
        } else if holds(self.role_set(Role::Queen), sq) {
            Some(Role::Queen)
        } else if holds(self.role_set(Role::King), sq) {
            Some(Role::King)
        } else {
            None
        }
    }

    /// The color that the color bitboards give `sq`.
    pub open spec fn color_on(self, sq: int) -> Option<Color> {
        if holds(self.color_set(Color::White), sq) {
            Some(Color::White)
        } else if holds(self.color_set(Color::Black), sq) {
            Some(Color::Black)
        } else {
            None
        }
    }

    /// The piece that the bitboards put on `sq`.
    pub open spec fn piece_on(self, sq: int) -> Option<Piece> {
        match (self.color_on(sq), self.role_on(sq)) {
            (Some(color), Some(role)) => Some(Piece { color, role }),
            _ => None,
        }
    }

    /// On a well-formed board a color bitboard holds exactly the squares
    /// where the position shows a piece of that color, and a role bitboard
    /// exactly those where it shows a piece of that role.
    pub proof fn lemma_sets_match_view(self, sq: int)
        requires
            self.wf(),
            0 <= sq < 64,
        ensures
            forall|c: Color| #[trigger] holds(self.color_set(c), sq) <==> self@.has_color(c, sq),
            forall|r: Role| #[trigger]
                holds(self.role_set(r), sq) <==> self@.role_at(sq) == Some(r),
            self@.squares[sq] == self.piece_on(sq),
            self@.occupied(sq) <==> holds(self.color_set(Color::White), sq) || holds(
                self.color_set(Color::Black),
                sq,
            ),
    {
        assert(self.square_ok(sq));
    }

    /// A well-formed board is determined by the position it shows.
    pub proof fn lemma_view_determines_board(a: Board, b: Board)
        requires
            a.wf(),
            b.wf(),
            a@ == b@,
        ensures
            a == b,
    {
        assert forall|c: Color| a.color_set(c) == b.color_set(c) by {
            assert forall|sq: int| 0 <= sq < 64 implies holds(a.color_set(c), sq) == holds(
                b.color_set(c),
                sq,
            ) by {
                a.lemma_sets_match_view(sq);
                b.lemma_sets_match_view(sq);
            }
            lemma_holds_ext(a.color_set(c), b.color_set(c));
        }
        assert forall|r: Role| a.role_set(r) == b.role_set(r) by {
            assert forall|sq: int| 0 <= sq < 64 implies holds(a.role_set(r), sq) == holds(
                b.role_set(r),
                sq,
            ) by {
                a.lemma_sets_match_view(sq);
                b.lemma_sets_match_view(sq);
            }
            lemma_holds_ext(a.role_set(r), b.role_set(r));
        }
        assert(a.color_set(Color::White) == b.color_set(Color::White));
        assert(a.color_set(Color::Black) == b.color_set(Color::Black));
        assert(a.role_set(Role::Pawn) == b.role_set(Role::Pawn));
        assert(a.role_set(Role::Knight) == b.role_set(Role::Knight));
        assert(a.role_set(Role::Bishop) == b.role_set(Role::Bishop));
        assert(a.role_set(Role::Rook) == b.role_set(Role::Rook));
        assert(a.role_set(Role::Queen) == b.role_set(Role::Queen));
        assert(a.role_set(Role::King) == b.role_set(Role::King));
    }

    /// The board with no piece on it and `color` to move.
    pub fn empty(color: Color) -> (b: Board)
        ensures
            b.wf(),
            b@.to_move == color,
            forall|sq: int| 0 <= sq < 64 ==> b@.squares[sq] is None,
    {
        broadcast use group_holds;
        let b = Board {
            white: 0,
            black: 0,
            pawns: 0,
            knights: 0,
            bishops: 0,
            rooks: 0,
            queens: 0,
            kings: 0,
            color_to_move: color,
        };
        assert forall|sq: int| 0 <= sq < 64 implies #[trigger] b.square_ok(sq) by {}
        b
    }

    /// The side that moves next.
    pub fn color_to_move(&self) -> (c: Color)
        ensures
            c == self@.to_move,
            c == self.side_to_move(),
    {
        self.color_to_move
    }

    /// The squares that hold a piece of `color`.
    pub fn bb_color(&self, color: Color) -> (bb: u64)
        ensures
            bb == self.color_set(color),
    {
        match color {
            Color::White => self.white,
            Color::Black => self.black,
        }
    }

    /// The squares that hold a piece of role `role`, of either color.
    pub fn bb_role(&self, role: Role) -> (bb: u64)
        ensures
            bb == self.role_set(role),
    {
        match role {
            Role::Pawn => self.pawns,
            Role::Knight => self.knights,
            Role::Bishop => self.bishops,
            Role::Rook => self.rooks,
            Role::Queen => self.queens,
            Role::King => self.kings,
        }
    }

    /// The squares that hold a piece of the side to move.
    pub fn attackers(&self) -> (bb: u64)
        ensures
            bb == self.color_set(self.side_to_move()),
            forall|sq: int| holds(bb, sq) <==> self@.own(sq),
    {
        proof {
            use_type_invariant(self);
        }
        let bb = self.bb_color(self.color_to_move);
        assert forall|sq: int| holds(bb, sq) <==> self@.own(sq) by {
            if 0 <= sq < 64 {
                self.lemma_sets_match_view(sq);
            }
        }
        bb
    }

    /// The squares that hold a piece of the side that does not move.
    pub fn defenders(&self) -> (bb: u64)
        ensures
            bb == self.color_set(self.side_to_move().other()),
            forall|sq: int| holds(bb, sq) <==> self@.enemy(sq),
    {
        proof {
            use_type_invariant(self);
        }
        let bb = self.bb_color(self.color_to_move.opponent());
        assert forall|sq: int| holds(bb, sq) <==> self@.enemy(sq) by {
            if 0 <= sq < 64 {
                self.lemma_sets_match_view(sq);
            }
        }
        bb
    }

    /// The squares that hold any piece.
    pub fn bb_all(&self) -> (bb: u64)
        ensures
            forall|sq: int| holds(bb, sq) <==> self@.occupied(sq),
    {
        proof {
            use_type_invariant(self);
        }
        broadcast use group_holds;
        let bb = self.white | self.black;
        assert forall|sq: int| holds(bb, sq) <==> self@.occupied(sq) by {
            if 0 <= sq < 64 {
                self.lemma_sets_match_view(sq);
            }
        }
        bb
    }

    /// The squares that hold a piece of the side to move with role `role`.
    pub fn attackers_with_role(&self, role: Role) -> (bb: u64)
        ensures
            forall|sq: int| holds(bb, sq) <==> self@.own_role(role, sq),
    {
        proof {
            use_type_invariant(self);
        }
        broadcast use group_holds;
        let bb = self.attackers() & self.bb_role(role);
        assert forall|sq: int| holds(bb, sq) <==> self@.own_role(role, sq) by {
            if 0 <= sq < 64 {
                self.lemma_sets_match_view(sq);
            }
        }
        bb
    }

    /// The role of the piece on `sq`, if one stands there.
    pub fn role_at(&self, sq: Square) -> (r: Option<Role>)
        ensures
            r == self@.role_at(sq.idx()),
    {
        proof {
            use_type_invariant(self);
        }
        let i = sq.i();
        proof {
            self.lemma_sets_match_view(i as int);
        }
        if contains(self.pawns, sq) {
            Some(Role::Pawn)
        } else if contains(self.knights, sq) {
            Some(Role::Knight)
        } else if contains(self.bishops, sq) {
            Some(Role::Bishop)
        } else if contains(self.rooks, sq) {
            Some(Role::Rook)
        } else if contains(self.queens, sq) {
            Some(Role::Queen)
        } else if contains(self.kings, sq) {
            Some(Role::King)
        } else {
            None
        }
    }

    /// The piece on `sq`, if one stands there.
    pub fn piece_opt_at(&self, sq: Square) -> (p: Option<Piece>)
        ensures
            p == self@.squares[sq.idx()],
    {
        proof {
            use_type_invariant(self);
        }
        let i = sq.i();
        proof {
            self.lemma_sets_match_view(i as int);
        }
        match self.role_at(sq) {
            Some(role) => {
                if contains(self.white, sq) {
                    Some(Piece { color: Color::White, role })
                } else {
                    Some(Piece { color: Color::Black, role })
                }
            },
            None => None,
        }
    }

    /// Whether exactly one square holds a king of `color`.
    pub fn has_one_king(&self, color: Color) -> (r: bool)
        ensures
            r == self@.has_one_king(color),
    {
        proof {
            use_type_invariant(self);
        }
        broadcast use group_holds;
        let kings = self.bb_color(color) & self.kings;
        let king = Piece { color, role: Role::King };
        assert forall|sq: int| holds(kings, sq) <==> 0 <= sq < 64 && self@.squares[sq] == Some(
            king,
        ) by {
            if 0 <= sq < 64 {
                self.lemma_sets_match_view(sq);
                assert(holds(self.role_set(Role::King), sq) <==> self@.role_at(sq) == Some(
                    Role::King,
                ));
                assert(holds(self.color_set(color), sq) <==> self@.has_color(color, sq));
            }
        }
        if kings == 0 {
            proof {
                assert forall|sq: int| 0 <= sq < 64 implies #[trigger] self@.squares[sq] != Some(
                    king,
                ) by {
                    assert(!holds(kings, sq));
                }
            }
            return false;
        }
        let first = lowest(kings);
        let others = without(kings, first);
        proof {
            if others == 0 {
                assert forall|other: int|
                    0 <= other < 64 && self@.squares[other] == Some(king) implies other
                    == first.idx() by {
                    assert(!holds(others, other));
                }
            } else {
                if forall|sq: int| 0 <= sq < 64 ==> !holds(others, sq) {
                    lemma_holds_ext(others, 0);
                }
                let second = choose|sq: int| 0 <= sq < 64 && holds(others, sq);
                assert(self@.squares[second] == Some(king) && second != first.idx());
            }
        }
        others == 0
    }

    /// Whether exactly one king of each color is on the board.
    pub fn has_both_kings(&self) -> (r: bool)
        ensures
            r == (self@.has_one_king(Color::White) && self@.has_one_king(Color::Black)),
    {
        proof {
            use_type_invariant(self);
        }
        self.has_one_king(Color::White) && self.has_one_king(Color::Black)
    }

    /// Puts `piece` on `sq`, in place of whatever stood there; `None` clears
    /// the square.
    pub fn set_at_square(&mut self, sq: Square, piece: Option<Piece>)
        ensures
            final(self).wf(),
            final(self)@.squares == old(self)@.squares.update(sq.idx(), piece),
            final(self)@.to_move == old(self)@.to_move,
    {
        proof {
            use_type_invariant(&*self);
        }
        broadcast use group_holds;
        let i = sq.i();
        let bit = single(sq);
        let keep = !bit;
        let mut white = self.white & keep;
        let mut black = self.black & keep;
        let mut pawns = self.pawns & keep;
        let mut knights = self.knights & keep;
        let mut bishops = self.bishops & keep;
        let mut rooks = self.rooks & keep;
        let mut queens = self.queens & keep;
        let mut kings = self.kings & keep;
        if let Some(p) = piece {
            match p.color {
                Color::White => { white = white | bit; },
                Color::Black => { black = black | bit; },
            }
            match p.role {
                Role::Pawn => { pawns = pawns | bit; },
                Role::Knight => { knights = knights | bit; },
                Role::Bishop => { bishops = bishops | bit; },
                Role::Rook => { rooks = rooks | bit; },
                Role::Queen => { queens = queens | bit; },
                Role::King => { kings = kings | bit; },
            }
        }
        let ghost before = *self;
        let color_to_move = self.color_to_move;
        proof {
            let after = Board {
                white,
                black,
                pawns,
                knights,
                bishops,
                rooks,
                queens,
                kings,
                color_to_move,
            };
            assert forall|j: int| 0 <= j < 64 implies #[trigger] after.square_ok(j)
                && after.piece_on(j) == (if j == i {
                piece
            } else {
                before.piece_on(j)
            }) by {
                assert(before.square_ok(j));
            }
            assert(after@.squares =~= before@.squares.update(sq.idx(), piece));
        }
        *self = Board {
            white,
            black,
            pawns,
            knights,
            bishops,
            rooks,
            queens,
            kings,
            color_to_move,
        };
    }

    /// Makes the move on the board and returns the role that it captured.
    ///
    /// Whatever stands on `m.from` goes to `m.to`; nothing is asked of the
    /// move but that its squares are on the board.
    pub fn do_move(&mut self, m: Move) -> (captured: Option<Role>)
        ensures
            final(self).wf(),
            final(self)@ == old(self)@.apply(m),
            captured == old(self)@.role_at(m.to.idx()),
    {
        proof {
            use_type_invariant(&*self);
        }
        let lifted = self.piece_opt_at(m.from);
        let captured = self.role_at(m.to);
        let placed = match (lifted, m.promotion) {
            (Some(p), Some(role)) => Some(Piece { color: p.color, role }),
            _ => lifted,
        };
        self.set_at_square(m.from, None);
        self.set_at_square(m.to, placed);
        self.flip_turn();
        captured
    }

    /// Takes the move back, given the role that it captured.
    pub fn undo_move(&mut self, m: Move, captured: Option<Role>)
        ensures
            final(self).wf(),
            final(self)@ == old(self)@.revert(m, captured),
    {
        proof {
            use_type_invariant(&*self);
        }
        let piece = self.piece_opt_at(m.to);
        let restored = match (piece, m.promotion) {
            (Some(p), Some(_)) => Some(Piece { color: p.color, role: Role::Pawn }),
            _ => piece,
        };
        let back = match captured {
            Some(role) => Some(Piece { color: self.color_to_move, role }),
            None => None,
        };
        self.set_at_square(m.to, back);
        self.set_at_square(m.from, restored);
        self.flip_turn();
    }

    /// Passes the turn to the other side.
    pub fn flip_turn(&mut self)
        ensures
            final(self).wf(),
            final(self)@.squares == old(self)@.squares,
            final(self)@.to_move == old(self)@.to_move.other(),
    {
        proof {
            use_type_invariant(&*self);
        }
        let ghost before = *self;
        let next = self.color_to_move.opponent();
        proof {
            let after = Board { color_to_move: next, ..before };
            assert forall|j: int| 0 <= j < 64 implies #[trigger] after.square_ok(j) by {
                assert(before.square_ok(j));
            }
            assert(after@.squares =~= before@.squares);
        }
        self.color_to_move = next;
    }
}

/// The role that starts on the first and last rank of file `file`.
pub open spec fn back_rank_role(file: int) -> Role {
    if file == 0 || file == 7 {
        Role::Rook
    } else if file == 1 || file == 6 {
        Role::Knight
    } else if file == 2 || file == 5 {
        Role::Bishop
    } else if file == 3 {
        Role::Queen
    } else {
        Role::King
    }
}

/// The piece that starts a game on square `sq`.
pub open spec fn starting_piece(sq: int) -> Option<Piece> {
    let rank = rank_of(sq);
    if rank == 0 {
        Some(Piece { color: Color::White, role: back_rank_role(file_of(sq)) })
    } else if rank == 1 {
        Some(Piece { color: Color::White, role: Role::Pawn })
    } else if rank == 6 {
        Some(Piece { color: Color::Black, role: Role::Pawn })
    } else if rank == 7 {
        Some(Piece { color: Color::Black, role: back_rank_role(file_of(sq)) })
    } else {
        None
    }
}

/// The position from which a game starts, with White to move.
pub open spec fn starting_position() -> Position {
    Position { squares: Seq::new(64, |sq: int| starting_piece(sq)), to_move: Color::White }
}

/// The role that starts on the first and last rank of file `file`.
fn back_rank(file: u8) -> (role: Role)
    requires
        file < 8,
    ensures
        role == back_rank_role(file as int),
{
    if file == 0 || file == 7 {
        Role::Rook
    } else if file == 1 || file == 6 {
        Role::Knight
    } else if file == 2 || file == 5 {
        Role::Bishop
    } else if file == 3 {
        Role::Queen
    } else {
        Role::King
    }
}

impl Default for Board {
    /// The board at the start of a game.
    fn default() -> (b: Board)
        ensures
            b.wf(),
            b@ == starting_position(),
    {
        let mut b = Board::empty(Color::White);
        let mut file: u8 = 0;
        while file < 8
            invariant
                0 <= file <= 8,
                b.wf(),
                b@.to_move == Color::White,
                b@.squares.len() == 64,
                forall|sq: int|
                    0 <= sq < 64 ==> b@.squares[sq] == (if file_of(sq) < file {
                        starting_piece(sq)
                    } else {
                        None
                    }),
            decreases 8 - file,
        {
            let role = back_rank(file);
            b.set_at_square(Square::new(8 * file), Some(Piece { color: Color::White, role }));
            b.set_at_square(
                Square::new(8 * file + 1),
                Some(Piece { color: Color::White, role: Role::Pawn }),
            );
            b.set_at_square(
                Square::new(8 * file + 6),
                Some(Piece { color: Color::Black, role: Role::Pawn }),
            );
            b.set_at_square(Square::new(8 * file + 7), Some(Piece { color: Color::Black, role }));
            file = file + 1;
        }
        proof {
            assert(b@.squares =~= starting_position().squares);
        }
        b
    }
}

} // verus!
