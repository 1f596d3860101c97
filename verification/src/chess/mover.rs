//! Move generation: the moves that the pieces can make, and among them the
//! moves that do not leave the mover's king to be taken.
use crate::chess::bitboard::{group_holds, holds, lowest, members, rank_bb, step_all, without};
use crate::chess::board::{Board, Position};
use crate::chess::moves::{AvailableMoves, Move};
use crate::chess::square::{file_of, rank_of, square_at, Color, Role, Square};
use crate::chess::tables::leapers::{king_reach, knight_reach};
use crate::chess::tables::rays::{slide_reach, slides, Line};
use crate::chess::tables::AttackTables;
use vstd::prelude::*;

verus! {

/// The kinds of move, in the order in which they are generated.
#[derive(Copy, Clone, Debug, PartialEq, Eq, Structural)]
pub enum Kind {
    /// A pawn steps one rank forward onto an empty square.
    Push,
    /// A pawn on its home rank steps two ranks forward over empty squares.
    DoublePush,
    /// A pawn captures one rank forward on the next file towards the h-file.
    CaptureEast,
    /// A pawn captures one rank forward on the next file towards the a-file.
    CaptureWest,
    Knight,
    King,
    Rook,
    Bishop,
    Queen,
}

/// The rank step of a pawn of `color`.
pub open spec fn forward(color: Color) -> int {
    match color {
        Color::White => 1,
        Color::Black => -1,
    }
}

/// The rank on which the pawns of `color` start.
pub open spec fn home_rank(color: Color) -> int {
    match color {
        Color::White => 1,
        Color::Black => 6,
    }
}

impl Position {
    /// The squares on which a piece stands.
    pub open spec fn occupied_set(self) -> Set<int> {
        Set::new(|sq: int| self.occupied(sq))
    }

    /// Whether the side to move has a move of `kind` from square `from` to
    /// square `to`, whether or not it leaves its own king to be taken.
    pub open spec fn allows(self, kind: Kind, from: int, to: int) -> bool {
        let step = forward(self.to_move);
        let files = file_of(to) - file_of(from);
        let ranks = rank_of(to) - rank_of(from);
        let blockers = self.occupied_set();
        &&& 0 <= from < 64
        &&& 0 <= to < 64
        &&& match kind {
            Kind::Push => {
                &&& self.own_role(Role::Pawn, from)
                &&& files == 0
                &&& ranks == step
                &&& !self.occupied(to)
            },
            Kind::DoublePush => {
                &&& self.own_role(Role::Pawn, from)
                &&& rank_of(from) == home_rank(self.to_move)
                &&& files == 0
                &&& ranks == 2 * step
                &&& !self.occupied(square_at(file_of(from), rank_of(from) + step))
                &&& !self.occupied(to)
            },
            Kind::CaptureEast => {
                &&& self.own_role(Role::Pawn, from)
                &&& files == 1
                &&& ranks == step
                &&& self.enemy(to)
            },
            Kind::CaptureWest => {
                &&& self.own_role(Role::Pawn, from)
                &&& files == -1
                &&& ranks == step
                &&& self.enemy(to)
            },
            Kind::Knight => {
                &&& self.own_role(Role::Knight, from)
                &&& knight_reach(from, to)
                &&& !self.own(to)
            },
            Kind::King => {
                &&& self.own_role(Role::King, from)
                &&& king_reach(from, to)
                &&& !self.own(to)
            },
            Kind::Rook => {
                &&& self.own_role(Role::Rook, from)
                &&& (slides(Line::File, from, to, blockers) || slides(
                    Line::Rank,
                    from,
                    to,
                    blockers,
                ))
                &&& !self.own(to)
            },
            Kind::Bishop => {
                &&& self.own_role(Role::Bishop, from)
                &&& (slides(Line::Diagonal, from, to, blockers) || slides(
                    Line::AntiDiagonal,
                    from,
                    to,
                    blockers,
                ))
                &&& !self.own(to)
            },
            Kind::Queen => {
                &&& self.own_role(Role::Queen, from)
                &&& (slides(Line::File, from, to, blockers) || slides(Line::Rank, from, to, blockers)
                    || slides(Line::Diagonal, from, to, blockers) || slides(
                    Line::AntiDiagonal,
                    from,
                    to,
                    blockers,
                ))
                &&& !self.own(to)
            },
        }
    }

    /// `allows` for the pair of squares numbered `64 * from + to`.
    pub open spec fn allows_pair(self, kind: Kind, pair: int) -> bool {
        self.allows(kind, pair / 64, pair % 64)
    }

    /// The move from `from` to `to` as move generation records it: without
    /// promotion, and capturing the role that stands on `to`.
    pub open spec fn move_for(self, from: int, to: int) -> Move {
        Move {
            from: Square::of(from),
            to: Square::of(to),
            promotion: None,
            capture: self.role_at(to),
        }
    }

    /// The moves of `kind` among the pairs of squares numbered from `a` up
    /// to, not including, `b`, in the order of their numbers: by the square
    /// they leave, then by the square they land on.
    pub open spec fn listed(self, kind: Kind, a: int, b: int) -> Seq<Move>
        decreases b - a,
    {
        if b <= a {
            Seq::empty()
        } else {
            let before = self.listed(kind, a, b - 1);
            if self.allows_pair(kind, b - 1) {
                before.push(self.move_for((b - 1) / 64, (b - 1) % 64))
            } else {
                before
            }
        }
    }

    /// All moves of `kind`.
    pub open spec fn moves_of(self, kind: Kind) -> Seq<Move> {
        self.listed(kind, 0, 4096)
    }

    /// The pseudo-legal moves in the order of generation: pawn pushes,
    /// double pushes, captures towards the h-file, captures towards the
    /// a-file, then the moves of the knights, the king, the rooks, the
    /// bishops and the queens.
    pub open spec fn pseudolegal_moves(self) -> Seq<Move> {
        self.moves_of(Kind::Push) + self.moves_of(Kind::DoublePush) + self.moves_of(
            Kind::CaptureEast,
        ) + self.moves_of(Kind::CaptureWest) + self.moves_of(Kind::Knight) + self.moves_of(
            Kind::King,
        ) + self.moves_of(Kind::Rook) + self.moves_of(Kind::Bishop) + self.moves_of(Kind::Queen)
    }

    /// Whether `m` is a pseudo-legal move: a move of some kind, recorded as
    /// move generation records it.
    pub open spec fn pseudolegal(self, m: Move) -> bool {
        &&& exists|kind: Kind| self.allows(kind, m.from.idx(), m.to.idx())
        &&& m == self.move_for(m.from.idx(), m.to.idx())
    }

    /// Whether the side to move has a pseudo-legal move that takes a king.
    pub open spec fn king_can_be_taken(self) -> bool {
        exists|reply: Move| self.pseudolegal(reply) && reply.capture == Some(Role::King)
    }

    /// Whether `m` is a legal move: a pseudo-legal move after which no
    /// pseudo-legal reply takes the mover's king.
    pub open spec fn legal(self, m: Move) -> bool {
        self.pseudolegal(m) && !self.apply(m).king_can_be_taken()
    }

    /// Those of `moves`, in their order, after which no pseudo-legal reply
    /// takes a king.
    pub open spec fn keep_safe(self, moves: Seq<Move>) -> Seq<Move>
        decreases moves.len(),
    {
        if moves.len() == 0 {
            Seq::empty()
        } else {
            let before = self.keep_safe(moves.drop_last());
            if self.apply(moves.last()).king_can_be_taken() {
                before
            } else {
                before.push(moves.last())
            }
        }
    }

    /// The legal moves, in the order of generation.
    pub open spec fn legal_moves(self) -> Seq<Move> {
        self.keep_safe(self.pseudolegal_moves())
    }

    /// Where no pair of squares in a range has a move of `kind`, the range
    /// lists no move.
    pub proof fn lemma_listed_nothing(self, kind: Kind, a: int, b: int)
        requires
            forall|pair: int| a <= pair < b ==> !#[trigger] self.allows_pair(kind, pair),
        ensures
            self.listed(kind, a, b) == Seq::<Move>::empty(),
        decreases b - a,
    {
        if a < b {
            self.lemma_listed_nothing(kind, a, b - 1);
        }
    }

    /// The moves of a range are those of its lower part, then those of its
    /// upper part.
    pub proof fn lemma_listed_split(self, kind: Kind, a: int, b: int, c: int)
        requires
            a <= b <= c,
        ensures
            self.listed(kind, a, c) == self.listed(kind, a, b) + self.listed(kind, b, c),
        decreases c - b,
    {
        if b < c {
            self.lemma_listed_split(kind, a, b, c - 1);
            let low = self.listed(kind, a, b);
            let high = self.listed(kind, b, c - 1);
            if self.allows_pair(kind, c - 1) {
                let m = self.move_for((c - 1) / 64, (c - 1) % 64);
                assert((low + high).push(m) =~= low + high.push(m));
            }
        } else {
            assert(self.listed(kind, a, b) + Seq::<Move>::empty() =~= self.listed(kind, a, b));
        }
    }

    /// A move is listed in a range exactly when it is the move of a pair of
    /// squares of that range that has a move of `kind`.
    pub proof fn lemma_listed_contains(self, kind: Kind, a: int, b: int, m: Move)
        requires
            0 <= a,
        ensures
            self.listed(kind, a, b).contains(m) <==> exists|pair: int|
                a <= pair < b && #[trigger] self.allows_pair(kind, pair) && m == self.move_for(
                    pair / 64,
                    pair % 64,
                ),
        decreases b - a,
    {
        if a < b {
            self.lemma_listed_contains(kind, a, b - 1, m);
            let before = self.listed(kind, a, b - 1);
            let last = self.move_for((b - 1) / 64, (b - 1) % 64);
            if self.allows_pair(kind, b - 1) {
                assert(before.push(last).contains(m) <==> before.contains(m) || m == last) by {
                    if before.contains(m) {
                        let i = choose|i: int| 0 <= i < before.len() && before[i] == m;
                        assert(before.push(last)[i] == m);
                    }
                    if m == last {
                        assert(before.push(last)[before.len() as int] == m);
                    }
                }
            }
            if self.listed(kind, a, b).contains(m) {
                if before.contains(m) {
                    let pair = choose|pair: int|
                        a <= pair < b - 1 && #[trigger] self.allows_pair(kind, pair) && m
                            == self.move_for(pair / 64, pair % 64);
                    assert(a <= pair < b && self.allows_pair(kind, pair));
                } else {
                    assert(self.allows_pair(kind, b - 1) && m == last);
                }
            }
            if exists|pair: int|
                a <= pair < b && #[trigger] self.allows_pair(kind, pair) && m == self.move_for(
                    pair / 64,
                    pair % 64,
                ) {
                let pair = choose|pair: int|
                    a <= pair < b && #[trigger] self.allows_pair(kind, pair) && m == self.move_for(
                        pair / 64,
                        pair % 64,
                    );
                if pair < b - 1 {
                    assert(before.contains(m));
                }
            }
        }
    }

    /// The moves of a kind are exactly the moves that the kind allows,
    /// recorded as move generation records them.
    pub proof fn lemma_moves_of_kind(self, kind: Kind, m: Move)
        ensures
            self.moves_of(kind).contains(m) <==> self.allows(kind, m.from.idx(), m.to.idx()) && m
                == self.move_for(m.from.idx(), m.to.idx()),
    {
        self.lemma_listed_contains(kind, 0, 4096, m);
        Square::lemma_of_idx_all();
        if self.moves_of(kind).contains(m) {
            let pair = choose|pair: int|
                0 <= pair < 4096 && #[trigger] self.allows_pair(kind, pair) && m == self.move_for(
                    pair / 64,
                    pair % 64,
                );
            assert(m.from.idx() == pair / 64 && m.to.idx() == pair % 64);
        }
        if self.allows(kind, m.from.idx(), m.to.idx()) && m == self.move_for(
            m.from.idx(),
            m.to.idx(),
        ) {
            let pair = 64 * m.from.idx() + m.to.idx();
            assert(pair / 64 == m.from.idx() && pair % 64 == m.to.idx());
            assert(self.allows_pair(kind, pair));
        }
    }
}

/// A move is among the moves of two lists joined exactly when it is among
/// those of one of them.
pub proof fn lemma_joined_contains(a: Seq<Move>, b: Seq<Move>, m: Move)
    ensures
        (a + b).contains(m) <==> a.contains(m) || b.contains(m),
{
    if a.contains(m) {
        let i = choose|i: int| 0 <= i < a.len() && a[i] == m;
        assert((a + b)[i] == m);
    }
    if b.contains(m) {
        let i = choose|i: int| 0 <= i < b.len() && b[i] == m;
        assert((a + b)[a.len() + i] == m);
    }
    if (a + b).contains(m) {
        let i = choose|i: int| 0 <= i < (a + b).len() && (a + b)[i] == m;
        if i < a.len() {
            assert(a[i] == m);
        } else {
            assert(b[i - a.len()] == m);
        }
    }
}

impl Position {
    /// The generated moves are exactly the pseudo-legal moves.
    pub proof fn lemma_pseudolegal_moves_contain(self, m: Move)
        ensures
            self.pseudolegal_moves().contains(m) <==> self.pseudolegal(m),
    {
        let k0 = self.moves_of(Kind::Push);
        let k1 = self.moves_of(Kind::DoublePush);
        let k2 = self.moves_of(Kind::CaptureEast);
        let k3 = self.moves_of(Kind::CaptureWest);
        let k4 = self.moves_of(Kind::Knight);
        let k5 = self.moves_of(Kind::King);
        let k6 = self.moves_of(Kind::Rook);
        let k7 = self.moves_of(Kind::Bishop);
        let k8 = self.moves_of(Kind::Queen);
        lemma_joined_contains(k0, k1, m);
        lemma_joined_contains(k0 + k1, k2, m);
        lemma_joined_contains(k0 + k1 + k2, k3, m);
        lemma_joined_contains(k0 + k1 + k2 + k3, k4, m);
        lemma_joined_contains(k0 + k1 + k2 + k3 + k4, k5, m);
        lemma_joined_contains(k0 + k1 + k2 + k3 + k4 + k5, k6, m);
        lemma_joined_contains(k0 + k1 + k2 + k3 + k4 + k5 + k6, k7, m);
        lemma_joined_contains(k0 + k1 + k2 + k3 + k4 + k5 + k6 + k7, k8, m);
        self.lemma_moves_of_kind(Kind::Push, m);
        self.lemma_moves_of_kind(Kind::DoublePush, m);
        self.lemma_moves_of_kind(Kind::CaptureEast, m);
        self.lemma_moves_of_kind(Kind::CaptureWest, m);
        self.lemma_moves_of_kind(Kind::Knight, m);
        self.lemma_moves_of_kind(Kind::King, m);
        self.lemma_moves_of_kind(Kind::Rook, m);
        self.lemma_moves_of_kind(Kind::Bishop, m);
        self.lemma_moves_of_kind(Kind::Queen, m);
        if self.pseudolegal(m) {
            let kind = choose|kind: Kind| self.allows(kind, m.from.idx(), m.to.idx());
            assert(self.moves_of(kind).contains(m));
        }
    }

    /// A pseudo-legal move leaves a square that holds a piece of the mover,
    /// lands on another square that holds none, and promotes nothing.
    pub proof fn lemma_pseudolegal_is_proper(self, m: Move)
        requires
            self.pseudolegal(m),
        ensures
            self.own(m.from.idx()),
            0 <= m.to.idx() < 64,
            !self.own(m.to.idx()),
            m.from.idx() != m.to.idx(),
            m.promotion is None,
            m.capture == self.role_at(m.to.idx()),
    {
    }

    /// Taking back a pseudo-legal move gives the position before it.
    pub proof fn lemma_revert_undoes_apply(self, m: Move)
        requires
            self.squares.len() == 64,
            self.pseudolegal(m),
        ensures
            self.apply(m).revert(m, self.role_at(m.to.idx())) == self,
    {
        self.lemma_pseudolegal_is_proper(m);
        let back = self.apply(m).revert(m, self.role_at(m.to.idx()));
        assert(back.squares =~= self.squares);
    }

    /// Every move that `keep_safe` keeps is one of the moves it was given,
    /// and it keeps exactly those after which no king can be taken.
    pub proof fn lemma_keep_safe_contains(self, moves: Seq<Move>, m: Move)
        ensures
            self.keep_safe(moves).contains(m) <==> moves.contains(m) && !self.apply(
                m,
            ).king_can_be_taken(),
        decreases moves.len(),
    {
        if moves.len() > 0 {
            let before = moves.drop_last();
            let last = moves.last();
            self.lemma_keep_safe_contains(before, m);
            assert(moves =~= before.push(last));
            lemma_joined_contains(before, seq![last], m);
            assert(before + seq![last] =~= before.push(last));
            assert(seq![last].contains(m) <==> m == last) by {
                if m == last {
                    assert(seq![last][0] == m);
                }
            }
            if !self.apply(last).king_can_be_taken() {
                lemma_joined_contains(self.keep_safe(before), seq![last], m);
                assert(self.keep_safe(before) + seq![last] =~= self.keep_safe(before).push(last));
            }
        }
    }

    /// The legality filter accepts a pseudo-legal move exactly when no
    /// pseudo-legal reply to it takes the mover's king: of the two, one and
    /// only one holds.
    pub proof fn lemma_legal_or_king_taken(self, m: Move)
        requires
            self.pseudolegal_moves().contains(m),
        ensures
            self.legal_moves().contains(m) != (exists|reply: Move|
                self.apply(m).pseudolegal(reply) && reply.capture == Some(Role::King)),
            self.legal_moves().contains(m) <==> self.legal(m),
    {
        self.lemma_keep_safe_contains(self.pseudolegal_moves(), m);
        self.lemma_pseudolegal_moves_contain(m);
    }

    /// A pawn capture lands on a neighbouring file, one rank forward: it
    /// never wraps around an edge of the board.
    pub proof fn lemma_pawn_captures_stay_near(self, m: Move)
        requires
            self.moves_of(Kind::CaptureEast).contains(m) || self.moves_of(
                Kind::CaptureWest,
            ).contains(m),
        ensures
            0 <= m.from.idx() < 64,
            0 <= m.to.idx() < 64,
            file_of(m.to.idx()) - file_of(m.from.idx()) == 1 || file_of(m.to.idx()) - file_of(
                m.from.idx(),
            ) == -1,
            rank_of(m.to.idx()) - rank_of(m.from.idx()) == forward(self.to_move),
    {
        self.lemma_moves_of_kind(Kind::CaptureEast, m);
        self.lemma_moves_of_kind(Kind::CaptureWest, m);
    }
}

/// Making a legal move and taking it back leaves the board as it was, bit
/// for bit: every bitboard and the side to move.
pub proof fn lemma_undo_restores_board(before: Board, between: Board, after: Board, m: Move)
    requires
        before.wf(),
        before@.legal(m),
        between.wf(),
        between@ == before@.apply(m),
        after.wf(),
        after@ == between@.revert(m, before@.role_at(m.to.idx())),
    ensures
        after == before,
{
    before@.lemma_revert_undoes_apply(m);
    Board::lemma_view_determines_board(after, before);
}

impl Board {
    /// On a well-formed board the squares of `bb_all` are the squares on
    /// which the position shows a piece.
    proof fn lemma_blockers(self, occ: u64)
        requires
            self.wf(),
            forall|sq: int| holds(occ, sq) <==> self@.occupied(sq),
        ensures
            members(occ) == self@.occupied_set(),
    {
        assert(members(occ) =~= self@.occupied_set());
    }

    /// Appends the moves from `from` to each square of `targets`, lowest
    /// square first.
    fn push_targets(
        &self,
        Ghost(kind): Ghost<Kind>,
        from: Square,
        targets: u64,
        move_list: &mut AvailableMoves,
    )
        requires
            forall|to: int| holds(targets, to) <==> self@.allows(kind, from.idx(), to),
        ensures
            final(move_list)@ == old(move_list)@ + self@.listed(
                kind,
                64 * from.idx(),
                64 * from.idx() + 64,
            ),
    {
        proof {
            use_type_invariant(self);
        }
        broadcast use group_holds;
        let ghost base = move_list@;
        let ghost row = 64 * from.idx();
        let ghost mut done: int = 0;
        let mut rest = targets;
        let origin = from.i();
        assert(base + self@.listed(kind, row, row) =~= base);
        while rest != 0
            invariant
                self.wf(),
                0 <= done <= 64,
                row == 64 * from.idx(),
                0 <= from.idx() < 64,
                forall|to: int| holds(rest, to) <==> holds(targets, to) && to >= done,
                forall|to: int| holds(targets, to) <==> self@.allows(kind, from.idx(), to),
                move_list@ == base + self@.listed(kind, row, row + done),
            decreases 64 - done,
        {
            let to = lowest(rest);
            let ghost t = to.idx();
            rest = without(rest, to);
            let m = Move { from, to, promotion: None, capture: self.role_at(to) };
            let ghost before = move_list@;
            move_list.push(m);
            proof {
                Square::lemma_of_idx_all();
                assert forall|pair: int| row + done <= pair < row + t implies !#[trigger] self@.allows_pair(
                    kind,
                    pair,
                ) by {
                    assert(pair / 64 == from.idx() && pair % 64 == pair - row);
                    assert(!holds(targets, pair - row));
                }
                self@.lemma_listed_nothing(kind, row + done, row + t);
                self@.lemma_listed_split(kind, row, row + done, row + t);
                assert(self@.listed(kind, row, row + t) =~= self@.listed(kind, row, row + done));
                assert((row + t) / 64 == from.idx() && (row + t) % 64 == t);
                assert(self@.allows_pair(kind, row + t));
                assert(m == self@.move_for(from.idx(), t));
                assert(self@.listed(kind, row, row + t + 1) == self@.listed(kind, row, row + t).push(
                    m,
                ));
                assert(move_list@ =~= base + self@.listed(kind, row, row + t + 1));
                done = t + 1;
            }
        }
        proof {
            assert forall|pair: int| row + done <= pair < row + 64 implies !#[trigger] self@.allows_pair(
                kind,
                pair,
            ) by {
                assert(pair / 64 == from.idx() && pair % 64 == pair - row);
                assert(!holds(rest, pair - row));
            }
            self@.lemma_listed_nothing(kind, row + done, row + 64);
            self@.lemma_listed_split(kind, row, row + done, row + 64);
            assert(move_list@ =~= base + self@.listed(kind, row, row + 64));
        }
    }

    /// Appends the pawn moves of `kind`: one to each square of `targets`,
    /// from the square `delta` numbers below it, lowest square first.
    fn push_pawn_moves(
        &self,
        Ghost(kind): Ghost<Kind>,
        targets: u64,
        delta: i32,
        move_list: &mut AvailableMoves,
    )
        requires
            -64 < delta < 64,
            forall|from: int, to: int|
                self@.allows(kind, from, to) <==> holds(targets, to) && from == to - delta && 0
                    <= from < 64,
            forall|to: int| holds(targets, to) ==> 0 <= to - delta < 64,
        ensures
            final(move_list)@ == old(move_list)@ + self@.moves_of(kind),
    {
        proof {
            use_type_invariant(self);
        }
        broadcast use group_holds;
        let ghost base = move_list@;
        let ghost mut done: int = 0;
        let mut rest = targets;
        assert(base + self@.listed(kind, 0, 0) =~= base);
        while rest != 0
            invariant
                self.wf(),
                -64 < delta < 64,
                0 <= done <= 4096,
                forall|to: int| holds(rest, to) <==> holds(targets, to) && 65 * to - 64 * delta >= done,
                forall|from: int, to: int|
                    self@.allows(kind, from, to) <==> holds(targets, to) && from == to - delta && 0
                        <= from < 64,
                forall|to: int| holds(targets, to) ==> 0 <= to - delta < 64,
                move_list@ == base + self@.listed(kind, 0, done),
            decreases 4096 - done,
        {
            let to = lowest(rest);
            let ghost t = to.idx();
            rest = without(rest, to);
            let from = match to.shift(-delta) {
                Some(sq) => sq,
                None => {
                    proof {
                        assert(holds(targets, t));
                        assert(false);
                    }
                    to
                },
            };
            let m = Move { from, to, promotion: None, capture: self.role_at(to) };
            move_list.push(m);
            proof {
                Square::lemma_of_idx_all();
                let pair = 64 * from.idx() + t;
                assert(pair == 65 * t - 64 * delta);
                assert forall|other: int| done <= other < pair implies !#[trigger] self@.allows_pair(
                    kind,
                    other,
                ) by {
                    let f = other / 64;
                    let o = other % 64;
                    if self@.allows(kind, f, o) {
                        assert(holds(targets, o) && f == o - delta);
                        assert(other == 65 * o - 64 * delta);
                        assert(holds(rest, o) || o == t);
                    }
                }
                self@.lemma_listed_nothing(kind, done, pair);
                self@.lemma_listed_split(kind, 0, done, pair);
                assert(self@.listed(kind, 0, pair) =~= self@.listed(kind, 0, done));
                assert(pair / 64 == from.idx() && pair % 64 == t);
                assert(self@.allows_pair(kind, pair));
                assert(m == self@.move_for(from.idx(), t));
                assert(self@.listed(kind, 0, pair + 1) == self@.listed(kind, 0, pair).push(m));
                assert(move_list@ =~= base + self@.listed(kind, 0, pair + 1));
                done = pair + 1;
            }
        }
        proof {
            assert forall|other: int| done <= other < 4096 implies !#[trigger] self@.allows_pair(
                kind,
                other,
            ) by {
                let f = other / 64;
                let o = other % 64;
                if self@.allows(kind, f, o) {
                    assert(holds(targets, o) && f == o - delta);
                    assert(other == 65 * o - 64 * delta);
                    assert(holds(rest, o));
                }
            }
            self@.lemma_listed_nothing(kind, done, 4096);
            self@.lemma_listed_split(kind, 0, done, 4096);
            assert(move_list@ =~= base + self@.listed(kind, 0, 4096));
        }
    }

    /// Appends the pawn moves: pushes, double pushes, captures towards the
    /// h-file and captures towards the a-file.
    ///
    /// Each set of destinations is the set of pawns moved as a whole, cut
    /// down to the squares that are empty, or that hold an enemy. A pawn
    /// that would leave the board by an edge is dropped before it is moved,
    /// so the square that a move leaves is always on the board.
    pub fn gen_pawns(&self, move_list: &mut AvailableMoves)
        ensures
            final(move_list)@ == old(move_list)@ + self@.moves_of(Kind::Push) + self@.moves_of(
                Kind::DoublePush,
            ) + self@.moves_of(Kind::CaptureEast) + self@.moves_of(Kind::CaptureWest),
    {
        proof {
            use_type_invariant(self);
        }
        broadcast use group_holds;
        let color = self.color_to_move();
        let pawns = self.attackers_with_role(Role::Pawn);
        let empty = !self.bb_all();
        let enemies = self.defenders();
        let (step, third): (i8, u8) = match color {
            Color::White => (1, 2),
            Color::Black => (-1, 5),
        };
        let single_pushes = step_all(pawns, 0, step) & empty;
        let double_pushes = step_all(single_pushes & rank_bb(third), 0, step) & empty;
        let captures_east = step_all(pawns, 1, step) & enemies;
        let captures_west = step_all(pawns, -1, step) & enemies;
        let ghost pos = self@;
        assert(step == forward(pos.to_move));
        assert(third == home_rank(pos.to_move) + step);
        assert forall|from: int, to: int|
            pos.allows(Kind::Push, from, to) <==> holds(single_pushes, to) && from == to - step
                && 0 <= from < 64 by {
            if 0 <= to < 64 {
                assert(square_at(file_of(to), rank_of(to) - step) == to - step);
            }
        }
        assert forall|from: int, to: int|
            pos.allows(Kind::DoublePush, from, to) <==> holds(double_pushes, to) && from == to - 2
                * step && 0 <= from < 64 by {
            if 0 <= to < 64 {
                let mid = to - step;
                assert(square_at(file_of(to), rank_of(to) - step) == mid);
                if 0 <= mid < 64 {
                    assert(square_at(file_of(mid), rank_of(mid) - step) == mid - step);
                }
                if 0 <= from < 64 {
                    assert(square_at(file_of(from), rank_of(from) + step) == from + step);
                }
            }
        }
        assert forall|from: int, to: int|
            pos.allows(Kind::CaptureEast, from, to) <==> holds(captures_east, to) && from == to - (
            8 + step) && 0 <= from < 64 by {
            if 0 <= to < 64 {
                assert(square_at(file_of(to) - 1, rank_of(to) - step) == to - (8 + step));
            }
        }
        assert forall|from: int, to: int|
            pos.allows(Kind::CaptureWest, from, to) <==> holds(captures_west, to) && from == to - (
            step - 8) && 0 <= from < 64 by {
            if 0 <= to < 64 {
                assert(square_at(file_of(to) + 1, rank_of(to) - step) == to - (step - 8));
            }
        }
        let ghost base = move_list@;
        self.push_pawn_moves(Ghost(Kind::Push), single_pushes, step as i32, move_list);
        self.push_pawn_moves(Ghost(Kind::DoublePush), double_pushes, 2 * (step as i32), move_list);
        self.push_pawn_moves(Ghost(Kind::CaptureEast), captures_east, 8 + step as i32, move_list);
        self.push_pawn_moves(Ghost(Kind::CaptureWest), captures_west, step as i32 - 8, move_list);
    }

    /// Appends the moves of the pieces of one kind that is not a pawn's:
    /// for each such piece, lowest square first, its attack set without the
    /// squares that the mover's own pieces hold.
    fn gen_piece(&self, tables: &AttackTables, kind: Kind, move_list: &mut AvailableMoves)
        requires
            kind == Kind::Knight || kind == Kind::King || kind == Kind::Rook || kind
                == Kind::Bishop || kind == Kind::Queen,
        ensures
            final(move_list)@ == old(move_list)@ + self@.moves_of(kind),
    {
        proof {
            use_type_invariant(self);
        }
        broadcast use group_holds;
        let role = match kind {
            Kind::Knight => Role::Knight,
            Kind::King => Role::King,
            Kind::Rook => Role::Rook,
            Kind::Bishop => Role::Bishop,
            _ => Role::Queen,
        };
        let pieces = self.attackers_with_role(role);
        let own = self.attackers();
        let occ = self.bb_all();
        let ghost pos = self@;
        let ghost base = move_list@;
        let ghost mut done: int = 0;
        let mut rest = pieces;
        proof {
            self.lemma_blockers(occ);
            assert(base + pos.listed(kind, 0, 0) =~= base);
        }
        while rest != 0
            invariant
                self.wf(),
                pos == self@,
                0 <= done <= 64,
                kind == Kind::Knight || kind == Kind::King || kind == Kind::Rook || kind
                    == Kind::Bishop || kind == Kind::Queen,
                role == (match kind {
                    Kind::Knight => Role::Knight,
                    Kind::King => Role::King,
                    Kind::Rook => Role::Rook,
                    Kind::Bishop => Role::Bishop,
                    _ => Role::Queen,
                }),
                forall|sq: int| holds(pieces, sq) <==> pos.own_role(role, sq),
                forall|sq: int| holds(own, sq) <==> pos.own(sq),
                members(occ) == pos.occupied_set(),
                forall|sq: int| holds(rest, sq) <==> holds(pieces, sq) && sq >= done,
                move_list@ == base + pos.listed(kind, 0, 64 * done),
            decreases 64 - done,
        {
            let from = lowest(rest);
            let ghost f = from.idx();
            rest = without(rest, from);
            let reach = match kind {
                Kind::Knight => tables.knight_attacks(from),
                Kind::King => tables.king_attacks(from),
                Kind::Rook => tables.rook_attacks(from, occ),
                Kind::Bishop => tables.bishop_attacks(from, occ),
                _ => tables.rook_attacks(from, occ) | tables.bishop_attacks(from, occ),
            };
            let targets = reach & !own;
            proof {
                broadcast use group_holds;
                assert(holds(pieces, f));
                assert(pos.own_role(role, f));
                assert forall|to: int| holds(targets, to) <==> pos.allows(kind, f, to) by {
                    assert(holds(targets, to) <==> holds(reach, to) && !holds(own, to));
                    assert(holds(own, to) <==> pos.own(to));
                    let blockers = pos.occupied_set();
                    match kind {
                        Kind::Knight => {
                            assert(holds(reach, to) <==> knight_reach(f, to));
                        },
                        Kind::King => {
                            assert(holds(reach, to) <==> king_reach(f, to));
                        },
                        Kind::Rook => {
                            assert(holds(reach, to) <==> slide_reach(Line::File, f, to, occ)
                                || slide_reach(Line::Rank, f, to, occ));
                        },
                        Kind::Bishop => {
                            assert(holds(reach, to) <==> slide_reach(Line::Diagonal, f, to, occ)
                                || slide_reach(Line::AntiDiagonal, f, to, occ));
                        },
                        _ => {
                            assert(holds(reach, to) <==> slide_reach(Line::File, f, to, occ)
                                || slide_reach(Line::Rank, f, to, occ) || slide_reach(
                                Line::Diagonal,
                                f,
                                to,
                                occ,
                            ) || slide_reach(Line::AntiDiagonal, f, to, occ));
                        },
                    }
                }
                assert forall|pair: int| 64 * done <= pair < 64 * f implies !#[trigger] pos.allows_pair(
                    kind,
                    pair,
                ) by {
                    assert(done <= pair / 64 < f);
                    assert(!holds(pieces, pair / 64));
                }
                pos.lemma_listed_nothing(kind, 64 * done, 64 * f);
                pos.lemma_listed_split(kind, 0, 64 * done, 64 * f);
                assert(pos.listed(kind, 0, 64 * f) =~= pos.listed(kind, 0, 64 * done));
            }
            self.push_targets(Ghost(kind), from, targets, move_list);
            proof {
                pos.lemma_listed_split(kind, 0, 64 * f, 64 * f + 64);
                assert(move_list@ =~= base + pos.listed(kind, 0, 64 * (f + 1)));
                done = f + 1;
            }
        }
        proof {
            assert forall|pair: int| 64 * done <= pair < 4096 implies !#[trigger] pos.allows_pair(
                kind,
                pair,
            ) by {
                assert(done <= pair / 64 < 64);
                assert(!holds(rest, pair / 64));
            }
            pos.lemma_listed_nothing(kind, 64 * done, 4096);
            pos.lemma_listed_split(kind, 0, 64 * done, 4096);
            assert(move_list@ =~= base + pos.listed(kind, 0, 4096));
        }
    }

    /// Appends the moves of the knights.
    pub fn gen_knights(&self, tables: &AttackTables, move_list: &mut AvailableMoves)
        ensures
            final(move_list)@ == old(move_list)@ + self@.moves_of(Kind::Knight),
    {
        proof {
            use_type_invariant(self);
        }
        self.gen_piece(tables, Kind::Knight, move_list);
    }

    /// Appends the moves of the king.
    pub fn gen_king(&self, tables: &AttackTables, move_list: &mut AvailableMoves)
        ensures
            final(move_list)@ == old(move_list)@ + self@.moves_of(Kind::King),
    {
        proof {
            use_type_invariant(self);
        }
        self.gen_piece(tables, Kind::King, move_list);
    }

    /// Appends the moves of the rooks, then of the bishops, then of the
    /// queens.
    pub fn gen_sliding_pieces(&self, tables: &AttackTables, move_list: &mut AvailableMoves)
        ensures
            final(move_list)@ == old(move_list)@ + self@.moves_of(Kind::Rook) + self@.moves_of(
                Kind::Bishop,
            ) + self@.moves_of(Kind::Queen),
    {
        proof {
            use_type_invariant(self);
        }
        self.gen_piece(tables, Kind::Rook, move_list);
        self.gen_piece(tables, Kind::Bishop, move_list);
        self.gen_piece(tables, Kind::Queen, move_list);
    }

    /// Appends every pseudo-legal move of the side to move: every move that
    /// the pieces can make, whether or not it leaves the mover's king to be
    /// taken. The board is left as it was.
    pub fn list_pseudolegals(&mut self, tables: &AttackTables, move_list: &mut AvailableMoves)
        ensures
            *final(self) == *old(self),
            final(move_list)@ == old(move_list)@ + old(self)@.pseudolegal_moves(),
    {
        proof {
            use_type_invariant(&*self);
        }
        let ghost base = move_list@;
        let ghost pos = self@;
        self.gen_pawns(move_list);
        self.gen_knights(tables, move_list);
        self.gen_king(tables, move_list);
        self.gen_sliding_pieces(tables, move_list);
        proof {
            assert(move_list@ =~= base + pos.pseudolegal_moves());
        }
    }

    /// Appends every legal move of the side to move, in the order of
    /// generation. The board is left as it was.
    ///
    /// Each pseudo-legal move is tried in turn: it is made, the replies to
    /// it are generated and searched for one that takes a king, and it is
    /// taken back, whatever the search found.
    pub fn list_legals(&mut self, tables: &AttackTables, move_list: &mut AvailableMoves)
        ensures
            *final(self) == *old(self),
            final(move_list)@ == old(move_list)@ + old(self)@.legal_moves(),
    {
        proof {
            use_type_invariant(&*self);
        }
        let ghost start = *self;
        let ghost pos = self@;
        let ghost base = move_list@;
        let mut pseudolegals = AvailableMoves::default();
        let mut replies = AvailableMoves::default();
        self.list_pseudolegals(tables, &mut pseudolegals);
        let count = pseudolegals.len();
        let mut i: usize = 0;
        proof {
            assert(Seq::<Move>::empty() + pos.pseudolegal_moves() =~= pos.pseudolegal_moves());
            assert(pseudolegals@.take(0) =~= Seq::<Move>::empty());
            assert(base + pos.keep_safe(pseudolegals@.take(0)) =~= base);
        }
        while i < count
            invariant
                *self == start,
                start.wf(),
                pos == start@,
                pseudolegals@ == pos.pseudolegal_moves(),
                count == pseudolegals@.len(),
                0 <= i <= count,
                move_list@ == base + pos.keep_safe(pseudolegals@.take(i as int)),
            decreases count - i,
        {
            let m = pseudolegals.get(i);
            proof {
                assert(pseudolegals@.contains(m));
                pos.lemma_pseudolegal_moves_contain(m);
                pos.lemma_pseudolegal_is_proper(m);
            }
            let captured = self.do_move(m);
            replies.clear();
            self.list_pseudolegals(tables, &mut replies);
            let ghost tried = self@;
            let exposed = takes_king(&replies);
            proof {
                assert(Seq::<Move>::empty() + tried.pseudolegal_moves() =~= tried.pseudolegal_moves());
                if exposed {
                    let j = choose|j: int|
                        0 <= j < replies@.len() && replies@[j].capture == Some(Role::King);
                    assert(replies@.contains(replies@[j]));
                    tried.lemma_pseudolegal_moves_contain(replies@[j]);
                }
                if tried.king_can_be_taken() {
                    let reply = choose|reply: Move|
                        tried.pseudolegal(reply) && reply.capture == Some(Role::King);
                    tried.lemma_pseudolegal_moves_contain(reply);
                }
                assert(exposed == pos.apply(m).king_can_be_taken());
            }
            self.undo_move(m, captured);
            proof {
                pos.lemma_revert_undoes_apply(m);
                Board::lemma_view_determines_board(*self, start);
            }
            if !exposed {
                move_list.push(m);
            }
            proof {
                let upto = pseudolegals@.take(i as int + 1);
                assert(upto.drop_last() =~= pseudolegals@.take(i as int));
                assert(upto.last() == m);
                assert(move_list@ =~= base + pos.keep_safe(upto));
            }
            i = i + 1;
        }
        proof {
            assert(pseudolegals@.take(count as int) =~= pseudolegals@);
        }
    }
}

/// Whether one of the moves takes a king.
pub fn takes_king(moves: &AvailableMoves) -> (found: bool)
    ensures
        found == exists|j: int| 0 <= j < moves@.len() && moves@[j].capture == Some(Role::King),
{
    let count = moves.len();
    let mut i: usize = 0;
    while i < count
        invariant
            count == moves@.len(),
            0 <= i <= count,
            forall|j: int| 0 <= j < i ==> moves@[j].capture != Some(Role::King),
        decreases count - i,
    {
        if moves.get(i).capture == Some(Role::King) {
            return true;
        }
        i = i + 1;
    }
    false
}

} // verus!
