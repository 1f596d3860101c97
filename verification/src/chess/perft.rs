//! Perft: counting the positions reached after a given number of plies, to
//! hold move generation against known counts.
use crate::chess::board::{Board, Position};
use crate::chess::moves::{move_text, AvailableMoves, Move};
use crate::chess::tables::AttackTables;
use crate::text::{push_radix, push_text, radix_digits};
use vstd::prelude::*;

verus! {

/// `n`, or the largest `usize` where `n` is larger.
pub open spec fn capped(n: nat) -> usize {
    if n <= usize::MAX {
        n as usize
    } else {
        usize::MAX
    }
}

impl Position {
    /// The number of ways to play `depth` plies of legal moves from the
    /// position. Playing no ply at all is one way.
    pub open spec fn perft_count(self, depth: nat) -> nat
        decreases depth, 0nat,
    {
        if depth == 0 {
            1
        } else {
            self.perft_sum(self.legal_moves(), (depth - 1) as nat)
        }
    }

    /// The number of ways to play one of `moves` and then `depth` plies of
    /// legal moves.
    pub open spec fn perft_sum(self, moves: Seq<Move>, depth: nat) -> nat
        decreases depth, 1 + moves.len(),
    {
        if moves.len() == 0 {
            0
        } else {
            self.perft_sum(moves.drop_last(), depth) + self.apply(moves.last()).perft_count(depth)
        }
    }
}

/// What perft found: the total, and the share of each move at the root.
#[derive(Clone)]
pub struct Report {
    /// The number of plies that were played.
    pub depth: usize,
    /// The number of ways to play them, capped at the largest `usize`.
    pub nodes_count: usize,
    /// Each legal move at the root, in the order of generation, with the
    /// number of ways to go on after it, capped likewise.
    pub overview: Vec<(Move, usize)>,
}

/// The lines of an overview: for each entry the text of the move, a colon
/// and a space, the count in decimal, and a line feed.
pub open spec fn overview_text(entries: Seq<(Move, usize)>) -> Seq<char>
    decreases entries.len(),
{
    if entries.len() == 0 {
        Seq::empty()
    } else {
        overview_text(entries.drop_last()) + move_text(entries.last().0) + ": "@ + radix_digits(
            entries.last().1 as nat,
            10,
        ) + "\n"@
    }
}

impl Report {
    /// The report as text: a line with the total, a line that opens the
    /// overview, one line for each move at the root, and a closing line
    /// without a line feed.
    pub open spec fn text(self) -> Seq<char> {
        "N."@ + radix_digits(self.nodes_count as nat, 10) + " total moves.\n"@
            + "--- Overview by branch:\n"@ + overview_text(self.overview@) + "---"@
    }

    /// The report as text.
    pub fn to_text(&self) -> (s: String)
        ensures
            s@ == self.text(),
    {
        let mut s = String::new();
        push_text(&mut s, "N.");
        push_radix(&mut s, self.nodes_count as u64, 10);
        push_text(&mut s, " total moves.\n");
        push_text(&mut s, "--- Overview by branch:\n");
        let ghost head = s@;
        let count = self.overview.len();
        let mut i: usize = 0;
        proof {
            assert(self.overview@.take(0) =~= Seq::<(Move, usize)>::empty());
            assert(head + overview_text(self.overview@.take(0)) =~= head);
        }
        while i < count
            invariant
                count == self.overview@.len(),
                0 <= i <= count,
                s@ == head + overview_text(self.overview@.take(i as int)),
            decreases count - i,
        {
            let ghost before = s@;
            let entry = self.overview[i];
            let name = entry.0.to_text();
            push_text(&mut s, name.as_str());
            push_text(&mut s, ": ");
            push_radix(&mut s, entry.1 as u64, 10);
            push_text(&mut s, "\n");
            proof {
                let upto = self.overview@.take(i as int + 1);
                assert(upto.drop_last() =~= self.overview@.take(i as int));
                assert(upto.last() == entry);
                assert(s@ =~= head + overview_text(upto));
            }
            i = i + 1;
        }
        proof {
            assert(self.overview@.take(count as int) =~= self.overview@);
        }
        push_text(&mut s, "---");
        proof {
            assert(s@ =~= self.text());
        }
        s
    }

    /// Whether the report is that of perft to `depth` plies from `pos`.
    pub open spec fn is_perft_of(self, pos: Position, depth: nat) -> bool {
        let moves = if depth == 0 {
            Seq::<Move>::empty()
        } else {
            pos.legal_moves()
        };
        &&& self.depth == depth
        &&& self.nodes_count == capped(pos.perft_count(depth))
        &&& self.overview@.len() == moves.len()
        &&& forall|i: int|
            0 <= i < moves.len() ==> (#[trigger] self.overview@[i]).0 == moves[i]
                && self.overview@[i].1 == capped(
                pos.apply(moves[i]).perft_count((depth - 1) as nat),
            )
    }

    /// A report for `depth` plies that has counted nothing yet.
    pub fn new(depth: usize) -> (report: Report)
        ensures
            report.depth == depth,
            report.nodes_count == 0,
            report.overview@.len() == 0,
    {
        Report { depth, nodes_count: 0, overview: Vec::new() }
    }
}

impl Board {
    /// Counts the ways to play `depth` plies of legal moves from the
    /// position, and reports the total with the share of each first move.
    /// The board is left as it was.
    ///
    /// Each legal move is made, counted one ply less deep and taken back
    /// before the next one is made.
    pub fn perft(&mut self, tables: &AttackTables, depth: usize) -> (report: Report)
        ensures
            *final(self) == *old(self),
            report.is_perft_of(old(self)@, depth as nat),
        decreases depth,
    {
        proof {
            use_type_invariant(&*self);
        }
        let mut report = Report::new(depth);
        if depth == 0 {
            report.nodes_count = 1;
            return report;
        }
        let ghost start = *self;
        let ghost pos = self@;
        let ghost below = (depth - 1) as nat;
        let mut moves = AvailableMoves::default();
        self.list_legals(tables, &mut moves);
        let count = moves.len();
        let mut i: usize = 0;
        proof {
            assert(Seq::<Move>::empty() + pos.legal_moves() =~= pos.legal_moves());
            assert(moves@.take(0) =~= Seq::<Move>::empty());
        }
        while i < count
            invariant
                *self == start,
                start.wf(),
                pos == start@,
                depth >= 1,
                below == depth - 1,
                moves@ == pos.legal_moves(),
                count == moves@.len(),
                0 <= i <= count,
                report.depth == depth,
                report.nodes_count == capped(pos.perft_sum(moves@.take(i as int), below)),
                report.overview@.len() == i,
                forall|j: int|
                    0 <= j < i ==> (#[trigger] report.overview@[j]).0 == moves@[j]
                        && report.overview@[j].1 == capped(
                        pos.apply(moves@[j]).perft_count(below),
                    ),
            decreases count - i,
        {
            let m = moves.get(i);
            proof {
                assert(moves@.contains(m));
                pos.lemma_keep_safe_contains(pos.pseudolegal_moves(), m);
                pos.lemma_pseudolegal_moves_contain(m);
            }
            let capture = self.do_move(m);
            let nodes = self.perft(tables, depth - 1).nodes_count;
            report.nodes_count = report.nodes_count.saturating_add(nodes);
            report.overview.push((m, nodes));
            self.undo_move(m, capture);
            proof {
                pos.lemma_revert_undoes_apply(m);
                Board::lemma_view_determines_board(*self, start);
                let upto = moves@.take(i as int + 1);
                assert(upto.drop_last() =~= moves@.take(i as int));
                assert(upto.last() == m);
            }
            i = i + 1;
        }
        proof {
            assert(moves@.take(count as int) =~= moves@);
        }
        report
    }
}

} // verus!
