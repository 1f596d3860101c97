use zorro::chess::mover::takes_king;
use zorro::chess::{AttackTables, AvailableMoves, Board, Color, Move, Piece, Role, Square};

fn sq(name: &str) -> Square {
    Square::from_str(name).unwrap()
}

fn put(board: &mut Board, name: &str, color: Color, role: Role) {
    board.set_at_square(sq(name), Some(Piece { color, role }));
}

fn pseudolegals(board: &Board, tables: &AttackTables) -> Vec<Move> {
    let mut copy = *board;
    let mut moves = AvailableMoves::default();
    copy.list_pseudolegals(tables, &mut moves);
    assert_eq!(copy, *board);
    moves.into_vec()
}

fn legals(board: &Board, tables: &AttackTables) -> Vec<Move> {
    let mut copy = *board;
    let mut moves = AvailableMoves::default();
    copy.list_legals(tables, &mut moves);
    assert_eq!(copy, *board);
    moves.into_vec()
}

fn texts(moves: &[Move]) -> Vec<String> {
    moves.iter().map(|m| m.to_text()).collect()
}

/// Of a pseudo-legal move exactly one holds: it is among the legal moves,
/// or some pseudo-legal reply to it takes a king.
fn filter_is_exact(board: &Board, tables: &AttackTables) {
    let all = pseudolegals(board, tables);
    let kept = legals(board, tables);
    let mut expected: Vec<Move> = Vec::new();
    for m in all.iter() {
        let mut after = *board;
        after.do_move(*m);
        let replies = pseudolegals(&after, tables);
        let king_taken = replies.iter().any(|r| r.capture == Some(Role::King));
        assert_ne!(kept.contains(m), king_taken);
        if !king_taken {
            expected.push(*m);
        }
    }
    assert_eq!(kept, expected);
}

#[test]
fn starting_position_has_twenty_moves_in_order() {
    let tables = AttackTables::new();
    let board = Board::default();
    let expected = vec![
        "a2a3", "b2b3", "c2c3", "d2d3", "e2e3", "f2f3", "g2g3", "h2h3", "a2a4", "b2b4", "c2c4",
        "d2d4", "e2e4", "f2f4", "g2g4", "h2h4", "b1a3", "b1c3", "g1f3", "g1h3",
    ];
    assert_eq!(texts(&pseudolegals(&board, &tables)), expected);
    assert_eq!(texts(&legals(&board, &tables)), expected);
    filter_is_exact(&board, &tables);
}

#[test]
fn generation_appends_to_what_the_buffer_holds() {
    let tables = AttackTables::new();
    let mut board = Board::default();
    let mut moves = AvailableMoves::default();
    let first = Move::new_garbage();
    moves.push(first);
    board.list_pseudolegals(&tables, &mut moves);
    assert_eq!(moves.len(), 21);
    assert_eq!(moves.get(0), first);
    board.list_legals(&tables, &mut moves);
    assert_eq!(moves.len(), 41);
    assert_eq!(moves.get(20).to_text(), "g1h3");
    assert_eq!(moves.get(21).to_text(), "a2a3");
}

#[test]
fn a_pinned_piece_may_not_leave_the_line() {
    let tables = AttackTables::new();
    let mut board = Board::empty(Color::White);
    put(&mut board, "e1", Color::White, Role::King);
    put(&mut board, "e2", Color::White, Role::Knight);
    put(&mut board, "e8", Color::Black, Role::Rook);
    put(&mut board, "a8", Color::Black, Role::King);
    let all = texts(&pseudolegals(&board, &tables));
    let kept = texts(&legals(&board, &tables));
    for knight_move in ["e2c1", "e2c3", "e2d4", "e2f4", "e2g3", "e2g1"] {
        assert!(all.contains(&knight_move.to_string()));
        assert!(!kept.contains(&knight_move.to_string()));
    }
    assert_eq!(kept, vec!["e1d1", "e1d2", "e1f1", "e1f2"]);
    filter_is_exact(&board, &tables);
}

#[test]
fn a_pinned_rook_may_move_along_the_pin() {
    let tables = AttackTables::new();
    let mut board = Board::empty(Color::White);
    put(&mut board, "e1", Color::White, Role::King);
    put(&mut board, "e2", Color::White, Role::Rook);
    put(&mut board, "e8", Color::Black, Role::Rook);
    put(&mut board, "a8", Color::Black, Role::King);
    let kept = texts(&legals(&board, &tables));
    assert!(kept.contains(&"e2e3".to_string()));
    assert!(kept.contains(&"e2e7".to_string()));
    assert!(kept.contains(&"e2e8".to_string()));
    assert!(!kept.contains(&"e2d2".to_string()));
    assert!(!kept.contains(&"e2a2".to_string()));
    filter_is_exact(&board, &tables);
}

#[test]
fn a_king_may_not_step_into_an_attack() {
    let tables = AttackTables::new();
    let mut board = Board::empty(Color::White);
    put(&mut board, "e1", Color::White, Role::King);
    put(&mut board, "d8", Color::Black, Role::Rook);
    put(&mut board, "h8", Color::Black, Role::King);
    let all = texts(&pseudolegals(&board, &tables));
    let kept = texts(&legals(&board, &tables));
    assert_eq!(all, vec!["e1d1", "e1d2", "e1e2", "e1f1", "e1f2"]);
    assert_eq!(kept, vec!["e1e2", "e1f1", "e1f2"]);
    filter_is_exact(&board, &tables);
}

#[test]
fn a_check_must_be_answered() {
    let tables = AttackTables::new();
    let mut board = Board::empty(Color::Black);
    put(&mut board, "e8", Color::Black, Role::King);
    put(&mut board, "a7", Color::Black, Role::Pawn);
    put(&mut board, "b4", Color::Black, Role::Bishop);
    put(&mut board, "e1", Color::White, Role::Rook);
    put(&mut board, "h1", Color::White, Role::King);
    let kept = texts(&legals(&board, &tables));
    assert_eq!(kept, vec!["e8d7", "e8d8", "e8f7", "e8f8", "b4e1", "b4e7"]);
    filter_is_exact(&board, &tables);
}

#[test]
fn a_mated_side_has_no_legal_move() {
    let tables = AttackTables::new();
    let mut board = Board::empty(Color::Black);
    put(&mut board, "h8", Color::Black, Role::King);
    put(&mut board, "g7", Color::White, Role::Queen);
    put(&mut board, "g6", Color::White, Role::King);
    assert_eq!(texts(&pseudolegals(&board, &tables)), vec!["h8g7", "h8g8", "h8h7"]);
    assert!(legals(&board, &tables).is_empty());
    let mut copy = board;
    assert_eq!(copy.perft(&tables, 1).nodes_count, 0);
    assert_eq!(copy.perft(&tables, 3).nodes_count, 0);
    filter_is_exact(&board, &tables);
}

#[test]
fn captures_record_the_captured_role() {
    let tables = AttackTables::new();
    let mut board = Board::empty(Color::White);
    put(&mut board, "d4", Color::White, Role::Queen);
    put(&mut board, "d7", Color::Black, Role::Rook);
    put(&mut board, "g7", Color::Black, Role::Knight);
    put(&mut board, "a4", Color::Black, Role::Pawn);
    put(&mut board, "d2", Color::White, Role::Pawn);
    let all = pseudolegals(&board, &tables);
    let find = |text: &str| all.iter().find(|m| m.to_text() == text).copied();
    assert_eq!(find("d4d7").unwrap().capture, Some(Role::Rook));
    assert_eq!(find("d4g7").unwrap().capture, Some(Role::Knight));
    assert_eq!(find("d4a4").unwrap().capture, Some(Role::Pawn));
    assert_eq!(find("d4d5").unwrap().capture, None);
    assert_eq!(find("d4d8"), None);
    assert_eq!(find("d4h8"), None);
    assert_eq!(find("d4d2"), None);
    assert_eq!(find("d4d1"), None);
    assert!(all.iter().all(|m| m.promotion.is_none()));
}

#[test]
fn takes_king_looks_at_every_move() {
    let mut moves = AvailableMoves::default();
    assert!(!takes_king(&moves));
    moves.push(Move { from: sq("a1"), to: sq("a2"), promotion: None, capture: Some(Role::Queen) });
    assert!(!takes_king(&moves));
    moves.push(Move { from: sq("a1"), to: sq("a3"), promotion: None, capture: Some(Role::King) });
    assert!(takes_king(&moves));
    moves.push(Move { from: sq("a1"), to: sq("a4"), promotion: None, capture: None });
    assert!(takes_king(&moves));
}

#[test]
fn pawns_push_and_capture_forward() {
    let tables = AttackTables::new();
    let mut board = Board::empty(Color::White);
    put(&mut board, "d2", Color::White, Role::Pawn);
    put(&mut board, "c3", Color::Black, Role::Knight);
    put(&mut board, "e3", Color::Black, Role::Bishop);
    put(&mut board, "d1", Color::Black, Role::Rook);
    put(&mut board, "c1", Color::Black, Role::Rook);
    assert_eq!(texts(&pseudolegals(&board, &tables)), vec!["d2d3", "d2d4", "d2e3", "d2c3"]);
    let mut board = Board::empty(Color::Black);
    put(&mut board, "d7", Color::Black, Role::Pawn);
    put(&mut board, "c6", Color::White, Role::Knight);
    put(&mut board, "e6", Color::White, Role::Bishop);
    put(&mut board, "d8", Color::White, Role::Rook);
    assert_eq!(texts(&pseudolegals(&board, &tables)), vec!["d7d6", "d7d5", "d7e6", "d7c6"]);
}

#[test]
fn a_blocked_pawn_does_not_push() {
    let tables = AttackTables::new();
    let mut board = Board::empty(Color::White);
    put(&mut board, "d2", Color::White, Role::Pawn);
    put(&mut board, "d3", Color::Black, Role::Pawn);
    put(&mut board, "e2", Color::White, Role::Pawn);
    put(&mut board, "e4", Color::Black, Role::Pawn);
    put(&mut board, "f3", Color::White, Role::Pawn);
    assert_eq!(texts(&pseudolegals(&board, &tables)), vec!["e2e3", "f3f4", "e2d3", "f3e4"]);
}

#[test]
fn pawn_captures_never_wrap_around_an_edge() {
    let tables = AttackTables::new();
    for color in [Color::White, Color::Black] {
        let mut board = Board::empty(color);
        let other = color.opponent();
        for i in 0..64u8 {
            let square = Square::new(i);
            let on_edge = square.file() == 0 || square.file() == 7 || square.rank() == 0
                || square.rank() == 7;
            if on_edge {
                board.set_at_square(square, Some(Piece { color, role: Role::Pawn }));
            } else {
                board.set_at_square(square, Some(Piece { color: other, role: Role::Knight }));
            }
        }
        let all = pseudolegals(&board, &tables);
        assert!(!all.is_empty());
        let step: i32 = if color == Color::White { 1 } else { -1 };
        for m in all.iter() {
            let files = m.to.file() as i32 - m.from.file() as i32;
            let ranks = m.to.rank() as i32 - m.from.rank() as i32;
            assert!(files == 1 || files == -1);
            assert_eq!(ranks, step);
            assert_eq!(m.capture, Some(Role::Knight));
        }
        assert_eq!(all.len(), 22);
    }
}

#[test]
fn pawn_pushes_never_wrap_around_the_last_rank() {
    let tables = AttackTables::new();
    let mut board = Board::empty(Color::White);
    put(&mut board, "a8", Color::White, Role::Pawn);
    put(&mut board, "h8", Color::White, Role::Pawn);
    assert!(pseudolegals(&board, &tables).is_empty());
    let mut board = Board::empty(Color::Black);
    put(&mut board, "b1", Color::Black, Role::Pawn);
    put(&mut board, "h1", Color::Black, Role::Pawn);
    assert!(pseudolegals(&board, &tables).is_empty());
}

#[test]
fn the_filter_is_exact_two_plies_into_the_game() {
    let tables = AttackTables::new();
    let mut board = Board::default();
    for text in ["e2e4", "f7f6", "d1h5"] {
        let mut moves = AvailableMoves::default();
        board.list_legals(&tables, &mut moves);
        let m = moves.as_slice().iter().find(|m| m.to_text() == text).copied().unwrap();
        board.do_move(m);
    }
    assert_eq!(texts(&legals(&board, &tables)), vec!["g7g6"]);
    filter_is_exact(&board, &tables);
}
