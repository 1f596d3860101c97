use zorro::chess::{AttackTables, AvailableMoves, Board, Color, Move, Piece, Role, Square};

fn sq(name: &str) -> Square {
    Square::from_str(name).unwrap()
}

fn piece(color: Color, role: Role) -> Option<Piece> {
    Some(Piece { color, role })
}

#[test]
fn starting_position_has_its_pieces() {
    let board = Board::default();
    assert_eq!(board.color_to_move(), Color::White);
    assert_eq!(board.piece_opt_at(sq("a1")), piece(Color::White, Role::Rook));
    assert_eq!(board.piece_opt_at(sq("b1")), piece(Color::White, Role::Knight));
    assert_eq!(board.piece_opt_at(sq("c1")), piece(Color::White, Role::Bishop));
    assert_eq!(board.piece_opt_at(sq("d1")), piece(Color::White, Role::Queen));
    assert_eq!(board.piece_opt_at(sq("e1")), piece(Color::White, Role::King));
    assert_eq!(board.piece_opt_at(sq("f1")), piece(Color::White, Role::Bishop));
    assert_eq!(board.piece_opt_at(sq("g1")), piece(Color::White, Role::Knight));
    assert_eq!(board.piece_opt_at(sq("h1")), piece(Color::White, Role::Rook));
    assert_eq!(board.piece_opt_at(sq("e2")), piece(Color::White, Role::Pawn));
    assert_eq!(board.piece_opt_at(sq("e4")), None);
    assert_eq!(board.piece_opt_at(sq("e7")), piece(Color::Black, Role::Pawn));
    assert_eq!(board.piece_opt_at(sq("d8")), piece(Color::Black, Role::Queen));
    assert_eq!(board.piece_opt_at(sq("e8")), piece(Color::Black, Role::King));
    assert_eq!(board.bb_all(), 0xc3c3_c3c3_c3c3_c3c3);
    assert_eq!(board.attackers(), 0x0303_0303_0303_0303);
    assert_eq!(board.defenders(), 0xc0c0_c0c0_c0c0_c0c0);
    assert_eq!(board.attackers_with_role(Role::Pawn), 0x0202_0202_0202_0202);
    assert_eq!(board.bb_role(Role::King), 0x0000_0081_0000_0000);
    assert_eq!(board.bb_color(Color::Black), 0xc0c0_c0c0_c0c0_c0c0);
    assert!(board.has_both_kings());
}

#[test]
fn empty_board_has_no_piece() {
    let board = Board::empty(Color::Black);
    assert_eq!(board.color_to_move(), Color::Black);
    assert_eq!(board.bb_all(), 0);
    for i in 0..64u8 {
        assert_eq!(board.piece_opt_at(Square::new(i)), None);
        assert_eq!(board.role_at(Square::new(i)), None);
    }
    assert!(!board.has_both_kings());
}

#[test]
fn setting_a_square_replaces_what_stood_there() {
    let mut board = Board::empty(Color::White);
    board.set_at_square(sq("e4"), piece(Color::White, Role::Knight));
    assert_eq!(board.piece_opt_at(sq("e4")), piece(Color::White, Role::Knight));
    board.set_at_square(sq("e4"), piece(Color::Black, Role::Queen));
    assert_eq!(board.piece_opt_at(sq("e4")), piece(Color::Black, Role::Queen));
    assert_eq!(board.bb_color(Color::White), 0);
    assert_eq!(board.bb_role(Role::Knight), 0);
    board.set_at_square(sq("e4"), None);
    assert_eq!(board, Board::empty(Color::White));
}

#[test]
fn a_move_goes_and_comes_back() {
    let start = Board::default();
    let mut board = start;
    let m = Move { from: sq("e2"), to: sq("e4"), promotion: None, capture: None };
    let captured = board.do_move(m);
    assert_eq!(captured, None);
    assert_eq!(board.color_to_move(), Color::Black);
    assert_eq!(board.piece_opt_at(sq("e2")), None);
    assert_eq!(board.piece_opt_at(sq("e4")), piece(Color::White, Role::Pawn));
    assert_ne!(board, start);
    board.undo_move(m, captured);
    assert_eq!(board, start);
}

#[test]
fn a_capture_comes_back_with_the_captured_piece() {
    let mut start = Board::empty(Color::White);
    start.set_at_square(sq("a1"), piece(Color::White, Role::Rook));
    start.set_at_square(sq("a8"), piece(Color::Black, Role::Queen));
    start.set_at_square(sq("e1"), piece(Color::White, Role::King));
    start.set_at_square(sq("e8"), piece(Color::Black, Role::King));
    let mut board = start;
    let m = Move { from: sq("a1"), to: sq("a8"), promotion: None, capture: Some(Role::Queen) };
    let captured = board.do_move(m);
    assert_eq!(captured, Some(Role::Queen));
    assert_eq!(board.piece_opt_at(sq("a8")), piece(Color::White, Role::Rook));
    assert_eq!(board.piece_opt_at(sq("a1")), None);
    assert_eq!(board.bb_role(Role::Queen), 0);
    board.undo_move(m, captured);
    assert_eq!(board, start);
}

#[test]
fn a_promotion_changes_the_role_and_comes_back_as_a_pawn() {
    let mut start = Board::empty(Color::White);
    start.set_at_square(sq("b7"), piece(Color::White, Role::Pawn));
    let mut board = start;
    let m = Move { from: sq("b7"), to: sq("b8"), promotion: Some(Role::Queen), capture: None };
    let captured = board.do_move(m);
    assert_eq!(board.piece_opt_at(sq("b8")), piece(Color::White, Role::Queen));
    board.undo_move(m, captured);
    assert_eq!(board, start);
}

#[test]
fn every_legal_move_comes_back_bit_for_bit() {
    let tables = AttackTables::new();
    let start = Board::default();
    let mut board = start;
    let mut moves = AvailableMoves::default();
    board.list_legals(&tables, &mut moves);
    assert_eq!(board, start);
    for m in moves.as_slice() {
        let captured = board.do_move(*m);
        let mut replies = AvailableMoves::default();
        let after = board;
        board.list_legals(&tables, &mut replies);
        assert_eq!(board, after);
        for reply in replies.as_slice() {
            let taken = board.do_move(*reply);
            board.undo_move(*reply, taken);
            assert_eq!(board, after);
        }
        board.undo_move(*m, captured);
        assert_eq!(board, start);
    }
}

#[test]
fn kings_are_counted_by_color() {
    let mut board = Board::empty(Color::White);
    board.set_at_square(sq("e1"), piece(Color::White, Role::King));
    assert!(board.has_one_king(Color::White));
    assert!(!board.has_one_king(Color::Black));
    assert!(!board.has_both_kings());
    board.set_at_square(sq("e8"), piece(Color::Black, Role::King));
    assert!(board.has_both_kings());
    board.set_at_square(sq("a8"), piece(Color::Black, Role::King));
    assert!(!board.has_one_king(Color::Black));
    assert!(!board.has_both_kings());
}

#[test]
fn turn_passes_to_the_other_side() {
    let mut board = Board::default();
    board.flip_turn();
    assert_eq!(board.color_to_move(), Color::Black);
    assert_eq!(Color::White.opponent(), Color::Black);
    assert_eq!(Color::Black.opponent(), Color::White);
}
