use zorro::chess::board::Board;
use zorro::chess::tables::AttackTables;

#[test]
fn depth_0() {
    let tables = AttackTables::new();
    let board = Board::default();
    assert_eq!(board.clone().perft(&tables, 0).nodes_count, 1);
}

#[test]
fn depth_1() {
    let tables = AttackTables::new();
    let board = Board::default();
    assert_eq!(board.clone().perft(&tables, 1).nodes_count, 20);
}

#[test]
fn depth_2() {
    let tables = AttackTables::new();
    let board = Board::default();
    assert_eq!(board.clone().perft(&tables, 2).nodes_count, 400);
}

#[test]
fn depth_3() {
    let tables = AttackTables::new();
    let board = Board::default();
    assert_eq!(board.clone().perft(&tables, 3).nodes_count, 8902);
}

#[test]
fn depth_4() {
    let tables = AttackTables::new();
    let board = Board::default();
    assert_eq!(board.clone().perft(&tables, 4).nodes_count, 197281);
}

#[test]
fn perft_leaves_the_board_as_it_was() {
    let tables = AttackTables::new();
    let mut board = Board::default();
    board.perft(&tables, 3);
    assert_eq!(board, Board::default());
}

#[test]
fn report_lists_each_root_move_with_its_share() {
    let tables = AttackTables::new();
    let mut board = Board::default();
    let report = board.perft(&tables, 2);
    assert_eq!(report.depth, 2);
    assert_eq!(report.nodes_count, 400);
    assert_eq!(report.overview.len(), 20);
    assert_eq!(report.overview[0].0.to_text(), "a2a3");
    assert_eq!(report.overview[19].0.to_text(), "g1h3");
    assert!(report.overview.iter().all(|entry| entry.1 == 20));
    let total: usize = report.overview.iter().map(|entry| entry.1).sum();
    assert_eq!(total, report.nodes_count);
    let report = board.perft(&tables, 0);
    assert_eq!(report.depth, 0);
    assert!(report.overview.is_empty());
}

#[test]
fn report_text_has_a_line_for_each_root_move() {
    let tables = AttackTables::new();
    let mut board = Board::default();
    let expected = "N.20 total moves.\n--- Overview by branch:\na2a3: 1\nb2b3: 1\nc2c3: 1\n\
                    d2d3: 1\ne2e3: 1\nf2f3: 1\ng2g3: 1\nh2h3: 1\na2a4: 1\nb2b4: 1\nc2c4: 1\n\
                    d2d4: 1\ne2e4: 1\nf2f4: 1\ng2g4: 1\nh2h4: 1\nb1a3: 1\nb1c3: 1\ng1f3: 1\n\
                    g1h3: 1\n---";
    assert_eq!(board.perft(&tables, 1).to_text(), expected);
    assert_eq!(board.perft(&tables, 0).to_text(), "N.1 total moves.\n--- Overview by branch:\n---");
}
