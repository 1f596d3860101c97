use zorro::chess::fen::{letter_of, piece_for};
use zorro::chess::{Board, Color, Move, Piece, Role, Square};
use zorro::err::Error as ChessErr;
use zorro::protocols::uci::{lichess_url, position, Error};

fn sq(name: &str) -> Square {
    Square::from_str(name).unwrap()
}

fn args(words: &[&str]) -> Vec<String> {
    words.iter().map(|w| w.to_string()).collect()
}

#[test]
fn starting_position_in_notation() {
    let board = Board::default();
    assert_eq!(
        board.fmt_fen(' '),
        "rnbqkbnr/pppppppp/8/8/8/8/PPPPPPPP/RNBQKBNR w - - 0 1"
    );
    assert_eq!(
        board.fmt_fen('_'),
        "rnbqkbnr/pppppppp/8/8/8/8/PPPPPPPP/RNBQKBNR_w_-_-_0_1"
    );
}

#[test]
fn empty_board_in_notation() {
    assert_eq!(Board::empty(Color::Black).fmt_fen(' '), "8/8/8/8/8/8/8/8 b - - 0 1");
}

#[test]
fn runs_of_empty_squares_are_counted() {
    let mut board = Board::empty(Color::White);
    board.set_at_square(sq("a8"), Some(Piece { color: Color::Black, role: Role::Rook }));
    board.set_at_square(sq("h8"), Some(Piece { color: Color::Black, role: Role::King }));
    board.set_at_square(sq("c4"), Some(Piece { color: Color::White, role: Role::Queen }));
    board.set_at_square(sq("d4"), Some(Piece { color: Color::White, role: Role::Pawn }));
    board.set_at_square(sq("h1"), Some(Piece { color: Color::White, role: Role::King }));
    assert_eq!(board.fmt_fen(' '), "r6k/8/8/8/2QP4/8/8/7K w - - 0 1");
}

#[test]
fn notation_is_read_back() {
    let texts = [
        ("rnbqkbnr/pppppppp/8/8/8/8/PPPPPPPP/RNBQKBNR", "w"),
        ("rnbqkbnr/pppppppp/8/8/4P3/8/PPPP1PPP/RNBQKBNR", "b"),
        ("r6k/8/8/8/2QP4/8/8/7K", "w"),
        ("8/8/8/8/8/8/8/8", "b"),
        ("1n1n1n1n/n1n1n1n1/44/224/1223/11111111/PPPPPPPP/KKKKKKKK", "w"),
    ];
    for (placement, side) in texts {
        let board = Board::from_fen(placement, side).unwrap();
        let text = board.fmt_fen(' ');
        let mut fields = text.split(' ');
        let again = Board::from_fen(fields.next().unwrap(), fields.next().unwrap()).unwrap();
        assert_eq!(again, board);
        assert_eq!(fields.next(), Some("-"));
    }
    assert_eq!(
        Board::from_fen("rnbqkbnr/pppppppp/8/8/8/8/PPPPPPPP/RNBQKBNR", "w"),
        Ok(Board::default())
    );
    let board = Board::from_fen("r6k/8/8/8/2QP4/8/8/7K", "b").unwrap();
    assert_eq!(board.color_to_move(), Color::Black);
    assert_eq!(
        board.piece_opt_at(sq("c4")),
        Some(Piece { color: Color::White, role: Role::Queen })
    );
    assert_eq!(board.piece_opt_at(sq("a8")), Some(Piece { color: Color::Black, role: Role::Rook }));
    assert_eq!(board.piece_opt_at(sq("b8")), None);
    assert_eq!(board.fmt_fen(' '), "r6k/8/8/8/2QP4/8/8/7K b - - 0 1");
}

#[test]
fn bad_notation_is_refused() {
    let bad = [
        "",
        "8/8/8/8/8/8/8",
        "8/8/8/8/8/8/8/8/8",
        "8/8/8/8/8/8/8/7",
        "8/8/8/8/8/8/8/9",
        "8/8/8/8/8/8/8/44P",
        "8/8/8/8/8/8/8/PPPPPPPPP",
        "8/8/8/8/8/8/8/7x",
        "8/8/8/8/8/8/8/8/",
        "/8/8/8/8/8/8/8/8",
        "8/8/8/8/8/8/8/0P7",
        "8 8 8 8 8 8 8 8",
    ];
    for placement in bad {
        assert_eq!(Board::from_fen(placement, "w"), Err(ChessErr::InvalidFen));
        assert_eq!(Board::from_fen(placement, "x"), Err(ChessErr::InvalidFen));
    }
    for side in ["", "W", "white", "wb", "-"] {
        assert_eq!(Board::from_fen("8/8/8/8/8/8/8/8", side), Err(ChessErr::InvalidColor));
    }
}

#[test]
fn pieces_have_their_letters() {
    let letters = "PNBRQKpnbrqk";
    for c in letters.chars() {
        let piece = piece_for(c).unwrap();
        assert_eq!(letter_of(piece), c);
        assert_eq!(piece.color == Color::White, c.is_ascii_uppercase());
    }
    assert_eq!(piece_for('K'), Some(Piece { color: Color::White, role: Role::King }));
    assert_eq!(piece_for('n'), Some(Piece { color: Color::Black, role: Role::Knight }));
    assert_eq!(piece_for('x'), None);
    assert_eq!(piece_for('1'), None);
}

#[test]
fn position_sets_up_and_plays() {
    let mut board = Board::empty(Color::Black);
    assert!(position(&mut board, &args(&["startpos"])).is_ok());
    assert_eq!(board, Board::default());
    assert!(position(&mut board, &args(&["startpos", "moves", "e2e4", "e7e5", "g1f3"])).is_ok());
    assert_eq!(
        board.fmt_fen(' '),
        "rnbqkbnr/pppp1ppp/8/4p3/4P3/5N2/PPPP1PPP/RNBQKB1R b - - 0 1"
    );
    assert!(position(&mut board, &args(&["current", "moves", "b8c6"])).is_ok());
    assert_eq!(
        board.fmt_fen(' '),
        "r1bqkbnr/pppp1ppp/2n5/4p3/4P3/5N2/PPPP1PPP/RNBQKB1R w - - 0 1"
    );
    let before = board;
    assert!(position(&mut board, &args(&["current"])).is_ok());
    assert_eq!(board, before);
    assert!(position(&mut board, &args(&["current", "moves"])).is_ok());
    assert_eq!(board, before);
}

#[test]
fn position_reads_notation() {
    let mut board = Board::default();
    let words = args(&[
        "fen", "r6k/8/8/8/2QP4/8/8/7K", "w", "-", "-", "0", "1", "moves", "c4c8", "a8c8",
    ]);
    assert!(position(&mut board, &words).is_ok());
    assert_eq!(board.fmt_fen(' '), "2r4k/8/8/8/3P4/8/8/7K w - - 0 1");
    let words = args(&["fen", "8/8/8/8/8/8/8/K6k", "b"]);
    assert!(position(&mut board, &words).is_ok());
    assert_eq!(board.fmt_fen(' '), "8/8/8/8/8/8/8/K6k b - - 0 1");
}

#[test]
fn position_with_a_promotion() {
    let mut board = Board::default();
    let words = args(&["fen", "8/1P6/8/8/8/8/8/K6k", "w", "-", "-", "0", "1", "moves", "b7b8=q"]);
    assert!(position(&mut board, &words).is_ok());
    assert_eq!(board.fmt_fen(' '), "1Q6/8/8/8/8/8/8/K6k b - - 0 1");
}

#[test]
fn position_refuses_what_it_cannot_read() {
    let start = Board::default();
    let mut board = start;
    assert!(matches!(position(&mut board, &args(&[])), Err(Error::Syntax)));
    assert!(matches!(position(&mut board, &args(&["960"])), Err(Error::Syntax)));
    assert!(matches!(position(&mut board, &args(&["here"])), Err(Error::Syntax)));
    assert!(matches!(
        position(&mut board, &args(&["fen"])),
        Err(Error::Chess(ChessErr::InvalidFen))
    ));
    assert!(matches!(
        position(&mut board, &args(&["fen", "8/8/8/8/8/8/8/8"])),
        Err(Error::Chess(ChessErr::InvalidFen))
    ));
    assert!(matches!(
        position(&mut board, &args(&["fen", "8/8/8/8/8/8/8", "w"])),
        Err(Error::Chess(ChessErr::InvalidFen))
    ));
    assert!(matches!(
        position(&mut board, &args(&["fen", "8/8/8/8/8/8/8/8", "?"])),
        Err(Error::Chess(ChessErr::InvalidColor))
    ));
    assert_eq!(board, start);
}

#[test]
fn a_bad_move_stops_the_moves() {
    let mut board = Board::default();
    let words = args(&["startpos", "moves", "e2e4", "e7e9", "g1f3"]);
    assert!(matches!(position(&mut board, &words), Err(Error::Chess(ChessErr::InvalidSquare))));
    let mut expected = Board::default();
    expected.do_move(Move::from_str("e2e4").unwrap());
    assert_eq!(board, expected);
    let mut board = Board::default();
    let words = args(&["startpos", "moves", "e2"]);
    assert!(matches!(position(&mut board, &words), Err(Error::Chess(ChessErr::InvalidSquare))));
    assert_eq!(board, Board::default());
}

#[test]
fn moves_of_any_length_are_parsed() {
    assert_eq!(Move::parse("e2e4"), Move::from_str("e2e4"));
    assert_eq!(Move::parse("e7e8=q"), Move::from_str("e7e8=q"));
    assert_eq!(Move::parse("e2"), Err(ChessErr::InvalidSquare));
    assert_eq!(Move::parse(""), Err(ChessErr::InvalidSquare));
    assert_eq!(Move::parse("e2e9"), Err(ChessErr::InvalidSquare));
}

#[test]
fn address_of_the_analysis_board() {
    assert_eq!(
        lichess_url(&Board::default()),
        "https://lichess.org/analysis/rnbqkbnr/pppppppp/8/8/8/8/PPPPPPPP/RNBQKBNR_w_-_-_0_1"
    );
}

#[test]
fn starting_position_as_a_diagram() {
    assert_eq!(
        Board::default().diagram(),
        "rnbqkbnr\npppppppp\n........\n........\n........\n........\nPPPPPPPP\nRNBQKBNR\n"
    );
    let mut board = Board::empty(Color::White);
    board.set_at_square(sq("a1"), Some(Piece { color: Color::White, role: Role::Queen }));
    board.set_at_square(sq("h8"), Some(Piece { color: Color::Black, role: Role::Knight }));
    assert_eq!(
        board.diagram(),
        ".......n\n........\n........\n........\n........\n........\n........\nQ.......\n"
    );
}
