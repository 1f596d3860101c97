use zorro::chess::{AvailableMoves, Move, Role, Square};
use zorro::err::Error;

fn sq(name: &str) -> Square {
    Square::from_str(name).unwrap()
}

// Move validity is not relevant to parsing.
#[test]
fn move_parse_a1c7() {
    let expected_move = Move {
        from: sq("a1"),
        to: sq("c7"),
        promotion: None,
        capture: None,
    };
    assert!(match Move::from_str("a1c7") {
        Ok(actual_move) => actual_move == expected_move,
        _ => false,
    });
}

#[test]
fn move_e2e4_to_string_then_from_str() {
    let expected_move = Move {
        from: Square::from_str("e2").unwrap(),
        to: Square::from_str("e4").unwrap(),
        promotion: None,
        capture: None,
    };
    assert!(match Move::from_str(expected_move.to_text().as_str()) {
        Ok(actual_move) => actual_move == expected_move,
        _ => false,
    });
}

#[test]
fn move_text_is_two_square_names() {
    let m = Move { from: sq("e2"), to: sq("e4"), promotion: None, capture: None };
    assert_eq!(m.to_text(), "e2e4");
    let m = Move { from: sq("h8"), to: sq("a1"), promotion: None, capture: Some(Role::Rook) };
    assert_eq!(m.to_text(), "h8a1");
}

#[test]
fn move_with_a_bad_square_is_rejected() {
    assert_eq!(Move::from_str("a9c7"), Err(Error::InvalidSquare));
    assert_eq!(Move::from_str("a1i7"), Err(Error::InvalidSquare));
    assert_eq!(Move::from_str("A1c7"), Err(Error::InvalidSquare));
    assert_eq!(Move::from_str("1ac7"), Err(Error::InvalidSquare));
}

#[test]
fn move_promotion_is_read_from_the_sixth_character() {
    let m = Move::from_str("e7e8=q").unwrap();
    assert_eq!(m.promotion, Some(Role::Queen));
    let m = Move::from_str("e7e8=N").unwrap();
    assert_eq!(m.promotion, Some(Role::Knight));
    let m = Move::from_str("e7e8=x").unwrap();
    assert_eq!(m.promotion, Some(Role::Pawn));
    let m = Move::from_str("e7e8q").unwrap();
    assert_eq!(m.promotion, None);
    assert_eq!(m.capture, None);
}

#[test]
fn promotion_letters() {
    assert_eq!(Role::from_letter('n'), Role::Knight);
    assert_eq!(Role::from_letter('B'), Role::Bishop);
    assert_eq!(Role::from_letter('r'), Role::Rook);
    assert_eq!(Role::from_letter('Q'), Role::Queen);
    assert_eq!(Role::from_letter('k'), Role::King);
    assert_eq!(Role::from_letter('p'), Role::Pawn);
    assert_eq!(Role::from_letter('?'), Role::Pawn);
}

#[test]
fn garbage_move_stays_on_the_first_square() {
    let m = Move::new_garbage();
    assert_eq!(m.from.i(), 0);
    assert_eq!(m.to.i(), 0);
    assert_eq!(m.promotion, None);
    assert_eq!(m.capture, None);
}

#[test]
fn squares_are_numbered_by_file_then_rank() {
    assert_eq!(sq("a1").i(), 0);
    assert_eq!(sq("a8").i(), 7);
    assert_eq!(sq("b1").i(), 8);
    assert_eq!(sq("e4").i(), 35);
    assert_eq!(sq("h8").i(), 63);
    assert_eq!(sq("e4").file(), 4);
    assert_eq!(sq("e4").rank(), 3);
    assert_eq!(Square::count(), 64);
    assert_eq!(Square::new(35), sq("e4"));
}

#[test]
fn square_names_round_trip() {
    for i in 0..64u8 {
        let square = Square::new(i);
        assert_eq!(Square::from_str(square.to_text().as_str()), Ok(square));
    }
}

#[test]
fn square_names_are_checked() {
    assert_eq!(Square::from_str(""), Err(Error::InvalidSquare));
    assert_eq!(Square::from_str("e"), Err(Error::InvalidSquare));
    assert_eq!(Square::from_str("e44"), Err(Error::InvalidSquare));
    assert_eq!(Square::from_str("e0"), Err(Error::InvalidSquare));
    assert_eq!(Square::from_str("i1"), Err(Error::InvalidSquare));
}

#[test]
fn shifting_a_square_never_wraps() {
    assert_eq!(sq("a1").shift(1), Some(sq("a2")));
    assert_eq!(sq("a1").shift(-1), None);
    assert_eq!(sq("h8").shift(1), None);
    assert_eq!(sq("h8").shift(-63), Some(sq("a1")));
    assert_eq!(sq("e4").shift(8), Some(sq("f4")));
    assert_eq!(sq("e4").shift(1000), None);
    assert_eq!(sq("e4").shift(-1000), None);
}

#[test]
fn buffer_keeps_the_order_of_insertion() {
    let mut moves = AvailableMoves::default();
    assert_eq!(moves.len(), 0);
    assert!(moves.as_slice().is_empty());
    let first = Move::from_str("e2e4").unwrap();
    let second = Move::from_str("g1f3").unwrap();
    moves.push(first);
    moves.push(second);
    assert_eq!(moves.len(), 2);
    assert_eq!(moves.as_slice(), &[first, second]);
    assert_eq!(moves.get(0), first);
    assert_eq!(moves.get(1), second);
    assert_eq!(moves.clone().into_vec(), vec![first, second]);
    moves.clear();
    assert_eq!(moves.len(), 0);
}

#[test]
fn both_walks_give_the_same_moves() {
    let mut moves = AvailableMoves::default();
    let texts = ["e2e4", "g1f3", "e2e4", "b1c3", "a2a3"];
    for text in texts.iter() {
        moves.push(Move::from_str(text).unwrap());
    }
    let forward: Vec<Move> = moves.as_slice().to_vec();
    let mut backward: Vec<Move> = Vec::new();
    let mut walk = moves.iter();
    while let Some(m) = walk.next() {
        backward.push(m);
    }
    assert_eq!(walk.next(), None);
    assert_eq!(backward.len(), forward.len());
    let mut reversed = forward.clone();
    reversed.reverse();
    assert_eq!(backward, reversed);
    for m in forward.iter() {
        let there = forward.iter().filter(|x| *x == m).count();
        let back = backward.iter().filter(|x| *x == m).count();
        assert_eq!(there, back);
    }
}

#[test]
fn walk_over_an_empty_buffer_gives_nothing() {
    let moves = AvailableMoves::default();
    let mut walk = moves.iter();
    assert_eq!(walk.next(), None);
}
