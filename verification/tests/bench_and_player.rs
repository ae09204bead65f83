use connect_four::bench::{parse_test_line, TestSet};
use connect_four::board::{BitBoard, Board, Moves};
use connect_four::player::{parse_move, play_turn, MoveError, Turn};

#[test]
fn test_line_parses_moves_and_value() {
    let (moves, value) = parse_test_line(b"4453 -2").unwrap();
    let cols: Vec<usize> = moves.iter().iter().map(|m| m.0.index()).collect();
    assert_eq!(cols, vec![3, 3, 4, 2]);
    assert_eq!(value, -2);
    let (moves, value) = parse_test_line(b"12  17").unwrap();
    assert_eq!(moves.iter().len(), 2);
    assert_eq!(value, 17);
}

#[test]
fn test_line_rejects_bad_lines() {
    assert!(parse_test_line(b"4453").is_none());
    assert!(parse_test_line(b" 12").is_none());
    assert!(parse_test_line(b"128 1").is_none());
    assert!(parse_test_line(b"12 1x").is_none());
    assert!(parse_test_line(b"18 1").is_none());
    assert!(parse_test_line(b"").is_none());
}

#[test]
fn test_line_whitespace_signs_and_long_values() {
    let (moves, value) = parse_test_line(b" 4453\t+12  \r").unwrap();
    assert_eq!(moves.iter().len(), 4);
    assert_eq!(value, 12);
    assert_eq!(parse_test_line(b"12 12345").unwrap().1, 12345);
    assert_eq!(parse_test_line(b"12 -0").unwrap().1, 0);
    assert_eq!(parse_test_line(b"1 -9223372036854775808").unwrap().1, isize::MIN);
    assert_eq!(parse_test_line(b"1 9223372036854775807").unwrap().1, isize::MAX);
    assert!(parse_test_line(b"1 9223372036854775808").is_none());
    assert!(parse_test_line(b"1 99999999999999999999").is_none());
    assert!(parse_test_line(b"1 -").is_none());
    assert!(parse_test_line(b"1 2 3").is_none());
}

#[test]
fn test_set_take() {
    let tests = vec![(Moves::from_string("4"), 1), (Moves::from_string("44"), -1), (Moves::from_string("444"), 2)];
    let set = TestSet::new("end", tests);
    assert_eq!(set.name(), "end");
    assert_eq!(set.len(), 3);
    assert_eq!(set.tests()[1].1, -1);
    let fewer = set.take(2);
    assert_eq!(fewer.len(), 2);
    assert_eq!(fewer.name(), "end");
    assert_eq!(fewer.clone().take(5).len(), 2);
}

#[test]
fn human_move_parsing() {
    let board = BitBoard::empty();
    assert_eq!(parse_move(&board, &['4']).unwrap().index(), 3);
    assert_eq!(parse_move(&board, &[]), Err(MoveError::Empty));
    assert_eq!(parse_move(&board, &['4', '5']), Err(MoveError::NotSingle));
    assert_eq!(parse_move(&board, &['x']), Err(MoveError::NotDigit('x')));
    assert_eq!(parse_move(&board, &['8']), Err(MoveError::NotDigit('8')));
    let full_first = BitBoard::from_moves(&Moves::from_string("111111"));
    match parse_move(&full_first, &['1']) {
        Err(MoveError::Full(col)) => assert_eq!(col.index(), 0),
        other => panic!("unexpected {:?}", other),
    }
}

#[test]
fn turns_of_a_game() {
    let mut pos = BitBoard::from_moves(&Moves::from_string("11223"));
    assert_eq!(play_turn(&mut pos, connect_four::basic::column::Idx::raw(6)), Turn::Continue);
    assert_eq!(pos.count_moves(), 6);
    assert_eq!(play_turn(&mut pos, connect_four::basic::column::Idx::raw(3)), Turn::Won);
    let mut last = BitBoard::from_moves(&Moves::from_string("12121234343456565671717123232345454567676"));
    assert_eq!(play_turn(&mut last, connect_four::basic::column::Idx::raw(6)), Turn::Draw);
}

#[test]
fn not_gives_the_other_token() {
    assert_eq!(!connect_four::basic::Token::A, connect_four::basic::Token::B);
    assert_eq!(!connect_four::basic::Token::B, connect_four::basic::Token::A);
}
