use connect_four::basic::{row, Token};
use connect_four::board::bit_board::col_mask;
use connect_four::board::bit_col::BitCol;
use connect_four::board::{ArrayBoard, BitBoard, BitCols, Board, CloneBoard, HashBoard, MutBoard, Moves, SymmBoard};
use connect_four::solver_utils::position::Position;

fn columns() -> Vec<connect_four::basic::column::Idx> {
    (0..connect_four::basic::column::COUNT).map(connect_four::basic::column::Idx::raw).collect()
}

fn rows() -> Vec<row::Idx> {
    (0..row::COUNT).map(row::Idx::raw).collect()
}

#[test]
fn test_top() {
    let mut col = BitCol::empty();

    assert!(col.is_empty());
    assert_eq!(col.top(), None);

    for row in rows() {
        col.force_push(Token::A);
        assert_eq!(col.top(), Some(row));
    }
    assert!(col.is_full());
}

#[test]
fn possible_is_possible() {
    for _ in 0..100 {
        for len in 0..40 {
            let moves = Moves::random(len);
            let b = BitBoard::from_moves(&moves);
            let possible = b.possible_mask();
            for col in columns() {
                if col_mask(col) & possible > 0 {
                    assert!(
                        b.clone().place(col, b.curr()).is_some(),
                        "Could not place in col given by possible @ {}",
                        col.index()
                    );
                }
            }
        }
    }
}

#[test]
fn bit_board_test_symmetry() {
    let mut board_a = BitBoard::empty();
    let mut board_b = BitBoard::empty();
    let mut token = Token::STARTING;
    for _ in rows() {
        for col in columns() {
            board_a.place(col, token).unwrap();
            board_b.place(col.mirrored(), token).unwrap();
            token = token.next();
            assert_eq!(board_a, board_b, "Symmetric BitBoards are not equal");
            assert_eq!(
                board_a.key(),
                board_b.key(),
                "Symmetric BitBoards have different hashes"
            );
        }
    }
}

#[test]
fn symm_board_test_symmetry() {
    let mut board_a = SymmBoard::empty();
    let mut board_b = SymmBoard::empty();
    let mut token = Token::STARTING;
    for _ in rows() {
        for col in columns() {
            board_a.place(col, token).unwrap();
            board_b.place(col.mirrored(), token).unwrap();
            token = token.next();
            assert_eq!(board_a, board_b, "Symmetric SymmBoards are not equal");
            assert_eq!(
                board_a.key(),
                board_b.key(),
                "Symmetric SymmBoards have different hashes"
            );
        }
    }
}

#[test]
fn little() {
    let moves_a = Moves::from_string("166");
    let board_a = SymmBoard::from_moves(&moves_a);
    println!("{}", board_a.key());

    let moves_b = Moves::from_string("11444");
    let board_b = SymmBoard::from_moves(&moves_b);
    println!("{}", board_b.key());
}

#[test]
fn bit_board_place_unplace_eq() {
    let mut board = BitBoard::empty();
    let mut token = Token::STARTING;
    for _ in rows() {
        for col in columns() {
            let temp = board;
            board.place(col, token).unwrap();
            board.unplace(col);
            assert_eq!(temp, board);
            assert_eq!(temp.key(), board.key());
            board.place(col, token);
            token = token.next();
        }
    }
}

#[test]
fn bit_board_won_at_basic() {
    let moves = Moves::from_string("1122334");
    let board = BitBoard::from_moves(&moves);
    assert!(board.is_won_at_col(connect_four::basic::column::Idx::raw(3)));
    let board = BitCols::from_moves(&moves);
    assert!(board.is_won_at_col(connect_four::basic::column::Idx::raw(3)));
}

#[test]
fn bit_board_matches_bit_cols() {
    for _ in 0..50 {
        for len in 0..42 {
            let moves = Moves::random(len);
            let a = BitBoard::from_moves(&moves);
            let b = BitCols::from_moves(&moves);
            assert_eq!(a.count_moves(), b.count_moves());
            assert_eq!(a.curr(), b.curr());
            for col in columns() {
                assert_eq!(a.col_count(col), b.col_count(col));
                assert_eq!(a.can_place(col), b.can_place(col));
                for row in rows() {
                    let cell = connect_four::basic::Cell { col, row };
                    assert_eq!(a.get(cell), b.get(cell));
                }
            }
            let k = a.key();
            assert!(k != 0 && k < (1u64 << 49));
        }
    }
}

#[test]
fn bit_board_possible_mask_values() {
    let b = BitBoard::empty();
    assert_eq!(b.possible_mask(), 0x408_1020_4081);
    let b = BitBoard::from_moves(&Moves::from_string("444444"));
    assert_eq!(b.possible_mask(), 0x408_1000_4081);
    let b = BitBoard::from_moves(&Moves::from_string("1"));
    assert_eq!(b.possible_mask(), 0x408_1020_4082);
}

#[test]
fn bit_board_placed_curr_unchecked() {
    let b = BitBoard::from_moves(&Moves::from_string("4"));
    let c = b.placed_curr_unchecked(connect_four::basic::column::Idx::raw(3));
    let d = BitBoard::from_moves(&Moves::from_string("44"));
    assert_eq!(c, d);
    assert_eq!(c.get(connect_four::basic::Cell { col: connect_four::basic::column::Idx::raw(3), row: row::Idx::raw(1) }), Some(Token::B));
}

#[test]
fn array_board_matches_bit_cols() {
    for _ in 0..30 {
        for len in 0..42 {
            let moves = Moves::random(len);
            let a = ArrayBoard::from_moves(&moves);
            let b = BitCols::from_moves(&moves);
            assert_eq!(a.count_moves(), b.count_moves());
            for col in columns() {
                assert_eq!(a.col_count(col), b.col_count(col));
                assert_eq!(a.can_place(col), b.can_place(col));
                for row in rows() {
                    let cell = connect_four::basic::Cell { col, row };
                    assert_eq!(a.get(cell), b.get(cell));
                }
            }
        }
    }
}

#[test]
fn array_board_place_unplace_eq() {
    let mut board = ArrayBoard::empty();
    let mut token = Token::STARTING;
    for row in rows() {
        for col in columns() {
            let temp = board;
            let cell = board.place(col, token).unwrap();
            assert_eq!(cell.row, row);
            board.unplace(col);
            assert_eq!(temp, board);
            board.place(col, token);
            token = token.next();
        }
    }
    for col in columns() {
        assert!(!board.can_place(col));
        assert!(board.place(col, token).is_none());
    }
}

#[test]
fn mirrored_boards() {
    let moves = Moves::from_string("1123447");
    let b = BitCols::from_moves(&moves);
    let m = b.mirrored();
    for col in columns() {
        for row in rows() {
            let cell = connect_four::basic::Cell { col, row };
            let mirror = connect_four::basic::Cell { col: col.mirrored(), row };
            assert_eq!(b.get(cell), m.get(mirror));
        }
    }
    let bb = BitBoard::from_moves(&moves);
    assert_eq!(bb.mirrored(), bb);
    assert_eq!(bb.mirrored().key(), bb.key());
    assert_eq!(SymmBoard::from_moves(&moves).mirrored(), SymmBoard::from_moves(&moves));
}

#[test]
fn bit_board_threat_queries() {
    // first player: bottom of columns 1-3; second player: second row of columns 1-2
    let board = BitBoard::from_moves(&Moves::from_string("11223"));
    assert_eq!(board.curr_win_count(), 0);
    assert!(!board.curr_can_win());
    // the first player would win at the bottom of column 4
    assert_eq!(board.heuristic(), -1);
    let nexts = board.possible_nonlosing_nexts().unwrap();
    assert_eq!(nexts.len(), 1);
    assert_eq!(nexts[0].0.index(), 3);
    assert_eq!(nexts[0].1, BitBoard::from_moves(&Moves::from_string("112234")));

    let winning = BitBoard::from_moves(&Moves::from_string("112233"));
    assert_eq!(winning.curr_win_count(), 1);
    assert!(winning.curr_can_win());
    assert_eq!(winning.heuristic(), 0);
}

#[test]
fn bit_board_no_nonlosing_move() {
    // an open three in the bottom row: the player to move cannot block both ends
    let board = BitBoard::from_moves(&Moves::from_string("27374"));
    assert!(board.possible_nonlosing_nexts().is_err());
    assert_eq!(board.heuristic(), -2);
}

#[test]
fn bit_board_nonlosing_moves_in_centred_order() {
    let board = BitBoard::empty();
    let nexts = board.possible_nonlosing_nexts().unwrap();
    let cols: Vec<usize> = nexts.iter().map(|n| n.0.index()).collect();
    assert_eq!(cols, vec![3, 2, 4, 1, 5, 0, 6]);
    assert_eq!(board.heuristic(), 0);
    assert_eq!(board.curr_win_count(), 0);
}

#[test]
fn board_self_checks_pass() {
    use_self_checks::<BitBoard>("BitBoard");
    use_self_checks::<BitCols>("BitCols");
    use_self_checks::<SymmBoard>("SymmBoard");
    use_self_checks::<ArrayBoard>("ArrayBoard");
}

fn use_self_checks<B: Board>(name: &str) {
    assert!(connect_four::board::testing::empty_is_empty::<B>(name));
    assert!(connect_four::board::testing::cannot_place_in_full_column::<B>(name));
    assert!(connect_four::board::testing::won_at_basic::<B>(name));
}

#[test]
fn board_to_display() {
    let board = BitBoard::from_moves(&Moves::from_string("4453"));
    let expected = String::new()
        + "| ⋅ ⋅ ⋅ ⋅ ⋅ ⋅ ⋅ |\n"
        + "| ⋅ ⋅ ⋅ ⋅ ⋅ ⋅ ⋅ |\n"
        + "| ⋅ ⋅ ⋅ ⋅ ⋅ ⋅ ⋅ |\n"
        + "| ⋅ ⋅ ⋅ ⋅ ⋅ ⋅ ⋅ |\n"
        + "| ⋅ ⋅ ⋅ O ⋅ ⋅ ⋅ |\n"
        + "| ⋅ ⋅ O X X ⋅ ⋅ |\n";
    assert_eq!(board.to_display(), expected);
    assert_eq!(ArrayBoard::from_moves(&Moves::from_string("4453")).to_display(), expected);
}

#[test]
fn board_from_display() {
    let board = BitBoard::from_moves(&Moves::from_string("4453"));
    let shown = board.to_display();
    let read = BitBoard::from_display(&shown);
    assert_eq!(read.to_display(), shown);
    let with_header = format!("_ 1 2 3 4 5 6 7 _\n{}+---------------+\n", shown);
    assert_eq!(BitBoard::from_display(&with_header).to_display(), shown);
    // letters name the tokens too, and `-` ends a line early
    let letters = BitBoard::from_display("| A ⋅ B - A |");
    assert_eq!(letters.to_display(), BitBoard::from_moves(&Moves::from_string("13")).to_display());
    assert_eq!(BitBoard::from_display("no tokens here").to_display(), BitBoard::empty().to_display());
}
