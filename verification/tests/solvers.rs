use core::ops::ControlFlow;

use connect_four::board::{BitBoard, BitCols, Board, Moves, SymmBoard};
use connect_four::solver_utils::move_sorter::MoveSorter;
use connect_four::solver_utils::position::WithInfo;
use connect_four::solver_utils::{Cache, LaissezFaire, Logger};
use connect_four::solvers::minimax_avoidant::NbhdCounts;
use connect_four::solvers::minimax_symm::SymmDiff;
use connect_four::solvers::{
    Deepening, MinimaxABCached, MinimaxAlphaBeta, MinimaxAvoidant, MinimaxCached, MinimaxClone,
    ABSolver, MinimaxMut, MinimaxOrdered, MinimaxQuick, MinimaxSymm, Solver,
};

fn late_positions(count: usize, min_len: usize) -> Vec<Moves> {
    let mut out = Vec::new();
    for i in 0..count {
        let len = min_len + i % (43 - min_len);
        out.push(Moves::random(len));
    }
    out
}

#[test]
fn solvers_agree_late_game() {
    for moves in late_positions(40, 34) {
        let reference = MinimaxMut::just_solve(BitCols::from_moves(&moves));
        assert_eq!(MinimaxClone::just_solve(BitCols::from_moves(&moves)), reference);
        assert_eq!(MinimaxAlphaBeta::just_solve(BitBoard::from_moves(&moves)), reference);
        assert_eq!(MinimaxCached::just_solve(SymmBoard::from_moves(&moves)), reference);
        assert_eq!(MinimaxABCached::just_solve(BitBoard::from_moves(&moves)), reference);
        assert_eq!(MinimaxOrdered::just_solve(BitCols::from_moves(&moves)), reference);
        assert_eq!(MinimaxOrdered::just_solve(BitBoard::from_moves(&moves)), reference);
        assert_eq!(MinimaxAvoidant::just_solve(SymmBoard::from_moves(&moves)), reference);
        assert_eq!(MinimaxAvoidant::just_solve(BitBoard::from_moves(&moves)), reference);
        assert_eq!(
            Deepening::<MinimaxAvoidant>::just_solve(BitBoard::from_moves(&moves)),
            reference
        );
        assert_eq!(MinimaxQuick::just_solve(BitBoard::from_moves(&moves)), reference);
        assert_eq!(MinimaxSymm::just_solve(BitBoard::from_moves(&moves)), reference);
        assert_eq!(MinimaxSymm::just_solve(BitCols::from_moves(&moves)), reference);
    }
}

#[test]
fn fast_solvers_agree_mid_game() {
    for moves in late_positions(20, 26) {
        let reference = MinimaxABCached::just_solve(BitBoard::from_moves(&moves));
        assert_eq!(MinimaxOrdered::just_solve(BitBoard::from_moves(&moves)), reference);
        assert_eq!(MinimaxAvoidant::just_solve(BitBoard::from_moves(&moves)), reference);
        assert_eq!(MinimaxAvoidant::just_solve(BitCols::from_moves(&moves)), reference);
        assert_eq!(MinimaxQuick::just_solve(BitBoard::from_moves(&moves)), reference);
        assert_eq!(Deepening::<MinimaxQuick>::just_solve(BitBoard::from_moves(&moves)), reference);
    }
}

#[test]
fn immediate_win_is_found() {
    // the first player holds three in the bottom row and wins at once
    let moves = Moves::from_string("112233");
    assert_eq!(MinimaxOrdered::just_solve(BitBoard::from_moves(&moves)), 18);
    assert_eq!(MinimaxAvoidant::just_solve(BitBoard::from_moves(&moves)), 18);
    assert_eq!(MinimaxABCached::just_solve(BitCols::from_moves(&moves)), 18);
    assert_eq!(MinimaxQuick::just_solve(BitBoard::from_moves(&moves)), 18);
    assert_eq!(MinimaxSymm::just_solve(BitBoard::from_moves(&moves)), 18);
}

#[test]
fn forced_loss_is_found() {
    // the first player holds an open three in the bottom row: the second
    // player, to move, cannot block both ends and loses at once
    let moves = Moves::from_string("27374");
    let v = MinimaxAvoidant::just_solve(BitBoard::from_moves(&moves));
    assert_eq!(v, -18);
    assert_eq!(MinimaxQuick::just_solve(BitBoard::from_moves(&moves)), -18);
}

#[test]
fn quick_with_two_moves_left() {
    // two cells are left
    let moves = Moves::from_string("1212123434345656567171712323234545456767");
    let board = BitBoard::from_moves(&moves);
    assert_eq!(board.count_moves(), 40);
    let reference = MinimaxMut::just_solve(BitCols::from_moves(&moves));
    assert_eq!(MinimaxQuick::just_solve(board), reference);
    assert_eq!(MinimaxSymm::just_solve(board), reference);
}

#[test]
fn full_board_is_a_draw() {
    let moves = Moves::from_string("121212343434565656717171232323454545676767");
    let board = BitBoard::from_moves(&moves);
    assert_eq!(board.count_moves(), 42);
    assert_eq!(MinimaxAvoidant::just_solve(board), 0);
    assert_eq!(MinimaxOrdered::just_solve(board), 0);
    assert_eq!(MinimaxQuick::just_solve(board), 0);
    assert_eq!(MinimaxSymm::just_solve(board), 0);
    assert_eq!(MinimaxMut::just_solve(BitCols::from_moves(&moves)), 0);
}

#[test]
fn solve_with_patient_manager_continues() {
    let moves = Moves::from_string("4444443333332222221111");
    let mut boss = Logger::new();
    let mut cache = Cache::new_small();
    let r = MinimaxAvoidant::solve(BitBoard::from_moves(&moves), &mut boss, &mut cache);
    let reference = MinimaxABCached::just_solve(BitBoard::from_moves(&moves));
    assert!(matches!(r, ControlFlow::Continue(v) if v == reference));
    let mut laissez = LaissezFaire {};
    let r2 = MinimaxOrdered::solve(WithInfo::<BitBoard>::from_moves(&moves), &mut laissez, &mut Cache::new_small());
    assert!(matches!(r2, ControlFlow::Continue(v) if v == reference));
}

#[test]
fn move_sorter_sorts_descending_and_stable() {
    let mut s = MoveSorter::<7, isize, char>::new();
    assert!(s.is_empty());
    s.push_sorting(1, 'a');
    s.push_sorting(3, 'b');
    s.push_sorting(1, 'c');
    s.push_sorting(2, 'd');
    s.push_sorting(3, 'e');
    assert_eq!(s.len(), 5);
    assert_eq!(s.into_items(), vec!['b', 'e', 'd', 'a', 'c']);
    let t = MoveSorter::<7, isize, char>::from_items(vec![(0, 'x'), (5, 'y'), (0, 'z')]);
    assert_eq!(t.into_items(), vec!['y', 'x', 'z']);
    let u = MoveSorter::<7, usize, u8>::singleton(0, 9);
    assert!(!u.is_empty());
    assert_eq!(u.into_items(), vec![9]);
}

#[test]
fn nbhd_heuristic_value() {
    assert_eq!(NbhdCounts(0, 0, 0, 0).heuristic(), 100);
    assert_eq!(NbhdCounts(1, 2, 3, 4).heuristic(), 10_000 + 4_000 + 100 - 34);
}

#[test]
fn symm_diffs_follow_heights() {
    let one = BitBoard::from_moves(&Moves::from_string("2"));
    let d = SymmDiff::new(&one).unwrap();
    assert_eq!(d.0, [0, -1, 0]);
    let mirrored_pair = BitBoard::from_moves(&Moves::from_string("246"));
    assert_eq!(SymmDiff::new(&mirrored_pair).unwrap().0, [0, 0, 0]);
    // the bottom cells of columns 2 and 6 hold different tokens
    let clash = BitBoard::from_moves(&Moves::from_string("26"));
    assert!(SymmDiff::new(&clash).is_none());
}

#[test]
fn full_board_scores_zero_in_any_window() {
    let moves = Moves::from_string("121212343434565656717171232323454545676767");
    let board = BitBoard::from_moves(&moves);
    for (alpha, beta) in [(100, 200), (-300, -100), (isize::MIN + 1, isize::MAX)] {
        let r = MinimaxAvoidant::minimax(board, &mut LaissezFaire {}, &mut Cache::new_small(), alpha, beta);
        assert!(matches!(r, ControlFlow::Continue(0)));
        let r = MinimaxOrdered::minimax(board, &mut LaissezFaire {}, &mut Cache::new_small(), alpha, beta);
        assert!(matches!(r, ControlFlow::Continue(0)));
        let r = MinimaxABCached::minimax(board, &mut LaissezFaire {}, &mut Cache::new_small(), alpha, beta);
        assert!(matches!(r, ControlFlow::Continue(0)));
    }
}

#[test]
fn any_window_is_accepted() {
    for moves in late_positions(10, 34) {
        let reference = MinimaxMut::just_solve(BitCols::from_moves(&moves));
        let board = BitBoard::from_moves(&moves);
        let wide = |r: ControlFlow<core::convert::Infallible, isize>| match r {
            ControlFlow::Continue(v) => v,
            ControlFlow::Break(_) => unreachable!(),
        };
        let mut cache = Cache::new_small();
        let v = wide(MinimaxQuick::minimax(board, &mut LaissezFaire {}, &mut cache, isize::MIN + 1, isize::MAX));
        assert_eq!(v, reference);
        let mut cache = Cache::new_small();
        let v = wide(MinimaxOrdered::minimax(board, &mut LaissezFaire {}, &mut cache, -1000, 1000));
        assert_eq!(v, reference);
        let mut cache = Cache::new_small();
        let v = wide(MinimaxAvoidant::minimax(board, &mut LaissezFaire {}, &mut cache, 100, 200));
        assert!(v <= 100);
        let mut cache = Cache::new_small();
        let v = wide(MinimaxABCached::minimax(board, &mut LaissezFaire {}, &mut cache, -300, -100));
        assert!(v >= -100);
    }
}
