use vstd::prelude::*;

use core::marker::PhantomData;
use core::ops::ControlFlow;

use crate::board::lemmas::{lemma_num_moves_bounds, lemma_value_bounds, lemma_value_is_max, lemma_child};
use crate::board::model::{
    child_score, curr_token, is_placeable, num_moves, placed_cols, remaining, value,
    will_lose_eval, will_win_eval, wf_cols, wins_at,
};
use crate::board::{CloneBoard, HashBoard};
use crate::solver_utils::{Cache, Position, SolverManager};
use crate::solvers::{ab_result, ABSolver, Solver};

verus! {

/// A solver that wraps an alpha-beta solver and narrows the value down
/// with null-window searches.
pub struct Deepening<S> {
    pd: PhantomData<S>,
}

/// Without a winning move, the value is below the winning score.
proof fn lemma_no_win_below(m: Seq<Seq<crate::basic::Token>>)
    requires
        wf_cols(m),
        num_moves(m) < 42,
        !exists|c: int|
            #[trigger] is_placeable(m, c) && wins_at(
                placed_cols(m, c, curr_token(num_moves(m))),
                c,
                m[c].len() as int,
                curr_token(num_moves(m)),
            ),
    ensures
        value(m) <= will_win_eval(num_moves(m)) - 1,
{
    lemma_value_is_max(m);
    let c = choose|c: int| #[trigger] is_placeable(m, c) && child_score(m, c, remaining(m)) == value(m);
    lemma_child(m, c);
}

impl<P: Position + CloneBoard + HashBoard, S: ABSolver<P>> Solver<P> for Deepening<S> {
    fn solve<M: SolverManager>(pos: P, boss: &mut M, cache: &mut Cache<P>) -> (r: ControlFlow<
        M::Break,
        isize,
    >) {
        proof {
            pos.lemma_inv();
            lemma_num_moves_bounds(pos.model());
            lemma_value_bounds(pos.model());
        }
        let ghost m = pos.model();
        if pos.can_win(pos.curr()) {
            proof {
                let c = choose|c: int|
                    #[trigger] is_placeable(m, c) && wins_at(
                        placed_cols(m, c, curr_token(num_moves(m))),
                        c,
                        m[c].len() as int,
                        curr_token(num_moves(m)),
                    );
                lemma_child(m, c);
            }
            return ControlFlow::Continue(pos.will_win_eval());
        }
        match boss.check() {
            ControlFlow::Break(b) => return ControlFlow::Break(b),
            ControlFlow::Continue(()) => {},
        }
        if pos.is_full() {
            // no room for a search window: the game is a draw
            return ControlFlow::Continue(0);
        }
        proof {
            lemma_no_win_below(m);
        }
        let mut min = pos.will_lose_eval();
        let mut max = pos.will_win_eval() - 1;
        while min < max
            invariant
                pos.inv(),
                pos.model() == m,
                -21 <= min <= value(m) <= max <= 21,
                cache.sound(),
                old(boss).patient() ==> boss.patient(),
            decreases max - min,
        {
            let mut mid = min + (max - min) / 2;
            if mid <= 0 && min / 2 < mid {
                mid = min / 2;
            }
            if mid >= 0 && max / 2 > mid {
                mid = max / 2;
            }
            let score = match S::minimax(pos, boss, cache, mid, mid + 1) {
                ControlFlow::Break(b) => return ControlFlow::Break(b),
                ControlFlow::Continue(score) => score,
            };
            if score <= mid {
                max = score;
            } else {
                min = score;
            }
        }
        ControlFlow::Continue(min)
    }
}

} // verus!
