use vstd::prelude::*;

use core::ops::ControlFlow;

use crate::basic::column;
use crate::board::lemmas::{lemma_child, lemma_num_moves_bounds, lemma_value_bounds};
use crate::board::model::{
    child_score, curr_token, max_moves, num_moves, remaining, value, will_win_eval, wf_cols,
};
use crate::board::{CloneBoard, HashBoard};
use crate::solver_utils::{Cache, Position, SolverManager};
use crate::solvers::minimax_alphabeta::{
    centred_prefix, lemma_centred_prefix_covers, lemma_centred_prefix_step,
};
use crate::solvers::search::{
    all_at_most, lemma_attained, lemma_explore, lemma_fail_low, some_equal,
};
use crate::solvers::{ab_result, ABSolver, Solver, WINDOW};

verus! {

/// Combines `MinimaxAlphaBeta` and `MinimaxCached`,
/// a solver that caches results as lower, exact or upper bounds.
pub struct MinimaxABCached {}

impl<P: Position + CloneBoard + HashBoard> ABSolver<P> for MinimaxABCached {
    fn minimax<M: SolverManager>(
        pos: P,
        boss: &mut M,
        cache: &mut Cache<P>,
        alpha: isize,
        beta: isize,
    ) -> (r: ControlFlow<M::Break, isize>)
        decreases remaining(pos.model()),
    {
        match boss.check() {
            ControlFlow::Break(b) => return ControlFlow::Break(b),
            ControlFlow::Continue(()) => {},
        }
        if pos.is_full() {
            return ControlFlow::Continue(0);
        }
        let ghost m = pos.model();
        proof {
            pos.lemma_inv();
            lemma_num_moves_bounds(m);
            lemma_value_bounds(m);
        }
        let prev_alpha = alpha;
        let mut hi = beta;
        let win = pos.will_win_eval();
        if win < hi {
            hi = win;
        }
        let (lo0, hi0) = cache.get_and_bound(&pos, alpha, hi);
        let mut lo = lo0;
        hi = hi0;
        if lo >= hi {
            return ControlFlow::Continue(hi);
        }
        let ghost a_start = lo;
        let t = pos.curr();
        let ghost mut explored: Set<int> = Set::empty();
        let mut i: usize = 0;
        while i < column::COUNT
            invariant
                pos.inv(),
                pos.model() == m,
                wf_cols(m),
                num_moves(m) < max_moves(),
                t == curr_token(num_moves(m)),
                i <= 7,
                explored == centred_prefix(i as int),
                prev_alpha == alpha,
                alpha < beta,
                alpha <= a_start <= lo < hi <= beta,
                isize::MIN < alpha,
                hi <= WINDOW,
                lo == alpha || -WINDOW <= lo,
                a_start == alpha || value(m) >= a_start,
                hi < beta ==> value(m) <= hi,
                hi <= will_win_eval(num_moves(m)),
                value(m) <= will_win_eval(num_moves(m)),
                all_at_most(m, explored, lo as int),
                lo == a_start || some_equal(m, explored, lo as int),
                cache.sound(),
                old(boss).patient() ==> boss.patient(),
            decreases 7 - i,
        {
            let col = column::centred(i);
            proof {
                lemma_centred_prefix_step(i as int);
            }
            match pos.placed(col, t) {
                None => {
                    proof {
                        lemma_explore(m, explored, lo as int, col@ as int, lo as int);
                        explored = explored.insert(col@ as int);
                    }
                },
                Some(next_pos) => {
                    proof {
                        lemma_child(m, col@ as int);
                    }
                    if next_pos.is_won_at_col(col) {
                        let best = next_pos.just_won_eval();
                        cache.insert_bounded(&pos, prev_alpha, best, hi);
                        return ControlFlow::Continue(best);
                    }
                    proof {
                        let m2 = next_pos.model();
                        assert(m2[col@ as int].len() - 1 == m[col@ as int].len());
                        assert(m2[col@ as int].last() == t);
                        assert(child_score(m, col@ as int, remaining(m)) == -value(m2));
                    }
                    let score = match Self::minimax(next_pos, boss, cache, -hi, -lo) {
                        ControlFlow::Break(b) => return ControlFlow::Break(b),
                        ControlFlow::Continue(e) => -e,
                    };
                    let ghost prev = lo;
                    if score > lo {
                        lo = score;
                    }
                    if lo >= hi {
                        proof {
                            assert(child_score(m, col@ as int, remaining(m)) >= lo);
                        }
                        cache.insert_bounded(&pos, prev_alpha, lo, hi);
                        return ControlFlow::Continue(lo);
                    }
                    proof {
                        lemma_explore(m, explored, prev as int, col@ as int, lo as int);
                        explored = explored.insert(col@ as int);
                    }
                },
            }
            i = i + 1;
        }
        proof {
            lemma_centred_prefix_covers(m);
            lemma_fail_low(m, explored, lo as int);
            if lo != a_start {
                lemma_attained(m, explored, lo as int);
            }
        }
        cache.insert_bounded(&pos, prev_alpha, lo, hi);
        ControlFlow::Continue(lo)
    }
}

impl<P: Position + CloneBoard + HashBoard> Solver<P> for MinimaxABCached {
    fn solve<M: SolverManager>(pos: P, boss: &mut M, cache: &mut Cache<P>) -> (r: ControlFlow<
        M::Break,
        isize,
    >) {
        proof {
            pos.lemma_inv();
            lemma_num_moves_bounds(pos.model());
            lemma_value_bounds(pos.model());
        }
        let min = pos.will_lose_eval();
        let max = pos.will_win_eval();
        if min == max {
            // only a full board leaves no room between the two
            return Self::minimax(pos, boss, cache, min - 1, max + 1);
        }
        Self::minimax(pos, boss, cache, min, max)
    }
}

} // verus!
