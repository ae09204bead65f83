use vstd::prelude::*;

use core::ops::ControlFlow;

use crate::basic::column;
use crate::board::lemmas::{lemma_best_child_step, lemma_child, lemma_num_moves_bounds};
use crate::board::model::{curr_token, max_moves, num_moves, remaining, value, wf_cols};
use crate::board::{CloneBoard, HashBoard};
use crate::solver_utils::{Cache, Position, SolverManager};
use crate::solvers::minimax_basic::{lemma_best_is_value, tracks_best};
use crate::solvers::Solver;

verus! {

/// Extends `MinimaxClone` with caching of exact values.
pub struct MinimaxCached {}

impl MinimaxCached {
    /// Value of `pos` by full search, reusing and recording exact values in the cache.
    fn minimax<P: Position + CloneBoard + HashBoard, M: SolverManager>(
        pos: P,
        boss: &mut M,
        cache: &mut Cache<P>,
    ) -> (r: ControlFlow<M::Break, isize>)
        requires
            pos.inv(),
            old(cache).sound(),
        ensures
            final(cache).sound(),
            r matches ControlFlow::Continue(v) ==> v == value(pos.model()),
            old(boss).patient() ==> r is Continue && final(boss).patient(),
        decreases remaining(pos.model()),
    {
        match boss.check() {
            ControlFlow::Break(b) => return ControlFlow::Break(b),
            ControlFlow::Continue(()) => {},
        }
        if pos.is_full() {
            return ControlFlow::Continue(0);
        }
        match cache.get(&pos) {
            Some((lower, upper)) => {
                if lower == upper {
                    return ControlFlow::Continue(lower);
                }
            },
            None => {},
        }
        let ghost m = pos.model();
        let ghost d = remaining(m);
        proof {
            pos.lemma_inv();
            lemma_num_moves_bounds(m);
        }
        let t = pos.curr();
        let mut best: isize = isize::MIN;
        let mut i: usize = 0;
        while i < column::COUNT
            invariant
                pos.inv(),
                pos.model() == m,
                wf_cols(m),
                d == remaining(m),
                num_moves(m) < max_moves(),
                t == curr_token(num_moves(m)),
                i <= 7,
                tracks_best(best, m, d, i as nat),
                cache.sound(),
                old(boss).patient() ==> boss.patient(),
            decreases 7 - i,
        {
            let col = column::centred(i);
            proof {
                lemma_best_child_step(m, d, i as nat);
            }
            match pos.placed(col, t) {
                None => {},
                Some(next_pos) => {
                    proof {
                        lemma_child(m, col@ as int);
                    }
                    if next_pos.is_won_at_col(col) {
                        let best = next_pos.just_won_eval();
                        cache.insert(&pos, best, best);
                        return ControlFlow::Continue(best);
                    }
                    let eval = match Self::minimax(next_pos, boss, cache) {
                        ControlFlow::Break(b) => return ControlFlow::Break(b),
                        ControlFlow::Continue(e) => -e,
                    };
                    if eval > best {
                        best = eval;
                    }
                },
            }
            i = i + 1;
        }
        proof {
            lemma_best_is_value(best, m);
        }
        cache.insert(&pos, best, best);
        ControlFlow::Continue(best)
    }
}

impl<P: Position + CloneBoard + HashBoard> Solver<P> for MinimaxCached {
    fn solve<M: SolverManager>(pos: P, boss: &mut M, cache: &mut Cache<P>) -> (r: ControlFlow<
        M::Break,
        isize,
    >) {
        Self::minimax(pos, boss, cache)
    }
}

} // verus!
