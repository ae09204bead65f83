use vstd::prelude::*;

use core::ops::ControlFlow;

use crate::basic::column;
use crate::basic::column::centred_index;
use crate::board::lemmas::{lemma_centred_onto, lemma_child, lemma_num_moves_bounds, lemma_value_bounds};
use crate::board::model::{curr_token, is_placeable, max_moves, num_moves, remaining, value, will_win_eval, wf_cols};
use crate::board::{CloneBoard, HashBoard};
use crate::solver_utils::{Cache, Position, SolverManager};
use crate::solvers::search::{all_at_most, covers, lemma_attained, lemma_explore, lemma_fail_low, some_equal};
use crate::solvers::{ab_result, Solver, WINDOW};

verus! {

/// The columns `centred_index(0..i)`.
pub open spec fn centred_prefix(i: int) -> Set<int> {
    Set::new(|c: int| exists|j: int| 0 <= j < i && c == #[trigger] centred_index(j))
}

/// The whole centred order covers every playable column.
pub proof fn lemma_centred_prefix_covers(m: Seq<Seq<crate::basic::Token>>)
    ensures
        covers(m, centred_prefix(7)),
{
    assert forall|c: int| #[trigger] is_placeable(m, c) implies centred_prefix(7).contains(c) by {
        let j = lemma_centred_onto(c);
    }
}

/// The centred prefix grows by the next column.
pub proof fn lemma_centred_prefix_step(i: int)
    requires
        0 <= i,
    ensures
        centred_prefix(i + 1) == centred_prefix(i).insert(centred_index(i)),
{
    assert(centred_prefix(i + 1) =~= centred_prefix(i).insert(centred_index(i)));
}

/// Extends `MinimaxClone` with alpha-beta pruning.
pub struct MinimaxAlphaBeta {}

impl MinimaxAlphaBeta {
    /// Alpha-beta search of `pos` in the window `(alpha, beta)`.
    fn minimax<P: Position + CloneBoard, M: SolverManager>(
        pos: &P,
        boss: &mut M,
        alpha: isize,
        beta: isize,
    ) -> (r: ControlFlow<M::Break, isize>)
        requires
            pos.inv(),
            -WINDOW <= alpha < beta <= WINDOW,
        ensures
            r matches ControlFlow::Continue(v) ==> -WINDOW <= v <= WINDOW && ab_result(
                v as int,
                alpha as int,
                beta as int,
                value(pos.model()),
            ),
            old(boss).patient() ==> r is Continue && final(boss).patient(),
        decreases remaining(pos.model()),
    {
        match boss.check() {
            ControlFlow::Break(b) => return ControlFlow::Break(b),
            ControlFlow::Continue(()) => {},
        }
        if pos.is_full() {
            return ControlFlow::Continue(0);
        }
        let ghost m = pos.model();
        let ghost alpha0 = alpha;
        let ghost beta0 = beta;
        proof {
            pos.lemma_inv();
            lemma_num_moves_bounds(m);
            lemma_value_bounds(m);
        }
        let mut lo = alpha;
        let mut hi = beta;
        let win = pos.will_win_eval();
        if win < hi {
            hi = win;
        }
        if lo >= hi {
            return ControlFlow::Continue(hi);
        }
        let t = pos.curr();
        let ghost mut explored: Set<int> = Set::empty();
        let mut i: usize = 0;
        while i < column::COUNT
            invariant
                pos.inv(),
                pos.model() == m,
                wf_cols(m),
                num_moves(m) < max_moves(),
                t == curr_token(num_moves(m)),
                i <= 7,
                explored == centred_prefix(i as int),
                -WINDOW <= alpha0 <= lo < hi <= beta0 <= WINDOW,
                alpha0 == alpha,
                beta0 == beta,
                hi <= will_win_eval(num_moves(m)),
                hi < beta0 ==> hi == will_win_eval(num_moves(m)),
                value(m) <= will_win_eval(num_moves(m)),
                all_at_most(m, explored, lo as int),
                lo == alpha0 || some_equal(m, explored, lo as int),
                old(boss).patient() ==> boss.patient(),
            decreases 7 - i,
        {
            let col = column::centred(i);
            proof {
                lemma_centred_prefix_step(i as int);
            }
            match pos.placed(col, t) {
                None => {
                    proof {
                        lemma_explore(m, explored, lo as int, col@ as int, lo as int);
                        explored = explored.insert(col@ as int);
                    }
                },
                Some(next_pos) => {
                    proof {
                        lemma_child(m, col@ as int);
                    }
                    if next_pos.is_won_at_col(col) {
                        return ControlFlow::Continue(next_pos.just_won_eval());
                    }
                    let eval = match Self::minimax(&next_pos, boss, -hi, -lo) {
                        ControlFlow::Break(b) => return ControlFlow::Break(b),
                        ControlFlow::Continue(e) => -e,
                    };
                    proof {
                        let m2 = next_pos.model();
                        assert(m2[col@ as int].len() - 1 == m[col@ as int].len());
                        assert(m2[col@ as int].last() == t);
                        assert(crate::board::model::child_score(m, col@ as int, remaining(m)) == -value(m2));
                    }
                    if eval >= hi {
                        proof {
                            let cs = crate::board::model::child_score(m, col@ as int, remaining(m));
                            assert(cs >= eval);
                            assert(cs <= value(m));
                        }
                        return ControlFlow::Continue(eval);
                    }
                    let ghost prev = lo;
                    if eval > lo {
                        lo = eval;
                    }
                    proof {
                        lemma_explore(m, explored, prev as int, col@ as int, lo as int);
                        explored = explored.insert(col@ as int);
                    }
                },
            }
            i = i + 1;
        }
        proof {
            lemma_centred_prefix_covers(m);
            lemma_fail_low(m, explored, lo as int);
            if lo != alpha0 {
                lemma_attained(m, explored, lo as int);
            }
        }
        ControlFlow::Continue(lo)
    }
}

impl<P: Position + CloneBoard + HashBoard> Solver<P> for MinimaxAlphaBeta {
    fn solve<M: SolverManager>(pos: P, boss: &mut M, _cache: &mut Cache<P>) -> (r: ControlFlow<
        M::Break,
        isize,
    >) {
        proof {
            pos.lemma_inv();
            lemma_num_moves_bounds(pos.model());
            lemma_value_bounds(pos.model());
        }
        let lose = pos.will_lose_eval();
        let win = pos.will_win_eval();
        if lose == win {
            // only a full board leaves no room between the two
            return Self::minimax(&pos, boss, lose - 1, win + 1);
        }
        Self::minimax(&pos, boss, lose, win)
    }
}

} // verus!
