use vstd::prelude::*;

use core::ops::ControlFlow;

use crate::basic::column;
use crate::board::lemmas::{
    lemma_best_child_ge, lemma_best_child_step, lemma_centred_onto, lemma_child,
    lemma_num_moves_bounds, lemma_not_full, lemma_place_unplace,
};
use crate::board::model::{
    best_child, curr_token, max_moves, no_score, num_moves, remaining, value, wf_cols,
};
use crate::board::{CloneBoard, HashBoard, MutBoard};
use crate::solver_utils::{Cache, Position, SolverManager};
use crate::solvers::Solver;

verus! {

/// The running best of a search over the first `i` centred columns:
/// `isize::MIN` while no column could be played.
pub open spec fn tracks_best(best: isize, m: Seq<Seq<crate::basic::Token>>, d: nat, i: nat) -> bool {
    ||| best == isize::MIN && best_child(m, d, i) == no_score()
    ||| best == best_child(m, d, i) && -21 <= best <= 21
}

/// After all seven columns, the running best is the value.
pub proof fn lemma_best_is_value(best: isize, m: Seq<Seq<crate::basic::Token>>)
    requires
        wf_cols(m),
        num_moves(m) < max_moves(),
        tracks_best(best, m, remaining(m), 7),
    ensures
        best == value(m),
{
    let c = lemma_not_full(m);
    let j = lemma_centred_onto(c);
    lemma_best_child_ge(m, remaining(m), 7, j);
    lemma_child(m, c);
}

/// A basic minimax solver that uses a mutable board.
pub struct MinimaxMut {}

impl MinimaxMut {
    /// Value of `pos` by full search, placing and unplacing on the same board.
    fn minimax<P: Position + MutBoard, M: SolverManager>(pos: &mut P, boss: &mut M) -> (r: ControlFlow<
        M::Break,
        isize,
    >)
        requires
            old(pos).inv(),
        ensures
            final(pos).inv(),
            r is Continue ==> final(pos).model() == old(pos).model(),
            r matches ControlFlow::Continue(v) ==> v == value(old(pos).model()),
            old(boss).patient() ==> r is Continue && final(boss).patient(),
        decreases remaining(old(pos).model()),
    {
        match boss.check() {
            ControlFlow::Break(b) => return ControlFlow::Break(b),
            ControlFlow::Continue(()) => {},
        }
        if pos.is_full() {
            return ControlFlow::Continue(0);
        }
        let ghost m = pos.model();
        let ghost d = remaining(m);
        proof {
            pos.lemma_inv();
            lemma_num_moves_bounds(m);
        }
        let mut best: isize = isize::MIN;
        let mut i: usize = 0;
        while i < column::COUNT
            invariant
                pos.inv(),
                pos.model() == m,
                m == old(pos).model(),
                wf_cols(m),
                d == remaining(m),
                num_moves(m) < max_moves(),
                i <= 7,
                tracks_best(best, m, d, i as nat),
                old(boss).patient() ==> boss.patient(),
            decreases 7 - i,
        {
            let col = column::centred(i);
            proof {
                lemma_best_child_step(m, d, i as nat);
            }
            let ghost t = curr_token(num_moves(m));
            match pos.place_curr(col) {
                None => {},
                Some(cell) => {
                    proof {
                        lemma_child(m, col@ as int);
                        lemma_place_unplace(m, col@ as int, t);
                    }
                    if pos.is_won_at(cell) {
                        let eval = pos.just_won_eval();
                        pos.unplace(col);
                        return ControlFlow::Continue(eval);
                    }
                    let eval = match Self::minimax(pos, boss) {
                        ControlFlow::Break(b) => return ControlFlow::Break(b),
                        ControlFlow::Continue(e) => -e,
                    };
                    pos.unplace(col);
                    if eval > best {
                        best = eval;
                    }
                },
            }
            i = i + 1;
        }
        proof {
            lemma_best_is_value(best, m);
        }
        ControlFlow::Continue(best)
    }
}

impl<P: Position + MutBoard + HashBoard> Solver<P> for MinimaxMut {
    fn solve<M: SolverManager>(pos: P, boss: &mut M, _cache: &mut Cache<P>) -> (r: ControlFlow<
        M::Break,
        isize,
    >) {
        let mut pos = pos;
        Self::minimax(&mut pos, boss)
    }
}

/// A basic minimax solver that uses a clone board.
pub struct MinimaxClone {}

impl MinimaxClone {
    /// Value of `pos` by full search over cloned child boards.
    fn minimax<P: Position + CloneBoard, M: SolverManager>(pos: P, boss: &mut M) -> (r: ControlFlow<
        M::Break,
        isize,
    >)
        requires
            pos.inv(),
        ensures
            r matches ControlFlow::Continue(v) ==> v == value(pos.model()),
            old(boss).patient() ==> r is Continue && final(boss).patient(),
        decreases remaining(pos.model()),
    {
        match boss.check() {
            ControlFlow::Break(b) => return ControlFlow::Break(b),
            ControlFlow::Continue(()) => {},
        }
        if pos.is_full() {
            return ControlFlow::Continue(0);
        }
        let ghost m = pos.model();
        let ghost d = remaining(m);
        proof {
            pos.lemma_inv();
            lemma_num_moves_bounds(m);
        }
        let t = pos.curr();
        let mut best: isize = isize::MIN;
        let mut i: usize = 0;
        while i < column::COUNT
            invariant
                pos.inv(),
                pos.model() == m,
                wf_cols(m),
                d == remaining(m),
                num_moves(m) < max_moves(),
                t == curr_token(num_moves(m)),
                i <= 7,
                tracks_best(best, m, d, i as nat),
                old(boss).patient() ==> boss.patient(),
            decreases 7 - i,
        {
            let col = column::centred(i);
            proof {
                lemma_best_child_step(m, d, i as nat);
            }
            match pos.placed(col, t) {
                None => {},
                Some(next_pos) => {
                    proof {
                        lemma_child(m, col@ as int);
                    }
                    if next_pos.is_won_at_col(col) {
                        return ControlFlow::Continue(next_pos.just_won_eval());
                    }
                    let eval = match Self::minimax(next_pos, boss) {
                        ControlFlow::Break(b) => return ControlFlow::Break(b),
                        ControlFlow::Continue(e) => -e,
                    };
                    if eval > best {
                        best = eval;
                    }
                },
            }
            i = i + 1;
        }
        proof {
            lemma_best_is_value(best, m);
        }
        ControlFlow::Continue(best)
    }
}

impl<P: Position + CloneBoard + HashBoard> Solver<P> for MinimaxClone {
    fn solve<M: SolverManager>(pos: P, boss: &mut M, _cache: &mut Cache<P>) -> (r: ControlFlow<
        M::Break,
        isize,
    >) {
        Self::minimax(pos, boss)
    }
}

} // verus!
