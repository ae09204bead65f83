pub mod minimax_ab_cached;
pub mod minimax_alphabeta;
pub mod minimax_avoidant;
pub mod minimax_basic;
pub mod minimax_cached;
pub mod minimax_deepening;
pub mod minimax_ordered;
pub mod minimax_quick;
pub mod minimax_symm;
pub mod search;

use vstd::prelude::*;

use core::ops::ControlFlow;

use crate::board::model::value;
use crate::board::HashBoard;
use crate::solver_utils::{Cache, LaissezFaire, Position, SolverManager};

pub use minimax_ab_cached::MinimaxABCached;
pub use minimax_alphabeta::MinimaxAlphaBeta;
pub use minimax_avoidant::MinimaxAvoidant;
pub use minimax_basic::{MinimaxClone, MinimaxMut};
pub use minimax_cached::MinimaxCached;
pub use minimax_deepening::Deepening;
pub use minimax_ordered::MinimaxOrdered;
pub use minimax_quick::MinimaxQuick;
pub use minimax_symm::MinimaxSymm;

verus! {

/// Widest search window a solver accepts.
pub const WINDOW: isize = 64;

/// What an alpha-beta search with window `(alpha, beta)` may return for a
/// position of value `val`: an upper bound when it fails low, a lower bound
/// when it fails high, and the exact value inside the window.
pub open spec fn ab_result(v: int, alpha: int, beta: int, val: int) -> bool {
    &&& (v <= alpha ==> val <= v)
    &&& (v >= beta ==> val >= v)
    &&& (alpha < v < beta ==> val == v)
}

/// A trait for solvers: each computes the value of a position.
/// May or may not use a cache.
pub trait Solver<P: Position + HashBoard> {
    /// The value of `pos`, unless the manager breaks first; a sound cache stays sound.
    fn solve<M: SolverManager>(pos: P, boss: &mut M, cache: &mut Cache<P>) -> (r: ControlFlow<
        M::Break,
        isize,
    >)
        requires
            pos.inv(),
            old(cache).sound(),
        ensures
            final(cache).sound(),
            r matches ControlFlow::Continue(v) ==> v == value(pos.model()),
            old(boss).patient() ==> r is Continue && final(boss).patient(),
    ;

    /// The value of `pos`, computed without interruption and with a fresh small cache.
    fn just_solve(pos: P) -> (v: isize)
        requires
            pos.inv(),
        ensures
            v == value(pos.model()),
    {
        let mut boss = LaissezFaire {};
        let mut cache = Cache::new_small();
        match Self::solve(pos, &mut boss, &mut cache) {
            ControlFlow::Continue(score) => score,
            ControlFlow::Break(_) => {
                proof {
                    assert(false);
                }
                0
            },
        }
    }
}

/// A subtrait of `Solver` that uses alpha-beta pruning.
pub trait ABSolver<P: Position + HashBoard>: Solver<P> {
    /// Alpha-beta search of `pos` in the window `(alpha, beta)`.
    fn minimax<M: SolverManager>(
        pos: P,
        boss: &mut M,
        cache: &mut Cache<P>,
        alpha: isize,
        beta: isize,
    ) -> (r: ControlFlow<M::Break, isize>)
        requires
            pos.inv(),
            old(cache).sound(),
            isize::MIN < alpha < beta,
        ensures
            final(cache).sound(),
            r matches ControlFlow::Continue(v) ==> (v == beta || -WINDOW <= v <= WINDOW) && ab_result(
                v as int,
                alpha as int,
                beta as int,
                value(pos.model()),
            ),
            old(boss).patient() ==> r is Continue && final(boss).patient(),
    ;
}

} // verus!
