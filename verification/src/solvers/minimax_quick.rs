use vstd::prelude::*;

use core::ops::ControlFlow;

use crate::basic::column;
use crate::board::bit_board::{lists_col, nonlosing_child, safe_col, BitBoard};
use crate::board::lemmas::{lemma_child, lemma_num_moves_bounds, lemma_value_bounds, lemma_value_is_max};
use crate::board::model::{
    child_score, curr_token, is_placeable, max_moves, num_moves, placed_cols, remaining, value,
    will_lose_eval, will_win_eval, wf_cols,
};
use crate::board::threats::{
    curr_threat, lemma_curr_threat, lemma_no_curr_threat, lemma_opp_reply, lemma_quiet_reply,
    lemma_safe_child, lemma_threat_child,
};
use crate::board::{Board, HashBoard};
use crate::solver_utils::move_sorter::{lemma_sort_all, sort_all, MoveSorter};
use crate::solver_utils::{Cache, Position, SolverManager};
use crate::solvers::search::{all_at_most, covers, lemma_attained, lemma_explore, lemma_fail_low, some_equal};
use crate::solvers::{ab_result, ABSolver, Solver, WINDOW};

verus! {

/// A solver that extends `MinimaxABCached` and relies on `BitBoard`
/// being able to quickly calculate possible non-losing next moves.
/// Credit to
/// [Pascal Pons' Blog](http://blog.gamesolver.org/solving-connect-four/12-lower-bound-transposition-table/)
pub struct MinimaxQuick {}

/// Every column of a non-losing move scores the loss, unless it is safe.
proof fn lemma_unsafe_loses(m: Seq<Seq<crate::basic::Token>>, c: int)
    requires
        wf_cols(m),
        is_placeable(m, c),
        !curr_threat(m, c),
        !safe_col(m, c),
    ensures
        child_score(m, c, remaining(m)) == will_lose_eval(num_moves(m)),
{
    if crate::board::threats::above_threat(m, c) {
        lemma_opp_reply(m, c, c);
    } else {
        let c2 = choose|c2: int| c2 != c && #[trigger] crate::board::threats::opp_threat(m, c2);
        lemma_opp_reply(m, c, c2);
    }
}

impl MinimaxQuick {
    /// Alpha-beta search of a position where the player to move has no
    /// immediate win, exploring only the moves that leave the opponent none.
    /// A position where every move lets the opponent win at once scores the
    /// loss, and one with at most two empty cells and a safe move scores 0,
    /// whatever the window.
    fn search<M: SolverManager>(
        pos: BitBoard,
        boss: &mut M,
        cache: &mut Cache<BitBoard>,
        alpha: isize,
        beta: isize,
    ) -> (r: ControlFlow<M::Break, isize>)
        requires
            pos.inv(),
            old(cache).sound(),
            isize::MIN < alpha < beta,
            forall|c: int| !#[trigger] curr_threat(pos.model(), c),
        ensures
            final(cache).sound(),
            r matches ControlFlow::Continue(v) ==> (v == beta || -WINDOW <= v <= WINDOW) && ab_result(
                v as int,
                alpha as int,
                beta as int,
                value(pos.model()),
            ),
            r matches ControlFlow::Continue(v) ==> num_moves(pos.model()) < max_moves() && (forall|c: int|
                !#[trigger] safe_col(pos.model(), c)) ==> v == will_lose_eval(num_moves(pos.model())),
            r matches ControlFlow::Continue(v) ==> remaining(pos.model()) <= 2 && (num_moves(pos.model())
                == max_moves() || exists|c: int| #[trigger] safe_col(pos.model(), c)) ==> v == 0,
            old(boss).patient() ==> r is Continue && final(boss).patient(),
        decreases remaining(pos.model()), 1nat,
    {
        match boss.check() {
            ControlFlow::Break(b) => return ControlFlow::Break(b),
            ControlFlow::Continue(()) => {},
        }
        if pos.is_full() {
            return ControlFlow::Continue(0);
        }
        let ghost m = pos.model();
        proof {
            pos.lemma_inv();
            lemma_num_moves_bounds(m);
            lemma_value_bounds(m);
            lemma_value_is_max(m);
        }
        let ghost n = num_moves(m);
        let nexts = match pos.possible_nonlosing_nexts() {
            Ok(v) => v,
            Err(()) => {
                proof {
                    let c = choose|c: int| #[trigger] is_placeable(m, c) && child_score(m, c, remaining(m)) == value(m);
                    lemma_unsafe_loses(m, c);
                }
                return ControlFlow::Continue(pos.will_lose_eval());
            },
        };
        proof {
            let c = choose|c: int| #[trigger] safe_col(m, c);
            lemma_no_curr_threat(m);
            if n + 1 < max_moves() {
                lemma_quiet_reply(m, c);
            } else {
                lemma_child(m, c);
                lemma_threat_child(m, c);
            }
        }
        // With at most 2 moves remaining and no win for curr
        // or opp, it must be a draw
        if pos.remaining_moves() <= 2 {
            return ControlFlow::Continue(0);
        }
        Self::search_window(pos, boss, cache, nexts, alpha, beta)
    }

    /// The search of `search`, once the early answers are ruled out, with
    /// the safe moves `nexts`.
    #[verifier::rlimit(60)]
    fn search_window<M: SolverManager>(
        pos: BitBoard,
        boss: &mut M,
        cache: &mut Cache<BitBoard>,
        nexts: Vec<(column::Idx, BitBoard)>,
        alpha: isize,
        beta: isize,
    ) -> (r: ControlFlow<M::Break, isize>)
        requires
            pos.inv(),
            old(cache).sound(),
            isize::MIN < alpha < beta,
            forall|c: int| !#[trigger] curr_threat(pos.model(), c),
            num_moves(pos.model()) + 2 < max_moves(),
            exists|c: int| #[trigger] safe_col(pos.model(), c),
            nexts@.len() <= 7,
            forall|k: int| 0 <= k < nexts@.len() ==> nonlosing_child(pos.model(), #[trigger] nexts@[k]),
            forall|c: int| #[trigger] safe_col(pos.model(), c) ==> lists_col(nexts@, c),
        ensures
            final(cache).sound(),
            r matches ControlFlow::Continue(v) ==> (v == beta || -WINDOW <= v <= WINDOW) && ab_result(
                v as int,
                alpha as int,
                beta as int,
                value(pos.model()),
            ),
            old(boss).patient() ==> r is Continue && final(boss).patient(),
        decreases remaining(pos.model()), 0nat,
    {
        let ghost m = pos.model();
        let ghost n = num_moves(m);
        proof {
            pos.lemma_inv();
            lemma_num_moves_bounds(m);
            lemma_value_bounds(m);
            lemma_value_is_max(m);
            let c = choose|c: int| #[trigger] safe_col(m, c);
            lemma_no_curr_threat(m);
            lemma_quiet_reply(m, c);
        }
        let mut keyed: Vec<(isize, column::Idx)> = Vec::new();
        let mut i: usize = 0;
        while i < nexts.len()
            invariant
                i <= nexts@.len() <= 7,
                keyed@.len() == i,
                forall|j: int| 0 <= j < i ==> (#[trigger] keyed@[j]).1 == nexts@[j].0,
            decreases nexts@.len() - i,
        {
            let h = nexts[i].1.heuristic();
            keyed.push((-h, nexts[i].0));
            i = i + 1;
        }
        let moves = MoveSorter::<7, isize, column::Idx>::from_items(keyed);
        let ghost sorted = moves@;
        proof {
            lemma_sort_all(keyed@);
            sorted.to_multiset_ensures();
            keyed@.to_multiset_ensures();
            assert forall|j: int| 0 <= j < sorted.len() implies #[trigger] safe_col(m, sorted[j].1@ as int) by {
                assert(sorted.contains(sorted[j]));
                assert(sorted.to_multiset().count(sorted[j]) > 0);
                assert(keyed@.to_multiset().count(sorted[j]) > 0);
                assert(keyed@.contains(sorted[j]));
                let q = choose|q: int| 0 <= q < keyed@.len() && keyed@[q] == sorted[j];
                assert(nonlosing_child(m, nexts@[q]));
            }
            assert forall|c: int| #[trigger] safe_col(m, c) implies exists|j: int|
                0 <= j < sorted.len() && sorted[j].1@ == c by {
                assert(lists_col(nexts@, c));
                let q = choose|q: int| 0 <= q < nexts@.len() && nexts@[q].0@ == c;
                assert(keyed@[q].1@ == c);
                assert(keyed@.contains(keyed@[q]));
                assert(keyed@.to_multiset().count(keyed@[q]) > 0);
                assert(sorted.to_multiset().count(keyed@[q]) > 0);
                assert(sorted.contains(keyed@[q]));
            }
        }
        let prev_alpha = alpha;
        let mut lo = alpha;
        let mut hi = beta;
        let lose = pos.will_lose_eval() + 1;
        if lose > lo {
            lo = lose;
        }
        let win = pos.will_win_eval() - 1;
        if win < hi {
            hi = win;
        }
        let (lo1, hi1) = cache.get_and_bound(&pos, lo, hi);
        lo = lo1;
        hi = hi1;
        if lo >= hi {
            return ControlFlow::Continue(hi);
        }
        let ghost a_start = lo;
        let items = moves.into_items();
        let ghost mut explored: Set<int> = Set::new(
            |c: int| is_placeable(m, c) && !(exists|j: int| 0 <= j < sorted.len() && sorted[j].1@ == c),
        );
        proof {
            assert forall|c: int| explored.contains(c) && is_placeable(m, c) implies #[trigger] child_score(
                m,
                c,
                remaining(m),
            ) <= lo by {
                if safe_col(m, c) {
                    let j = choose|j: int| 0 <= j < sorted.len() && sorted[j].1@ == c;
                }
                lemma_unsafe_loses(m, c);
            }
        }
        let mut k: usize = 0;
        while k < items.len()
            invariant
                pos.inv(),
                pos.model() == m,
                wf_cols(m),
                n == num_moves(m),
                n + 2 < max_moves(),
                items@.len() == sorted.len(),
                forall|j: int| 0 <= j < items@.len() ==> items@[j] == (#[trigger] sorted[j]).1,
                forall|j: int| 0 <= j < sorted.len() ==> #[trigger] safe_col(m, sorted[j].1@ as int),
                forall|c: int| !#[trigger] curr_threat(m, c),
                k <= items@.len(),
                forall|c: int|
                    #[trigger] explored.contains(c) <==> (is_placeable(m, c) && !(exists|j: int|
                        0 <= j < sorted.len() && sorted[j].1@ == c)) || (exists|j: int|
                        0 <= j < k && items@[j]@ == c),
                prev_alpha == alpha,
                alpha < beta,
                -WINDOW <= a_start,
                hi <= WINDOW,
                alpha <= a_start <= lo < hi <= beta,
                a_start == alpha || value(m) >= a_start,
                hi < beta ==> value(m) <= hi,
                hi <= will_win_eval(num_moves(m)),
                value(m) <= will_win_eval(num_moves(m)),
                all_at_most(m, explored, lo as int),
                lo == a_start || some_equal(m, explored, lo as int),
                cache.sound(),
                old(boss).patient() ==> boss.patient(),
            decreases items@.len() - k,
        {
            let col = items[k];
            proof {
                assert(safe_col(m, sorted[k as int].1@ as int));
                lemma_child(m, col@ as int);
                lemma_threat_child(m, col@ as int);
                lemma_safe_child(m, col@ as int);
            }
            let next_pos = pos.placed_curr_unchecked(col);
            let score = match Self::search(next_pos, boss, cache, -hi, -lo) {
                ControlFlow::Break(b) => return ControlFlow::Break(b),
                ControlFlow::Continue(e) => -e,
            };
            let ghost prev = lo;
            if score > lo {
                lo = score;
            }
            if lo >= hi {
                proof {
                    assert(child_score(m, col@ as int, remaining(m)) >= lo);
                }
                cache.insert_bounded(&pos, prev_alpha, lo, hi);
                return ControlFlow::Continue(lo);
            }
            proof {
                lemma_explore(m, explored, prev as int, col@ as int, lo as int);
                assert(explored.insert(col@ as int) =~= Set::new(|c: int| (is_placeable(m, c) && !(exists|j: int|
                    0 <= j < sorted.len() && sorted[j].1@ == c)) || (exists|j: int|
                    0 <= j < k + 1 && items@[j]@ == c)));
                explored = explored.insert(col@ as int);
            }
            k = k + 1;
        }
        proof {
            assert(covers(m, explored)) by {
                assert forall|c: int| #[trigger] is_placeable(m, c) implies explored.contains(c) by {
                    if exists|j: int| 0 <= j < sorted.len() && sorted[j].1@ == c {
                        let j = choose|j: int| 0 <= j < sorted.len() && sorted[j].1@ == c;
                        assert(items@[j]@ == c);
                    }
                }
            }
            lemma_fail_low(m, explored, lo as int);
            if lo != a_start {
                lemma_attained(m, explored, lo as int);
            }
        }
        cache.insert_bounded(&pos, prev_alpha, lo, hi);
        ControlFlow::Continue(lo)
    }
}

impl ABSolver<BitBoard> for MinimaxQuick {
    fn minimax<M: SolverManager>(
        pos: BitBoard,
        boss: &mut M,
        cache: &mut Cache<BitBoard>,
        alpha: isize,
        beta: isize,
    ) -> (r: ControlFlow<M::Break, isize>)
        ensures
            r matches ControlFlow::Continue(v) ==> (forall|c: int| !#[trigger] curr_threat(pos.model(), c))
                && num_moves(pos.model()) < max_moves() && (forall|c: int|
                !#[trigger] safe_col(pos.model(), c)) ==> v == will_lose_eval(num_moves(pos.model())),
            r matches ControlFlow::Continue(v) ==> (forall|c: int| !#[trigger] curr_threat(pos.model(), c))
                && remaining(pos.model()) <= 2 && (num_moves(pos.model()) == max_moves() || exists|c: int|
                #[trigger] safe_col(pos.model(), c)) ==> v == 0,
    {
        // The search itself never meets a position with an immediate win:
        // only a position handed in from outside can have one.
        if pos.curr_can_win() {
            proof {
                pos.lemma_inv();
                let c = choose|c: int| curr_threat(pos.model(), c);
                lemma_curr_threat(pos.model(), c);
                lemma_num_moves_bounds(pos.model());
            }
            return ControlFlow::Continue(pos.will_win_eval());
        }
        Self::search(pos, boss, cache, alpha, beta)
    }
}

impl Solver<BitBoard> for MinimaxQuick {
    fn solve<M: SolverManager>(pos: BitBoard, boss: &mut M, cache: &mut Cache<BitBoard>) -> (r: ControlFlow<
        M::Break,
        isize,
    >) {
        proof {
            pos.lemma_inv();
            lemma_num_moves_bounds(pos.model());
            lemma_value_bounds(pos.model());
        }
        let min = pos.will_lose_eval();
        let max = pos.will_win_eval();
        if min == max {
            // only a full board leaves no room between the two
            return Self::minimax(pos, boss, cache, min - 1, max + 1);
        }
        Self::minimax(pos, boss, cache, min, max)
    }
}

} // verus!
