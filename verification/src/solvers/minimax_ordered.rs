use vstd::prelude::*;

use core::ops::ControlFlow;

use crate::basic::{column, Token};
use crate::board::lemmas::{lemma_child, lemma_num_moves_bounds, lemma_value_bounds, lemma_value_is_max};
use crate::board::model::{
    adjacent_counts, child_score, curr_token, is_placeable, max_moves, num_moves, placed_cols,
    remaining, value, will_lose_eval, will_win_eval, wf_cols, wins_at,
};
use crate::board::{lemma_open_cols, open_centred, CloneBoard, HashBoard};
use crate::solver_utils::move_sorter::{lemma_insert_pos, lemma_sort_all, sort_all, MoveSorter};
use crate::solver_utils::{Cache, Position, SolverManager};
use crate::solvers::search::{all_at_most, covers, lemma_attained, lemma_explore, lemma_fail_low, some_equal};
use crate::solvers::{ABSolver, Solver, WINDOW};

verus! {

/// A child found while collecting moves: the column, the board after the
/// player to move drops there, and that this move does not win at once.
pub open spec fn quiet_child<P: Position>(
    m: Seq<Seq<Token>>,
    t: Token,
    x: ((usize, usize), (column::Idx, P)),
) -> bool {
    let c = x.1.0@ as int;
    &&& is_placeable(m, c)
    &&& x.1.1.inv()
    &&& x.1.1.model() == placed_cols(m, c, t)
    &&& !wins_at(placed_cols(m, c, t), c, m[c].len() as int, t)
}

/// Extends `MinimaxABCached` with move ordering.
/// Moves are sorted by the number of adjacent tokens
/// of the current player
pub struct MinimaxOrdered {}

impl<P: Position + CloneBoard + HashBoard> ABSolver<P> for MinimaxOrdered {
    fn minimax<M: SolverManager>(
        pos: P,
        boss: &mut M,
        cache: &mut Cache<P>,
        alpha: isize,
        beta: isize,
    ) -> (r: ControlFlow<M::Break, isize>)
        decreases remaining(pos.model()),
    {
        match boss.check() {
            ControlFlow::Break(b) => return ControlFlow::Break(b),
            ControlFlow::Continue(()) => {},
        }
        if pos.is_full() {
            return ControlFlow::Continue(0);
        }
        let ghost m = pos.model();
        proof {
            pos.lemma_inv();
            lemma_num_moves_bounds(m);
            lemma_value_bounds(m);
        }
        let prev_alpha = alpha;
        let (lo0, hi0) = cache.get_and_bound(&pos, alpha, beta);
        let mut lo = lo0;
        let mut hi = hi0;
        if lo >= hi {
            return ControlFlow::Continue(hi);
        }
        let t = pos.curr();
        let nexts = pos.nexts(t);
        proof {
            lemma_open_cols(m, 7);
        }
        let mut moves = MoveSorter::<7, (usize, usize), (column::Idx, P)>::new();
        let ghost mut pushed: Seq<((usize, usize), (column::Idx, P))> = Seq::empty();
        let mut i: usize = 0;
        while i < nexts.len()
            invariant
                pos.inv(),
                pos.model() == m,
                wf_cols(m),
                t == curr_token(num_moves(m)),
                i <= nexts.len() == open_centred(m).len() <= 7,
                forall|k: int|
                    0 <= k < nexts.len() ==> (#[trigger] nexts@[k]).0@ == open_centred(m)[k]
                        && nexts@[k].1.inv() && nexts@[k].1.model() == placed_cols(
                        m,
                        nexts@[k].0@ as int,
                        t,
                    ),
                pushed.len() == i,
                moves@ == sort_all(pushed),
                forall|k: int| 0 <= k < i ==> (#[trigger] pushed[k]).1 == nexts@[k],
                forall|k: int| 0 <= k < i ==> quiet_child(m, t, #[trigger] pushed[k]),
                prev_alpha == alpha,
                alpha < beta,
                lo0 == lo && hi0 == hi,
                lo0 == match cache.lookup(P::key_model(m)) {
                    None => alpha,
                    Some(b) => if alpha >= b.0 { alpha } else { b.0 as isize },
                },
                hi0 == match cache.lookup(P::key_model(m)) {
                    None => beta,
                    Some(b) => if beta <= b.1 { beta } else { b.1 as isize },
                },
                cache.lookup(P::key_model(m)) is Some ==> cache.lookup(P::key_model(m)).unwrap().0
                    <= value(m) <= cache.lookup(P::key_model(m)).unwrap().1,
                lo < hi,
                cache.sound(),
                old(boss).patient() ==> boss.patient(),
            decreases nexts.len() - i,
        {
            let (col, next_pos) = nexts[i];
            proof {
                lemma_open_cols(m, 7);
                lemma_child(m, col@ as int);
            }
            let cell = next_pos.top(col).unwrap();
            match next_pos.count_adjacent_around(cell, t) {
                None => {
                    // found a win
                    let score = next_pos.just_won_eval();
                    proof {
                        assert(child_score(m, col@ as int, remaining(m)) == will_win_eval(num_moves(m)));
                    }
                    return ControlFlow::Continue(score);
                },
                Some(adjs) => {
                    proof {
                        lemma_sort_all(pushed);
                        lemma_insert_pos(moves@, adjs);
                        assert(pushed.push((adjs, (col, next_pos))).drop_last() =~= pushed);
                    }
                    moves.push_sorting(adjs, (col, next_pos));
                    proof {
                        pushed = pushed.push((adjs, (col, next_pos)));
                    }
                },
            }
            i = i + 1;
        }
        proof {
            lemma_sort_all(pushed);
            moves@.to_multiset_ensures();
            pushed.to_multiset_ensures();
            lemma_open_cols(m, 7);
            lemma_value_is_max(m);
            let c = choose|c: int| #[trigger] is_placeable(m, c) && child_score(m, c, remaining(m)) == value(m);
            lemma_child(m, c);
            let jc = crate::board::lemmas::lemma_centred_onto(c);
            assert(open_centred(m).contains(c));
            let j = choose|j: int| 0 <= j < open_centred(m).len() && open_centred(m)[j] == c;
            assert(quiet_child(m, t, pushed[j]));
        }
        let lose = pos.will_lose_eval();
        if lose > lo {
            lo = lose;
        }
        let win = pos.will_win_eval() - 1;
        if win < hi {
            hi = win;
        }
        if lo >= hi {
            return ControlFlow::Continue(hi);
        }
        let ghost a_start = lo;
        let ghost sorted = moves@;
        proof {
            assert forall|j: int| 0 <= j < sorted.len() implies quiet_child(m, t, #[trigger] sorted[j]) by {
                assert(sorted.contains(sorted[j]));
                assert(sorted.to_multiset().count(sorted[j]) > 0);
                assert(pushed.contains(sorted[j]));
                let q = choose|q: int| 0 <= q < pushed.len() && pushed[q] == sorted[j];
                assert(quiet_child(m, t, pushed[q]));
            }
        }
        let items = moves.into_items();
        let ghost mut explored: Set<int> = Set::empty();
        let mut k: usize = 0;
        while k < items.len()
            invariant
                pos.inv(),
                pos.model() == m,
                wf_cols(m),
                num_moves(m) < max_moves(),
                t == curr_token(num_moves(m)),
                items@.len() == sorted.len(),
                forall|j: int| 0 <= j < items@.len() ==> items@[j] == (#[trigger] sorted[j]).1,
                forall|j: int| 0 <= j < sorted.len() ==> quiet_child(m, t, #[trigger] sorted[j]),
                k <= items@.len(),
                forall|j: int| 0 <= j < k ==> explored.contains((#[trigger] items@[j]).0@ as int),
                prev_alpha == alpha,
                alpha < beta,
                alpha <= a_start <= lo < hi <= beta,
                -WINDOW <= a_start,
                hi <= WINDOW,
                a_start == alpha || value(m) >= a_start,
                hi < beta ==> value(m) <= hi,
                hi <= will_win_eval(num_moves(m)),
                value(m) <= will_win_eval(num_moves(m)),
                all_at_most(m, explored, lo as int),
                lo == a_start || some_equal(m, explored, lo as int),
                cache.sound(),
                old(boss).patient() ==> boss.patient(),
            decreases items@.len() - k,
        {
            let (col, next_pos) = items[k];
            proof {
                assert(quiet_child(m, t, sorted[k as int]));
                lemma_child(m, col@ as int);
            }
            let score = match Self::minimax(next_pos, boss, cache, -hi, -lo) {
                ControlFlow::Break(b) => return ControlFlow::Break(b),
                ControlFlow::Continue(e) => -e,
            };
            let ghost prev = lo;
            if score > lo {
                lo = score;
            }
            if lo >= hi {
                proof {
                    assert(child_score(m, col@ as int, remaining(m)) >= lo);
                }
                cache.insert_bounded(&pos, prev_alpha, lo, hi);
                return ControlFlow::Continue(lo);
            }
            proof {
                lemma_explore(m, explored, prev as int, col@ as int, lo as int);
                explored = explored.insert(col@ as int);
            }
            k = k + 1;
        }
        proof {
            assert(covers(m, explored)) by {
                assert forall|c: int| #[trigger] is_placeable(m, c) implies explored.contains(c) by {
                    lemma_open_cols(m, 7);
                    let jc = crate::board::lemmas::lemma_centred_onto(c);
                    assert(open_centred(m).contains(c));
                    let j = choose|j: int| 0 <= j < open_centred(m).len() && open_centred(m)[j] == c;
                    assert(pushed.contains(pushed[j]));
                    assert(pushed.to_multiset().count(pushed[j]) > 0);
                    assert(sorted.contains(pushed[j]));
                    let q = choose|q: int| 0 <= q < sorted.len() && sorted[q] == pushed[j];
                    assert(items@[q] == sorted[q].1);
                }
            }
            lemma_fail_low(m, explored, lo as int);
            if lo != a_start {
                lemma_attained(m, explored, lo as int);
            }
        }
        cache.insert_bounded(&pos, prev_alpha, lo, hi);
        ControlFlow::Continue(lo)
    }
}

impl<P: Position + CloneBoard + HashBoard> Solver<P> for MinimaxOrdered {
    fn solve<M: SolverManager>(pos: P, boss: &mut M, cache: &mut Cache<P>) -> (r: ControlFlow<
        M::Break,
        isize,
    >) {
        proof {
            pos.lemma_inv();
            lemma_num_moves_bounds(pos.model());
            lemma_value_bounds(pos.model());
        }
        let min = pos.will_lose_eval();
        let max = pos.will_win_eval();
        if min == max {
            // only a full board leaves no room between the two
            return Self::minimax(pos, boss, cache, min - 1, max + 1);
        }
        Self::minimax(pos, boss, cache, min, max)
    }
}

} // verus!
