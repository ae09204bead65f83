use vstd::prelude::*;

use core::ops::ControlFlow;

use crate::basic::{column, other, Cell};
use crate::board::lemmas::{lemma_child, lemma_num_moves_bounds, lemma_value_bounds, lemma_value_is_max};
use crate::board::model::{
    adjacent_counts, child_score, curr_token, is_placeable, max_moves, num_moves, placed_cols,
    remaining, value, will_lose_eval, will_win_eval, wf_cols, wins_at,
};
use crate::board::threats::{
    above_threat, curr_threat, lemma_curr_threat, lemma_no_curr_threat, lemma_opp_reply,
    lemma_quiet_reply, lemma_threat_child, opp_threat,
};
use crate::board::{lemma_open_cols, open_centred, Board, CloneBoard, HashBoard};
use crate::solver_utils::move_sorter::{lemma_sort_all, sort_all, MoveSorter};
use crate::solver_utils::{Cache, Position, SolverManager};
use crate::solvers::search::{all_at_most, covers, lemma_attained, lemma_explore, lemma_fail_low, some_equal};
use crate::solvers::{ABSolver, Solver, WINDOW};

verus! {

/// Counts of adjacent cells for use in heuristic evaluation:
/// (curr_triples, opp_triples, curr_pairs, opp_pairs)
#[derive(Clone, Copy, Debug)]
pub struct NbhdCounts(pub usize, pub usize, pub usize, pub usize);

impl NbhdCounts {
    /// Returns a heuristic value for the current state of adjacent cells
    pub fn heuristic(&self) -> (h: usize)
        requires
            self.0 * 10_000 + self.3 * 1000 + 100 <= usize::MAX,
            self.2 * 10 + self.3 <= self.0 * 10_000 + self.3 * 1000 + 100,
        ensures
            h == self.0 * 10_000 + self.3 * 1000 + 100 - (self.2 * 10 + self.3),
    {
        self.0 * 10_000 + self.3 * 1000 + 100 - (self.2 * 10 + self.3)
    }
}

/// The result of a move
#[derive(Clone, Copy, Debug)]
pub enum MoveResult {
    /// connect-4 for curr
    CurrWin,
    /// stop opp making connect-4
    BlockOppWin,
    /// opp can now play on top of curr's token and connect-4
    LetOppWin,
    /// opp has a potential connect-4 both at the current cell and the one above, curr has lost
    ForcedOppWin,
    /// no immediate win for curr or opp
    Nbhd(NbhdCounts),
}

/// What a move of the player to move at `(c, r)` leads to: a win of its
/// own, a win of the opponent there or just above, or neither, with the
/// counts of lines around the cell for both players.
pub open spec fn move_result_ok(m: Seq<Seq<crate::basic::Token>>, c: int, r: int, res: MoveResult) -> bool {
    let t = curr_token(num_moves(m));
    let u = other(t);
    let win = wins_at(m, c, r, t);
    let block = wins_at(m, c, r, u);
    let above = r + 1 < 6 && wins_at(m, c, r + 1, u);
    match res {
        MoveResult::CurrWin => win,
        MoveResult::BlockOppWin => !win && block && !above,
        MoveResult::ForcedOppWin => !win && block && above,
        MoveResult::LetOppWin => !win && !block && above,
        MoveResult::Nbhd(n) => !win && !block && !above && adjacent_counts(m, c, r, t) == Some(
            (n.2 as int, n.0 as int),
        ) && adjacent_counts(m, c, r, u) == Some((n.3 as int, n.1 as int)),
    }
}

impl MoveResult {
    /// Returns the result of a move at the given cell
    pub fn new_at<P: Position>(pos: &P, cell: Cell) -> (r: MoveResult)
        requires
            pos.inv(),
        ensures
            move_result_ok(pos.model(), cell.col@ as int, cell.row@ as int, r),
    {
        let curr = pos.curr();
        let opp = pos.opp();
        let (curr_pairs, curr_triples) = match pos.count_adjacent_around(cell, curr) {
            None => return MoveResult::CurrWin,
            Some(p) => p,
        };
        let (opp_pairs, opp_triples) = match pos.count_adjacent_around(cell, opp) {
            None => {
                match cell.above() {
                    Some(above) => {
                        if pos.count_adjacent_around(above, opp).is_none() {
                            return MoveResult::ForcedOppWin;
                        }
                    },
                    None => {},
                }
                return MoveResult::BlockOppWin;
            },
            Some(p) => p,
        };
        match cell.above() {
            Some(above) => {
                if pos.count_adjacent_around(above, opp).is_none() {
                    return MoveResult::LetOppWin;
                }
            },
            None => {},
        }
        MoveResult::Nbhd(NbhdCounts(curr_triples, opp_triples, curr_pairs, opp_pairs))
    }
}

/// A column that is neither a threat of either player nor lets the opponent
/// win right above it.
pub open spec fn quiet_col(m: Seq<Seq<crate::basic::Token>>, c: int) -> bool {
    is_placeable(m, c) && !curr_threat(m, c) && !opp_threat(m, c) && !above_threat(m, c)
}

/// Extends `MinimaxOrdered` by avoiding immediate enemy wins
pub struct MinimaxAvoidant {}

impl<P: Position + CloneBoard + HashBoard> ABSolver<P> for MinimaxAvoidant {
    #[verifier::rlimit(40)]
    fn minimax<M: SolverManager>(
        pos: P,
        boss: &mut M,
        cache: &mut Cache<P>,
        alpha: isize,
        beta: isize,
    ) -> (r: ControlFlow<M::Break, isize>)
        decreases remaining(pos.model()),
    {
        match boss.check() {
            ControlFlow::Break(b) => return ControlFlow::Break(b),
            ControlFlow::Continue(()) => {},
        }
        if pos.is_full() {
            return ControlFlow::Continue(0);
        }
        let ghost m = pos.model();
        proof {
            pos.lemma_inv();
            lemma_num_moves_bounds(m);
            lemma_value_bounds(m);
            lemma_open_cols(m, 7);
        }
        let ghost n = num_moves(m);
        let ghost lose_v = will_lose_eval(n);
        let prev_alpha = alpha;
        let (lo0, hi0) = cache.get_and_bound(&pos, alpha, beta);
        let mut lo = lo0;
        let mut hi = hi0;
        if lo >= hi {
            return ControlFlow::Continue(hi);
        }
        let mut moves = MoveSorter::<7, usize, column::Idx>::new();
        let mut must_play: Option<column::Idx> = None;
        let mut will_lose = false;
        let ghost mut pushed: Seq<(usize, column::Idx)> = Seq::empty();
        let cells = pos.next_cells();
        let mut i: usize = 0;
        while i < cells.len()
            invariant
                pos.inv(),
                pos.model() == m,
                wf_cols(m),
                n == num_moves(m),
                lose_v == will_lose_eval(n),
                0 <= num_moves(m) < max_moves(),
                i <= cells.len() == open_centred(m).len() <= 7,
                forall|k: int|
                    0 <= k < cells.len() ==> (#[trigger] cells@[k]).col@ == open_centred(m)[k]
                        && cells@[k].row@ == m[cells@[k].col@ as int].len(),
                forall|k: int| 0 <= k < open_centred(m).len() ==> is_placeable(m, #[trigger] open_centred(m)[k]),
                forall|k: int| 0 <= k < i ==> !curr_threat(m, #[trigger] open_centred(m)[k]),
                must_play matches Some(b) ==> opp_threat(m, b@ as int) && !above_threat(m, b@ as int)
                    && exists|k: int| 0 <= k < i && #[trigger] open_centred(m)[k] == b@,
                !will_lose ==> forall|k: int|
                    0 <= k < i && #[trigger] opp_threat(m, open_centred(m)[k]) ==> (must_play matches Some(b)
                        && b@ == open_centred(m)[k]),
                will_lose ==> (exists|c: int| #[trigger] opp_threat(m, c) && above_threat(m, c)) || (exists|
                    c1: int,
                    c2: int,
                | c1 != c2 && #[trigger] opp_threat(m, c1) && #[trigger] opp_threat(m, c2)),
                pushed.len() <= i,
                moves@ == sort_all(pushed),
                forall|j: int| 0 <= j < pushed.len() ==> quiet_col(m, (#[trigger] pushed[j]).1@ as int),
                forall|k: int|
                    0 <= k < i && #[trigger] quiet_col(m, open_centred(m)[k]) ==> exists|j: int|
                        0 <= j < pushed.len() && (#[trigger] pushed[j]).1@ == open_centred(m)[k],
                forall|a: int, b: int|
                    0 <= a < b < open_centred(m).len() ==> #[trigger] open_centred(m)[a]
                        != #[trigger] open_centred(m)[b],
                prev_alpha == alpha,
                alpha < beta,
                lo0 == lo && hi0 == hi,
                lo0 == match cache.lookup(P::key_model(m)) {
                    None => alpha,
                    Some(b) => if alpha >= b.0 { alpha } else { b.0 as isize },
                },
                hi0 == match cache.lookup(P::key_model(m)) {
                    None => beta,
                    Some(b) => if beta <= b.1 { beta } else { b.1 as isize },
                },
                cache.lookup(P::key_model(m)) is Some ==> cache.lookup(P::key_model(m)).unwrap().0
                    <= value(m) <= cache.lookup(P::key_model(m)).unwrap().1,
                lo < hi,
                cache.sound(),
                old(boss).patient() ==> boss.patient(),
            decreases cells.len() - i,
        {
            let cell = cells[i];
            let ghost c = cell.col@ as int;
            proof {
                assert(c == open_centred(m)[i as int]);
            }
            match MoveResult::new_at(&pos, cell) {
                // curr has at least one immediately winning move
                MoveResult::CurrWin => {
                    proof {
                        assert(curr_threat(m, c));
                        lemma_curr_threat(m, c);
                    }
                    return ControlFlow::Continue(pos.will_win_eval());
                },
                // opponent has at least one winning move next turn
                MoveResult::BlockOppWin => {
                    proof {
                        assert(opp_threat(m, c));
                    }
                    match must_play {
                        None => {
                            must_play = Some(cell.col);
                            proof {
                                assert(open_centred(m)[i as int] == cell.col@);
                            }
                        },
                        Some(b) => {
                            // opponent has at least two winning moves next turn, thus curr has lost.
                            proof {
                                let kb = choose|k: int| 0 <= k < i && #[trigger] open_centred(m)[k] == b@;
                                if !will_lose {
                                    assert(open_centred(m)[kb] != open_centred(m)[i as int]);
                                    assert(opp_threat(m, b@ as int) && opp_threat(m, c) && b@ != c);
                                }
                            }
                            will_lose = true;
                        },
                    }
                },
                MoveResult::ForcedOppWin => {
                    proof {
                        assert(opp_threat(m, c) && above_threat(m, c));
                    }
                    will_lose = true;
                },
                // Playing this move will allow opponent to win
                MoveResult::LetOppWin => {},
                // there are no immediate wins or losses
                MoveResult::Nbhd(nbhd) => {
                    proof {
                        assert(quiet_col(m, c));
                        lemma_sort_all(pushed);
                    }
                    let key = nbhd.heuristic();
                    moves.push_sorting(key, cell.col);
                    proof {
                        assert(pushed.push((key, cell.col)).drop_last() =~= pushed);
                        pushed = pushed.push((key, cell.col));
                        assert(pushed[pushed.len() - 1].1@ == c);
                    }
                },
            }
            i = i + 1;
        }
        // every playable column has been classified
        proof {
            lemma_sort_all(pushed);
            moves@.to_multiset_ensures();
            pushed.to_multiset_ensures();
            assert forall|c: int| #[trigger] is_placeable(m, c) implies exists|k: int|
                0 <= k < open_centred(m).len() && open_centred(m)[k] == c by {
                let jc = crate::board::lemmas::lemma_centred_onto(c);
                assert(open_centred(m).contains(c));
            }
            assert forall|c: int| #[trigger] is_placeable(m, c) implies !curr_threat(m, c) by {
                let k = choose|k: int| 0 <= k < open_centred(m).len() && open_centred(m)[k] == c;
            }
            assert forall|c: int| !#[trigger] curr_threat(m, c) by {
                if is_placeable(m, c) {
                    let k = choose|k: int| 0 <= k < open_centred(m).len() && open_centred(m)[k] == c;
                }
            }
        }
        if will_lose || (moves.is_empty() && must_play.is_none()) {
            proof {
                lemma_value_is_max(m);
                let c = choose|c: int| #[trigger] is_placeable(m, c) && child_score(m, c, remaining(m)) == value(m);
                let k = choose|k: int| 0 <= k < open_centred(m).len() && open_centred(m)[k] == c;
                if will_lose {
                    if exists|f: int| #[trigger] opp_threat(m, f) && above_threat(m, f) {
                        let f = choose|f: int| #[trigger] opp_threat(m, f) && above_threat(m, f);
                        lemma_opp_reply(m, c, f);
                    } else {
                        let (c1, c2) = choose|c1: int, c2: int| c1 != c2 && #[trigger] opp_threat(m, c1) && #[trigger] opp_threat(m, c2);
                        if c1 != c {
                            lemma_opp_reply(m, c, c1);
                        } else {
                            lemma_opp_reply(m, c, c2);
                        }
                    }
                } else {
                    assert(!opp_threat(m, c));
                    if quiet_col(m, c) {
                        let j = choose|j: int| 0 <= j < pushed.len() && (#[trigger] pushed[j]).1@ == open_centred(m)[k];
                        assert(pushed.len() > 0);
                    }
                    lemma_opp_reply(m, c, c);
                }
                lemma_child(m, c);
            }
            return ControlFlow::Continue(pos.will_lose_eval());
        }
        // We must play in this column either to stop the opponent from winning,
        // or because it is the only option left
        match must_play {
            Some(col) => {
                moves = MoveSorter::singleton(0, col);
            },
            None => {},
        }
        proof {
            assert(moves@.len() > 0);
            assert forall|j: int| 0 <= j < moves@.len() implies #[trigger] is_placeable(m, moves@[j].1@ as int)
                && !curr_threat(m, moves@[j].1@ as int) && (n + 1 < max_moves() ==> child_score(m, moves@[j].1@ as int, remaining(m)) >= lose_v + 1) by {
                let c = moves@[j].1@ as int;
                if must_play is None {
                    assert(moves@.contains(moves@[j]));
                    assert(moves@.to_multiset().count(moves@[j]) > 0);
                    assert(pushed.to_multiset().count(moves@[j]) > 0);
                    assert(pushed.contains(moves@[j]));
                    let q = choose|q: int| 0 <= q < pushed.len() && pushed[q] == moves@[j];
                    assert(quiet_col(m, c));
                    assert forall|c2: int| c2 != c implies !#[trigger] opp_threat(m, c2) by {
                        if opp_threat(m, c2) {
                            let k = choose|k: int| 0 <= k < open_centred(m).len() && open_centred(m)[k] == c2;
                        }
                    }
                } else {
                    assert forall|c2: int| c2 != c implies !#[trigger] opp_threat(m, c2) by {
                        if opp_threat(m, c2) {
                            let k = choose|k: int| 0 <= k < open_centred(m).len() && open_centred(m)[k] == c2;
                        }
                    }
                }
                if n + 1 < max_moves() {
                    lemma_quiet_reply(m, c);
                }
            }
            assert forall|c: int| #[trigger] is_placeable(m, c) implies child_score(m, c, remaining(m)) <= lose_v
                || exists|j: int| 0 <= j < moves@.len() && moves@[j].1@ == c by {
                let k = choose|k: int| 0 <= k < open_centred(m).len() && open_centred(m)[k] == c;
                match must_play {
                    Some(b) => {
                        if c != b@ {
                            lemma_opp_reply(m, c, b@ as int);
                        } else {
                            assert(moves@[0].1@ == c);
                        }
                    },
                    None => {
                        if quiet_col(m, c) {
                            let j = choose|j: int| 0 <= j < pushed.len() && (#[trigger] pushed[j]).1@ == open_centred(m)[k];
                            assert(pushed.contains(pushed[j]));
                            assert(pushed.to_multiset().count(pushed[j]) > 0);
                            assert(moves@.to_multiset().count(pushed[j]) > 0);
                            assert(moves@.contains(pushed[j]));
                        } else {
                            lemma_opp_reply(m, c, c);
                        }
                    },
                }
            }
            lemma_no_curr_threat(m);
            lemma_value_is_max(m);
            if n + 1 < max_moves() {
                assert(is_placeable(m, moves@[0].1@ as int));
                assert(child_score(m, moves@[0].1@ as int, remaining(m)) >= lose_v + 1);
                assert(value(m) >= lose_v + 1);
            }
        }
        let lose = pos.will_lose_eval() + 1;
        if lose > lo {
            lo = lose;
        }
        let win = pos.will_win_eval() - 1;
        if win < hi {
            hi = win;
        }
        if lo >= hi {
            return ControlFlow::Continue(hi);
        }
        let ghost a_start = lo;
        let ghost sorted = moves@;
        let t = pos.curr();
        let items = moves.into_items();
        let ghost mut explored: Set<int> = Set::new(
            |c: int| is_placeable(m, c) && !(exists|j: int| 0 <= j < sorted.len() && sorted[j].1@ == c),
        );
        let mut k: usize = 0;
        while k < items.len()
            invariant
                pos.inv(),
                pos.model() == m,
                wf_cols(m),
                n == num_moves(m),
                n + 1 < max_moves(),
                t == curr_token(num_moves(m)),
                items@.len() == sorted.len(),
                forall|j: int| 0 <= j < items@.len() ==> items@[j] == (#[trigger] sorted[j]).1,
                forall|j: int|
                    0 <= j < sorted.len() ==> #[trigger] is_placeable(m, sorted[j].1@ as int) && !curr_threat(
                        m,
                        sorted[j].1@ as int,
                    ),
                k <= items@.len(),
                forall|c: int|
                    #[trigger] explored.contains(c) <==> (is_placeable(m, c) && !(exists|j: int|
                        0 <= j < sorted.len() && sorted[j].1@ == c)) || (exists|j: int|
                        0 <= j < k && items@[j]@ == c),
                prev_alpha == alpha,
                alpha < beta,
                alpha <= a_start <= lo < hi <= beta,
                -WINDOW <= a_start,
                hi <= WINDOW,
                a_start == alpha || value(m) >= a_start,
                hi < beta ==> value(m) <= hi,
                hi <= will_win_eval(num_moves(m)),
                value(m) <= will_win_eval(num_moves(m)),
                all_at_most(m, explored, lo as int),
                lo == a_start || some_equal(m, explored, lo as int),
                cache.sound(),
                old(boss).patient() ==> boss.patient(),
            decreases items@.len() - k,
        {
            let col = items[k];
            proof {
                assert(is_placeable(m, sorted[k as int].1@ as int));
                lemma_child(m, col@ as int);
                lemma_threat_child(m, col@ as int);
            }
            let next_pos = pos.placed(col, t).unwrap();
            let score = match Self::minimax(next_pos, boss, cache, -hi, -lo) {
                ControlFlow::Break(b) => return ControlFlow::Break(b),
                ControlFlow::Continue(e) => -e,
            };
            let ghost prev = lo;
            if score > lo {
                lo = score;
            }
            if lo >= hi {
                proof {
                    assert(child_score(m, col@ as int, remaining(m)) >= lo);
                }
                cache.insert_bounded(&pos, prev_alpha, lo, hi);
                return ControlFlow::Continue(lo);
            }
            proof {
                lemma_explore(m, explored, prev as int, col@ as int, lo as int);
                assert(explored.insert(col@ as int) =~= Set::new(|c: int| (is_placeable(m, c) && !(exists|j: int|
                    0 <= j < sorted.len() && sorted[j].1@ == c)) || (exists|j: int|
                    0 <= j < k + 1 && items@[j]@ == c)));
                explored = explored.insert(col@ as int);
            }
            k = k + 1;
        }
        proof {
            assert(covers(m, explored)) by {
                assert forall|c: int| #[trigger] is_placeable(m, c) implies explored.contains(c) by {
                    if exists|j: int| 0 <= j < sorted.len() && sorted[j].1@ == c {
                        let j = choose|j: int| 0 <= j < sorted.len() && sorted[j].1@ == c;
                        assert(items@[j]@ == c);
                    }
                }
            }
            lemma_fail_low(m, explored, lo as int);
            if lo != a_start {
                lemma_attained(m, explored, lo as int);
            }
        }
        cache.insert_bounded(&pos, prev_alpha, lo, hi);
        ControlFlow::Continue(lo)
    }
}

impl<P: Position + CloneBoard + HashBoard> Solver<P> for MinimaxAvoidant {
    fn solve<M: SolverManager>(pos: P, boss: &mut M, cache: &mut Cache<P>) -> (r: ControlFlow<
        M::Break,
        isize,
    >) {
        proof {
            pos.lemma_inv();
            lemma_num_moves_bounds(pos.model());
            lemma_value_bounds(pos.model());
        }
        let min = pos.will_lose_eval();
        let max = pos.will_win_eval();
        if min == max {
            // only a full board leaves no room between the two
            return Self::minimax(pos, boss, cache, min - 1, max + 1);
        }
        Self::minimax(pos, boss, cache, min, max)
    }
}

} // verus!
