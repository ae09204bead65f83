use vstd::prelude::*;

use core::ops::ControlFlow;

use crate::basic::{column, row, Cell, Token};
use crate::board::lemmas::{
    lemma_child, lemma_mirror_cols, lemma_mirror_value_rec, lemma_num_moves_bounds, lemma_value_bounds,
};
use crate::board::model::{
    cell_token, child_score, curr_token, is_placeable, max_moves, mirror_cols, num_moves,
    placed_cols, remaining, token_at, value, will_win_eval, wf_cols,
};
use crate::board::{lemma_open_cols, open_centred, Board, CloneBoard, HashBoard};
use crate::solver_utils::{Cache, Position, SolverManager};
use crate::solvers::minimax_ab_cached::MinimaxABCached;
use crate::solvers::search::{all_at_most, covers, lemma_attained, lemma_explore, lemma_fail_low, some_equal};
use crate::solvers::{ab_result, ABSolver, Solver, WINDOW};

verus! {

/// `d` describes `m`: for each left column `l`, `d[l]` is the height of its
/// mirror column `6 - l` minus its own, and the two agree on every row
/// they both fill.
pub open spec fn diffs_ok(d: [isize; 3], m: Seq<Seq<Token>>) -> bool {
    forall|l: int|
        0 <= l < 3 ==> #[trigger] d@[l] == m[6 - l].len() - m[l].len() && forall|r: int|
            0 <= r < m[l].len() && r < m[6 - l].len() ==> m[l][r] == m[6 - l][r]
}

/// `d` holds, for each left column `l`, the height of its mirror column
/// `6 - l` minus its own.
pub open spec fn heights_ok(d: [isize; 3], m: Seq<Seq<Token>>) -> bool {
    forall|l: int| 0 <= l < 3 ==> #[trigger] d@[l] == m[6 - l].len() - m[l].len()
}

/// All differences are zero.
pub open spec fn all_zero(d: [isize; 3]) -> bool {
    d@[0] == 0 && d@[1] == 0 && d@[2] == 0
}

/// A board described by all-zero differences is its own mirror image, and
/// then each column scores what its mirror column scores.
proof fn lemma_zero_symmetric(d: [isize; 3], m: Seq<Seq<Token>>)
    requires
        wf_cols(m),
        diffs_ok(d, m),
        all_zero(d),
    ensures
        mirror_cols(m) == m,
        forall|c: int| #[trigger] is_placeable(m, c) ==> child_score(m, c, remaining(m)) == child_score(m, 6 - c, remaining(m)),
{
    assert(d@[0] == 0 && d@[1] == 0 && d@[2] == 0);
    assert forall|c: int| 0 <= c < 7 implies #[trigger] mirror_cols(m)[c] =~= m[c] by {
        if c < 3 {
            assert(d@[c] == m[6 - c].len() - m[c].len());
        } else if c > 3 {
            assert(d@[6 - c] == m[c].len() - m[6 - c].len());
        }
    }
    assert(mirror_cols(m) =~= m);
    lemma_mirror_value_rec(m, remaining(m));
}

/// A child found by `SymmDiff::nexts`: the column is playable, the board
/// is the one after the player to move drops there, and the differences,
/// if any, describe it.
pub open spec fn symm_child<P: Position>(m: Seq<Seq<Token>>, x: (Option<SymmDiff>, column::Idx, P)) -> bool {
    &&& is_placeable(m, x.1@ as int)
    &&& x.2.inv()
    &&& x.2.model() == placed_cols(m, x.1@ as int, curr_token(num_moves(m)))
    &&& (x.0 matches Some(d) ==> diffs_ok(d.0, x.2.model()))
}

/// Row `q` holds two different tokens in left column `l` and its mirror column.
pub open spec fn clash_at(m: Seq<Seq<Token>>, l: int, q: int) -> bool {
    &&& token_at(m, l, q) is Some
    &&& token_at(m, 6 - l, q) is Some
    &&& token_at(m, l, q) != token_at(m, 6 - l, q)
}

/// Some row holds two different tokens in a left column and its mirror
/// column, so no later move makes the board its own mirror image.
pub open spec fn mirror_clash(m: Seq<Seq<Token>>) -> bool {
    exists|l: int, q: int| 0 <= l < 3 && 0 <= q < 6 && #[trigger] clash_at(m, l, q)
}

/// Type to store the difference in height of each column with its reflection,
/// to efficiently compute when a board is symmetrical.
///
/// i.e. symm_diff[i] = column[6-i].height() - column[i].height()
#[derive(Debug, Clone, Copy)]
pub struct SymmDiff(pub [isize; 3]);

impl SymmDiff {
    /// Creates a SymmDiff for the given board.
    /// Returns None if the board is irreversibly asymmetrical: some row holds
    /// two different tokens in a column and its mirror column.
    pub fn new<B: Board>(board: &B) -> (r: Option<Self>)
        requires
            board.inv(),
        ensures
            r is None <==> mirror_clash(board.model()),
            r matches Some(d) ==> diffs_ok(d.0, board.model()),
    {
        proof {
            board.lemma_inv();
        }
        let ghost m = board.model();
        let mut diffs: [isize; 3] = [0, 0, 0];
        let mut l: usize = 0;
        while l < 3
            invariant
                board.inv(),
                m == board.model(),
                wf_cols(m),
                l <= 3,
                forall|k: int, q: int| 0 <= k < l && 0 <= q < 6 ==> !#[trigger] clash_at(m, k, q),
                forall|k: int|
                    0 <= k < l ==> #[trigger] diffs@[k] == m[6 - k].len() - m[k].len(),
            decreases 3 - l,
        {
            let col_l = column::Idx::raw(l);
            let col_r = col_l.mirrored();
            let mut r: usize = 0;
            while r < row::COUNT
                invariant
                    board.inv(),
                    m == board.model(),
                    wf_cols(m),
                    l < 3,
                    col_l@ == l,
                    col_r@ == 6 - l,
                    r <= 6,
                    forall|k: int, q: int| 0 <= k < l && 0 <= q < 6 ==> !#[trigger] clash_at(m, k, q),
                    forall|q: int| 0 <= q < r ==> !#[trigger] clash_at(m, l as int, q),
                    forall|k: int|
                        0 <= k < l ==> #[trigger] diffs@[k] == m[6 - k].len() - m[k].len(),
                decreases 6 - r,
            {
                let left = board.get(Cell { col: col_l, row: row::Idx::raw(r) });
                let right = board.get(Cell { col: col_r, row: row::Idx::raw(r) });
                if left.is_some() && right.is_some() && left != right {
                    proof {
                        assert(clash_at(m, l as int, r as int));
                    }
                    return None;
                }
                r = r + 1;
            }
            let count_l = board.col_count(col_l) as isize;
            let count_r = board.col_count(col_r) as isize;
            diffs[l] = count_r - count_l;
            l = l + 1;
        }
        proof {
            assert(!mirror_clash(m));
            assert forall|k: int| 0 <= k < 3 implies #[trigger] diffs@[k] == m[6 - k].len() - m[k].len() && forall|r: int|
                0 <= r < m[k].len() && r < m[6 - k].len() ==> m[k][r] == m[6 - k][r] by {
                assert forall|r: int| 0 <= r < m[k].len() && r < m[6 - k].len() implies m[k][r] == m[6 - k][r] by {
                    assert(!clash_at(m, k, r));
                }
            }
        }
        Some(SymmDiff(diffs))
    }

    /// Updates the given diff considering the token from the previous move,
    /// dropped into `col`. Returns None if the board is irreversibly
    /// asymmetrical: that token differs from the one at the mirrored cell.
    #[verifier::spinoff_prover]
    #[verifier::rlimit(30)]
    pub fn next<B: Board>(self, board: &B, col: column::Idx) -> (r: Option<Self>)
        requires
            board.inv(),
            0 < board.model()[col@ as int].len(),
            heights_ok(self.0, crate::board::model::unplaced_cols(board.model(), col@ as int)),
        ensures
            col@ == 3 ==> r == Some(self),
            ({
                let m = board.model();
                let c = col@ as int;
                let h = m[c].len() - 1;
                r is None <==> c != 3 && h < m[6 - c].len() && m[6 - c][h] != m[c][h]
            }),
            r matches Some(d) ==> heights_ok(d.0, board.model()),
            r matches Some(d) ==> diffs_ok(self.0, crate::board::model::unplaced_cols(board.model(), col@ as int))
                ==> diffs_ok(d.0, board.model()),
    {
        proof {
            board.lemma_inv();
        }
        let ghost m = board.model();
        let ghost c = col@ as int;
        let ghost m0 = crate::board::model::unplaced_cols(m, c);
        if col.index() == 3 {
            proof {
                assert forall|l: int| 0 <= l < 3 implies #[trigger] self.0@[l] == m[6 - l].len() - m[l].len() by {
                    assert(m[l] == m0[l] && m[6 - l] == m0[6 - l]);
                }
                if diffs_ok(self.0, m0) {
                    assert forall|l: int| 0 <= l < 3 implies #[trigger] self.0@[l] == m[6 - l].len() - m[l].len() && forall|r: int|
                        0 <= r < m[l].len() && r < m[6 - l].len() ==> m[l][r] == m[6 - l][r] by {
                        assert(m[l] == m0[l] && m[6 - l] == m0[6 - l]);
                    }
                }
            }
            return Some(self);
        }
        let mut new_diffs = self;
        let cell = board.top(col).unwrap();
        let token = match board.get(cell) {
            Some(t) => t,
            None => return None,
        };
        let cell_c = cell.mirrored();
        match board.get(cell_c) {
            Some(token_c) => {
                if token != token_c {
                    return None;
                }
            },
            None => {},
        }
        if cell.col.is_left_side() {
            let l = cell.col.index();
            new_diffs.0[l] = new_diffs.0[l] - 1;
        } else {
            let l = cell_c.col.index();
            new_diffs.0[l] = new_diffs.0[l] + 1;
        }
        proof {
            let h = m[c].len() - 1;
            assert(m[c] =~= m0[c].push(m[c][h]));
            assert(m0[6 - c] == m[6 - c]);
            assert forall|l: int| 0 <= l < 3 implies #[trigger] new_diffs.0@[l] == m[6 - l].len() - m[l].len() by {
                assert(self.0@[l] == m0[6 - l].len() - m0[l].len());
                if l != c && 6 - l != c {
                    assert(m[l] == m0[l] && m[6 - l] == m0[6 - l]);
                }
            }
            if diffs_ok(self.0, m0) {
            assert(diffs_ok(new_diffs.0, m)) by {
            assert forall|l: int| 0 <= l < 3 implies #[trigger] new_diffs.0@[l] == m[6 - l].len() - m[l].len() && forall|r: int|
                0 <= r < m[l].len() && r < m[6 - l].len() ==> m[l][r] == m[6 - l][r] by {
                assert(self.0@[l] == m0[6 - l].len() - m0[l].len());
                if l != c && 6 - l != c {
                    assert(m[l] == m0[l] && m[6 - l] == m0[6 - l]);
                } else if l == c {
                    assert(m[6 - l] == m0[6 - l]);
                    assert forall|r: int| 0 <= r < m[l].len() && r < m[6 - l].len() implies m[l][r] == m[6 - l][r] by {
                        if r < h {
                            assert(m[l][r] == m0[l][r]);
                        }
                    }
                } else {
                    assert(m[l] == m0[l]);
                    assert forall|r: int| 0 <= r < m[l].len() && r < m[6 - l].len() implies m[l][r] == m[6 - l][r] by {
                        if r < h {
                            assert(m[6 - l][r] == m0[6 - l][r]);
                        }
                    }
                }
            }
            }
            }
        }
        Some(new_diffs)
    }

    /// The next positions from the given position, with their columns and
    /// their `SymmDiff`s: the left columns and the centre when the position
    /// is its own mirror image, else every column that is not full, in
    /// centred order.
    fn nexts<P: Position + CloneBoard>(self, pos: &P) -> (r: Vec<(Option<SymmDiff>, column::Idx, P)>)
        requires
            pos.inv(),
            diffs_ok(self.0, pos.model()),
        ensures
            forall|k: int| 0 <= k < r.len() ==> symm_child(pos.model(), #[trigger] r@[k]),
            forall|c: int|
                #[trigger] is_placeable(pos.model(), c) && (!all_zero(self.0) || c <= 3) ==> exists|k: int|
                    0 <= k < r.len() && r@[k].1@ == c,
    {
        proof {
            pos.lemma_inv();
        }
        let ghost m = pos.model();
        let t = pos.curr();
        let mut out: Vec<(Option<SymmDiff>, column::Idx, P)> = Vec::new();
        let zero = self.0[0] == 0 && self.0[1] == 0 && self.0[2] == 0;
        let mut i: usize = 0;
        while i < column::COUNT
            invariant
                pos.inv(),
                m == pos.model(),
                wf_cols(m),
                t == curr_token(num_moves(m)),
                diffs_ok(self.0, m),
                zero == all_zero(self.0),
                i <= 7,
                forall|k: int| 0 <= k < out.len() ==> symm_child(m, #[trigger] out@[k]),
                forall|j: int|
                    0 <= j < i && #[trigger] is_placeable(m, crate::basic::column::centred_index(j)) && (!zero
                        || crate::basic::column::centred_index(j) <= 3) ==> exists|k: int|
                        0 <= k < out.len() && out@[k].1@ == crate::basic::column::centred_index(j),
            decreases 7 - i,
        {
            let col = column::centred(i);
            if !zero || col.index() <= 3 {
                match pos.placed(col, t) {
                    Some(next) => {
                        proof {
                            crate::board::lemmas::lemma_placed(m, col@ as int, t);
                            next.lemma_inv();
                            assert(m[col@ as int].push(t).drop_last() =~= m[col@ as int]);
                            assert(crate::board::model::unplaced_cols(next.model(), col@ as int) =~= m);
                        }
                        let d = self.next(&next, col);
                        let ghost before = out@;
                        proof {
                            assert(symm_child(m, (d, col, next)));
                        }
                        out.push((d, col, next));
                        proof {
                            assert(out@[out.len() - 1].1@ == col@);
                            assert forall|k: int| 0 <= k < out.len() implies symm_child(m, #[trigger] out@[k]) by {
                                if k < before.len() {
                                    assert(out@[k] == before[k]);
                                }
                            }
                            assert forall|j: int|
                                0 <= j < i + 1 && #[trigger] is_placeable(m, crate::basic::column::centred_index(j)) && (!zero
                                    || crate::basic::column::centred_index(j) <= 3) implies exists|k: int|
                                    0 <= k < out.len() && out@[k].1@ == crate::basic::column::centred_index(j) by {
                                if j < i {
                                    let k = choose|k: int| 0 <= k < before.len() && before[k].1@ == crate::basic::column::centred_index(j);
                                    assert(out@[k] == before[k]);
                                } else {
                                    assert(out@[out.len() - 1].1@ == crate::basic::column::centred_index(j));
                                }
                            }
                        }
                    },
                    None => {},
                }
            }
            i = i + 1;
        }
        proof {
            assert forall|c: int|
                #[trigger] is_placeable(m, c) && (!all_zero(self.0) || c <= 3) implies exists|k: int|
                    0 <= k < out.len() && out@[k].1@ == c by {
                let j = crate::board::lemmas::lemma_centred_onto(c);
            }
        }
        out
    }
}

/// Solver that extends `MinimaxABCached` to use symmetry to
/// reduce the search space
pub struct MinimaxSymm {}

impl MinimaxSymm {
    /// Alpha-beta search of `pos` in the window `(alpha, beta)`, exploring
    /// only one of each pair of mirrored moves while the position is its own
    /// mirror image, and handing positions that can no longer become
    /// symmetrical to `MinimaxABCached`.
    pub fn minimax<P: Position + CloneBoard + HashBoard, M: SolverManager>(
        pos: P,
        boss: &mut M,
        cache: &mut Cache<P>,
        alpha: isize,
        beta: isize,
        diffs: SymmDiff,
    ) -> (r: ControlFlow<M::Break, isize>)
        requires
            pos.inv(),
            old(cache).sound(),
            -WINDOW <= alpha < beta <= WINDOW,
            diffs_ok(diffs.0, pos.model()),
        ensures
            final(cache).sound(),
            r matches ControlFlow::Continue(v) ==> -WINDOW <= v <= WINDOW && ab_result(
                v as int,
                alpha as int,
                beta as int,
                value(pos.model()),
            ),
            old(boss).patient() ==> r is Continue && final(boss).patient(),
        decreases remaining(pos.model()),
    {
        match boss.check() {
            ControlFlow::Break(b) => return ControlFlow::Break(b),
            ControlFlow::Continue(()) => {},
        }
        if pos.is_full() {
            return ControlFlow::Continue(0);
        }
        let ghost m = pos.model();
        proof {
            pos.lemma_inv();
            lemma_num_moves_bounds(m);
            lemma_value_bounds(m);
        }
        let prev_alpha = alpha;
        let mut hi = beta;
        let win = pos.will_win_eval();
        if win < hi {
            hi = win;
        }
        let (lo0, hi0) = cache.get_and_bound(&pos, alpha, hi);
        let mut lo = lo0;
        hi = hi0;
        if lo >= hi {
            return ControlFlow::Continue(hi);
        }
        let ghost a_start = lo;
        let ghost zero = all_zero(diffs.0);
        proof {
            if zero {
                lemma_zero_symmetric(diffs.0, m);
            }
        }
        let t = pos.curr();
        let nexts = diffs.nexts(&pos);
        let ghost mut explored: Set<int> = Set::empty();
        let mut i: usize = 0;
        while i < nexts.len()
            invariant
                pos.inv(),
                pos.model() == m,
                wf_cols(m),
                num_moves(m) < max_moves(),
                t == curr_token(num_moves(m)),
                zero ==> forall|c: int| #[trigger] is_placeable(m, c) ==> child_score(m, c, remaining(m)) == child_score(m, 6 - c, remaining(m)),
                forall|k: int| 0 <= k < nexts.len() ==> symm_child(m, #[trigger] nexts@[k]),
                i <= nexts.len(),
                forall|k: int| 0 <= k < i ==> explored.contains(#[trigger] nexts@[k].1@ as int),
                zero ==> forall|k: int| 0 <= k < i ==> explored.contains(6 - #[trigger] nexts@[k].1@ as int),
                prev_alpha == alpha,
                -WINDOW <= alpha < beta <= WINDOW,
                alpha <= a_start <= lo < hi <= beta,
                a_start == alpha || value(m) >= a_start,
                hi < beta ==> value(m) <= hi,
                hi <= will_win_eval(num_moves(m)),
                value(m) <= will_win_eval(num_moves(m)),
                all_at_most(m, explored, lo as int),
                lo == a_start || some_equal(m, explored, lo as int),
                cache.sound(),
                old(boss).patient() ==> boss.patient(),
            decreases nexts.len() - i,
        {
            let (next_diffs, col, next_pos) = nexts[i];
            proof {
                assert(symm_child(m, nexts@[i as int]));
                lemma_child(m, col@ as int);
            }
            if next_pos.is_won_at_col(col) {
                let best = next_pos.just_won_eval();
                cache.insert_bounded(&pos, prev_alpha, best, hi);
                return ControlFlow::Continue(best);
            }
            proof {
                let m2 = next_pos.model();
                assert(m2[col@ as int].len() - 1 == m[col@ as int].len());
                assert(m2[col@ as int].last() == t);
                assert(child_score(m, col@ as int, remaining(m)) == -value(m2));
            }
            let result = match next_diffs {
                None => MinimaxABCached::minimax(next_pos, boss, cache, -hi, -lo),
                Some(d) => Self::minimax(next_pos, boss, cache, -hi, -lo, d),
            };
            let score = match result {
                ControlFlow::Break(b) => return ControlFlow::Break(b),
                ControlFlow::Continue(e) => -e,
            };
            let ghost prev = lo;
            if score > lo {
                lo = score;
            }
            if lo >= hi {
                proof {
                    assert(child_score(m, col@ as int, remaining(m)) >= lo);
                }
                cache.insert_bounded(&pos, prev_alpha, lo, hi);
                return ControlFlow::Continue(lo);
            }
            proof {
                lemma_explore(m, explored, prev as int, col@ as int, lo as int);
                explored = explored.insert(col@ as int);
                if zero {
                    lemma_explore(m, explored, lo as int, 6 - col@ as int, lo as int);
                    explored = explored.insert(6 - col@ as int);
                }
            }
            i = i + 1;
        }
        proof {
            assert(covers(m, explored)) by {
                assert forall|c: int| #[trigger] is_placeable(m, c) implies explored.contains(c) by {
                    if zero && c > 3 {
                        assert(is_placeable(m, 6 - c));
                        let k = choose|k: int| 0 <= k < nexts.len() && nexts@[k].1@ == 6 - c;
                        assert(explored.contains(6 - nexts@[k].1@ as int));
                    } else {
                        let k = choose|k: int| 0 <= k < nexts.len() && nexts@[k].1@ == c;
                        assert(explored.contains(nexts@[k].1@ as int));
                    }
                }
            }
            lemma_fail_low(m, explored, lo as int);
            if lo != a_start {
                lemma_attained(m, explored, lo as int);
            }
        }
        cache.insert_bounded(&pos, prev_alpha, lo, hi);
        ControlFlow::Continue(lo)
    }
}

impl<P: Position + CloneBoard + HashBoard> Solver<P> for MinimaxSymm {
    fn solve<M: SolverManager>(pos: P, boss: &mut M, cache: &mut Cache<P>) -> (r: ControlFlow<
        M::Break,
        isize,
    >) {
        proof {
            pos.lemma_inv();
            lemma_num_moves_bounds(pos.model());
            lemma_value_bounds(pos.model());
        }
        let alpha = pos.will_lose_eval();
        let beta = pos.will_win_eval();
        match SymmDiff::new(&pos) {
            None => MinimaxABCached::solve(pos, boss, cache),
            Some(diffs) => {
                if alpha == beta {
                    // only a full board leaves no room between the two
                    return Self::minimax(pos, boss, cache, alpha - 1, beta + 1, diffs);
                }
                Self::minimax(pos, boss, cache, alpha, beta, diffs)
            },
        }
    }
}

} // verus!
