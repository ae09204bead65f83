//! The decisions of the players: reading a human's move, and choosing the
//! computer's move by solving every child position.
use vstd::prelude::*;

use core::marker::PhantomData;
use core::ops::ControlFlow;

use crate::basic::column;
use crate::basic::column::centred_index;
use crate::board::lemmas::{lemma_child, lemma_num_moves_bounds, lemma_value_bounds, lemma_value_is_max};
use crate::board::model::{
    child_score, curr_token, is_placeable, max_moves, num_moves, placed_cols, remaining, value,
    wf_cols, wins_at,
};
use crate::board::{Board, CloneBoard, HashBoard};
use crate::solver_utils::{Cache, LaissezFaire, Position};
use crate::solvers::Solver;

verus! {

/// Why a line of input is not a move.
#[derive(Clone, Copy, Debug, PartialEq, Eq)]
pub enum MoveError {
    /// Nothing was typed.
    Empty,
    /// More than one character was typed.
    NotSingle,
    /// The character is not a column digit `1` to `7`.
    NotDigit(char),
    /// The column is full.
    Full(column::Idx),
}

/// Reads a human's move from the characters of a trimmed line of input:
/// a single digit `1` to `7` naming a column that is not full.
pub fn parse_move<B: Board>(pos: &B, input: &[char]) -> (r: Result<column::Idx, MoveError>)
    requires
        pos.inv(),
    ensures
        input@.len() == 0 ==> r == Err::<column::Idx, MoveError>(MoveError::Empty),
        input@.len() > 1 ==> r == Err::<column::Idx, MoveError>(MoveError::NotSingle),
        input@.len() == 1 && !('1' <= input@[0] <= '7') ==> r == Err::<column::Idx, MoveError>(
            MoveError::NotDigit(input@[0]),
        ),
        input@.len() == 1 && '1' <= input@[0] <= '7' ==> match r {
            Ok(col) => col@ == input@[0] as int - '1' as int && is_placeable(pos.model(), col@ as int),
            Err(e) => e matches MoveError::Full(col) && col@ == input@[0] as int - '1' as int
                && !is_placeable(pos.model(), col@ as int),
        },
{
    if input.len() == 0 {
        return Err(MoveError::Empty);
    }
    if input.len() > 1 {
        return Err(MoveError::NotSingle);
    }
    let ch = input[0];
    match column::Idx::from_digit(ch) {
        Some(col) => {
            if pos.can_place(col) {
                Ok(col)
            } else {
                Err(MoveError::Full(col))
            }
        },
        None => Err(MoveError::NotDigit(ch)),
    }
}

/// A computer player: plays a move of greatest score, found by solving each
/// child position with the solver `S`, and keeps its cache between moves.
pub struct Minimax<P, S> {
    cache: Cache<P>,
    pd: PhantomData<S>,
}

impl<P: Position + CloneBoard + HashBoard, S: Solver<P>> Minimax<P, S> {
    /// The player's cache is sound.
    pub closed spec fn wf(&self) -> bool {
        self.cache.sound()
    }

    /// A player with a large cache, filled by solving the empty board once.
    pub fn new() -> (r: Self)
        ensures
            r.wf(),
    {
        let pos = P::empty();
        let mut boss = LaissezFaire {};
        let mut cache = Cache::new_large();
        let _ = S::solve(pos, &mut boss, &mut cache);  // initialise cache
        Minimax { cache, pd: PhantomData }
    }

    /// The score of each column, `None` for a full one, and the column to
    /// play: one of the best score, which is the value of the position.
    /// Columns are tried in centred order and a later one replaces the
    /// choice only with a strictly greater score.
    pub fn play(&mut self, pos: &P) -> (r: (column::Idx, Vec<Option<isize>>))
        requires
            old(self).wf(),
            pos.inv(),
        ensures
            final(self).wf(),
            r.1@.len() == 7,
            forall|c: int|
                0 <= c < 7 ==> #[trigger] r.1@[c] == if is_placeable(pos.model(), c) {
                    Some(child_score(pos.model(), c, remaining(pos.model())) as isize)
                } else {
                    None
                },
            num_moves(pos.model()) == max_moves() ==> r.0@ == 0,
            num_moves(pos.model()) < max_moves() ==> is_placeable(pos.model(), r.0@ as int),
            num_moves(pos.model()) < max_moves() ==> child_score(pos.model(), r.0@ as int, remaining(pos.model()))
                == value(pos.model()),
            num_moves(pos.model()) < max_moves() ==> exists|k: int|
                0 <= k < crate::board::open_centred(pos.model()).len() && crate::board::open_centred(
                    pos.model(),
                )[k] == r.0@ && forall|k2: int|
                    0 <= k2 < k ==> child_score(
                        pos.model(),
                        #[trigger] crate::board::open_centred(pos.model())[k2],
                        remaining(pos.model()),
                    ) < value(pos.model()),
    {
        let ghost m = pos.model();
        proof {
            pos.lemma_inv();
            lemma_num_moves_bounds(m);
        }
        if pos.is_full() {
            // nothing can be played: every score is `None`
            return (column::Idx::left(), vec![None, None, None, None, None, None, None]);
        }
        proof {
            lemma_value_is_max(m);
        }
        let mut boss = LaissezFaire {};
        let mut evals: Vec<Option<isize>> = vec![None, None, None, None, None, None, None];
        let t = pos.curr();
        let nexts = pos.nexts(t);
        proof {
            crate::board::lemma_open_cols(m, 7);
        }
        let mut best: isize = isize::MIN;
        let mut best_col = column::Idx::left();
        let ghost mut bk: int = 0;
        let mut i: usize = 0;
        while i < nexts.len()
            invariant
                pos.inv(),
                pos.model() == m,
                wf_cols(m),
                num_moves(m) < max_moves(),
                t == curr_token(num_moves(m)),
                nexts.len() == crate::board::open_centred(m).len() <= 7,
                forall|k: int|
                    0 <= k < nexts.len() ==> (#[trigger] nexts@[k]).0@ == crate::board::open_centred(m)[k]
                        && nexts@[k].1.inv() && nexts@[k].1.model() == placed_cols(
                        m,
                        nexts@[k].0@ as int,
                        t,
                    ),
                forall|k: int| 0 <= k < crate::board::open_centred(m).len() ==> is_placeable(m, #[trigger] crate::board::open_centred(m)[k]),
                forall|a: int, b: int|
                    0 <= a < b < crate::board::open_centred(m).len() ==> #[trigger] crate::board::open_centred(m)[a]
                        != #[trigger] crate::board::open_centred(m)[b],
                i <= nexts.len(),
                evals@.len() == 7,
                forall|c: int|
                    0 <= c < 7 ==> #[trigger] evals@[c] == if exists|k: int| 0 <= k < i && nexts@[k].0@ == c {
                        Some(child_score(m, c, remaining(m)) as isize)
                    } else {
                        None
                    },
                i == 0 ==> best == isize::MIN,
                i > 0 ==> is_placeable(m, best_col@ as int) && best == child_score(m, best_col@ as int, remaining(m)),
                forall|k: int| 0 <= k < i ==> child_score(m, #[trigger] nexts@[k].0@ as int, remaining(m)) <= best,
                i > 0 ==> 0 <= bk < i && nexts@[bk].0 == best_col && forall|k: int|
                    0 <= k < bk ==> child_score(m, #[trigger] nexts@[k].0@ as int, remaining(m)) < best,
                self.cache.sound(),
            decreases nexts.len() - i,
        {
            let (col, next) = nexts[i];
            proof {
                lemma_child(m, col@ as int);
            }
            let eval = if next.is_won_at_col(col) {
                next.just_won_eval()
            } else {
                match S::solve(next, &mut boss, &mut self.cache) {
                    ControlFlow::Continue(opp_eval) => -opp_eval,
                    ControlFlow::Break(_) => {
                        proof {
                            assert(false);
                        }
                        0
                    },
                }
            };
            proof {
                let m2 = next.model();
                assert(m2[col@ as int].len() - 1 == m[col@ as int].len());
                assert(m2[col@ as int].last() == t);
            }
            let ghost old_evals = evals@;
            evals.set(col.index(), Some(eval));
            proof {
                assert forall|c: int|
                    0 <= c < 7 implies #[trigger] evals@[c] == if exists|k: int| 0 <= k < i + 1 && nexts@[k].0@ == c {
                        Some(child_score(m, c, remaining(m)) as isize)
                    } else {
                        None
                    } by {
                    if c == col@ {
                        assert(nexts@[i as int].0@ == c);
                    } else {
                        assert(evals@[c] == old_evals[c]);
                        if exists|k: int| 0 <= k < i + 1 && nexts@[k].0@ == c {
                            let k = choose|k: int| 0 <= k < i + 1 && nexts@[k].0@ == c;
                            assert(k < i);
                        }
                    }
                }
            }
            if eval > best {
                best = eval;
                best_col = col;
                proof {
                    bk = i as int;
                }
            }
            i = i + 1;
        }
        proof {
            assert forall|c: int| 0 <= c < 7 implies #[trigger] evals@[c] == if is_placeable(m, c) {
                Some(child_score(m, c, remaining(m)) as isize)
            } else {
                None
            } by {
                if is_placeable(m, c) {
                    let jc = crate::board::lemmas::lemma_centred_onto(c);
                    assert(crate::board::open_centred(m).contains(c));
                    let k = choose|k: int| 0 <= k < crate::board::open_centred(m).len() && crate::board::open_centred(m)[k] == c;
                    assert(nexts@[k].0@ == c);
                } else {
                    if exists|k: int| 0 <= k < nexts.len() && nexts@[k].0@ == c {
                        let k = choose|k: int| 0 <= k < nexts.len() && nexts@[k].0@ == c;
                    }
                }
            }
            let c = choose|c: int| #[trigger] is_placeable(m, c) && child_score(m, c, remaining(m)) == value(m);
            let jc = crate::board::lemmas::lemma_centred_onto(c);
            assert(crate::board::open_centred(m).contains(c));
            let k = choose|k: int| 0 <= k < crate::board::open_centred(m).len() && crate::board::open_centred(m)[k] == c;
            assert(child_score(m, nexts@[k].0@ as int, remaining(m)) <= best);
            assert(is_placeable(m, best_col@ as int));
            assert forall|k2: int| 0 <= k2 < bk implies child_score(
                m,
                #[trigger] crate::board::open_centred(m)[k2],
                remaining(m),
            ) < value(m) by {
                assert(nexts@[k2].0@ == crate::board::open_centred(m)[k2]);
            }
            assert(crate::board::open_centred(m)[bk] == best_col@);
        }
        (best_col, evals)
    }
}


/// How a game stands after a move.
#[derive(Clone, Copy, Debug, PartialEq, Eq, Structural)]
pub enum Turn {
    /// The player who moved has connected four.
    Won,
    /// The board is full and nobody has won.
    Draw,
    /// The other player moves next.
    Continue,
}

/// Plays the move of the player to move into column `col`, which must not
/// be full, and says whether that won the game, filled the board, or the
/// game goes on.
pub fn play_turn<P: Position>(pos: &mut P, col: column::Idx) -> (t: Turn)
    requires
        old(pos).inv(),
        is_placeable(old(pos).model(), col@ as int),
    ensures
        final(pos).inv(),
        final(pos).model() == placed_cols(
            old(pos).model(),
            col@ as int,
            curr_token(num_moves(old(pos).model())),
        ),
        (t == Turn::Won) == wins_at(
            final(pos).model(),
            col@ as int,
            old(pos).model()[col@ as int].len() as int,
            curr_token(num_moves(old(pos).model())),
        ),
        (t == Turn::Draw) == (t != Turn::Won && num_moves(final(pos).model()) == max_moves()),
{
    proof {
        pos.lemma_inv();
    }
    let token = pos.curr();
    pos.force_place(col, token);
    proof {
        assert(pos.model()[col@ as int].last() == token);
    }
    if pos.is_won_at_col(col) {
        Turn::Won
    } else if pos.is_full() {
        Turn::Draw
    } else {
        Turn::Continue
    }
}

} // verus!
