//! The mathematical model of a Connect Four position: seven columns, each the
//! sequence of tokens stacked in it from the bottom up, and the game value
//! defined over it.
use vstd::prelude::*;

use crate::basic::column::centred_index;
use crate::basic::{dir_offsets, on_board, step_col, step_row, Cell, Dir, Token};

verus! {

/// Number of cells on the board, i.e. the most moves a game can have.
pub open spec fn max_moves() -> int {
    42
}

/// Seven columns, each holding at most six tokens.
pub open spec fn wf_cols(m: Seq<Seq<Token>>) -> bool {
    &&& m.len() == 7
    &&& forall|c: int| 0 <= c < 7 ==> #[trigger] m[c].len() <= 6
}

/// The empty board.
pub open spec fn empty_cols() -> Seq<Seq<Token>> {
    Seq::new(7, |c: int| Seq::<Token>::empty())
}

/// The token at column `c`, row `r`, or `None` if that cell is empty or off the board.
pub open spec fn token_at(m: Seq<Seq<Token>>, c: int, r: int) -> Option<Token> {
    if 0 <= c < m.len() && 0 <= r < m[c].len() {
        Some(m[c][r])
    } else {
        None
    }
}

/// The token at the given cell.
pub open spec fn cell_token(m: Seq<Seq<Token>>, cell: Cell) -> Option<Token> {
    token_at(m, cell.col@ as int, cell.row@ as int)
}

/// The board after dropping `t` into column `c`.
pub open spec fn placed_cols(m: Seq<Seq<Token>>, c: int, t: Token) -> Seq<Seq<Token>> {
    m.update(c, m[c].push(t))
}

/// The board after removing the top token of column `c`.
pub open spec fn unplaced_cols(m: Seq<Seq<Token>>, c: int) -> Seq<Seq<Token>> {
    m.update(c, m[c].drop_last())
}

/// The board mirrored left to right.
pub open spec fn mirror_cols(m: Seq<Seq<Token>>) -> Seq<Seq<Token>> {
    Seq::new(7, |c: int| m[6 - c])
}

/// Can a token be dropped into column `c`?
pub open spec fn is_placeable(m: Seq<Seq<Token>>, c: int) -> bool {
    0 <= c < 7 && m[c].len() < 6
}

/// Number of tokens in the first `k` columns.
pub open spec fn moves_upto(m: Seq<Seq<Token>>, k: int) -> int
    decreases k,
{
    if k <= 0 {
        0
    } else {
        moves_upto(m, k - 1) + m[k - 1].len()
    }
}

/// Number of tokens on the board.
pub open spec fn num_moves(m: Seq<Seq<Token>>) -> int {
    moves_upto(m, 7)
}

/// The token of the player to move: `A` after an even number of moves.
pub open spec fn curr_token(n: int) -> Token {
    if n % 2 == 0 {
        Token::A
    } else {
        Token::B
    }
}

/// Number of consecutive `t` tokens seen from `(c, r)` in direction `d`,
/// looking at distances `1..=k`.
pub open spec fn run(m: Seq<Seq<Token>>, c: int, r: int, d: Dir, t: Token, k: nat) -> nat
    decreases k,
{
    if k == 0 {
        0
    } else {
        let prev = run(m, c, r, d, t, (k - 1) as nat);
        if prev == k - 1 && token_at(m, step_col(c, d, k as int), step_row(r, d, k as int)) == Some(
            t,
        ) {
            k
        } else {
            prev
        }
    }
}

/// Consecutive `t` tokens in direction `d` from `(c, r)`, up to distance 3.
pub open spec fn run3(m: Seq<Seq<Token>>, c: int, r: int, d: Dir, t: Token) -> int {
    run(m, c, r, d, t, 3) as int
}

/// Length of the horizontal line of `t` through `(c, r)`, counting `(c, r)` itself.
pub open spec fn horizontal_len(m: Seq<Seq<Token>>, c: int, r: int, t: Token) -> int {
    1 + run3(m, c, r, Dir::Left, t) + run3(m, c, r, Dir::Right, t)
}

/// Length of the vertical line of `t` below and through `(c, r)`.
pub open spec fn vertical_len(m: Seq<Seq<Token>>, c: int, r: int, t: Token) -> int {
    1 + run3(m, c, r, Dir::Down, t)
}

/// Length of the rising diagonal of `t` through `(c, r)`.
pub open spec fn diag_pos_len(m: Seq<Seq<Token>>, c: int, r: int, t: Token) -> int {
    1 + run3(m, c, r, Dir::LeftDown, t) + run3(m, c, r, Dir::RightUp, t)
}

/// Length of the falling diagonal of `t` through `(c, r)`.
pub open spec fn diag_neg_len(m: Seq<Seq<Token>>, c: int, r: int, t: Token) -> int {
    1 + run3(m, c, r, Dir::RightDown, t) + run3(m, c, r, Dir::LeftUp, t)
}

/// 1 if `len` is a pair, else 0.
pub open spec fn is_pair(len: int) -> int {
    if len == 2 {
        1
    } else {
        0
    }
}

/// 1 if `len` is a triple, else 0.
pub open spec fn is_triple(len: int) -> int {
    if len == 3 {
        1
    } else {
        0
    }
}

/// Does a `t` token at `(c, r)` complete four in a row?
pub open spec fn wins_at(m: Seq<Seq<Token>>, c: int, r: int, t: Token) -> bool {
    ||| horizontal_len(m, c, r, t) >= 4
    ||| vertical_len(m, c, r, t) >= 4
    ||| diag_pos_len(m, c, r, t) >= 4
    ||| diag_neg_len(m, c, r, t) >= 4
}

/// `None` if a `t` token at `(c, r)` completes four in a row, else the number
/// of lines through `(c, r)` of length exactly two and exactly three.
pub open spec fn adjacent_counts(m: Seq<Seq<Token>>, c: int, r: int, t: Token) -> Option<(int, int)> {
    if wins_at(m, c, r, t) {
        None
    } else {
        let h = horizontal_len(m, c, r, t);
        let v = vertical_len(m, c, r, t);
        let p = diag_pos_len(m, c, r, t);
        let n = diag_neg_len(m, c, r, t);
        Some(
            (
                is_pair(h) + is_pair(v) + is_pair(p) + is_pair(n),
                is_triple(h) + is_triple(v) + is_triple(p) + is_triple(n),
            ),
        )
    }
}

/// Score when the previous move, the `n`-th, won.
pub open spec fn just_won_eval(n: int) -> int {
    (max_moves() + 2 - n) / 2
}

/// Score when, after `n` moves, the player to move wins with their next move.
pub open spec fn will_win_eval(n: int) -> int {
    (max_moves() + 1 - n) / 2
}

/// Score when, after `n` moves, the opponent wins with their next move.
pub open spec fn will_lose_eval(n: int) -> int {
    -((max_moves() - n) / 2)
}

/// Below every score.
pub open spec fn no_score() -> int {
    -1000
}

/// Score of the child obtained by the player to move dropping into column `c`:
/// the win score if that move connects four, else minus the child's value.
/// `d` is the number of empty cells of `m`.
pub open spec fn child_score(m: Seq<Seq<Token>>, c: int, d: nat) -> int
    decreases d, 0nat,
{
    if d == 0 {
        0
    } else {
        let t = curr_token(num_moves(m));
        let m2 = placed_cols(m, c, t);
        if wins_at(m2, c, m[c].len() as int, t) {
            just_won_eval(num_moves(m) + 1)
        } else {
            -value_rec(m2, (d - 1) as nat)
        }
    }
}

/// Best child score over the columns `centred_index(0..k)` that can be played,
/// or `no_score()` when there is none.
pub open spec fn best_child(m: Seq<Seq<Token>>, d: nat, k: nat) -> int
    decreases d, k,
{
    if k == 0 || k > 7 {
        no_score()
    } else {
        let c = centred_index(k - 1);
        let prev = best_child(m, d, (k - 1) as nat);
        if is_placeable(m, c) {
            let s = child_score(m, c, d);
            if s > prev {
                s
            } else {
                prev
            }
        } else {
            prev
        }
    }
}

/// Negamax value of `m` with `d` empty cells: 0 for a full board, else the best child score.
pub open spec fn value_rec(m: Seq<Seq<Token>>, d: nat) -> int
    decreases d, 8nat,
{
    if d == 0 {
        0
    } else {
        best_child(m, d, 7)
    }
}

/// Number of empty cells.
pub open spec fn remaining(m: Seq<Seq<Token>>) -> nat {
    (max_moves() - num_moves(m)) as nat
}

/// The game-theoretic value of the position for the player to move,
/// under perfect play by both sides: positive for a win, scaled by how
/// early it comes; negative for a loss; zero for a draw.
pub open spec fn value(m: Seq<Seq<Token>>) -> int {
    value_rec(m, remaining(m))
}

} // verus!
