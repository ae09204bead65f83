//! Immediate threats: moves that win at once, and what they tell about the
//! value of a position.
use vstd::prelude::*;

use crate::basic::{dir_offsets, other, step_col, step_row, Dir, Token};
use crate::board::lemmas::{lemma_child, lemma_value_bounds, lemma_value_is_max};
use crate::board::model::{
    child_score, curr_token, is_placeable, max_moves, num_moves, placed_cols, remaining, run,
    token_at, value, will_lose_eval, will_win_eval, wf_cols, wins_at,
};

verus! {

/// The player to move wins at once by dropping into column `c`.
pub open spec fn curr_threat(m: Seq<Seq<Token>>, c: int) -> bool {
    is_placeable(m, c) && wins_at(m, c, m[c].len() as int, curr_token(num_moves(m)))
}

/// The opponent of the player to move would win at once by dropping into
/// column `c`, were it their turn.
pub open spec fn opp_threat(m: Seq<Seq<Token>>, c: int) -> bool {
    is_placeable(m, c) && wins_at(m, c, m[c].len() as int, other(curr_token(num_moves(m))))
}

/// The opponent would win at the cell just above the next cell of column `c`.
pub open spec fn above_threat(m: Seq<Seq<Token>>, c: int) -> bool {
    m[c].len() + 1 < 6 && wins_at(m, c, m[c].len() + 1int, other(curr_token(num_moves(m))))
}

/// Dropping a token changes one cell only.
pub proof fn lemma_token_placed(m: Seq<Seq<Token>>, c: int, t: Token, c1: int, r1: int)
    requires
        wf_cols(m),
        is_placeable(m, c),
    ensures
        !(c1 == c && r1 == m[c].len()) ==> token_at(placed_cols(m, c, t), c1, r1) == token_at(
            m,
            c1,
            r1,
        ),
        token_at(placed_cols(m, c, t), c, m[c].len() as int) == Some(t),
        token_at(m, c, m[c].len() as int) is None,
{
}

/// Runs seen from the cell where a token is dropped do not change, and runs
/// of the other token do not change anywhere.
pub proof fn lemma_run_placed(
    m: Seq<Seq<Token>>,
    c: int,
    t: Token,
    c0: int,
    r0: int,
    d: Dir,
    u: Token,
    k: nat,
)
    requires
        wf_cols(m),
        is_placeable(m, c),
        (c0 == c && r0 == m[c].len()) || u != t,
    ensures
        run(placed_cols(m, c, t), c0, r0, d, u, k) == run(m, c0, r0, d, u, k),
    decreases k,
{
    if k > 0 {
        lemma_run_placed(m, c, t, c0, r0, d, u, (k - 1) as nat);
        let c1 = step_col(c0, d, k as int);
        let r1 = step_row(r0, d, k as int);
        lemma_token_placed(m, c, t, c1, r1);
        if c0 == c && r0 == m[c].len() {
            assert(!(c1 == c && r1 == m[c].len())) by {
                let (a, b) = dir_offsets(d);
                assert(a != 0 || b != 0);
                if a != 0 {
                    assert(a * (k as int) != 0) by (nonlinear_arith)
                        requires
                            a != 0,
                            k > 0,
                    ;
                } else {
                    assert(b * (k as int) != 0) by (nonlinear_arith)
                        requires
                            b != 0,
                            k > 0,
                    ;
                }
            }
        }
    }
}

/// Whether a token wins at a cell is unchanged by dropping a token at that
/// very cell, and by dropping the other token anywhere.
pub proof fn lemma_wins_placed(m: Seq<Seq<Token>>, c: int, t: Token, c0: int, r0: int, u: Token)
    requires
        wf_cols(m),
        is_placeable(m, c),
        (c0 == c && r0 == m[c].len()) || u != t,
    ensures
        wins_at(placed_cols(m, c, t), c0, r0, u) == wins_at(m, c0, r0, u),
{
    lemma_run_placed(m, c, t, c0, r0, Dir::Left, u, 3);
    lemma_run_placed(m, c, t, c0, r0, Dir::Right, u, 3);
    lemma_run_placed(m, c, t, c0, r0, Dir::Down, u, 3);
    lemma_run_placed(m, c, t, c0, r0, Dir::LeftDown, u, 3);
    lemma_run_placed(m, c, t, c0, r0, Dir::RightUp, u, 3);
    lemma_run_placed(m, c, t, c0, r0, Dir::RightDown, u, 3);
    lemma_run_placed(m, c, t, c0, r0, Dir::LeftUp, u, 3);
}

/// A move into column `c` wins at once exactly when `c` is a threat of the
/// player to move, and otherwise scores minus the value of the child.
pub proof fn lemma_threat_child(m: Seq<Seq<Token>>, c: int)
    requires
        wf_cols(m),
        is_placeable(m, c),
    ensures
        curr_threat(m, c) ==> child_score(m, c, remaining(m)) == will_win_eval(num_moves(m)),
        !curr_threat(m, c) ==> child_score(m, c, remaining(m)) == -value(
            placed_cols(m, c, curr_token(num_moves(m))),
        ),
{
    let t = curr_token(num_moves(m));
    lemma_child(m, c);
    lemma_wins_placed(m, c, t, c, m[c].len() as int, t);
}

/// When the player to move has a threat, the position is won at once.
pub proof fn lemma_curr_threat(m: Seq<Seq<Token>>, c: int)
    requires
        wf_cols(m),
        curr_threat(m, c),
    ensures
        value(m) == will_win_eval(num_moves(m)),
{
    lemma_child(m, c);
    lemma_threat_child(m, c);
}

/// Without a threat of the player to move, the position is worth less than
/// an immediate win.
pub proof fn lemma_no_curr_threat(m: Seq<Seq<Token>>)
    requires
        wf_cols(m),
        num_moves(m) < max_moves(),
        forall|c: int| !#[trigger] curr_threat(m, c),
    ensures
        value(m) <= will_win_eval(num_moves(m)) - 1,
        forall|c: int| #[trigger] is_placeable(m, c) ==> child_score(m, c, remaining(m)) <= will_win_eval(num_moves(m)) - 1,
{
    lemma_value_is_max(m);
    assert forall|c: int| #[trigger] is_placeable(m, c) implies child_score(m, c, remaining(m))
        <= will_win_eval(num_moves(m)) - 1 by {
        lemma_child(m, c);
        lemma_threat_child(m, c);
        assert(!curr_threat(m, c));
    }
    let c = choose|c: int| #[trigger] is_placeable(m, c) && child_score(m, c, remaining(m)) == value(m);
}

/// A move after which the opponent has a threat scores an immediate loss:
/// either the opponent's threat lies in another column, or right above the move.
pub proof fn lemma_opp_reply(m: Seq<Seq<Token>>, c: int, c2: int)
    requires
        wf_cols(m),
        is_placeable(m, c),
        !curr_threat(m, c),
        (c2 != c && opp_threat(m, c2)) || (c2 == c && above_threat(m, c)),
    ensures
        child_score(m, c, remaining(m)) == will_lose_eval(num_moves(m)),
{
    let t = curr_token(num_moves(m));
    let m2 = placed_cols(m, c, t);
    lemma_child(m, c);
    lemma_threat_child(m, c);
    assert(curr_token(num_moves(m2)) == other(t));
    lemma_wins_placed(m, c, t, c2, m2[c2].len() as int, other(t));
    assert(curr_threat(m2, c2));
    lemma_curr_threat(m2, c2);
}

/// A move after which the opponent has no threat, on a board that the move
/// does not fill, scores better than an immediate loss.
pub proof fn lemma_quiet_reply(m: Seq<Seq<Token>>, c: int)
    requires
        wf_cols(m),
        num_moves(m) + 1 < max_moves(),
        is_placeable(m, c),
        !curr_threat(m, c),
        forall|c2: int| c2 != c ==> !#[trigger] opp_threat(m, c2),
        !above_threat(m, c),
    ensures
        child_score(m, c, remaining(m)) >= will_lose_eval(num_moves(m)) + 1,
{
    let t = curr_token(num_moves(m));
    let m2 = placed_cols(m, c, t);
    lemma_child(m, c);
    lemma_threat_child(m, c);
    lemma_safe_child(m, c);
    lemma_no_curr_threat(m2);
}

/// After a move that leaves the opponent no threat elsewhere and none just
/// above it, the opponent, now to move, has no immediate win.
pub proof fn lemma_safe_child(m: Seq<Seq<Token>>, c: int)
    requires
        wf_cols(m),
        is_placeable(m, c),
        forall|c2: int| c2 != c ==> !#[trigger] opp_threat(m, c2),
        !above_threat(m, c),
    ensures
        wf_cols(placed_cols(m, c, curr_token(num_moves(m)))),
        num_moves(placed_cols(m, c, curr_token(num_moves(m)))) == num_moves(m) + 1,
        forall|c2: int| !#[trigger] curr_threat(placed_cols(m, c, curr_token(num_moves(m))), c2),
{
    let t = curr_token(num_moves(m));
    let m2 = placed_cols(m, c, t);
    lemma_child(m, c);
    assert(curr_token(num_moves(m2)) == other(t));
    assert forall|c2: int| !#[trigger] curr_threat(m2, c2) by {
        if is_placeable(m2, c2) {
            lemma_wins_placed(m, c, t, c2, m2[c2].len() as int, other(t));
            if c2 != c {
                assert(!opp_threat(m, c2));
            }
        }
    }
}

} // verus!
