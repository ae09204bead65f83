//! Self-checks that any board implementation passes: each runs a few
//! operations and reports whether the board behaved as a board must. Their
//! contracts prove that every implementation passes them.
use vstd::prelude::*;

use crate::basic::{column, row, Cell, Token};
use crate::board::model::{curr_token, empty_cols, num_moves, run, token_at, wf_cols, wins_at};
use crate::board::{apply_moves, Board, Moves};

verus! {

/// Checks that the empty board has no token in any cell.
pub fn empty_is_empty<B: Board>(_name: &str) -> (ok: bool)
    ensures
        ok,
{
    let empty = B::empty();
    let mut c: usize = 0;
    while c < column::COUNT
        invariant
            empty.inv(),
            empty.model() == empty_cols(),
            c <= 7,
        decreases 7 - c,
    {
        let mut r: usize = 0;
        while r < row::COUNT
            invariant
                empty.inv(),
                empty.model() == empty_cols(),
                c < 7,
                r <= 6,
            decreases 6 - r,
        {
            let cell = Cell { col: column::Idx::raw(c), row: row::Idx::raw(r) };
            if empty.get(cell).is_some() {
                return false;
            }
            r = r + 1;
        }
        c = c + 1;
    }
    true
}

/// Checks that a column takes six tokens, the players taking turns, and
/// refuses a seventh, filling the board column by column.
pub fn cannot_place_in_full_column<B: Board>(_name: &str) -> (ok: bool)
    ensures
        ok,
{
    let mut board = B::empty();
    let mut curr = Token::STARTING;
    proof {
        crate::board::lemmas::lemma_empty();
    }
    let mut c: usize = 0;
    while c < column::COUNT
        invariant
            board.inv(),
            c <= 7,
            wf_cols(board.model()),
            forall|j: int| 0 <= j < 7 ==> #[trigger] board.model()[j].len() == if j < c { 6int } else { 0int },
            num_moves(board.model()) == 6 * c,
            curr == curr_token(num_moves(board.model())),
        decreases 7 - c,
    {
        let col = column::Idx::raw(c);
        let mut k: usize = 0;
        while k < 6
            invariant
                board.inv(),
                c < 7,
                k <= 6,
                col@ == c,
                wf_cols(board.model()),
                forall|j: int|
                    0 <= j < 7 ==> #[trigger] board.model()[j].len() == if j < c {
                        6int
                    } else if j == c {
                        k as int
                    } else {
                        0int
                    },
                num_moves(board.model()) == 6 * c + k,
                curr == curr_token(num_moves(board.model())),
            decreases 6 - k,
        {
            if !board.can_place(col) {
                return false;
            }
            if curr != board.calc_curr() {
                return false;
            }
            proof {
                crate::board::lemmas::lemma_child(board.model(), c as int);
            }
            let cell = board.place(col, curr);
            if cell.is_none() {
                return false;
            }
            curr = curr.next();
            k = k + 1;
        }
        if board.can_place(col) {
            return false;
        }
        c = c + 1;
    }
    true
}

/// Checks that four tokens in the bottom row, the last in the centre
/// column, are seen as a win at the top of the centre column.
pub fn won_at_basic<B: Board>(_name: &str) -> (ok: bool)
    ensures
        ok,
{
    proof {
        reveal_strlit("1122334");
    }
    let moves = Moves::from_string("1122334");
    let board = B::from_moves(&moves);
    proof {
        let s = moves@;
        let e = empty_cols();
        let a = Token::A;
        let b = Token::B;
        assert(s.len() == 7);
        assert(s[0].0@ == 0 && s[1].0@ == 0 && s[2].0@ == 1 && s[3].0@ == 1);
        assert(s[4].0@ == 2 && s[5].0@ == 2 && s[6].0@ == 3);
        assert(s[0].1 == a && s[1].1 == b && s[2].1 == a && s[3].1 == b);
        assert(s[4].1 == a && s[5].1 == b && s[6].1 == a);
        assert(s.take(0).len() == 0);
        assert(s.take(1).drop_last() =~= s.take(0));
        assert(s.take(2).drop_last() =~= s.take(1));
        assert(s.take(3).drop_last() =~= s.take(2));
        assert(s.take(4).drop_last() =~= s.take(3));
        assert(s.take(5).drop_last() =~= s.take(4));
        assert(s.take(6).drop_last() =~= s.take(5));
        assert(s.drop_last() =~= s.take(6));
        assert(apply_moves(e, s.take(0)) == e);
        assert(s.take(1).last() == s[0]);
        assert(e[0] =~= Seq::<Token>::empty());
        assert(e[0].push(a) =~= seq![a]);
        let m1 = apply_moves(e, s.take(1));
        assert(m1 =~~= e.update(0, seq![a]));
        assert(seq![a].push(b) =~= seq![a, b]);
        let m2 = apply_moves(e, s.take(2));
        assert(m2 =~~= e.update(0, seq![a, b]));
        let m3 = apply_moves(e, s.take(3));
        assert(m2[1] =~= Seq::<Token>::empty());
        assert(m2[1].push(a) =~= seq![a]);
        assert(m3 =~~= m2.update(1, seq![a]));
        let m4 = apply_moves(e, s.take(4));
        assert(m4 =~~= m2.update(1, seq![a, b]));
        let m5 = apply_moves(e, s.take(5));
        assert(m4[2] =~= Seq::<Token>::empty());
        assert(m4[2].push(a) =~= seq![a]);
        assert(m5 =~~= m4.update(2, seq![a]));
        let m6 = apply_moves(e, s.take(6));
        assert(m6 =~~= m4.update(2, seq![a, b]));
        let m = board.model();
        assert(m6[3] =~= Seq::<Token>::empty());
        assert(m6[3].push(a) =~= seq![a]);
        assert(m =~~= m6.update(3, seq![a]));
        assert(token_at(m, 2, 0) == Some(a) && token_at(m, 1, 0) == Some(a) && token_at(m, 0, 0) == Some(a));
        reveal_with_fuel(run, 4);
        assert(wins_at(m, 3, 0, a));
    }
    board.is_won_at_col(column::Idx::centre())
}

} // verus!
