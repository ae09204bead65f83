use vstd::prelude::*;

use crate::basic::{column, other, Cell, Token};
use crate::board::model::{cell_token, empty_cols, placed_cols, unplaced_cols, wf_cols};
use crate::board::lemmas::{lemma_empty, lemma_num_moves_bounds, lemma_placed, lemma_unplaced};
use crate::board::model::{
    curr_token, is_placeable, just_won_eval, max_moves, num_moves, will_lose_eval, will_win_eval,
};
use crate::board::{place_if_room, Board, CloneBoard, HashBoard, MutBoard};

verus! {

/// Maximum possible number of moves in a game
pub const MAX_MOVES: usize = 42;

/// Minimum possible position eval score
pub const MIN_EVAL: isize = -18;

/// Maximum possible position eval score
pub const MAX_EVAL: isize = 18;

/// A board that knows how many moves have been played, and from that
/// whose turn it is and what the eval bounds are.
pub trait Position: Board {
    /// Number of moves made in the game
    fn move_count(&self) -> (n: usize)
        requires
            self.inv(),
        ensures
            n == num_moves(self.model()),
    ;

    /// Has the game run out of empty cells?
    fn is_full(&self) -> (b: bool)
        requires
            self.inv(),
        ensures
            b == (num_moves(self.model()) == max_moves()),
    {
        self.move_count() == MAX_MOVES
    }

    /// Number of remaining empty cells, i.e. an upper bound
    /// on the number of remaining moves
    fn remaining_moves(&self) -> (n: usize)
        requires
            self.inv(),
        ensures
            n == max_moves() - num_moves(self.model()),
    {
        proof {
            self.lemma_inv();
            lemma_num_moves_bounds(self.model());
        }
        MAX_MOVES - self.move_count()
    }

    /// Eval score if the next move is a win for the current player
    fn will_win_eval(&self) -> (e: isize)
        requires
            self.inv(),
        ensures
            e == will_win_eval(num_moves(self.model())),
    {
        proof {
            self.lemma_inv();
            lemma_num_moves_bounds(self.model());
        }
        ((MAX_MOVES + 1 - self.move_count()) / 2) as isize
    }

    /// Eval score if the opponent will win on their next move
    fn will_lose_eval(&self) -> (e: isize)
        requires
            self.inv(),
        ensures
            e == will_lose_eval(num_moves(self.model())),
    {
        proof {
            self.lemma_inv();
            lemma_num_moves_bounds(self.model());
        }
        -((MAX_MOVES - self.move_count()) as isize / 2)
    }

    /// Eval score if the position was just won on the previous move
    fn just_won_eval(&self) -> (e: isize)
        requires
            self.inv(),
        ensures
            e == just_won_eval(num_moves(self.model())),
    {
        proof {
            self.lemma_inv();
            lemma_num_moves_bounds(self.model());
        }
        ((MAX_MOVES + 2 - self.move_count()) / 2) as isize
    }

    /// Current player's token
    fn curr(&self) -> (t: Token)
        requires
            self.inv(),
        ensures
            t == curr_token(num_moves(self.model())),
    {
        if self.move_count() % 2 == 0 {
            Token::STARTING
        } else {
            Token::SECOND
        }
    }

    /// Opponent's token
    fn opp(&self) -> (t: Token)
        requires
            self.inv(),
        ensures
            t == other(curr_token(num_moves(self.model()))),
    {
        self.curr().next()
    }

    /// Place the current player's token in the given column
    fn place_curr(&mut self, col: column::Idx) -> (r: Option<Cell>)
        requires
            old(self).inv(),
        ensures
            final(self).inv(),
            final(self).model() == place_if_room(
                old(self).model(),
                col@ as int,
                curr_token(num_moves(old(self).model())),
            ),
            r is Some <==> is_placeable(old(self).model(), col@ as int),
            r matches Some(c) ==> c.col@ == col@ && c.row@ == old(self).model()[col@ as int].len(),
    {
        let t = self.curr();
        self.place(col, t)
    }
}

/// A wrapper around a board that tracks
/// the number of moves made so far for quicker
/// computation
#[derive(Debug, Clone, Copy, PartialEq, Eq)]
pub struct WithInfo<B> {
    board: B,
    move_count: usize,
}

impl<B: Board> Board for WithInfo<B> {
    closed spec fn model(&self) -> Seq<Seq<Token>> {
        self.board.model()
    }

    closed spec fn inv(&self) -> bool {
        self.board.inv() && self.move_count == num_moves(self.board.model())
    }

    proof fn lemma_inv(&self) {
        self.board.lemma_inv();
    }

    fn empty() -> (b: Self) {
        proof {
            lemma_empty();
        }
        WithInfo { board: B::empty(), move_count: 0 }
    }

    fn count_moves(&self) -> (n: usize) {
        self.move_count
    }

    fn calc_curr(&self) -> (t: Token) {
        if self.move_count % 2 == 0 {
            Token::STARTING
        } else {
            Token::SECOND
        }
    }

    fn get(&self, cell: Cell) -> (r: Option<Token>) {
        self.board.get(cell)
    }

    fn can_place(&self, col: column::Idx) -> (b: bool) {
        self.board.can_place(col)
    }

    fn force_place(&mut self, col: column::Idx, token: Token) {
        proof {
            self.board.lemma_inv();
            lemma_placed(self.board.model(), col@ as int, token);
        }
        self.board.force_place(col, token);
        self.move_count = self.move_count + 1;
    }
}

impl<B: CloneBoard> CloneBoard for WithInfo<B> {}

impl<B: MutBoard> MutBoard for WithInfo<B> {
    fn unplace(&mut self, col: column::Idx) {
        proof {
            self.board.lemma_inv();
        }
        let _ = col.index();
        proof {
            lemma_unplaced(self.board.model(), col@ as int);
            lemma_num_moves_bounds(unplaced_cols(self.board.model(), col@ as int));
        }
        self.board.unplace(col);
        self.move_count = self.move_count - 1;
    }
}

impl<B: HashBoard> HashBoard for WithInfo<B> {
    open spec fn key_model(m: Seq<Seq<Token>>) -> u64 {
        B::key_model(m)
    }

    proof fn lemma_key_model(m1: Seq<Seq<Token>>, m2: Seq<Seq<Token>>) {
        B::lemma_key_model(m1, m2);
    }

    fn key(&self) -> (k: u64) {
        self.board.key()
    }
}

impl<B: Board> Position for WithInfo<B> {
    fn move_count(&self) -> (n: usize) {
        self.move_count
    }
}

} // verus!
