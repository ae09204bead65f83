pub mod array_board;
pub mod bit_board;
pub mod bit_col;
pub mod bit_cols;
pub mod bits;
pub mod lemmas;
pub mod model;
pub mod moves;
pub mod symm_board;
pub mod testing;
pub mod text;
pub mod threats;
pub mod win_bits;

use vstd::prelude::*;

use crate::basic::column::centred_index;
use crate::basic::{column, row, Cell, Dir, Token};
use crate::board::lemmas::{lemma_empty, lemma_num_moves_bounds, lemma_placed};
use crate::board::text::{
    chars_of, display_text, is_token_char, lemma_piece_start, piece_start, read_line, read_pieces, read_piece,
    row_text,
};
use crate::board::model::{
    adjacent_counts, cell_token, curr_token, diag_neg_len, diag_pos_len, empty_cols,
    horizontal_len, is_placeable, num_moves, placed_cols, run, run3, token_at, vertical_len,
    wf_cols, wins_at,
};

pub use array_board::ArrayBoard;
pub use bit_board::BitBoard;
pub use bit_cols::BitCols;
pub use moves::Moves;
pub use symm_board::SymmBoard;

verus! {

/// The board after dropping `t` into column `c`, or unchanged if `c` is full.
pub open spec fn place_if_room(m: Seq<Seq<Token>>, c: int, t: Token) -> Seq<Seq<Token>> {
    if is_placeable(m, c) {
        placed_cols(m, c, t)
    } else {
        m
    }
}

/// The board after playing each move of `s` in turn onto `m`, skipping
/// moves into full columns.
pub open spec fn apply_moves(m: Seq<Seq<Token>>, s: Seq<(column::Idx, Token)>) -> Seq<Seq<Token>>
    decreases s.len(),
{
    if s.len() == 0 {
        m
    } else {
        place_if_room(apply_moves(m, s.drop_last()), s.last().0@ as int, s.last().1)
    }
}

/// The playable columns among the first `k` in centred order, in that order.
pub open spec fn open_cols(m: Seq<Seq<Token>>, k: nat) -> Seq<int>
    decreases k,
{
    if k == 0 || k > 7 {
        seq![]
    } else {
        let prev = open_cols(m, (k - 1) as nat);
        if is_placeable(m, centred_index(k - 1)) {
            prev.push(centred_index(k - 1))
        } else {
            prev
        }
    }
}

/// The playable columns of `m` in centred order.
pub open spec fn open_centred(m: Seq<Seq<Token>>) -> Seq<int> {
    open_cols(m, 7)
}

/// The columns in centred order, each listed once.
pub proof fn lemma_centred_values()
    ensures
        centred_index(0) == 3 && centred_index(1) == 2 && centred_index(2) == 4 && centred_index(3)
            == 1 && centred_index(4) == 5 && centred_index(5) == 0 && centred_index(6) == 6,
        forall|i: int, j: int|
            0 <= i < 7 && 0 <= j < 7 && #[trigger] centred_index(i) == #[trigger] centred_index(j)
                ==> i == j,
{
}

/// Every column listed by `open_cols` is playable, and listed once.
pub proof fn lemma_open_cols(m: Seq<Seq<Token>>, k: nat)
    requires
        k <= 7,
    ensures
        forall|i: int| 0 <= i < open_cols(m, k).len() ==> is_placeable(m, #[trigger] open_cols(m, k)[i]),
        forall|j: int|
            #![trigger centred_index(j)]
            0 <= j < k && is_placeable(m, centred_index(j)) ==> open_cols(m, k).contains(centred_index(j)),
        open_cols(m, k).len() <= k,
        forall|i: int|
            0 <= i < open_cols(m, k).len() ==> exists|j: int|
                0 <= j < k && #[trigger] open_cols(m, k)[i] == centred_index(j),
        forall|a: int, b: int|
            0 <= a < b < open_cols(m, k).len() ==> #[trigger] open_cols(m, k)[a] != #[trigger] open_cols(
                m,
                k,
            )[b],
    decreases k,
{
    lemma_centred_values();
    if k > 0 {
        lemma_open_cols(m, (k - 1) as nat);
        let prev = open_cols(m, (k - 1) as nat);
        if is_placeable(m, centred_index(k - 1)) {
            assert forall|j: int|
                #![trigger centred_index(j)]
                0 <= j < k && is_placeable(m, centred_index(j)) implies open_cols(m, k).contains(
                centred_index(j),
            ) by {
                if j < k - 1 {
                    let i = choose|i: int| 0 <= i < prev.len() && prev[i] == centred_index(j);
                    assert(open_cols(m, k)[i] == centred_index(j));
                } else {
                    assert(open_cols(m, k)[prev.len() as int] == centred_index(j));
                }
            }
            assert forall|i: int| 0 <= i < open_cols(m, k).len() implies exists|j: int|
                0 <= j < k && #[trigger] open_cols(m, k)[i] == centred_index(j) by {
                if i < prev.len() {
                    let j = choose|j: int| 0 <= j < k - 1 && #[trigger] prev[i] == centred_index(j);
                    assert(open_cols(m, k)[i] == centred_index(j));
                } else {
                    assert(open_cols(m, k)[i] == centred_index(k - 1));
                }
            }
            assert forall|a: int, b: int|
                0 <= a < b < open_cols(m, k).len() implies #[trigger] open_cols(m, k)[a]
                != #[trigger] open_cols(m, k)[b] by {
                assert(open_cols(m, k)[a] == prev[a]);
                if b < prev.len() {
                    assert(open_cols(m, k)[b] == prev[b]);
                } else {
                    let j = choose|j: int| 0 <= j < k - 1 && #[trigger] prev[a] == centred_index(j);
                    assert(open_cols(m, k)[b] == centred_index(k - 1));
                }
            }
        } else {
            assert forall|i: int| 0 <= i < open_cols(m, k).len() implies exists|j: int|
                0 <= j < k && #[trigger] open_cols(m, k)[i] == centred_index(j) by {
                let j = choose|j: int| 0 <= j < k - 1 && #[trigger] prev[i] == centred_index(j);
                assert(open_cols(m, k)[i] == centred_index(j));
            }
        }
    }
}

/// Trait containing common board functionality, stated over the model:
/// seven columns of stacked tokens.
pub trait Board: Sized {
    /// The columns of the board, each from the bottom up.
    spec fn model(&self) -> Seq<Seq<Token>>;

    /// The representation invariant.
    spec fn inv(&self) -> bool;

    /// A board that keeps its invariant has a well-formed model.
    proof fn lemma_inv(&self)
        requires
            self.inv(),
        ensures
            wf_cols(self.model()),
    ;

    /// An empty starting board.
    fn empty() -> (b: Self)
        ensures
            b.inv(),
            b.model() == empty_cols(),
    ;

    /// Returns the token at the given cell, or None if the cell is empty.
    fn get(&self, cell: Cell) -> (r: Option<Token>)
        requires
            self.inv(),
        ensures
            r == cell_token(self.model(), cell),
    ;

    /// Force places the given token in the given column, which must not be full.
    fn force_place(&mut self, col: column::Idx, token: Token)
        requires
            old(self).inv(),
            is_placeable(old(self).model(), col@ as int),
        ensures
            final(self).inv(),
            final(self).model() == placed_cols(old(self).model(), col@ as int, token),
    ;

    /// Compute the current player based on the number of tokens on the board.
    fn calc_curr(&self) -> (t: Token)
        requires
            self.inv(),
        ensures
            t == curr_token(num_moves(self.model())),
    {
        let n = self.count_moves();
        if n % 2 == 0 {
            Token::STARTING
        } else {
            Token::SECOND
        }
    }

    /// Compute the total number of moves played.
    fn count_moves(&self) -> (n: usize)
        requires
            self.inv(),
        ensures
            n == num_moves(self.model()),
    {
        proof {
            self.lemma_inv();
            lemma_num_moves_bounds(self.model());
        }
        let mut count: usize = 0;
        let mut c: usize = 0;
        while c < column::COUNT
            invariant
                self.inv(),
                wf_cols(self.model()),
                c <= 7,
                count == crate::board::model::moves_upto(self.model(), c as int),
            decreases 7 - c,
        {
            proof {
                crate::board::lemmas::lemma_moves_upto_bounds(self.model(), c + 1);
            }
            count = count + self.col_count(column::Idx::raw(c));
            c = c + 1;
        }
        count
    }

    /// Compute the count of tokens in the given column.
    fn col_count(&self, col: column::Idx) -> (n: usize)
        requires
            self.inv(),
        ensures
            n == self.model()[col@ as int].len(),
    {
        proof {
            self.lemma_inv();
        }
        let _ = col.index();
        let mut height: usize = 0;
        let mut r: usize = 0;
        while r < row::COUNT
            invariant
                self.inv(),
                wf_cols(self.model()),
                col@ < 7,
                r <= 6,
                height == if self.model()[col@ as int].len() < r {
                    self.model()[col@ as int].len()
                } else {
                    r as nat
                },
            decreases 6 - r,
        {
            match self.get(Cell { col, row: row::Idx::raw(r) }) {
                Some(_) => {
                    height = height + 1;
                },
                None => {},
            }
            r = r + 1;
        }
        height
    }

    /// Compute the cell at the top of column.
    /// returns `None` if the column is empty
    fn top(&self, col: column::Idx) -> (r: Option<Cell>)
        requires
            self.inv(),
        ensures
            r is Some <==> self.model()[col@ as int].len() > 0,
            r matches Some(c) ==> c.col@ == col@ && c.row@ + 1 == self.model()[col@ as int].len(),
    {
        proof {
            self.lemma_inv();
        }
        let _ = col.index();
        let n = self.col_count(col);
        if n == 0 {
            None
        } else {
            Some(Cell { col, row: row::Idx::raw(n - 1) })
        }
    }

    /// Returns true if a token can be placed in the given column.
    /// i.e. the column is not full.
    fn can_place(&self, col: column::Idx) -> (b: bool)
        requires
            self.inv(),
        ensures
            b == is_placeable(self.model(), col@ as int),
    {
        let _ = col.index();
        self.col_count(col) < row::COUNT
    }

    /// The cell of every possible next move, ordered by `column::centred`.
    fn next_cells(&self) -> (r: Vec<Cell>)
        requires
            self.inv(),
        ensures
            r.len() == open_centred(self.model()).len(),
            forall|i: int|
                0 <= i < r.len() ==> (#[trigger] r@[i]).col@ == open_centred(self.model())[i]
                    && r@[i].row@ == self.model()[r@[i].col@ as int].len(),
    {
        proof {
            self.lemma_inv();
        }
        let mut r: Vec<Cell> = Vec::new();
        let mut i: usize = 0;
        while i < column::COUNT
            invariant
                self.inv(),
                wf_cols(self.model()),
                i <= 7,
                r.len() == open_cols(self.model(), i as nat).len(),
                forall|k: int|
                    0 <= k < r.len() ==> (#[trigger] r@[k]).col@ == open_cols(self.model(), i as nat)[k]
                        && r@[k].row@ == self.model()[r@[k].col@ as int].len(),
            decreases 7 - i,
        {
            let col = column::centred(i);
            let n = self.col_count(col);
            if n < row::COUNT {
                r.push(Cell { col, row: row::Idx::raw(n) });
            }
            i = i + 1;
        }
        r
    }

    /// Tries to place the given token in the given column.
    /// Returns the cell it lands in if successful, `None` if the column is full.
    fn place(&mut self, col: column::Idx, token: Token) -> (r: Option<Cell>)
        requires
            old(self).inv(),
        ensures
            final(self).inv(),
            final(self).model() == place_if_room(old(self).model(), col@ as int, token),
            r is Some <==> is_placeable(old(self).model(), col@ as int),
            r matches Some(c) ==> c.col@ == col@ && c.row@ == old(self).model()[col@ as int].len(),
    {
        proof {
            self.lemma_inv();
        }
        if self.can_place(col) {
            self.force_place(col, token);
            self.top(col)
        } else {
            None
        }
    }

    /// The number of consecutive `token`s seen from `cell` in direction `dir`,
    /// up to distance 3 (the cell itself is not counted).
    fn run_in(&self, cell: Cell, dir: Dir, token: Token) -> (n: usize)
        requires
            self.inv(),
        ensures
            n == run3(self.model(), cell.col@ as int, cell.row@ as int, dir, token),
            n <= 3,
    {
        proof {
            self.lemma_inv();
        }
        let ghost m = self.model();
        let ghost c = cell.col@ as int;
        let ghost rw = cell.row@ as int;
        let nb = cell.nbhd_in(dir);
        let mut n: usize = 0;
        while n < nb.len()
            invariant
                self.inv(),
                m == self.model(),
                c == cell.col@ as int,
                rw == cell.row@ as int,
                wf_cols(m),
                n <= nb.len() <= 3,
                run(m, c, rw, dir, token, n as nat) == n,
                forall|k: int|
                    #![trigger nb@[k]] 0 <= k < nb.len() ==> nb@[k].0 == k + 1 && nb@[k].1.at(
                        crate::basic::step_col(c, dir, k + 1),
                        crate::basic::step_row(rw, dir, k + 1),
                    ),
                nb.len() < 3 ==> !crate::basic::on_board(
                    crate::basic::step_col(c, dir, nb.len() + 1),
                    crate::basic::step_row(rw, dir, nb.len() + 1),
                ),
            decreases nb.len() - n,
        {
            let (_, other) = nb[n];
            let found = match self.get(other) {
                Some(tk) => tk == token,
                None => false,
            };
            if !found {
                proof {
                    assert(nb@[n as int].1.at(
                        crate::basic::step_col(c, dir, n + 1),
                        crate::basic::step_row(rw, dir, n + 1),
                    ));
                    assert(token_at(
                        m,
                        crate::basic::step_col(c, dir, n + 1),
                        crate::basic::step_row(rw, dir, n + 1),
                    ) != Some(token));
                    assert(run(m, c, rw, dir, token, (n + 1) as nat) == n);
                    lemma_run_stops(m, c, rw, dir, token, (n + 1) as nat, 3);
                }
                return n;
            }
            n = n + 1;
        }
        proof {
            if n < 3 {
                assert(token_at(
                    m,
                    crate::basic::step_col(c, dir, n + 1),
                    crate::basic::step_row(rw, dir, n + 1),
                ) is None);
                assert(run(m, c, rw, dir, token, (n + 1) as nat) == n);
                lemma_run_stops(m, c, rw, dir, token, (n + 1) as nat, 3);
            }
        }
        n
    }

    /// For a given cell and token, the number of lines through the cell of
    /// length exactly two and exactly three if that token *were* placed in
    /// that cell, or `None` if it would complete four in a row.
    fn count_adjacent_around(&self, cell: Cell, token: Token) -> (r: Option<(usize, usize)>)
        requires
            self.inv(),
        ensures
            match r {
                None => adjacent_counts(self.model(), cell.col@ as int, cell.row@ as int, token) is None,
                Some(p) => adjacent_counts(self.model(), cell.col@ as int, cell.row@ as int, token)
                    == Some((p.0 as int, p.1 as int)),
            },
    {
        let left = self.run_in(cell, Dir::Left, token);
        let right = self.run_in(cell, Dir::Right, token);
        let down = self.run_in(cell, Dir::Down, token);
        let left_down = self.run_in(cell, Dir::LeftDown, token);
        let right_up = self.run_in(cell, Dir::RightUp, token);
        let right_down = self.run_in(cell, Dir::RightDown, token);
        let left_up = self.run_in(cell, Dir::LeftUp, token);
        let h = 1 + left + right;
        let v = 1 + down;
        let p = 1 + left_down + right_up;
        let n = 1 + right_down + left_up;
        if h >= 4 || v >= 4 || p >= 4 || n >= 4 {
            None
        } else {
            let pairs = pair_of(h) + pair_of(v) + pair_of(p) + pair_of(n);
            let triples = triple_of(h) + triple_of(v) + triple_of(p) + triple_of(n);
            Some((pairs, triples))
        }
    }

    /// Checks there is a win (a sequence of four same-colour tokens) that includes the token
    /// at the given cell, which must not be empty.
    fn is_won_at(&self, cell: Cell) -> (b: bool)
        requires
            self.inv(),
            cell_token(self.model(), cell) is Some,
        ensures
            b == wins_at(
                self.model(),
                cell.col@ as int,
                cell.row@ as int,
                cell_token(self.model(), cell).unwrap(),
            ),
    {
        let token = self.get(cell).unwrap();
        self.count_adjacent_around(cell, token).is_none()
    }

    /// Checks if there is a win (sequence of four same-colour tokens) that includes the token
    /// at the top of the given column, which must not be empty.
    fn is_won_at_col(&self, col: column::Idx) -> (b: bool)
        requires
            self.inv(),
            self.model()[col@ as int].len() > 0,
        ensures
            b == wins_at(
                self.model(),
                col@ as int,
                self.model()[col@ as int].len() - 1,
                self.model()[col@ as int].last(),
            ),
    {
        proof {
            self.lemma_inv();
        }
        let _ = col.index();
        let cell = self.top(col).unwrap();
        self.is_won_at(cell)
    }

    /// Pretty display to string: one line per row, top row first, each cell
    /// `X` for `Token::A`, `O` for `Token::B` and `⋅` when empty.
    fn to_display(&self) -> (s: String)
        requires
            self.inv(),
        ensures
            s@ == display_text(self.model(), 6),
    {
        let mut string = String::new();
        let mut k: usize = 0;
        while k < row::COUNT
            invariant
                self.inv(),
                k <= 6,
                string@ == display_text(self.model(), k as nat),
            decreases 6 - k,
        {
            let r = row::COUNT - 1 - k;
            let ghost before = string@;
            string.push('|');
            string.push(' ');
            let mut c: usize = 0;
            while c < column::COUNT
                invariant
                    self.inv(),
                    k < 6,
                    r == 5 - k,
                    c <= 7,
                    string@ == before + row_text(self.model(), r as int, c as nat),
                decreases 7 - c,
            {
                let cell = Cell { col: column::Idx::raw(c), row: row::Idx::raw(r) };
                match self.get(cell) {
                    Some(Token::B) => string.push('O'),
                    Some(Token::A) => string.push('X'),
                    None => string.push('\u{22c5}'),
                }
                string.push(' ');
                proof {
                    assert(string@ =~= before + row_text(self.model(), r as int, (c + 1) as nat));
                }
                c = c + 1;
            }
            string.push('|');
            string.push('\n');
            proof {
                assert(string@ =~= display_text(self.model(), (k + 1) as nat));
            }
            k = k + 1;
        }
        string
    }

    /// Read a board from a visual string representation: the pieces between
    /// bars, the last first, each line showing a token giving the cells of
    /// one row from the left (see `read_line`). The string must hold no other
    /// character where a cell is read.
    fn from_display(string: &str) -> (b: Self)
        requires
            read_pieces(empty_cols(), string@, string@.len() as int) is Some,
        ensures
            b.inv(),
            b.model() == read_pieces(empty_cols(), string@, string@.len() as int).unwrap(),
    {
        let s = chars_of(string);
        let ghost target = read_pieces(empty_cols(), s@, s@.len() as int);
        let mut board = Self::empty();
        let mut end = s.len();
        loop
            invariant_except_break
                read_pieces(board.model(), s@, end as int) == target,
            invariant
                board.inv(),
                end <= s@.len(),
                target is Some,
            ensures
                board.inv(),
                board.model() == target.unwrap(),
            decreases end,
        {
            let mut start = end;
            while start > 0 && s[start - 1] != '|'
                invariant
                    start <= end <= s@.len(),
                    piece_start(s@, start as int) == piece_start(s@, end as int),
                decreases start,
            {
                start = start - 1;
            }
            proof {
                lemma_piece_start(s@, end as int);
                assert(piece_start(s@, end as int) == start);
            }
            let mut has = false;
            let mut i = start;
            while i < end
                invariant
                    start <= i <= end <= s@.len(),
                    has <==> exists|k: int| start <= k < i && #[trigger] is_token_char(s@[k]),
                decreases end - i,
            {
                let ch = s[i];
                if ch == 'A' || ch == 'B' || ch == 'X' || ch == 'O' {
                    has = true;
                }
                proof {
                    if has {
                        if !is_token_char(ch) {
                            let k = choose|k: int| start <= k < i && #[trigger] is_token_char(s@[k]);
                        }
                    }
                    if is_token_char(ch) {
                        assert(is_token_char(s@[i as int]));
                    }
                }
                i = i + 1;
            }
            let ghost m0 = board.model();
            let ghost piece = read_piece(m0, s@, start as int, end as int);
            if has {
                let mut i = start;
                let mut j: usize = 0;
                while i < end && j < column::COUNT
                    invariant
                        board.inv(),
                        start <= i <= end <= s@.len(),
                        j <= 7,
                        piece is Some,
                        read_line(board.model(), s@, i as int, end as int, j as int) == piece,
                    ensures
                        board.inv(),
                        board.model() == piece.unwrap(),
                    decreases end - i,
                {
                    let ch = s[i];
                    if ch == 'A' || ch == 'X' {
                        board.place(column::Idx::raw(j), Token::A);
                        j = j + 1;
                    } else if ch == 'B' || ch == 'O' {
                        board.place(column::Idx::raw(j), Token::B);
                        j = j + 1;
                    } else if ch == '\u{22c5}' {
                        j = j + 1;
                    } else if ch == '+' || ch == '-' {
                        break;
                    } else if ch != ' ' {
                        proof {
                            assert(read_line(board.model(), s@, i as int, end as int, j as int) is None);
                        }
                        break;
                    }
                    i = i + 1;
                }
                proof {
                    assert(board.model() == piece.unwrap());
                }
            }
            if start == 0 {
                break;
            }
            end = start - 1;
        }
        board
    }

    /// The board reached by playing a sequence of moves from the empty board,
    /// skipping moves into full columns.
    fn from_moves(moves: &Moves) -> (b: Self)
        ensures
            b.inv(),
            b.model() == apply_moves(empty_cols(), moves@),
    {
        let mut board = Self::empty();
        let mut i: usize = 0;
        while i < moves.moves.len()
            invariant
                board.inv(),
                i <= moves@.len(),
                moves.moves@ == moves@,
                board.model() == apply_moves(empty_cols(), moves@.subrange(0, i as int)),
            decreases moves@.len() - i,
        {
            let (col, token) = moves.moves[i];
            board.place(col, token);
            proof {
                assert(moves@.subrange(0, i + 1).drop_last() =~= moves@.subrange(0, i as int));
            }
            i = i + 1;
        }
        proof {
            assert(moves@.subrange(0, moves@.len() as int) =~= moves@);
        }
        board
    }
}

/// Trait for board implementations that don't have a cheap clone operation
/// and instead place and unplace tokens on the same board.
pub trait MutBoard: Board {
    /// Removes the top token of the given column, which must not be empty,
    /// modifying the board in place.
    fn unplace(&mut self, col: column::Idx)
        requires
            old(self).inv(),
            0 < old(self).model()[col@ as int].len(),
        ensures
            final(self).inv(),
            final(self).model() == crate::board::model::unplaced_cols(old(self).model(), col@ as int),
    ;
}

/// Trait for board implementations that have a cheap copy operation.
pub trait CloneBoard: Board + Copy {
    /// Copies the given board and places the given token in the given column,
    /// returning the new board, or `None` if the column is full.
    fn placed(&self, col: column::Idx, token: Token) -> (r: Option<Self>)
        requires
            self.inv(),
        ensures
            r is Some <==> is_placeable(self.model(), col@ as int),
            r matches Some(b) ==> b.inv() && b.model() == placed_cols(self.model(), col@ as int, token),
    {
        // check if we can place first to avoid copying unnecessarily
        if self.can_place(col) {
            let mut new_board = *self;
            new_board.force_place(col, token);
            Some(new_board)
        } else {
            None
        }
    }

    /// Every possible subsequent board state after placing the given token
    /// in each non-full column, with its column, ordered by `column::centred`.
    fn nexts(&self, token: Token) -> (r: Vec<(column::Idx, Self)>)
        requires
            self.inv(),
        ensures
            r.len() == open_centred(self.model()).len(),
            forall|i: int|
                0 <= i < r.len() ==> (#[trigger] r@[i]).0@ == open_centred(self.model())[i]
                    && r@[i].1.inv() && r@[i].1.model() == placed_cols(
                    self.model(),
                    r@[i].0@ as int,
                    token,
                ),
    {
        let mut r: Vec<(column::Idx, Self)> = Vec::new();
        let mut i: usize = 0;
        while i < column::COUNT
            invariant
                self.inv(),
                i <= 7,
                r.len() == open_cols(self.model(), i as nat).len(),
                forall|k: int|
                    0 <= k < r.len() ==> (#[trigger] r@[k]).0@ == open_cols(self.model(), i as nat)[k]
                        && r@[k].1.inv() && r@[k].1.model() == placed_cols(
                        self.model(),
                        r@[k].0@ as int,
                        token,
                    ),
            decreases 7 - i,
        {
            let col = column::centred(i);
            match self.placed(col, token) {
                Some(next) => r.push((col, next)),
                None => {},
            }
            i = i + 1;
        }
        r
    }

    /// Horizontal reflection by copying each cell to its mirrored position
    /// based on vertical symmetry.
    fn mirrored(&self) -> (b: Self)
        requires
            self.inv(),
        ensures
            b.inv(),
            b.model() == crate::board::model::mirror_cols(self.model()),
    {
        proof {
            self.lemma_inv();
        }
        let ghost m = self.model();
        let mut board = Self::empty();
        let mut c: usize = 0;
        while c < column::COUNT
            invariant
                self.inv(),
                m == self.model(),
                wf_cols(m),
                board.inv(),
                c <= 7,
                board.model().len() == 7,
                forall|k: int| 0 <= k < c ==> #[trigger] board.model()[6 - k] == m[k],
                forall|k: int| c <= k < 7 ==> #[trigger] board.model()[6 - k] == Seq::<Token>::empty(),
            decreases 7 - c,
        {
            let col = column::Idx::raw(c);
            let mut r: usize = 0;
            while r < row::COUNT
                invariant
                    self.inv(),
                    m == self.model(),
                    wf_cols(m),
                    board.inv(),
                    c < 7,
                    col@ == c,
                    r <= 6,
                    board.model().len() == 7,
                    forall|k: int| 0 <= k < c ==> #[trigger] board.model()[6 - k] == m[k],
                    forall|k: int| c < k < 7 ==> #[trigger] board.model()[6 - k] == Seq::<Token>::empty(),
                    board.model()[6 - c] == m[c as int].subrange(
                        0,
                        if r < m[c as int].len() {
                            r as int
                        } else {
                            m[c as int].len() as int
                        },
                    ),
                decreases 6 - r,
            {
                match self.get(Cell { col, row: row::Idx::raw(r) }) {
                    Some(token) => {
                        let ghost before = board.model();
                        board.place(col.mirrored(), token);
                        proof {
                            assert(m[c as int].subrange(0, r + 1) =~= m[c as int].subrange(0, r as int).push(token));
                            assert forall|k: int| 0 <= k < c implies #[trigger] board.model()[6 - k] == m[k] by {
                                assert(board.model()[6 - k] == before[6 - k]);
                            }
                            assert forall|k: int| c < k < 7 implies #[trigger] board.model()[6 - k]
                                == Seq::<Token>::empty() by {
                                assert(board.model()[6 - k] == before[6 - k]);
                            }
                        }
                    },
                    None => {},
                }
                r = r + 1;
            }
            proof {
                assert(m[c as int].subrange(0, m[c as int].len() as int) =~= m[c as int]);
            }
            c = c + 1;
        }
        proof {
            assert(board.model() =~= crate::board::model::mirror_cols(m)) by {
                assert forall|k: int| 0 <= k < 7 implies #[trigger] board.model()[k]
                    == crate::board::model::mirror_cols(m)[k] by {
                    assert(board.model()[6 - (6 - k)] == m[6 - k]);
                }
            }
        }
        board
    }

    /// Is there a possible winning move for the given token?
    fn can_win(&self, token: Token) -> (b: bool)
        requires
            self.inv(),
        ensures
            b == exists|c: int|
                #[trigger] is_placeable(self.model(), c) && wins_at(
                    placed_cols(self.model(), c, token),
                    c,
                    self.model()[c].len() as int,
                    token,
                ),
    {
        proof {
            self.lemma_inv();
        }
        let ghost m = self.model();
        let mut i: usize = 0;
        while i < column::COUNT
            invariant
                self.inv(),
                m == self.model(),
                wf_cols(m),
                i <= 7,
                forall|j: int|
                    #![trigger centred_index(j)]
                    0 <= j < i && is_placeable(m, centred_index(j)) ==> !wins_at(
                        placed_cols(m, centred_index(j), token),
                        centred_index(j),
                        m[centred_index(j)].len() as int,
                        token,
                    ),
            decreases 7 - i,
        {
            let col = column::centred(i);
            match self.placed(col, token) {
                Some(next) => {
                    proof {
                        lemma_placed(m, col@ as int, token);
                        next.lemma_inv();
                    }
                    if next.is_won_at_col(col) {
                        return true;
                    }
                },
                None => {},
            }
            i = i + 1;
        }
        proof {
            assert forall|c: int| #[trigger] is_placeable(m, c) implies !wins_at(
                placed_cols(m, c, token),
                c,
                m[c].len() as int,
                token,
            ) by {
                let j = crate::board::lemmas::lemma_centred_onto(c);
            }
        }
        false
    }
}

/// Trait for board implementations that have a cheap non-zero hash function `key`,
/// used for caching board states in the solver. Keys take up at most
/// `column::COUNT * column::COUNT = 49` bits, and two boards share a key only
/// if they are equal or mirror images of each other.
pub trait HashBoard: Board {
    /// The key of a board with the given columns.
    spec fn key_model(m: Seq<Seq<Token>>) -> u64;

    /// Equal keys come only from equal or mirrored boards.
    proof fn lemma_key_model(m1: Seq<Seq<Token>>, m2: Seq<Seq<Token>>)
        requires
            wf_cols(m1),
            wf_cols(m2),
            Self::key_model(m1) == Self::key_model(m2),
        ensures
            m1 == m2 || m1 == crate::board::model::mirror_cols(m2),
    ;

    /// Returns a 49-bit non-zero hash key for the board state.
    fn key(&self) -> (k: u64)
        requires
            self.inv(),
        ensures
            k == Self::key_model(self.model()),
            0 < k < 0x2_0000_0000_0000,
    ;
}

/// 1 if a line of length `len` is a pair.
fn pair_of(len: usize) -> (r: usize)
    ensures
        r == crate::board::model::is_pair(len as int),
{
    if len == 2 {
        1
    } else {
        0
    }
}

/// 1 if a line of length `len` is a triple.
fn triple_of(len: usize) -> (r: usize)
    ensures
        r == crate::board::model::is_triple(len as int),
{
    if len == 3 {
        1
    } else {
        0
    }
}

/// Once a run stops short, looking further does not extend it.
proof fn lemma_run_stops(
    m: Seq<Seq<Token>>,
    c: int,
    r: int,
    d: Dir,
    t: Token,
    j: nat,
    k: nat,
)
    requires
        j <= k,
        run(m, c, r, d, t, j) < j,
    ensures
        run(m, c, r, d, t, k) == run(m, c, r, d, t, j),
    decreases k,
{
    if k > j {
        lemma_run_stops(m, c, r, d, t, j, (k - 1) as nat);
    }
}

} // verus!
