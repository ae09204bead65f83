pub mod column;
pub mod finite_index;
pub mod row;

use vstd::prelude::*;

pub use finite_index::FiniteIndex;

verus! {

/// Token on the connect four board.
#[derive(Clone, Copy, PartialEq, Eq, Structural, Debug, Hash)]
pub enum Token {
    A,
    B,
}

/// The other token: the one that moves after `t`.
pub open spec fn other(t: Token) -> Token {
    match t {
        Token::A => Token::B,
        Token::B => Token::A,
    }
}

impl Token {
    /// The starting token
    pub const STARTING: Token = Token::A;
    /// The secondary token
    pub const SECOND: Token = Token::B;

    /// Get the next, opposite, other token
    pub fn next(&self) -> (t: Token)
        ensures
            t == other(*self),
    {
        match self {
            Token::A => Token::B,
            Token::B => Token::A,
        }
    }

    /// Get the previous token. (Same as `next()`)
    pub fn prev(&self) -> (t: Token)
        ensures
            t == other(*self),
    {
        self.next()
    }

    /// The opposing token. (Same as `next()`)
    pub fn opp(&self) -> (t: Token)
        ensures
            t == other(*self),
    {
        self.next()
    }
}

impl core::ops::Not for Token {
    type Output = Token;

    /// The other token, as `next()`.
    fn not(self) -> (t: Token) {
        self.next()
    }
}

impl vstd::std_specs::ops::NotSpecImpl for Token {
    open spec fn obeys_not_spec() -> bool {
        true
    }

    open spec fn not_req(self) -> bool {
        true
    }

    open spec fn not_spec(self) -> Token {
        other(self)
    }
}

/// A Cell on the board, defined by a column and row index.
#[derive(Clone, Copy, Debug)]
pub struct Cell {
    pub col: column::Idx,
    pub row: row::Idx,
}

/// A direction on the board.
#[derive(PartialEq, Eq, Structural, Debug, Clone, Copy)]
pub enum Dir {
    Up,
    Down,
    Left,
    Right,
    RightUp,
    LeftDown,
    RightDown,
    LeftUp,
}

/// `(col_offset, row_offset)` of a direction.
pub open spec fn dir_offsets(d: Dir) -> (int, int) {
    match d {
        Dir::Up => (0, 1),
        Dir::Down => (0, -1),
        Dir::Left => (-1, 0),
        Dir::Right => (1, 0),
        Dir::RightUp => (1, 1),
        Dir::LeftDown => (-1, -1),
        Dir::RightDown => (1, -1),
        Dir::LeftUp => (-1, 1),
    }
}

impl Dir {
    /// Transform Dir into `(col_offset, row_offset)`
    pub fn into_dir(self) -> (r: (isize, isize))
        ensures
            r.0 == dir_offsets(self).0,
            r.1 == dir_offsets(self).1,
    {
        match self {
            Dir::Up => (0, 1),
            Dir::Down => (0, -1),
            Dir::Left => (-1, 0),
            Dir::Right => (1, 0),
            Dir::RightUp => (1, 1),
            Dir::LeftDown => (-1, -1),
            Dir::RightDown => (1, -1),
            Dir::LeftUp => (-1, 1),
        }
    }
}

/// Is `(c, r)` a cell of the board?
pub open spec fn on_board(c: int, r: int) -> bool {
    0 <= c < column::COUNT && 0 <= r < row::COUNT
}

/// Column of the cell `by` steps from `(c, _)` in direction `d`.
pub open spec fn step_col(c: int, d: Dir, by: int) -> int {
    c + dir_offsets(d).0 * by
}

/// Row of the cell `by` steps from `(_, r)` in direction `d`.
pub open spec fn step_row(r: int, d: Dir, by: int) -> int {
    r + dir_offsets(d).1 * by
}

impl Cell {
    /// The number of cells on a connect four board.
    pub const COUNT: usize = 42;

    /// Does this cell lie at `(c, r)`?
    pub open spec fn at(self, c: int, r: int) -> bool {
        self.col@ == c && self.row@ == r
    }

    /// Tries to shift the cell `by` steps in direction `dir`,
    /// returning `None` when out of bounds
    pub fn try_shift(&self, dir: Dir, by: usize) -> (r: Option<Cell>)
        requires
            by <= isize::MAX,
        ensures
            on_board(step_col(self.col@ as int, dir, by as int), step_row(self.row@ as int, dir, by as int))
                <==> r is Some,
            r matches Some(c) ==> c.at(
                step_col(self.col@ as int, dir, by as int),
                step_row(self.row@ as int, dir, by as int),
            ),
    {
        let by: isize = by as isize;
        let (col_offset, row_offset) = dir.into_dir();
        let col = self.col.try_shift(col_offset * by);
        let row = self.row.try_shift(row_offset * by);
        match (col, row) {
            (Some(col), Some(row)) => Some(Cell { col, row }),
            _ => None,
        }
    }

    /// The cell above, returning `None` for any cell in the
    /// top row of the board
    pub fn above(&self) -> (r: Option<Cell>)
        ensures
            self.row@ + 1 < row::COUNT <==> r is Some,
            r matches Some(c) ==> c.at(self.col@ as int, self.row@ + 1int),
    {
        let _ = self.col.index();
        self.try_shift(Dir::Up, 1)
    }

    /// The cells in the given direction from the given cell for
    /// distances 1 to 3, each with its distance, stopping at the edge
    /// of the board. Does not include the given cell.
    pub fn nbhd_in(&self, dir: Dir) -> (r: Vec<(usize, Cell)>)
        ensures
            r.len() <= 3,
            forall|k: int|
                #![trigger r@[k]] 0 <= k < r.len() ==> r@[k].0 == k + 1 && r@[k].1.at(
                    step_col(self.col@ as int, dir, k + 1),
                    step_row(self.row@ as int, dir, k + 1),
                ),
            r.len() < 3 ==> !on_board(
                step_col(self.col@ as int, dir, r.len() + 1),
                step_row(self.row@ as int, dir, r.len() + 1),
            ),
    {
        let mut r: Vec<(usize, Cell)> = Vec::new();
        let mut by: usize = 1;
        while by <= 3
            invariant
                1 <= by <= 4,
                r.len() == by - 1,
                forall|k: int|
                    #![trigger r@[k]] 0 <= k < r.len() ==> r@[k].0 == k + 1 && r@[k].1.at(
                        step_col(self.col@ as int, dir, k + 1),
                        step_row(self.row@ as int, dir, k + 1),
                    ),
            decreases 4 - by,
        {
            match self.try_shift(dir, by) {
                Some(cell) => r.push((by, cell)),
                None => return r,
            }
            by = by + 1;
        }
        r
    }

    /// The cell on the mirrored position on the board, based
    /// on vertical symmetry.
    pub fn mirrored(&self) -> (r: Self)
        ensures
            r.at(6 - self.col@, self.row@ as int),
    {
        Cell { col: self.col.mirrored(), row: self.row }
    }
}

} // verus!
