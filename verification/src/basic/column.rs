use vstd::prelude::*;

use crate::basic::finite_index::FiniteIndex;

verus! {

/// Number of columns on a Connect Four board
pub const COUNT: usize = 7;

/// Index of a column, from left (0) to right (6).
pub type Idx = FiniteIndex<7>;

/// Column indexes ordered from the centre outward:
/// 3, 2, 4, 1, 5, 0, 6.
pub open spec fn centred_index(i: int) -> int {
    if i % 2 == 0 {
        3 + i / 2
    } else {
        3 - (i + 1) / 2
    }
}

/// The `i`-th column in centred order (starting in the middle and moving outward).
pub fn centred(i: usize) -> (c: Idx)
    requires
        i < COUNT,
    ensures
        c@ == centred_index(i as int),
{
    if i % 2 == 0 {
        Idx::raw(3 + i / 2)
    } else {
        Idx::raw(3 - (i + 1) / 2)
    }
}

impl FiniteIndex<7> {
    /// The leftmost column
    pub fn left() -> (r: Self)
        ensures
            r@ == 0,
    {
        Self::raw(0)
    }

    /// The centre column
    pub fn centre() -> (r: Self)
        ensures
            r@ == 3,
    {
        Self::raw(3)
    }

    /// The rightmost column
    pub fn right() -> (r: Self)
        ensures
            r@ == 6,
    {
        Self::raw(6)
    }

    /// Is the column strictly on the left side of the board
    pub fn is_left_side(&self) -> (b: bool)
        ensures
            b == (self@ < 3),
    {
        self.index() < 3
    }

    /// Is the column strictly on the right side of the board
    pub fn is_right_side(&self) -> (b: bool)
        ensures
            b == (self@ > 3),
    {
        self.index() > 3
    }

    /// Returns the column on the opposite side of the board, based on vertical symmetry.
    pub fn mirrored(self) -> (r: Self)
        ensures
            r@ == 6 - self@,
    {
        Self::raw(6 - self.index())
    }

    /// Returns the 1-indexed digit of the column
    pub fn to_digit(self) -> (c: char)
        ensures
            c as int == '1' as int + self@,
    {
        let i = self.index();
        if i == 0 {
            '1'
        } else if i == 1 {
            '2'
        } else if i == 2 {
            '3'
        } else if i == 3 {
            '4'
        } else if i == 4 {
            '5'
        } else if i == 5 {
            '6'
        } else {
            '7'
        }
    }

    /// Reads a column from its 1-indexed digit, `None` if the
    /// character is not one of `1` to `7`.
    pub fn from_digit(c: char) -> (r: Option<Self>)
        ensures
            ('1' <= c <= '7') <==> r is Some,
            r matches Some(i) ==> i@ == c as int - '1' as int,
    {
        if c == '1' {
            Some(Self::raw(0))
        } else if c == '2' {
            Some(Self::raw(1))
        } else if c == '3' {
            Some(Self::raw(2))
        } else if c == '4' {
            Some(Self::raw(3))
        } else if c == '5' {
            Some(Self::raw(4))
        } else if c == '6' {
            Some(Self::raw(5))
        } else if c == '7' {
            Some(Self::raw(6))
        } else {
            None
        }
    }
}

} // verus!
