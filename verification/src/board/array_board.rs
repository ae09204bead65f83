use vstd::prelude::*;

use crate::basic::{column, row, Cell, Token};
use crate::board::model::{cell_token, empty_cols, is_placeable, placed_cols, unplaced_cols, wf_cols};
use crate::board::{place_if_room, Board, CloneBoard, MutBoard};

verus! {

/// Number of leading filled cells of a column.
pub open spec fn stack_height(s: Seq<Option<Token>>) -> nat
    decreases s.len(),
{
    if s.len() == 0 || s[0] is None {
        0
    } else {
        1 + stack_height(s.drop_first())
    }
}

/// A column whose filled cells all lie below its empty ones.
pub open spec fn is_stack(s: Seq<Option<Token>>) -> bool {
    forall|i: int, j: int| 0 <= i < j < s.len() && (#[trigger] s[j]) is Some ==> (#[trigger] s[i]) is Some
}

/// In a stack, the filled cells are exactly those below its height.
proof fn lemma_stack(s: Seq<Option<Token>>)
    requires
        is_stack(s),
    ensures
        stack_height(s) <= s.len(),
        forall|r: int| 0 <= r < s.len() ==> ((#[trigger] s[r]) is Some <==> r < stack_height(s)),
    decreases s.len(),
{
    if s.len() > 0 {
        let t = s.drop_first();
        assert(is_stack(t)) by {
            assert forall|i: int, j: int| 0 <= i < j < t.len() && (#[trigger] t[j]) is Some implies (#[trigger] t[i]) is Some by {
                assert(s[j + 1] is Some);
            }
        }
        lemma_stack(t);
        assert forall|r: int| 0 <= r < s.len() implies ((#[trigger] s[r]) is Some <==> r < stack_height(s)) by {
            if r > 0 {
                assert(s[r] == t[r - 1]);
                if s[0] is None && s[r] is Some {
                    assert(false);
                }
            }
        }
    }
}

/// The tokens of a stack, bottom first.
pub open spec fn stack_tokens(s: Seq<Option<Token>>) -> Seq<Token> {
    Seq::new(stack_height(s), |r: int| s[r].unwrap())
}

/// MutBoard implementation using a 2D array of Option<Token>.
/// An array of columns, where the 0th element is the bottom of the column.
#[derive(Debug, Clone, Copy, PartialEq, Eq, Hash)]
pub struct ArrayBoard {
    grid: [[Option<Token>; 6]; 7],
}

impl ArrayBoard {
    /// Column `c` of the grid.
    closed spec fn col(&self, c: int) -> Seq<Option<Token>> {
        self.grid@[c]@
    }

    /// Drops the token into the first empty cell of the column, if there
    /// is one.
    fn drop_in(&mut self, col: column::Idx, token: Token) -> (r: Option<Cell>)
        requires
            old(self).inv(),
        ensures
            final(self).inv(),
            final(self).model() == place_if_room(old(self).model(), col@ as int, token),
            r is Some <==> is_placeable(old(self).model(), col@ as int),
            r matches Some(cell) ==> cell.col@ == col@ && cell.row@ == old(self).model()[col@ as int].len(),
    {
        let c = col.index();
        proof {
            lemma_stack(self.col(c as int));
        }
        let mut column = self.grid[c];
        let mut r: usize = 0;
        while r < row::COUNT
            invariant
                r <= 6,
                c < 7,
                c == col@,
                old(self).inv(),
                column@ == old(self).grid@[c as int]@,
                *self == *old(self),
                forall|k: int| 0 <= k < r ==> (#[trigger] column@[k]) is Some,
            decreases 6 - r,
        {
            if column[r].is_none() {
                let ghost s = old(self).col(c as int);
                proof {
                    lemma_stack(s);
                    assert(column@ == s);
                    assert(stack_height(s) == r) by {
                        if r > 0 {
                            assert(column@[r - 1] is Some);
                        }
                    }
                }
                column[r] = Some(token);
                let ghost before = self.model();
                self.grid[c] = column;
                proof {
                    let s2 = self.col(c as int);
                    assert(s2 == s.update(r as int, Some(token)));
                    assert(is_stack(s2)) by {
                        assert forall|i: int, j: int| 0 <= i < j < s2.len() && (#[trigger] s2[j]) is Some implies (#[trigger] s2[i]) is Some by {
                            if j != r {
                                assert(s[j] is Some);
                            }
                            assert(s[i] is Some);
                        }
                    }
                    lemma_stack(s2);
                    assert(stack_height(s2) == r + 1) by {
                        if stack_height(s2) > r + 1 {
                            assert(s2[r + 1] is Some);
                            assert(s[r + 1] is None);
                        } else if stack_height(s2) < r + 1 {
                            let x = stack_height(s2) as int;
                            assert(s2[x] is None);
                            if x < r {
                                assert(s[x] is Some);
                            }
                        }
                    }
                    assert(stack_tokens(s2) =~= stack_tokens(s).push(token));
                    assert forall|k: int| 0 <= k < 7 implies #[trigger] is_stack(self.col(k)) by {
                        if k != c {
                            assert(self.col(k) == old(self).col(k));
                        }
                    }
                    assert(self.model() =~= placed_cols(before, c as int, token));
                }
                return Some(Cell { col, row: row::Idx::raw(r) });
            }
            r = r + 1;
        }
        proof {
            let s = self.col(c as int);
            lemma_stack(s);
            if stack_height(s) < 6 {
                assert(column@[stack_height(s) as int] is Some);
            }
        }
        None
    }
}

impl Board for ArrayBoard {
    closed spec fn model(&self) -> Seq<Seq<Token>> {
        Seq::new(7, |c: int| stack_tokens(self.col(c)))
    }

    closed spec fn inv(&self) -> bool {
        forall|c: int| 0 <= c < 7 ==> #[trigger] is_stack(self.col(c))
    }

    proof fn lemma_inv(&self) {
        assert forall|c: int| 0 <= c < 7 implies #[trigger] self.model()[c].len() <= 6 by {
            lemma_stack(self.col(c));
        }
    }

    fn empty() -> (b: Self) {
        let e: [Option<Token>; 6] = [None, None, None, None, None, None];
        let b = ArrayBoard { grid: [e, e, e, e, e, e, e] };
        proof {
            assert forall|c: int| 0 <= c < 7 implies #[trigger] is_stack(b.col(c)) by {}
            assert forall|c: int| 0 <= c < 7 implies #[trigger] b.model()[c] =~= empty_cols()[c] by {
                assert(stack_height(b.col(c)) == 0);
            }
            assert(b.model() =~= empty_cols());
        }
        b
    }

    fn get(&self, cell: Cell) -> (r: Option<Token>) {
        let c = cell.col.index();
        let r = cell.row.index();
        proof {
            lemma_stack(self.col(c as int));
        }
        self.grid[c][r]
    }

    fn can_place(&self, col: column::Idx) -> (b: bool) {
        let c = col.index();
        proof {
            lemma_stack(self.col(c as int));
        }
        self.grid[c][5].is_none()
    }

    fn place(&mut self, col: column::Idx, token: Token) -> (r: Option<Cell>) {
        self.drop_in(col, token)
    }

    fn force_place(&mut self, col: column::Idx, token: Token) {
        let _ = self.drop_in(col, token);
    }
}

impl MutBoard for ArrayBoard {
    fn unplace(&mut self, col: column::Idx) {
        let c = col.index();
        let ghost s = self.col(c as int);
        proof {
            lemma_stack(s);
        }
        let cell = self.top(col).unwrap();
        let r = cell.row.index();
        proof {
            assert(r == stack_height(s) - 1);
        }
        let mut column = self.grid[c];
        column[r] = None;
        let ghost before = self.model();
        self.grid[c] = column;
        proof {
            let s2 = self.col(c as int);
            assert(is_stack(s2)) by {
                assert forall|i: int, j: int| 0 <= i < j < s2.len() && (#[trigger] s2[j]) is Some implies (#[trigger] s2[i]) is Some by {
                    assert(s[j] is Some);
                    assert(s[i] is Some);
                }
            }
            lemma_stack(s2);
            let h = stack_height(s);
            assert(stack_height(s2) == h - 1) by {
                if stack_height(s2) > h - 1 {
                    assert(s2[h - 1] is Some);
                } else if stack_height(s2) < h - 1 {
                    let x = stack_height(s2) as int;
                    assert(s2[x] is None);
                    assert(s[x] is Some);
                }
            }
            assert(stack_tokens(s2) =~= stack_tokens(s).drop_last());
            assert forall|k: int| 0 <= k < 7 implies #[trigger] is_stack(self.col(k)) by {
                if k != c {
                    assert(self.col(k) == old(self).col(k));
                }
            }
            assert(self.model() =~= unplaced_cols(before, c as int));
        }
    }
}

impl CloneBoard for ArrayBoard {}

} // verus!
