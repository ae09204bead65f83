use vstd::prelude::*;

use crate::basic::{column, row, Cell, Token};
use crate::board::lemmas::{lemma_empty, lemma_moves_upto_update, lemma_num_moves_bounds};
use crate::board::model::{
    cell_token, curr_token, empty_cols, is_placeable, num_moves, placed_cols, token_at,
    unplaced_cols, wf_cols,
};
use crate::board::{Board, MutBoard};

verus! {

/// The tokens played into column `c`, in order.
pub open spec fn col_seq(s: Seq<(column::Idx, Token)>, c: int) -> Seq<Token>
    decreases s.len(),
{
    if s.len() == 0 {
        seq![]
    } else {
        let p = col_seq(s.drop_last(), c);
        if s.last().0@ == c {
            p.push(s.last().1)
        } else {
            p
        }
    }
}

/// The board made by a sequence of moves: each column holds the tokens played into it.
pub open spec fn moves_cols(s: Seq<(column::Idx, Token)>) -> Seq<Seq<Token>> {
    Seq::new(7, |c: int| col_seq(s, c))
}

/// Every move names a column of the board and no column receives more than six tokens.
pub open spec fn moves_ok(s: Seq<(column::Idx, Token)>) -> bool {
    &&& forall|i: int| 0 <= i < s.len() ==> (#[trigger] s[i]).0@ < 7
    &&& forall|c: int| 0 <= c < 7 ==> #[trigger] col_seq(s, c).len() <= 6
}

/// `t` is `s` without its move at index `k`, the last move into column `c`.
pub open spec fn removes_last_in_col(
    s: Seq<(column::Idx, Token)>,
    t: Seq<(column::Idx, Token)>,
    c: int,
    k: int,
) -> bool {
    &&& 0 <= k < s.len()
    &&& s[k].0@ == c
    &&& t == s.remove(k)
    &&& forall|j: int| k < j < s.len() ==> #[trigger] s[j].0@ != c
}

/// A sequence with no move into column `c` has none at any index.
proof fn lemma_col_seq_none(s: Seq<(column::Idx, Token)>, c: int, j: int)
    requires
        col_seq(s, c).len() == 0,
        0 <= j < s.len(),
    ensures
        s[j].0@ != c,
    decreases s.len(),
{
    if j < s.len() - 1 {
        lemma_col_seq_none(s.drop_last(), c, j);
    }
}

/// Playing one more move adds its token to its column.
pub proof fn lemma_col_seq_push(s: Seq<(column::Idx, Token)>, x: (column::Idx, Token), c: int)
    ensures
        col_seq(s.push(x), c) == if x.0@ == c {
            col_seq(s, c).push(x.1)
        } else {
            col_seq(s, c)
        },
{
    assert(s.push(x).drop_last() =~= s);
}

/// The tokens of a concatenation are those of each part in turn.
pub proof fn lemma_col_seq_add(a: Seq<(column::Idx, Token)>, b: Seq<(column::Idx, Token)>, c: int)
    ensures
        col_seq(a + b, c) == col_seq(a, c) + col_seq(b, c),
    decreases b.len(),
{
    if b.len() == 0 {
        assert(a + b =~= a);
        assert(col_seq(a, c) + col_seq(b, c) =~= col_seq(a, c));
    } else {
        let b0 = b.drop_last();
        lemma_col_seq_add(a, b0, c);
        assert((a + b).drop_last() =~= a + b0);
        if b.last().0@ == c {
            assert(col_seq(a, c) + col_seq(b0, c).push(b.last().1) =~= (col_seq(a, c) + col_seq(
                b0,
                c,
            )).push(b.last().1));
        }
    }
}

/// Playing a move adds it to the board; a sequence of moves holds as many tokens as moves.
pub proof fn lemma_moves_cols_push(s: Seq<(column::Idx, Token)>, x: (column::Idx, Token))
    requires
        x.0@ < 7,
    ensures
        moves_cols(s.push(x)) == placed_cols(moves_cols(s), x.0@ as int, x.1),
{
    assert forall|c: int| 0 <= c < 7 implies #[trigger] moves_cols(s.push(x))[c] == placed_cols(
        moves_cols(s),
        x.0@ as int,
        x.1,
    )[c] by {
        lemma_col_seq_push(s, x, c);
    }
    assert(moves_cols(s.push(x)) =~= placed_cols(moves_cols(s), x.0@ as int, x.1));
}

/// A sequence of moves into the board's columns puts one token per move on the board.
pub proof fn lemma_moves_count(s: Seq<(column::Idx, Token)>)
    requires
        forall|i: int| 0 <= i < s.len() ==> (#[trigger] s[i]).0@ < 7,
    ensures
        num_moves(moves_cols(s)) == s.len(),
    decreases s.len(),
{
    if s.len() == 0 {
        lemma_empty();
        assert(moves_cols(s) =~= empty_cols());
    } else {
        let p = s.drop_last();
        assert forall|i: int| 0 <= i < p.len() implies (#[trigger] p[i]).0@ < 7 by {
            assert(p[i] == s[i]);
        }
        lemma_moves_count(p);
        assert(p.push(s.last()) =~= s);
        assert(s.last() == s[s.len() - 1]);
        lemma_moves_cols_push(p, s.last());
        let m = moves_cols(p);
        lemma_moves_upto_update(m, s.last().0@ as int, m[s.last().0@ as int].push(s.last().1), 7);
    }
}

/// A random number in `[0, n)`, from `rand::random_range`.
#[verifier::external_body]
fn random_below(n: usize) -> (r: usize)
    requires
        n > 0,
    ensures
        r < n,
{
    rand::random_range(0..n)
}

/// A sequence of moves: each the column played and the token dropped.
#[derive(Debug, Clone)]
pub struct Moves {
    pub moves: Vec<(column::Idx, Token)>,
}

impl View for Moves {
    type V = Seq<(column::Idx, Token)>;

    open spec fn view(&self) -> Seq<(column::Idx, Token)> {
        self.moves@
    }
}

impl Moves {
    /// The moves made, in order.
    pub fn iter(&self) -> (s: &[(column::Idx, Token)])
        ensures
            s@ == self@,
    {
        self.moves.as_slice()
    }

    /// Read from a moves string: each character the 1-indexed digit of the
    /// column played, the players taking turns starting with `Token::A`.
    pub fn from_string(string: &str) -> (r: Self)
        requires
            forall|i: int| 0 <= i < string@.len() ==> '1' <= #[trigger] string@[i] <= '7',
        ensures
            r@.len() == string@.len(),
            forall|i: int|
                0 <= i < r@.len() ==> (#[trigger] r@[i]).0@ == string@[i] as int - '1' as int
                    && r@[i].1 == curr_token(i),
    {
        proof {
            vstd::string::is_ascii_spec_bytes(string);
        }
        let bytes = string.as_bytes();
        proof {
            assert forall|i: int| 0 <= i < bytes@.len() implies 49 <= #[trigger] bytes@[i] <= 55 by {
                assert('1' <= string@[i] <= '7');
            }
        }
        Self::from_digits(bytes)
    }

    /// Read from the bytes of a moves string: each byte the 1-indexed digit
    /// of the column played, the players taking turns starting with `Token::A`.
    pub fn from_digits(bytes: &[u8]) -> (r: Self)
        requires
            forall|i: int| 0 <= i < bytes@.len() ==> 49 <= #[trigger] bytes@[i] <= 55,
        ensures
            r@.len() == bytes@.len(),
            forall|i: int|
                0 <= i < r@.len() ==> (#[trigger] r@[i]).0@ == bytes@[i] - 49 && r@[i].1 == curr_token(i),
    {
        let mut moves: Vec<(column::Idx, Token)> = Vec::new();
        let mut token = Token::STARTING;
        let mut i: usize = 0;
        while i < bytes.len()
            invariant
                forall|j: int| 0 <= j < bytes@.len() ==> 49 <= #[trigger] bytes@[j] <= 55,
                i <= bytes@.len(),
                moves@.len() == i,
                token == curr_token(i as int),
                forall|j: int|
                    0 <= j < i ==> (#[trigger] moves@[j]).0@ == bytes@[j] - 49 && moves@[j].1 == curr_token(j),
            decreases bytes@.len() - i,
        {
            let b = bytes[i];
            let col = column::Idx::raw((b - 49) as usize);
            moves.push((col, token));
            token = token.next();
            i = i + 1;
        }
        Moves { moves }
    }

    /// A random sequence of `len` moves, each into a column that is not full,
    /// the players taking turns starting with `Token::A`.
    pub fn random(len: usize) -> (r: Self)
        requires
            len <= 42,
        ensures
            r@.len() == len,
            moves_ok(r@),
            forall|i: int| 0 <= i < len ==> (#[trigger] r@[i]).1 == curr_token(i),
    {
        let mut board = Moves { moves: Vec::new() };
        let mut token = Token::STARTING;
        proof {
            assert forall|c: int| 0 <= c < 7 implies #[trigger] col_seq(board@, c).len() <= 6 by {}
        }
        while board.moves.len() < len
            invariant
                board.inv(),
                board@.len() <= len <= 42,
                token == curr_token(board@.len() as int),
                forall|i: int| 0 <= i < board@.len() ==> (#[trigger] board@[i]).1 == curr_token(i),
            decreases len - board@.len(),
        {
            proof {
                lemma_moves_count(board@);
                crate::board::lemmas::lemma_not_full(board.model());
            }
            // the columns that are not full yet
            let mut open: Vec<column::Idx> = Vec::new();
            let mut c: usize = 0;
            while c < 7
                invariant
                    board.inv(),
                    c <= 7,
                    open@.len() <= c,
                    forall|k: int| 0 <= k < open@.len() ==> is_placeable(board.model(), (#[trigger] open@[k])@ as int),
                    (exists|k: int| 0 <= k < c && is_placeable(board.model(), k)) ==> open@.len() > 0,
                decreases 7 - c,
            {
                let col = column::Idx::raw(c);
                if board.can_place(col) {
                    open.push(col);
                }
                c = c + 1;
            }
            let k = random_below(open.len());
            let col = open[k];
            let ghost before = board@;
            board.force_place(col, token);
            proof {
                assert(board@ == before.push((col, token)));
            }
            token = token.next();
        }
        board
    }
}

impl Board for Moves {
    closed spec fn model(&self) -> Seq<Seq<Token>> {
        moves_cols(self.moves@)
    }

    closed spec fn inv(&self) -> bool {
        moves_ok(self.moves@)
    }

    proof fn lemma_inv(&self) {
    }

    fn empty() -> (b: Self)
        ensures
            b@.len() == 0,
    {
        let b = Moves { moves: Vec::new() };
        assert(b.model() =~= empty_cols());
        b
    }

    fn count_moves(&self) -> (n: usize) {
        proof {
            lemma_moves_count(self.moves@);
        }
        self.moves.len()
    }

    fn get(&self, cell: Cell) -> (r: Option<Token>) {
        let ghost s = self.moves@;
        let ghost c = cell.col@ as int;
        let row = cell.row.index();
        let col = cell.col.index();
        let mut count: usize = 0;
        let mut i: usize = 0;
        while i < self.moves.len()
            invariant
                s == self.moves@,
                moves_ok(s),
                c == col,
                c == cell.col@ as int,
                row == cell.row@,
                col < 7,
                i <= s.len(),
                count == col_seq(s.take(i as int), c).len(),
                count <= row,
            decreases s.len() - i,
        {
            let (mc, token) = self.moves[i];
            proof {
                lemma_col_seq_push(s.take(i as int), s[i as int], c);
                assert(s.take(i + 1) =~= s.take(i as int).push(s[i as int]));
            }
            if mc.index() == col {
                if count == row {
                    proof {
                        assert(s[i as int].0@ == c);
                        assert(col_seq(s.take(i + 1), c) == col_seq(s.take(i as int), c).push(token));
                        lemma_col_seq_add(s.take(i + 1), s.skip(i + 1), c);
                        assert(s.take(i + 1) + s.skip(i + 1) =~= s);
                        assert(col_seq(s, c)[row as int] == token);
                        assert(self.model()[c] == col_seq(s, c));
                    }
                    return Some(token);
                }
                count = count + 1;
            }
            i = i + 1;
        }
        proof {
            assert(s.take(s.len() as int) =~= s);
        }
        None
    }

    fn can_place(&self, col: column::Idx) -> (b: bool) {
        let _ = col.index();
        self.col_count(col) < row::COUNT
    }

    fn force_place(&mut self, col: column::Idx, token: Token)
        ensures
            final(self)@ == old(self)@.push((col, token)),
    {
        let _ = col.index();
        let ghost s = self.moves@;
        self.moves.push((col, token));
        proof {
            lemma_moves_cols_push(s, (col, token));
            assert(self.moves@ == s.push((col, token)));
            assert forall|i: int| 0 <= i < self.moves@.len() implies (#[trigger] self.moves@[i]).0@ < 7 by {
                if i < s.len() {
                    assert(self.moves@[i] == s[i]);
                }
            }
            assert forall|c: int| 0 <= c < 7 implies #[trigger] col_seq(self.moves@, c).len() <= 6 by {
                lemma_col_seq_push(s, (col, token), c);
            }
        }
    }

    fn place(&mut self, col: column::Idx, token: Token) -> (r: Option<Cell>)
        ensures
            r is Some ==> final(self)@ == old(self)@.push((col, token)),
            r is None ==> final(self)@ == old(self)@,
    {
        let _ = col.index();
        let row = self.col_count(col);
        if row < row::COUNT {
            self.force_place(col, token);
            Some(Cell { col, row: row::Idx::raw(row) })
        } else {
            None
        }
    }

    fn col_count(&self, col: column::Idx) -> (n: usize) {
        let ghost s = self.moves@;
        let ghost c = col@ as int;
        let ci = col.index();
        let mut count: usize = 0;
        let mut i: usize = 0;
        while i < self.moves.len()
            invariant
                s == self.moves@,
                moves_ok(s),
                c == ci,
                ci < 7,
                i <= s.len(),
                count == col_seq(s.take(i as int), c).len(),
                count <= i,
            decreases s.len() - i,
        {
            proof {
                lemma_col_seq_push(s.take(i as int), s[i as int], c);
                assert(s.take(i + 1) =~= s.take(i as int).push(s[i as int]));
            }
            if self.moves[i].0.index() == ci {
                count = count + 1;
            }
            i = i + 1;
        }
        proof {
            assert(s.take(s.len() as int) =~= s);
        }
        count
    }
}

impl MutBoard for Moves {
    fn unplace(&mut self, col: column::Idx)
        ensures
            exists|k: int| #[trigger] removes_last_in_col(old(self)@, final(self)@, col@ as int, k),
    {
        let ghost s = self.moves@;
        let ghost c = col@ as int;
        let ci = col.index();
        // the last move into this column
        let mut i: usize = self.moves.len();
        proof {
            assert(s.skip(0) =~= s);
            assert(s.skip(s.len() as int) =~= Seq::<(column::Idx, Token)>::empty());
        }
        while i > 0
            invariant
                s == self.moves@,
                moves_ok(s),
                c == ci,
                i <= s.len(),
                col_seq(s.skip(i as int), c).len() == 0,
                col_seq(s, c).len() > 0,
                s.skip(0) == s,
            ensures
                i > 0,
                s[i - 1].0@ == c,
                col_seq(s.skip(i as int), c).len() == 0,
            decreases i,
        {
            if self.moves[i - 1].0.index() == ci {
                break;
            }

            proof {
                assert(s.skip(i - 1) =~= seq![s[i - 1]] + s.skip(i as int));
                lemma_col_seq_add(seq![s[i - 1]], s.skip(i as int), c);
                lemma_col_seq_push(Seq::<(column::Idx, Token)>::empty(), s[i - 1], c);
                assert(seq![s[i - 1]] =~= Seq::<(column::Idx, Token)>::empty().push(s[i - 1]));
            }
            i = i - 1;
        }
        let idx = i - 1;
        proof {
            let a = s.take(idx as int);
            let x = s[idx as int];
            let b = s.skip(i as int);
            assert(s =~= a.push(x) + b);
            assert(s.remove(idx as int) =~= a + b);
            assert forall|k: int| 0 <= k < 7 implies #[trigger] moves_cols(s.remove(idx as int))[k]
                == unplaced_cols(moves_cols(s), c)[k] by {
                lemma_col_seq_add(a.push(x), b, k);
                lemma_col_seq_add(a, b, k);
                lemma_col_seq_push(a, x, k);
                if k == c {
                    assert(col_seq(b, k) =~= Seq::<Token>::empty());
                    assert(col_seq(a, k).push(x.1) + col_seq(b, k) =~= col_seq(a, k).push(x.1));
                    assert(col_seq(a, k) + col_seq(b, k) =~= col_seq(a, k));
                    assert(col_seq(a, k).push(x.1).drop_last() =~= col_seq(a, k));
                }
            }
            assert(moves_cols(s.remove(idx as int)) =~= unplaced_cols(moves_cols(s), c));
        }
        proof {
            assert forall|j: int| idx < j < s.len() implies #[trigger] s[j].0@ != c by {
                lemma_col_seq_none(s.skip(i as int), c, j - i);
                assert(s.skip(i as int)[j - i] == s[j]);
            }
        }
        self.moves.remove(idx);
        proof {
            assert forall|k: int| 0 <= k < self.moves@.len() implies (#[trigger] self.moves@[k]).0@ < 7 by {
                if k < idx {
                    assert(self.moves@[k] == s[k]);
                } else {
                    assert(self.moves@[k] == s[k + 1]);
                }
            }
            assert forall|k: int| 0 <= k < 7 implies #[trigger] col_seq(self.moves@, k).len() <= 6 by {
                assert(moves_cols(self.moves@)[k] == unplaced_cols(moves_cols(s), c)[k]);
            }
            assert(self.moves@ == s.remove(idx as int));
            assert(removes_last_in_col(s, self.moves@, c, idx as int));
            assert(removes_last_in_col(old(self)@, self@, col@ as int, idx as int));
        }
    }
}

} // verus!
