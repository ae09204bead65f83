use vstd::prelude::*;

use crate::basic::{column, row, Cell, Token};
use crate::board::bit_col::{col_code, lemma_code_roundtrip, BitCol};
use crate::board::lemmas::{lemma_moves_upto_bounds};
use crate::board::model::{
    cell_token, empty_cols, is_placeable, moves_upto, num_moves, placed_cols, unplaced_cols,
    wf_cols,
};
use crate::board::{place_if_room, Board, CloneBoard, HashBoard, MutBoard};
use crate::solver_utils::position::Position;

verus! {

/// A board implementation using bit manipulation for storage.
/// Each column is stored as a BitCol.
#[derive(Clone, Copy, Debug, PartialEq, Eq)]
pub struct BitCols {
    cols: [BitCol; 7],
}

/// The key of the first `i` columns: each column's encoding in seven bits,
/// column `c` at bits `7c..7c+7`.
pub open spec fn cols_key(m: Seq<Seq<Token>>, i: int) -> u64
    decreases i,
{
    if i <= 0 {
        0
    } else {
        cols_key(m, i - 1) | ((col_code(m[i - 1]) as u64) << ((7 * (i - 1)) as u64))
    }
}

/// Seven seven-bit fields packed into a word can be read back, and the
/// word is non-zero if the first is, and fits in 49 bits.
pub proof fn lemma_pack7(
    a0: u64,
    a1: u64,
    a2: u64,
    a3: u64,
    a4: u64,
    a5: u64,
    a6: u64,
    b0: u64,
    b1: u64,
    b2: u64,
    b3: u64,
    b4: u64,
    b5: u64,
    b6: u64,
)
    by (bit_vector)
    requires
        a0 < 128 && a1 < 128 && a2 < 128 && a3 < 128 && a4 < 128 && a5 < 128 && a6 < 128,
        b0 < 128 && b1 < 128 && b2 < 128 && b3 < 128 && b4 < 128 && b5 < 128 && b6 < 128,
    ensures
        ((((((((0u64 | (a0 << 0u64)) | (a1 << 7u64)) | (a2 << 14u64)) | (a3 << 21u64)) | (a4
            << 28u64)) | (a5 << 35u64)) | (a6 << 42u64)) == (((((((0u64 | (b0 << 0u64)) | (b1
            << 7u64)) | (b2 << 14u64)) | (b3 << 21u64)) | (b4 << 28u64)) | (b5 << 35u64)) | (b6
            << 42u64))) ==> (a0 == b0 && a1 == b1 && a2 == b2 && a3 == b3 && a4 == b4 && a5 == b5
            && a6 == b6),
        a0 >= 1 ==> (((((((0u64 | (a0 << 0u64)) | (a1 << 7u64)) | (a2 << 14u64)) | (a3 << 21u64))
            | (a4 << 28u64)) | (a5 << 35u64)) | (a6 << 42u64)) != 0,
        (((((((0u64 | (a0 << 0u64)) | (a1 << 7u64)) | (a2 << 14u64)) | (a3 << 21u64)) | (a4
            << 28u64)) | (a5 << 35u64)) | (a6 << 42u64)) < 0x2_0000_0000_0000,
{
}

/// The key of a well-formed board unfolded into its seven fields.
proof fn lemma_cols_key_fields(m: Seq<Seq<Token>>)
    requires
        wf_cols(m),
    ensures
        cols_key(m, 7) == (((((((0u64 | ((col_code(m[0]) as u64) << 0u64)) | ((col_code(m[1]) as u64)
            << 7u64)) | ((col_code(m[2]) as u64) << 14u64)) | ((col_code(m[3]) as u64) << 21u64)) | ((
        col_code(m[4]) as u64) << 28u64)) | ((col_code(m[5]) as u64) << 35u64)) | ((col_code(
            m[6],
        ) as u64) << 42u64)),
        forall|c: int| 0 <= c < 7 ==> 1 <= #[trigger] col_code(m[c]) < 128,
{
    reveal_with_fuel(cols_key, 8);
    assert forall|c: int| 0 <= c < 7 implies 1 <= #[trigger] col_code(m[c]) < 128 by {
        lemma_code_roundtrip(m[c]);
    }
}

impl BitCols {
    /// The column at the given index.
    pub fn get_col(&self, col: column::Idx) -> (c: BitCol)
        ensures
            c == self.columns()[col@ as int],
            c@ == self.model()[col@ as int],
    {
        self.cols[col.index()]
    }

    /// All seven columns, left to right.
    pub fn get_cols(&self) -> (s: &[BitCol])
        ensures
            s@ == self.columns(),
            s@.len() == 7,
            forall|c: int| 0 <= c < 7 ==> (#[trigger] s@[c])@ == self.model()[c],
    {
        self.cols.as_slice()
    }

    /// The columns, left to right.
    pub closed spec fn columns(&self) -> Seq<BitCol> {
        self.cols@
    }

    /// The model is made of the columns' tokens.
    pub proof fn lemma_columns(&self)
        ensures
            self.columns().len() == 7,
            forall|c: int| 0 <= c < 7 ==> (#[trigger] self.columns()[c])@ == self.model()[c],
    {
    }
}

impl Board for BitCols {
    closed spec fn model(&self) -> Seq<Seq<Token>> {
        Seq::new(7, |c: int| self.cols@[c]@)
    }

    open spec fn inv(&self) -> bool {
        true
    }

    proof fn lemma_inv(&self) {
        assert forall|c: int| 0 <= c < 7 implies #[trigger] self.model()[c].len() <= 6 by {
            BitCol::lemma_len(self.cols@[c]);
        }
    }

    fn empty() -> (b: Self) {
        let e = BitCol::empty();
        let b = BitCols { cols: [e, e, e, e, e, e, e] };
        assert(b.model() =~= empty_cols());
        b
    }

    fn get(&self, cell: Cell) -> (r: Option<Token>) {
        let _ = cell.col.index();
        self.get_col(cell.col).get(cell.row)
    }

    fn count_moves(&self) -> (n: usize) {
        proof {
            self.lemma_inv();
        }
        let mut count: usize = 0;
        let mut c: usize = 0;
        while c < 7
            invariant
                self.inv(),
                wf_cols(self.model()),
                c <= 7,
                count == moves_upto(self.model(), c as int),
            decreases 7 - c,
        {
            proof {
                lemma_moves_upto_bounds(self.model(), c + 1);
            }
            count = count + self.cols[c].count();
            c = c + 1;
        }
        count
    }

    fn col_count(&self, col: column::Idx) -> (n: usize) {
        let _ = col.index();
        self.get_col(col).count()
    }

    fn can_place(&self, col: column::Idx) -> (b: bool) {
        let _ = col.index();
        !self.get_col(col).is_full()
    }

    fn force_place(&mut self, col: column::Idx, token: Token) {
        let col_idx = col.index();
        let mut c = self.cols[col_idx];
        c.force_push(token);
        self.cols[col_idx] = c;
        proof {
            assert(self.model() =~= placed_cols(old(self).model(), col@ as int, token));
        }
    }

    fn place(&mut self, col: column::Idx, token: Token) -> (r: Option<Cell>) {
        let col_idx = col.index();
        match self.cols[col_idx].pushed(token) {
            Some(c) => {
                self.cols[col_idx] = c;
                proof {
                    assert(self.model() =~= placed_cols(old(self).model(), col@ as int, token));
                }
                Some(Cell { col, row: c.top().unwrap() })
            },
            None => None,
        }
    }
}

impl MutBoard for BitCols {
    fn unplace(&mut self, col: column::Idx) {
        let col_idx = col.index();
        let mut c = self.cols[col_idx];
        c.force_pop();
        self.cols[col_idx] = c;
        proof {
            assert(self.model() =~= unplaced_cols(old(self).model(), col@ as int));
        }
    }
}

} // verus!

verus! {

impl CloneBoard for BitCols {}

impl HashBoard for BitCols {
    open spec fn key_model(m: Seq<Seq<Token>>) -> u64 {
        cols_key(m, 7)
    }

    proof fn lemma_key_model(m1: Seq<Seq<Token>>, m2: Seq<Seq<Token>>) {
        lemma_cols_key_fields(m1);
        lemma_cols_key_fields(m2);
        lemma_pack7(
            col_code(m1[0]) as u64,
            col_code(m1[1]) as u64,
            col_code(m1[2]) as u64,
            col_code(m1[3]) as u64,
            col_code(m1[4]) as u64,
            col_code(m1[5]) as u64,
            col_code(m1[6]) as u64,
            col_code(m2[0]) as u64,
            col_code(m2[1]) as u64,
            col_code(m2[2]) as u64,
            col_code(m2[3]) as u64,
            col_code(m2[4]) as u64,
            col_code(m2[5]) as u64,
            col_code(m2[6]) as u64,
        );
        assert forall|c: int| 0 <= c < 7 implies m1[c] == m2[c] by {
            lemma_code_roundtrip(m1[c]);
            lemma_code_roundtrip(m2[c]);
        }
        assert(m1 =~= m2);
    }

    fn key(&self) -> (k: u64) {
        let mut k: u64 = 0;
        let mut i: usize = 0;
        while i < 7
            invariant
                self.inv(),
                i <= 7,
                k == cols_key(self.model(), i as int),
            decreases 7 - i,
        {
            k = k | (self.cols[i].to_u64() << (7 * i) as u64);
            i = i + 1;
        }
        proof {
            self.lemma_inv();
            let m = self.model();
            lemma_cols_key_fields(m);
            lemma_pack7(
                col_code(m[0]) as u64,
                col_code(m[1]) as u64,
                col_code(m[2]) as u64,
                col_code(m[3]) as u64,
                col_code(m[4]) as u64,
                col_code(m[5]) as u64,
                col_code(m[6]) as u64,
                col_code(m[0]) as u64,
                col_code(m[1]) as u64,
                col_code(m[2]) as u64,
                col_code(m[3]) as u64,
                col_code(m[4]) as u64,
                col_code(m[5]) as u64,
                col_code(m[6]) as u64,
            );
        }
        k
    }
}

impl Position for BitCols {
    fn move_count(&self) -> (n: usize) {
        self.count_moves()
    }
}

} // verus!
