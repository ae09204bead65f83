use vstd::prelude::*;
use vstd::std_specs::cmp::PartialEqSpecImpl;

use crate::basic::{column, Cell, Token};
use crate::board::bit_col::{col_code, lemma_code_roundtrip};
use crate::board::lemmas::lemma_mirror_cols;
use crate::board::model::{mirror_cols, wf_cols};
use crate::board::{BitCols, Board, CloneBoard, HashBoard, MutBoard};
use crate::solver_utils::position::Position;

verus! {

/// Three column encodings packed the way `SymmBoard::key` reads a side:
/// `a` highest, then `b`, then `c` in the lowest seven bits.
pub open spec fn side_key(a: u64, b: u64, c: u64) -> u64 {
    c | ((b | ((a | (0u64 << 7u64)) << 7u64)) << 7u64)
}

/// Both sides and the centre packed into a key, the smaller side lowest.
pub open spec fn symm_key(left: u64, centre: u64, right: u64) -> u64 {
    if left <= right {
        left | (centre << 21u64) | (right << 28u64)
    } else {
        right | (centre << 21u64) | (left << 28u64)
    }
}

/// The key of a board: left side (columns 0, 1, 2), centre, and right side
/// read from the edge inward (columns 6, 5, 4).
pub open spec fn symm_board_key(m: Seq<Seq<Token>>) -> u64 {
    symm_key(
        side_key(col_code(m[0]) as u64, col_code(m[1]) as u64, col_code(m[2]) as u64),
        col_code(m[3]) as u64,
        side_key(col_code(m[6]) as u64, col_code(m[5]) as u64, col_code(m[4]) as u64),
    )
}

/// Packing three seven-bit fields is injective and fits in 21 bits.
pub proof fn lemma_side_key(a: u64, b: u64, c: u64, a2: u64, b2: u64, c2: u64)
    by (bit_vector)
    requires
        a < 128 && b < 128 && c < 128,
        a2 < 128 && b2 < 128 && c2 < 128,
    ensures
        (c | ((b | ((a | (0u64 << 7u64)) << 7u64)) << 7u64)) < 0x20_0000,
        c >= 1 ==> (c | ((b | ((a | (0u64 << 7u64)) << 7u64)) << 7u64)) >= 1,
        (c | ((b | ((a | (0u64 << 7u64)) << 7u64)) << 7u64)) == (c2 | ((b2 | ((a2 | (0u64 << 7u64))
            << 7u64)) << 7u64)) ==> a == a2 && b == b2 && c == c2,
{
}

/// Packing two 21-bit sides around a seven-bit centre is injective, non-zero
/// when the low side is, and fits in 49 bits.
pub proof fn lemma_triple_key(l: u64, c: u64, r: u64, l2: u64, c2: u64, r2: u64)
    by (bit_vector)
    requires
        l < 0x20_0000 && c < 128 && r < 0x20_0000,
        l2 < 0x20_0000 && c2 < 128 && r2 < 0x20_0000,
    ensures
        (l | (c << 21u64) | (r << 28u64)) < 0x2_0000_0000_0000,
        l >= 1 ==> (l | (c << 21u64) | (r << 28u64)) != 0,
        (l | (c << 21u64) | (r << 28u64)) == (l2 | (c2 << 21u64) | (r2 << 28u64)) ==> l == l2 && c
            == c2 && r == r2,
{
}

/// A board and its mirror image share their key.
pub proof fn lemma_symm_mirror_key(m: Seq<Seq<Token>>)
    requires
        wf_cols(m),
    ensures
        symm_board_key(mirror_cols(m)) == symm_board_key(m),
{
    lemma_symm_board_key(m);
}

/// Facts about the key of a well-formed board.
proof fn lemma_symm_board_key(m: Seq<Seq<Token>>)
    requires
        wf_cols(m),
    ensures
        0 < symm_board_key(m) < 0x2_0000_0000_0000,
        symm_board_key(mirror_cols(m)) == symm_board_key(m),
        forall|c: int| 0 <= c < 7 ==> 1 <= #[trigger] col_code(m[c]) < 128,
{
    assert forall|c: int| 0 <= c < 7 implies 1 <= #[trigger] col_code(m[c]) < 128 by {
        lemma_code_roundtrip(m[c]);
    }
    let a = col_code(m[0]) as u64;
    let b = col_code(m[1]) as u64;
    let c = col_code(m[2]) as u64;
    let d = col_code(m[6]) as u64;
    let e = col_code(m[5]) as u64;
    let f = col_code(m[4]) as u64;
    lemma_side_key(a, b, c, a, b, c);
    lemma_side_key(d, e, f, d, e, f);
    let l = side_key(a, b, c);
    let r = side_key(d, e, f);
    let centre = col_code(m[3]) as u64;
    lemma_triple_key(l, centre, r, l, centre, r);
    lemma_triple_key(r, centre, l, r, centre, l);
    let mm = mirror_cols(m);
    assert(mm[0] == m[6] && mm[1] == m[5] && mm[2] == m[4] && mm[3] == m[3]);
    assert(mm[6] == m[0] && mm[5] == m[1] && mm[4] == m[2]);
}

/// A newtype over `BitCols` with custom equality and hash
/// so that symmetric boards are equivalent
#[derive(Clone, Copy, Debug)]
pub struct SymmBoard(BitCols);

impl Board for SymmBoard {
    closed spec fn model(&self) -> Seq<Seq<Token>> {
        self.0.model()
    }

    closed spec fn inv(&self) -> bool {
        self.0.inv()
    }

    proof fn lemma_inv(&self) {
        self.0.lemma_inv();
    }

    fn empty() -> (b: Self) {
        SymmBoard(BitCols::empty())
    }

    fn get(&self, cell: Cell) -> (r: Option<Token>) {
        self.0.get(cell)
    }

    fn count_moves(&self) -> (n: usize) {
        self.0.count_moves()
    }

    fn col_count(&self, col: column::Idx) -> (n: usize) {
        self.0.col_count(col)
    }

    fn can_place(&self, col: column::Idx) -> (b: bool) {
        self.0.can_place(col)
    }

    fn force_place(&mut self, col: column::Idx, token: Token) {
        self.0.force_place(col, token)
    }

    fn place(&mut self, col: column::Idx, token: Token) -> (r: Option<Cell>) {
        self.0.place(col, token)
    }
}

impl CloneBoard for SymmBoard {}

impl MutBoard for SymmBoard {
    fn unplace(&mut self, col: column::Idx) {
        self.0.unplace(col)
    }
}

impl HashBoard for SymmBoard {
    open spec fn key_model(m: Seq<Seq<Token>>) -> u64 {
        symm_board_key(m)
    }

    proof fn lemma_key_model(m1: Seq<Seq<Token>>, m2: Seq<Seq<Token>>) {
        lemma_symm_board_key(m1);
        lemma_symm_board_key(m2);
        let a1 = col_code(m1[0]) as u64;
        let b1 = col_code(m1[1]) as u64;
        let d1 = col_code(m1[2]) as u64;
        let e1 = col_code(m1[6]) as u64;
        let f1 = col_code(m1[5]) as u64;
        let g1 = col_code(m1[4]) as u64;
        let a2 = col_code(m2[0]) as u64;
        let b2 = col_code(m2[1]) as u64;
        let d2 = col_code(m2[2]) as u64;
        let e2 = col_code(m2[6]) as u64;
        let f2 = col_code(m2[5]) as u64;
        let g2 = col_code(m2[4]) as u64;
        let l1 = side_key(a1, b1, d1);
        let r1 = side_key(e1, f1, g1);
        let l2 = side_key(a2, b2, d2);
        let r2 = side_key(e2, f2, g2);
        let c1 = col_code(m1[3]) as u64;
        let c2 = col_code(m2[3]) as u64;
        lemma_side_key(a1, b1, d1, a2, b2, d2);
        lemma_side_key(e1, f1, g1, e2, f2, g2);
        lemma_side_key(a1, b1, d1, e2, f2, g2);
        lemma_side_key(e1, f1, g1, a2, b2, d2);
        lemma_side_key(a2, b2, d2, a2, b2, d2);
        lemma_side_key(e2, f2, g2, e2, f2, g2);
        let lo1 = if l1 <= r1 { l1 } else { r1 };
        let hi1 = if l1 <= r1 { r1 } else { l1 };
        let lo2 = if l2 <= r2 { l2 } else { r2 };
        let hi2 = if l2 <= r2 { r2 } else { l2 };
        lemma_triple_key(lo1, c1, hi1, lo2, c2, hi2);
        assert(lo1 == lo2 && c1 == c2 && hi1 == hi2);
        lemma_code_roundtrip(m1[3]);
        lemma_code_roundtrip(m2[3]);
        assert(m1[3] == m2[3]);
        if l1 == l2 && r1 == r2 {
            assert forall|c: int| 0 <= c < 7 implies #[trigger] m1[c] == m2[c] by {
                assert(c == 0 || c == 1 || c == 2 || c == 3 || c == 4 || c == 5 || c == 6);
                lemma_code_roundtrip(m1[c]);
                lemma_code_roundtrip(m2[c]);
            }
            assert(m1 =~= m2);
        } else {
            assert(l1 == r2 && r1 == l2);
            let mm = mirror_cols(m2);
            assert forall|c: int| 0 <= c < 7 implies #[trigger] m1[c] == mm[c] by {
                assert(c == 0 || c == 1 || c == 2 || c == 3 || c == 4 || c == 5 || c == 6);
                lemma_code_roundtrip(m1[c]);
                lemma_code_roundtrip(m2[6 - c]);
            }
            assert(m1 =~= mm);
        }
    }

    fn key(&self) -> (k: u64) {
        proof {
            self.0.lemma_inv();
            lemma_symm_board_key(self.model());
        }
        let centre = self.0.get_col(column::Idx::centre()).to_u64();

        let mut left: u64 = 0;  // 012
        left = self.0.get_col(column::Idx::raw(0)).to_u64() | (left << 7);
        left = self.0.get_col(column::Idx::raw(1)).to_u64() | (left << 7);
        left = self.0.get_col(column::Idx::raw(2)).to_u64() | (left << 7);
        let mut right: u64 = 0;  // 654
        right = self.0.get_col(column::Idx::raw(6)).to_u64() | (right << 7);
        right = self.0.get_col(column::Idx::raw(5)).to_u64() | (right << 7);
        right = self.0.get_col(column::Idx::raw(4)).to_u64() | (right << 7);

        let (left, right) = if left <= right {
            (left, right)
        } else {
            (right, left)
        };
        // 0 1 2 | 3 | 6 5 4
        left | (centre << 21) | (right << 28)
    }
}

impl Position for SymmBoard {
    fn move_count(&self) -> (n: usize) {
        self.0.move_count()
    }
}

impl PartialEq for SymmBoard {
    fn eq(&self, other: &Self) -> (r: bool) {
        proof {
            self.0.lemma_inv();
            other.0.lemma_inv();
        }
        let a = self.0.get_cols();
        let b = other.0.get_cols();
        let mut same = true;
        let mut mirrored = true;
        let mut i: usize = 0;
        while i < 7
            invariant
                a@.len() == 7,
                b@.len() == 7,
                forall|c: int| 0 <= c < 7 ==> (#[trigger] a@[c])@ == self.model()[c],
                forall|c: int| 0 <= c < 7 ==> (#[trigger] b@[c])@ == other.model()[c],
                wf_cols(self.model()),
                wf_cols(other.model()),
                i <= 7,
                same == forall|c: int| 0 <= c < i ==> #[trigger] self.model()[c] == other.model()[c],
                mirrored == forall|c: int|
                    0 <= c < i ==> #[trigger] self.model()[6 - c] == other.model()[c],
            decreases 7 - i,
        {
            let x = a[i].to_u8();
            let y = b[i].to_u8();
            let z = a[6 - i].to_u8();
            proof {
                lemma_code_roundtrip(self.model()[i as int]);
                lemma_code_roundtrip(other.model()[i as int]);
                lemma_code_roundtrip(self.model()[6 - i]);
            }
            same = same && x == y;
            mirrored = mirrored && z == y;
            i = i + 1;
        }
        proof {
            if same {
                assert(self.model() =~= other.model());
            }
            if mirrored {
                assert(mirror_cols(self.model()) =~= other.model());
            }
            if mirror_cols(self.model()) == other.model() {
                assert forall|c: int| 0 <= c < 7 implies #[trigger] self.model()[6 - c]
                    == other.model()[c] by {
                    assert(mirror_cols(self.model())[c] == self.model()[6 - c]);
                }
            }
        }
        same || mirrored
    }
}

impl PartialEqSpecImpl for SymmBoard {
    open spec fn obeys_eq_spec() -> bool {
        true
    }

    open spec fn eq_spec(&self, other: &SymmBoard) -> bool {
        self.model() == other.model() || mirror_cols(self.model()) == other.model()
    }
}

impl Eq for SymmBoard {}

} // verus!
