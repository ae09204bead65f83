//   6 13 20 27 34 41 48
//  ---------------------
// | 5 12 19 26 33 40 47 |
// | 4 11 18 25 32 39 46 |
// | 3 10 17 24 31 38 45 |
// | 2  9 16 23 30 37 44 |
// | 1  8 15 22 29 36 43 |
// | 0  7 14 21 28 35 42 |
//  ---------------------
//! A fast bitboard: each column takes seven bits of a word, one per row
//! and one spare above the top row.
use vstd::prelude::*;
use vstd::std_specs::cmp::PartialEqSpecImpl;

use crate::basic::{column, other, row, Cell, Token};
use crate::board::bits::{count_ones, field, lemma_pc_fields, lemma_pc_or, lemma_pc_shl7, pc};
use crate::board::symm_board::{lemma_side_key, lemma_triple_key, side_key, symm_key};
use crate::board::lemmas::lemma_mirror_cols;
use crate::board::win_bits::{
    bit, bits_match, lemma_bit_high, lemma_bit_ops, lemma_bit_shl, lemma_bit_shr, wins_bits,
};
use crate::board::model::{
    token_at, wins_at,
    curr_token, empty_cols, is_placeable, mirror_cols, moves_upto, num_moves, wf_cols,
};
use crate::board::{Board, CloneBoard, HashBoard, MutBoard};
use crate::solver_utils::position::Position;

verus! {

/// Width of the board, which is also the number of bits each column takes.
const WIDTH: u64 = 7;

/// Bitmask of the bottom row.
pub const BOTTOM_MASK: u64 = 0x408_1020_4081;

/// Bitmask of every cell of the board (the spare row above excluded).
pub const BOARD_MASK: u64 = 0xfdfb_f7ef_dfbf;

/// Bitmask of the three columns on the left side.
const LEFT_SIDE_MASK: u64 = 0x1f_ffff;

/// The mask field of a column holding `h` tokens: ones in the low `h` bits.
pub open spec fn low_ones(h: nat) -> u64 {
    if h == 0 {
        0
    } else if h == 1 {
        1
    } else if h == 2 {
        3
    } else if h == 3 {
        7
    } else if h == 4 {
        15
    } else if h == 5 {
        31
    } else {
        63
    }
}

/// Number of tokens in a column whose mask field is `f`, or 7 when `f` is
/// not the mask field of any column.
pub open spec fn field_height(f: u64) -> nat {
    if f == 0 {
        0
    } else if f == 1 {
        1
    } else if f == 3 {
        2
    } else if f == 7 {
        3
    } else if f == 15 {
        4
    } else if f == 31 {
        5
    } else if f == 63 {
        6
    } else {
        7
    }
}

/// Bit `r` of the field of column `c` of `x`.
pub open spec fn fbit(x: u64, c: int, r: int) -> bool {
    (field(x, c) >> (r as u64)) & 1 == 1
}

/// Number of tokens in column `c` according to `mask`.
pub open spec fn height_of(mask: u64, c: int) -> nat {
    field_height(field(mask, c))
}

/// Number of tokens on the board according to `mask`.
#[verifier::opaque]
pub open spec fn total_height(mask: u64) -> nat {
    height_of(mask, 0) + height_of(mask, 1) + height_of(mask, 2) + height_of(mask, 3) + height_of(
        mask,
        4,
    ) + height_of(mask, 5) + height_of(mask, 6)
}

/// A valid pair of bitmaps: every column of `mask` is a stack of at most six
/// cells, nothing lies above bit 48, and `board` only marks cells of `mask`.
pub open spec fn masks_ok(board: u64, mask: u64) -> bool {
    &&& mask < 0x2_0000_0000_0000
    &&& forall|c: int| 0 <= c < 7 ==> #[trigger] height_of(mask, c) <= 6
    &&& board & mask == board
}

/// The columns a pair of bitmaps stands for: a cell of `mask` holds the token
/// of the player to move if it is marked in `board`, else the other token.
pub open spec fn bits_cols(board: u64, mask: u64) -> Seq<Seq<Token>> {
    Seq::new(7, |c: int| Seq::new(height_of(mask, c), |r: int| bits_token(board, mask, c, r)))
}

/// The token at column `c`, row `r` of a pair of bitmaps, if that cell is in the mask.
pub open spec fn bits_token(board: u64, mask: u64, c: int, r: int) -> Token {
    let t = curr_token(total_height(mask) as int);
    if fbit(board, c, r) {
        t
    } else {
        other(t)
    }
}

/// How the seven-bit fields of words combine under bitwise operations, and
/// how single cells and whole columns are picked out.
proof fn lemma_fields(x: u64, y: u64, c: u64, d: u64, r: u64)
    by (bit_vector)
    requires
        c < 7,
        d < 7,
        r < 7,
    ensures
        ((x & y) >> ((7 * d) as u64)) & 0x7f == ((x >> ((7 * d) as u64)) & 0x7f) & ((y >> ((7
            * d) as u64)) & 0x7f),
        ((x ^ y) >> ((7 * d) as u64)) & 0x7f == ((x >> ((7 * d) as u64)) & 0x7f) ^ ((y >> ((7
            * d) as u64)) & 0x7f),
        ((x | y) >> ((7 * d) as u64)) & 0x7f == ((x >> ((7 * d) as u64)) & 0x7f) | ((y >> ((7
            * d) as u64)) & 0x7f),
        ((x & !y) >> ((7 * d) as u64)) & 0x7f == ((x >> ((7 * d) as u64)) & 0x7f) & !((y >> ((7
            * d) as u64)) & 0x7f),
        (((1u64 << r) << ((7 * c) as u64)) >> ((7 * d) as u64)) & 0x7f == if d == c {
            1u64 << r
        } else {
            0u64
        },
        (x & ((1u64 << r) << ((7 * c) as u64)) == 0) == ((((x >> ((7 * c) as u64)) & 0x7f) >> r)
            & 1 != 1),
        x & (0x7fu64 << ((7 * c) as u64)) == ((x >> ((7 * c) as u64)) & 0x7f) << ((7 * c) as u64),
        (x & (0x7fu64 << ((7 * c) as u64))) >> ((7 * c) as u64) == (x >> ((7 * c) as u64)) & 0x7f,
        (x >> ((7 * d) as u64)) & 0x7f < 128,
        (0u64 >> ((7 * d) as u64)) & 0x7f == 0,
        (0u64 & !x) == 0,
        (0xfdfb_f7ef_dfbfu64 >> ((7 * d) as u64)) & 0x7f == 63,
        ((x >> ((7 * c + r) as u64)) & 1 == 1) == ((((x >> ((7 * c) as u64)) & 0x7f) >> r) & 1 == 1),
        ((x >> ((7 * c) as u64)) & 0x7f != 0) == (x & (0x7fu64 << ((7 * c) as u64)) != 0),
{
}

/// Bits of the results of bitwise operations.
pub(crate) proof fn lemma_bits(a: u64, b: u64, r: u64)
    by (bit_vector)
    requires
        r < 64,
    ensures
        (((a ^ b) >> r) & 1 == 1) == (((a >> r) & 1 == 1) != ((b >> r) & 1 == 1)),
        (((a & b) >> r) & 1 == 1) == (((a >> r) & 1 == 1) && ((b >> r) & 1 == 1)),
        (((a | b) >> r) & 1 == 1) == (((a >> r) & 1 == 1) || ((b >> r) & 1 == 1)),
        (((a & !b) >> r) & 1 == 1) == (((a >> r) & 1 == 1) && !((b >> r) & 1 == 1)),
        a | a == a,
        a & !0u64 == a,
        b < 64 ==> ((((1u64 << b) >> r) & 1 == 1) == (r == b)),
        a & b <= b,
        a & b == b & a,
        0u64 & a == 0u64,
        ((!a >> r) & 1 == 1) == !((a >> r) & 1 == 1),
        b < 64 ==> ((1u64 << b) & a) == if ((a >> b) & 1 == 1) {
            1u64 << b
        } else {
            0u64
        },
{
}

/// The bits of the mask fields of columns of each height, and how they grow
/// and shrink by one.
proof fn lemma_low_ones(r: u64)
    by (bit_vector)
    requires
        r < 7,
    ensures
        ((0u64 >> r) & 1 == 1) == false,
        ((1u64 >> r) & 1 == 1) == (r < 1),
        ((3u64 >> r) & 1 == 1) == (r < 2),
        ((7u64 >> r) & 1 == 1) == (r < 3),
        ((15u64 >> r) & 1 == 1) == (r < 4),
        ((31u64 >> r) & 1 == 1) == (r < 5),
        ((63u64 >> r) & 1 == 1) == (r < 6),
        0u64 | 1u64 == 1u64 && 1u64 | 2u64 == 3u64 && 3u64 | 4u64 == 7u64 && 7u64 | 8u64 == 15u64
            && 15u64 | 16u64 == 31u64 && 31u64 | 32u64 == 63u64,
        1u64 << 0u64 == 1u64 && 1u64 << 1u64 == 2u64 && 1u64 << 2u64 == 4u64 && 1u64 << 3u64 == 8u64
            && 1u64 << 4u64 == 16u64 && 1u64 << 5u64 == 32u64 && 1u64 << 6u64 == 64u64,
        1u64 & 63u64 == 1u64 && 2u64 & 63u64 == 2u64 && 4u64 & 63u64 == 4u64 && 8u64 & 63u64 == 8u64
            && 16u64 & 63u64 == 16u64 && 32u64 & 63u64 == 32u64 && 64u64 & 63u64 == 0u64,
        1u64 & !(1u64 << 0u64) == 0u64 && 3u64 & !(1u64 << 1u64) == 1u64 && 7u64 & !(1u64 << 2u64)
            == 3u64 && 15u64 & !(1u64 << 3u64) == 7u64 && 31u64 & !(1u64 << 4u64) == 15u64 && 63u64
            & !(1u64 << 5u64) == 31u64,
{
}

/// The low bits of a column's mask field are exactly the rows below its height.
proof fn lemma_height_bit(f: u64, r: int)
    requires
        field_height(f) <= 6,
        0 <= r < 7,
    ensures
        ((f >> (r as u64)) & 1 == 1) == (r < field_height(f)),
        f == low_ones(field_height(f)),
{
    lemma_low_ones(r as u64);
}

/// Number of set bits of the mask field of a column of each height.
proof fn lemma_pc_low_ones(h: nat)
    requires
        h <= 6,
    ensures
        pc(low_ones(h)) == h,
        field_height(low_ones(h)) == h,
{
    reveal_with_fuel(pc, 8);
}

/// Facts about a valid pair of bitmaps: the board they stand for is
/// well formed, has one column per field and one token per mask bit.
proof fn lemma_masks(board: u64, mask: u64)
    requires
        masks_ok(board, mask),
    ensures
        wf_cols(bits_cols(board, mask)),
        num_moves(bits_cols(board, mask)) == total_height(mask),
        forall|c: int| 0 <= c < 7 ==> #[trigger] bits_cols(board, mask)[c].len() == height_of(mask, c),
{
    reveal_with_fuel(moves_upto, 8);
    reveal(total_height);
    let m = bits_cols(board, mask);
    assert(m[0].len() == height_of(mask, 0) && m[1].len() == height_of(mask, 1));
    assert(m[2].len() == height_of(mask, 2) && m[3].len() == height_of(mask, 3));
    assert(m[4].len() == height_of(mask, 4) && m[5].len() == height_of(mask, 5));
    assert(m[6].len() == height_of(mask, 6));
}

/// A fast BitBoard implementation.
/// Stores two bitmaps
/// - board: bitmap of the current player's tokens
/// - mask: bitmap of placed tokens
///
/// Allows for fast querying, hashing and win checks.
#[derive(Clone, Copy, Debug)]
pub struct BitBoard {
    board: u64,
    mask: u64,
}

impl BitBoard {
    /// Both bitmaps always form a valid pair.
    #[verifier::type_invariant]
    spec fn well_formed(self) -> bool {
        masks_ok(self.board, self.mask)
    }
}

/// Bitmask of the cell at the bottom of the given column.
fn bottom_col_mask(col: column::Idx) -> (m: u64)
    ensures
        m == 1u64 << ((7 * col@) as u64),
{
    1 << (WIDTH * col.to_u64())
}

/// Bitmask of the given column.
pub fn col_mask(col: column::Idx) -> (m: u64)
    ensures
        m == 0x7fu64 << ((7 * col@) as u64),
{
    0b111_1111 << (WIDTH * col.to_u64())
}

/// Bitmask of the given cell.
fn cell_mask(cell: Cell) -> (m: u64)
    ensures
        m == (1u64 << (cell.row@ as u64)) << ((7 * cell.col@) as u64),
{
    (1 << cell.row.to_u64()) << (WIDTH * cell.col.to_u64())
}

/// Returns the column at the given index shifted to the first column position.
fn get_col(mask: u64, col: column::Idx) -> (f: u64)
    ensures
        f == field(mask, col@ as int),
{
    let _ = col.index();
    proof {
        lemma_fields(mask, mask, col@ as u64, col@ as u64, 0);
    }
    (mask & col_mask(col)) >> (WIDTH * col.to_u64())
}

impl Board for BitBoard {
    closed spec fn model(&self) -> Seq<Seq<Token>> {
        bits_cols(self.board, self.mask)
    }

    closed spec fn inv(&self) -> bool {
        masks_ok(self.board, self.mask)
    }

    proof fn lemma_inv(&self) {
        lemma_masks(self.board, self.mask);
    }

    fn empty() -> (b: Self) {
        proof {
            assert forall|c: int| 0 <= c < 7 implies #[trigger] height_of(0, c) == 0 by {
                lemma_fields(0, 0, c as u64, c as u64, 0);
            }
            assert(0u64 & 0u64 == 0u64) by (bit_vector);
            lemma_masks(0, 0);
            assert forall|c: int| 0 <= c < 7 implies #[trigger] bits_cols(0, 0)[c] =~= empty_cols()[c] by {}
            assert(bits_cols(0, 0) =~= empty_cols());
        }
        BitBoard { board: 0, mask: 0 }
    }

    fn count_moves(&self) -> (n: usize) {
        proof {
            let (b, m) = (self.board, self.mask);
            assert((b & m == b) ==> (b & (b ^ m) == 0 && (b | (b ^ m)) == m)) by (bit_vector);
            lemma_pc_or(b, b ^ m);
            lemma_pc_fields(m);
            lemma_masks(b, m);
            reveal(total_height);
            assert forall|c: int| 0 <= c < 7 implies pc(#[trigger] field(m, c)) == height_of(m, c) by {
                assert(height_of(m, c) <= 6);
                lemma_height_bit(field(m, c), 0);
                lemma_pc_low_ones(height_of(m, c));
            }
        }
        count_ones(self.board) as usize + count_ones(self.board ^ self.mask) as usize
    }

    fn get(&self, cell: Cell) -> (r: Option<Token>) {
        let _ = cell.col.index();
        let _ = cell.row.index();
        proof {
            let (c, rw) = (cell.col@ as int, cell.row@ as int);
            lemma_fields(self.mask, self.board, c as u64, c as u64, rw as u64);
            lemma_fields(self.board, self.mask, c as u64, c as u64, rw as u64);
            lemma_height_bit(field(self.mask, c), rw);
            lemma_masks(self.board, self.mask);
        }
        if self.mask & cell_mask(cell) == 0 {
            return None;
        }
        if self.board & cell_mask(cell) == 0 {
            Some(self.calc_curr().opp())
        } else {
            Some(self.calc_curr())
        }
    }

    fn col_count(&self, col: column::Idx) -> (n: usize) {
        let _ = col.index();
        proof {
            let c = col@ as int;
            assert(height_of(self.mask, c) <= 6);
            lemma_fields(self.mask, self.mask, c as u64, c as u64, 0);
            lemma_pc_shifted(field(self.mask, c), c as nat);
            lemma_height_bit(field(self.mask, c), 0);
            lemma_pc_low_ones(height_of(self.mask, c));
            lemma_masks(self.board, self.mask);
        }
        count_ones(self.mask & col_mask(col)) as usize
    }

    fn can_place(&self, col: column::Idx) -> (b: bool) {
        let _ = col.index();
        proof {
            let c = col@ as int;
            assert(height_of(self.mask, c) <= 6);
            lemma_fields(self.mask, self.mask, c as u64, c as u64, 5);
            lemma_height_bit(field(self.mask, c), 5);
            lemma_masks(self.board, self.mask);
        }
        self.mask & cell_mask(Cell { col, row: row::Idx::top() }) == 0
    }

    fn force_place(&mut self, col: column::Idx, token: Token) {
        let _ = col.index();
        let ghost c = col@ as int;
        proof {
            lemma_masks(self.board, self.mask);
            lemma_pushed_fields(self.mask, c);
            lemma_push_col(self.board, self.mask, c, token);
        }
        let mut board = self.board;
        let mut mask = self.mask;
        if token == self.calc_curr() {
            board ^= mask;
            mask |= mask + bottom_col_mask(col);
        } else {
            mask |= mask + bottom_col_mask(col);
            board ^= mask;
        }
        *self = BitBoard { board, mask };
    }
}

/// Adding a bit at the bottom of column `c` adds one to that column's field
/// and leaves the other fields alone, as long as that field is not full.
proof fn lemma_add_bottom(x: u64, c: u64, d: u64)
    by (bit_vector)
    requires
        c < 7,
        d < 7,
        x < 0x2_0000_0000_0000,
        ((x >> ((7 * c) as u64)) & 0x7f) < 127,
    ensures
        ((((x + (1u64 << ((7 * c) as u64))) as u64) >> ((7 * d) as u64)) & 0x7f) == if d == c {
            (((x >> ((7 * c) as u64)) & 0x7f) + 1) as u64
        } else {
            (x >> ((7 * d) as u64)) & 0x7f
        },
        x + (1u64 << ((7 * c) as u64)) < 0x2_0000_0000_0000,
        (x | ((x + (1u64 << ((7 * c) as u64))) as u64)) < 0x2_0000_0000_0000,
        x & (x | ((x + (1u64 << ((7 * c) as u64))) as u64)) == x,
{
}

/// Which bits stay within the mask after the updates that place and remove tokens.
proof fn lemma_subset(b: u64, m: u64, n: u64, x: u64)
    by (bit_vector)
    ensures
        b & m == b && m & n == m ==> (b ^ m) & n == (b ^ m) && (b ^ n) & n == (b ^ n),
        b & m == b ==> ((b & !x) ^ (m & !x)) & (m & !x) == ((b & !x) ^ (m & !x)),
        m & !x <= m,
        b & m == b ==> (b ^ m) <= m && b <= m,
{
}

/// The mask after a token is dropped into column `c`.
pub open spec fn pushed_mask(mask: u64, c: int) -> u64 {
    mask | ((mask + (1u64 << ((7 * c) as u64))) as u64)
}

/// Dropping a token into column `c` raises that column by one and keeps the others.
proof fn lemma_pushed_fields(mask: u64, c: int)
    requires
        mask < 0x2_0000_0000_0000,
        forall|d: int| 0 <= d < 7 ==> #[trigger] height_of(mask, d) <= 6,
        0 <= c < 7,
        height_of(mask, c) < 6,
    ensures
        pushed_mask(mask, c) < 0x2_0000_0000_0000,
        mask + (1u64 << ((7 * c) as u64)) < 0x2_0000_0000_0000,
        mask & pushed_mask(mask, c) == mask,
        forall|d: int|
            0 <= d < 7 ==> #[trigger] height_of(pushed_mask(mask, c), d) == height_of(mask, d) + if d
                == c {
                1int
            } else {
                0int
            },
        total_height(pushed_mask(mask, c)) == total_height(mask) + 1,
{
    reveal(total_height);
    let nm = pushed_mask(mask, c);
    let added = (mask + (1u64 << ((7 * c) as u64))) as u64;
    assert(height_of(mask, c) <= 6);
    lemma_height_bit(field(mask, c), 0);
    lemma_add_bottom(mask, c as u64, c as u64);
    assert forall|d: int| 0 <= d < 7 implies #[trigger] height_of(nm, d) == height_of(mask, d) + if d
        == c {
        1int
    } else {
        0int
    } by {
        assert(height_of(mask, d) <= 6);
        lemma_add_bottom(mask, c as u64, d as u64);
        lemma_fields(mask, added, c as u64, d as u64, 0);
        lemma_low_ones(0);
        lemma_height_bit(field(mask, d), 0);
        lemma_bits(field(mask, d), 0, 0);
    }
    assert(height_of(nm, 0) == height_of(mask, 0) + if 0 == c { 1int } else { 0int });
    assert(height_of(nm, 1) == height_of(mask, 1) + if 1 == c { 1int } else { 0int });
    assert(height_of(nm, 2) == height_of(mask, 2) + if 2 == c { 1int } else { 0int });
    assert(height_of(nm, 3) == height_of(mask, 3) + if 3 == c { 1int } else { 0int });
    assert(height_of(nm, 4) == height_of(mask, 4) + if 4 == c { 1int } else { 0int });
    assert(height_of(nm, 5) == height_of(mask, 5) + if 5 == c { 1int } else { 0int });
    assert(height_of(nm, 6) == height_of(mask, 6) + if 6 == c { 1int } else { 0int });
}

/// Whether a mask bit is set is decided by the column's height.
proof fn lemma_mask_bit(mask: u64, d: int, r: int)
    requires
        0 <= d < 7,
        0 <= r < 7,
        height_of(mask, d) <= 6,
    ensures
        fbit(mask, d, r) == (r < height_of(mask, d)),
{
    lemma_height_bit(field(mask, d), r);
}

/// Bit `r` of column `d` of `x ^ y` and of `x & y`.
proof fn lemma_fbit_ops(x: u64, y: u64, d: int, r: int)
    requires
        0 <= d < 7,
        0 <= r < 7,
    ensures
        fbit(x ^ y, d, r) == (fbit(x, d, r) != fbit(y, d, r)),
        fbit(x & y, d, r) == (fbit(x, d, r) && fbit(y, d, r)),
        fbit(x & !y, d, r) == (fbit(x, d, r) && !fbit(y, d, r)),
{
    lemma_fields(x, y, 0, d as u64, 0);
    lemma_bits(field(x, d), field(y, d), r as u64);
}

/// The token at one cell after a token is dropped into column `c`, the way
/// `force_place` updates the bitmaps.
proof fn lemma_push_token(board: u64, mask: u64, c: int, token: Token, d: int, r: int)
    requires
        masks_ok(board, mask),
        0 <= c < 7,
        height_of(mask, c) < 6,
        0 <= d < 7,
        0 <= r < height_of(mask, d) + if d == c {
            1int
        } else {
            0int
        },
        height_of(pushed_mask(mask, c), d) == height_of(mask, d) + if d == c {
            1int
        } else {
            0int
        },
        total_height(pushed_mask(mask, c)) == total_height(mask) + 1,
    ensures
        ({
            let nm = pushed_mask(mask, c);
            let nb = if token == curr_token(total_height(mask) as int) {
                board ^ mask
            } else {
                board ^ nm
            };
            bits_token(nb, nm, d, r) == if d == c && r == height_of(mask, c) {
                token
            } else {
                bits_token(board, mask, d, r)
            }
        }),
{
    let nm = pushed_mask(mask, c);
    let t = curr_token(total_height(mask) as int);
    assert(curr_token(total_height(nm) as int) == other(t));
    let x = if token == t {
        mask
    } else {
        nm
    };
    assert(height_of(mask, d) <= 6);
    lemma_fbit_ops(board, x, d, r);
    lemma_fbit_ops(board, mask, d, r);
    lemma_mask_bit(mask, d, r);
    lemma_mask_bit(nm, d, r);
}

/// Dropping a token into column `c`, the way `force_place` updates the bitmaps,
/// gives a valid pair standing for the board with that token added.
proof fn lemma_push_col(board: u64, mask: u64, c: int, token: Token)
    requires
        masks_ok(board, mask),
        0 <= c < 7,
        height_of(mask, c) < 6,
    ensures
        ({
            let nm = pushed_mask(mask, c);
            let nb = if token == curr_token(total_height(mask) as int) {
                board ^ mask
            } else {
                board ^ nm
            };
            masks_ok(nb, nm) && bits_cols(nb, nm) == crate::board::model::placed_cols(
                bits_cols(board, mask),
                c,
                token,
            )
        }),
{
    let nm = pushed_mask(mask, c);
    let nb = if token == curr_token(total_height(mask) as int) {
        board ^ mask
    } else {
        board ^ nm
    };
    lemma_pushed_fields(mask, c);
    lemma_subset(board, mask, nm, 0);
    lemma_masks(board, mask);
    let old_m = bits_cols(board, mask);
    let new_m = bits_cols(nb, nm);
    let want = crate::board::model::placed_cols(old_m, c, token);
    assert(masks_ok(nb, nm));
    lemma_masks(nb, nm);
    assert forall|d: int| 0 <= d < 7 implies #[trigger] new_m[d] =~= want[d] by {
        assert forall|r: int| 0 <= r < new_m[d].len() implies new_m[d][r] == want[d][r] by {
            lemma_push_token(board, mask, c, token, d, r);
        }
    }
    assert(new_m =~= want);
}

/// The single-cell mask of the top token of column `c`.
pub open spec fn top_bit(mask: u64, c: int) -> u64 {
    (1u64 << ((height_of(mask, c) - 1) as u64)) << ((7 * c) as u64)
}

/// Removing the top token of column `c` lowers that column by one and keeps the others.
proof fn lemma_popped_fields(mask: u64, c: int)
    requires
        mask < 0x2_0000_0000_0000,
        forall|d: int| 0 <= d < 7 ==> #[trigger] height_of(mask, d) <= 6,
        0 <= c < 7,
        height_of(mask, c) > 0,
    ensures
        mask & !top_bit(mask, c) < 0x2_0000_0000_0000,
        forall|d: int|
            0 <= d < 7 ==> #[trigger] height_of(mask & !top_bit(mask, c), d) == height_of(mask, d)
                - if d == c {
                1int
            } else {
                0int
            },
        total_height(mask & !top_bit(mask, c)) == total_height(mask) - 1,
{
    reveal(total_height);
    let bm = top_bit(mask, c);
    let nm = mask & !bm;
    let h = (height_of(mask, c) - 1) as u64;
    lemma_subset(0, mask, 0, bm);
    assert forall|d: int| 0 <= d < 7 implies #[trigger] height_of(nm, d) == height_of(mask, d) - if d
        == c {
        1int
    } else {
        0int
    } by {
        assert(height_of(mask, d) <= 6);
        assert(height_of(mask, c) <= 6);
        lemma_fields(mask, bm, c as u64, d as u64, h);
        lemma_low_ones(0);
        lemma_height_bit(field(mask, d), 0);
        lemma_bits(field(mask, d), 0, 0);
    }
    assert(height_of(nm, 0) == height_of(mask, 0) - if 0 == c { 1int } else { 0int });
    assert(height_of(nm, 1) == height_of(mask, 1) - if 1 == c { 1int } else { 0int });
    assert(height_of(nm, 2) == height_of(mask, 2) - if 2 == c { 1int } else { 0int });
    assert(height_of(nm, 3) == height_of(mask, 3) - if 3 == c { 1int } else { 0int });
    assert(height_of(nm, 4) == height_of(mask, 4) - if 4 == c { 1int } else { 0int });
    assert(height_of(nm, 5) == height_of(mask, 5) - if 5 == c { 1int } else { 0int });
    assert(height_of(nm, 6) == height_of(mask, 6) - if 6 == c { 1int } else { 0int });
}

/// The token at one cell after the top token of column `c` is removed, the
/// way `unplace` updates the bitmaps.
proof fn lemma_pop_token(board: u64, mask: u64, c: int, d: int, r: int)
    requires
        masks_ok(board, mask),
        0 <= c < 7,
        height_of(mask, c) > 0,
        0 <= d < 7,
        0 <= r < height_of(mask & !top_bit(mask, c), d),
        height_of(mask & !top_bit(mask, c), d) == height_of(mask, d) - if d == c {
            1int
        } else {
            0int
        },
        total_height(mask & !top_bit(mask, c)) == total_height(mask) - 1,
    ensures
        bits_token(
            (board & !top_bit(mask, c)) ^ (mask & !top_bit(mask, c)),
            mask & !top_bit(mask, c),
            d,
            r,
        ) == bits_token(board, mask, d, r),
{
    let bm = top_bit(mask, c);
    let nm = mask & !bm;
    let t = curr_token(total_height(mask) as int);
    assert(curr_token(total_height(nm) as int) == other(t));
    assert(height_of(mask, d) <= 6);
    assert(height_of(mask, c) <= 6);
    lemma_fbit_ops(board & !bm, nm, d, r);
    lemma_fbit_ops(board, bm, d, r);
    let h = (height_of(mask, c) - 1) as u64;
    lemma_fields(0, bm, c as u64, d as u64, h);
    lemma_bits(field(bm, d), h, r as u64);
    lemma_low_ones(r as u64);
    lemma_mask_bit(nm, d, r);
    assert(fbit(nm, d, r));
    assert(!fbit(bm, d, r));
    assert(fbit((board & !bm) ^ nm, d, r) == !fbit(board, d, r));
}

/// Removing the top token of column `c`, the way `unplace` updates the bitmaps,
/// gives a valid pair standing for the board without that token.
proof fn lemma_pop_col(board: u64, mask: u64, c: int)
    requires
        masks_ok(board, mask),
        0 <= c < 7,
        height_of(mask, c) > 0,
    ensures
        masks_ok((board & !top_bit(mask, c)) ^ (mask & !top_bit(mask, c)), mask & !top_bit(mask, c)),
        bits_cols((board & !top_bit(mask, c)) ^ (mask & !top_bit(mask, c)), mask & !top_bit(mask, c))
            == crate::board::model::unplaced_cols(bits_cols(board, mask), c),
{
    let bm = top_bit(mask, c);
    let nm = mask & !bm;
    let nb = (board & !bm) ^ nm;
    lemma_popped_fields(mask, c);
    lemma_subset(board, mask, 0, bm);
    lemma_masks(board, mask);
    assert(masks_ok(nb, nm));
    lemma_masks(nb, nm);
    let old_m = bits_cols(board, mask);
    let new_m = bits_cols(nb, nm);
    let want = crate::board::model::unplaced_cols(old_m, c);
    assert forall|d: int| 0 <= d < 7 implies #[trigger] new_m[d] =~= want[d] by {
        assert forall|r: int| 0 <= r < new_m[d].len() implies new_m[d][r] == want[d][r] by {
            lemma_pop_token(board, mask, c, d, r);
        }
    }
    assert(new_m =~= want);
}

/// The bits of a column relative to token `t`: bit `r` is set when row `r` holds `t`.
pub open spec fn rel_bits(s: Seq<Token>, t: Token) -> u64
    decreases s.len(),
{
    if s.len() == 0 {
        0
    } else {
        rel_bits(s.drop_last(), t) | ((if s.last() == t {
            1u64
        } else {
            0u64
        }) << ((s.len() - 1) as u64))
    }
}

/// The key field of a column: its bits relative to `t` under a leading one
/// just above its top token.
pub open spec fn rel_code(s: Seq<Token>, t: Token) -> u64 {
    rel_bits(s, t) | (1u64 << (s.len() as u64))
}

/// The key field of column `c` of a board, relative to the player to move.
pub open spec fn board_code(m: Seq<Seq<Token>>, c: int) -> u64 {
    rel_code(m[c], curr_token(num_moves(m)))
}

/// The key of a board: the left side (columns 0, 1, 2), the centre, and the
/// right side read from the edge inward (columns 6, 5, 4), the smaller side lowest.
pub open spec fn bit_board_key(m: Seq<Seq<Token>>) -> u64 {
    symm_key(
        side_key(board_code(m, 2), board_code(m, 1), board_code(m, 0)),
        board_code(m, 3),
        side_key(board_code(m, 4), board_code(m, 5), board_code(m, 6)),
    )
}

/// A board and its mirror image share their key.
pub proof fn lemma_mirror_key(m: Seq<Seq<Token>>)
    requires
        wf_cols(m),
    ensures
        bit_board_key(mirror_cols(m)) == bit_board_key(m),
{
    lemma_mirror_cols(m);
    let mm = mirror_cols(m);
    assert forall|c: int| 0 <= c < 7 implies #[trigger] board_code(mm, c) == board_code(m, 6 - c) by {
        assert(mm[c] == m[6 - c]);
    }
    assert(board_code(mm, 0) == board_code(m, 6) && board_code(mm, 1) == board_code(m, 5));
    assert(board_code(mm, 2) == board_code(m, 4) && board_code(mm, 3) == board_code(m, 3));
    assert(board_code(mm, 4) == board_code(m, 2) && board_code(mm, 5) == board_code(m, 1));
    assert(board_code(mm, 6) == board_code(m, 0));
}

/// Setting bit `j` on top of a value below `2^j`.
proof fn lemma_or_step(a: u64, e: u64, j: u64, r: u64)
    by (bit_vector)
    requires
        j < 7,
        e < 2,
        r < 7,
        a < (1u64 << j),
    ensures
        (a | (e << j)) < (1u64 << (j + 1)),
        (((a | (e << j)) >> r) & 1 == 1) == (((a >> r) & 1 == 1) || (r == j && e == 1)),
        ((a >> r) & 1 == 1) ==> r < j,
        (a | (1u64 << j)) < 128,
        (a | (1u64 << j)) >= 1,
        a + (1u64 << j) == a | (1u64 << j),
        ((a | (1u64 << j)) >> r) & 1 == 1 <==> (((a >> r) & 1 == 1) || r == j),
{
}

/// Two values with a leading one at bits `h1` and `h2` are equal only if the
/// leading ones and the bits below them are.
proof fn lemma_leading_one(a: u64, h1: u64, b: u64, h2: u64)
    by (bit_vector)
    requires
        h1 < 7,
        h2 < 7,
        a < (1u64 << h1),
        b < (1u64 << h2),
        a | (1u64 << h1) == b | (1u64 << h2),
    ensures
        h1 == h2,
        a == b,
{
}

/// Values below 128 with the same seven low bits are equal.
proof fn lemma_eq_bits(a: u64, b: u64)
    by (bit_vector)
    requires
        a < 128,
        b < 128,
        ((a >> 0u64) & 1 == 1) == ((b >> 0u64) & 1 == 1),
        ((a >> 1u64) & 1 == 1) == ((b >> 1u64) & 1 == 1),
        ((a >> 2u64) & 1 == 1) == ((b >> 2u64) & 1 == 1),
        ((a >> 3u64) & 1 == 1) == ((b >> 3u64) & 1 == 1),
        ((a >> 4u64) & 1 == 1) == ((b >> 4u64) & 1 == 1),
        ((a >> 5u64) & 1 == 1) == ((b >> 5u64) & 1 == 1),
        ((a >> 6u64) & 1 == 1) == ((b >> 6u64) & 1 == 1),
    ensures
        a == b,
{
}

/// The relative bits of a column lie below its height, and bit `r` says
/// whether row `r` holds `t`.
proof fn lemma_rel_bits(s: Seq<Token>, t: Token)
    requires
        s.len() <= 6,
    ensures
        rel_bits(s, t) < (1u64 << (s.len() as u64)),
        forall|r: int|
            0 <= r < 7 ==> (((#[trigger] rel_bits(s, t) >> (r as u64)) & 1 == 1) == (r < s.len()
                && s[r] == t)),
    decreases s.len(),
{
    if s.len() == 0 {
        assert forall|r: int| 0 <= r < 7 implies (((#[trigger] rel_bits(s, t) >> (r as u64)) & 1
            == 1) == (r < s.len() && s[r] == t)) by {
            lemma_low_ones(r as u64);
        }
        assert(0u64 < (1u64 << 0u64)) by (bit_vector);
    } else {
        let p = s.drop_last();
        lemma_rel_bits(p, t);
        let e: u64 = if s.last() == t {
            1
        } else {
            0
        };
        let j = (s.len() - 1) as u64;
        lemma_or_step(rel_bits(p, t), e, j, 0);
        assert(rel_bits(s, t) == rel_bits(p, t) | (e << j));
        assert forall|r: int| 0 <= r < 7 implies (((#[trigger] rel_bits(s, t) >> (r as u64)) & 1
            == 1) == (r < s.len() && s[r] == t)) by {
            lemma_or_step(rel_bits(p, t), e, j, r as u64);
            assert(((rel_bits(p, t) >> (r as u64)) & 1 == 1) == (r < p.len() && p[r] == t));
            if r < p.len() {
                assert(p[r] == s[r]);
            }
        }
    }
}

/// The key field of a column is a non-zero seven-bit value.
proof fn lemma_rel_code(s: Seq<Token>, t: Token)
    requires
        s.len() <= 6,
    ensures
        1 <= rel_code(s, t) < 128,
{
    lemma_rel_bits(s, t);
    lemma_or_step(rel_bits(s, t), 0, s.len() as u64, 0);
}

/// Columns with the same key field have the same height and agree on
/// which rows hold the reference token.
proof fn lemma_rel_code_eq(s1: Seq<Token>, t1: Token, s2: Seq<Token>, t2: Token)
    requires
        s1.len() <= 6,
        s2.len() <= 6,
        rel_code(s1, t1) == rel_code(s2, t2),
    ensures
        s1.len() == s2.len(),
        forall|r: int| 0 <= r < s1.len() ==> (#[trigger] s1[r] == t1) == (s2[r] == t2),
        t1 == t2 ==> s1 == s2,
{
    lemma_rel_bits(s1, t1);
    lemma_rel_bits(s2, t2);
    lemma_leading_one(rel_bits(s1, t1), s1.len() as u64, rel_bits(s2, t2), s2.len() as u64);
    assert forall|r: int| 0 <= r < s1.len() implies (#[trigger] s1[r] == t1) == (s2[r] == t2) by {
        assert(((rel_bits(s1, t1) >> (r as u64)) & 1 == 1) == (r < s1.len() && s1[r] == t1));
    }
    if t1 == t2 {
        assert forall|r: int| 0 <= r < s1.len() implies s1[r] == s2[r] by {
            assert((s1[r] == t1) == (s2[r] == t2));
        }
        assert(s1 =~= s2);
    }
}

/// A value that only has bits inside the low `h` bits lies below `2^h`.
proof fn lemma_below(a: u64)
    by (bit_vector)
    ensures
        a & 0 == a ==> a < 1,
        a & 1 == a ==> a < 2,
        a & 3 == a ==> a < 4,
        a & 7 == a ==> a < 8,
        a & 15 == a ==> a < 16,
        a & 31 == a ==> a < 32,
        a & 63 == a ==> a < 64,
{
}

/// Adding two words and the bottom row adds field by field, as long as no
/// field overflows.
proof fn lemma_add_fields(x: u64, y: u64, d: u64)
    by (bit_vector)
    requires
        d < 7,
        x < 0x2_0000_0000_0000,
        y < 0x2_0000_0000_0000,
        ((x >> 0u64) & 0x7f) + ((y >> 0u64) & 0x7f) < 127,
        ((x >> 7u64) & 0x7f) + ((y >> 7u64) & 0x7f) < 127,
        ((x >> 14u64) & 0x7f) + ((y >> 14u64) & 0x7f) < 127,
        ((x >> 21u64) & 0x7f) + ((y >> 21u64) & 0x7f) < 127,
        ((x >> 28u64) & 0x7f) + ((y >> 28u64) & 0x7f) < 127,
        ((x >> 35u64) & 0x7f) + ((y >> 35u64) & 0x7f) < 127,
        ((x >> 42u64) & 0x7f) + ((y >> 42u64) & 0x7f) < 127,
    ensures
        x + y + 0x408_1020_4081u64 < 0x2_0000_0000_0000,
        ((((x + y + 0x408_1020_4081u64) as u64) >> ((7 * d) as u64)) & 0x7f) == (((x >> ((7
            * d) as u64)) & 0x7f) + ((y >> ((7 * d) as u64)) & 0x7f) + 1) as u64,
{
}

/// Adding two words and the bottom row adds field by field, as long as no
/// field overflows.
proof fn lemma_add_words(x: u64, y: u64)
    requires
        x < 0x2_0000_0000_0000,
        y < 0x2_0000_0000_0000,
        forall|c: int| 0 <= c < 7 ==> #[trigger] field(x, c) < 127 - field(y, c),
    ensures
        x + y + BOTTOM_MASK < 0x2_0000_0000_0000,
        forall|c: int|
            0 <= c < 7 ==> #[trigger] field((x + y + BOTTOM_MASK) as u64, c) == field(x, c) + field(
                y,
                c,
            ) + 1,
{
    assert(field(x, 0) == (x >> 0u64) & 0x7f && field(y, 0) == (y >> 0u64) & 0x7f);
    assert(field(x, 1) < 127 - field(y, 1) && field(x, 2) < 127 - field(y, 2));
    assert(field(x, 3) < 127 - field(y, 3) && field(x, 4) < 127 - field(y, 4));
    assert(field(x, 5) < 127 - field(y, 5) && field(x, 6) < 127 - field(y, 6));
    lemma_add_fields(x, y, 0);
    assert forall|c: int| 0 <= c < 7 implies #[trigger] field((x + y + BOTTOM_MASK) as u64, c)
        == field(x, c) + field(y, c) + 1 by {
        lemma_add_fields(x, y, c as u64);
    }
}

/// The board field of a column lies below its height and its bits are the
/// rows holding the player to move.
proof fn lemma_board_field(board: u64, mask: u64, c: int)
    requires
        masks_ok(board, mask),
        0 <= c < 7,
    ensures
        field(board, c) < (1u64 << (height_of(mask, c) as u64)),
        field(board, c) + field(mask, c) < 127,
        field(board, c) == rel_bits(bits_cols(board, mask)[c], curr_token(total_height(mask) as int)),
        field(board, c) + field(mask, c) + 1 == board_code(bits_cols(board, mask), c),
{
    let h = height_of(mask, c);
    let b = field(board, c);
    let m = bits_cols(board, mask);
    let t = curr_token(total_height(mask) as int);
    assert(h <= 6);
    lemma_masks(board, mask);
    lemma_fields(board, mask, 0, c as u64, 0);
    lemma_height_bit(field(mask, c), 0);
    lemma_low_ones(0);
    lemma_below(b);
    lemma_rel_bits(m[c], t);
    lemma_or_step(b, 0, h as u64, 0);
    assert forall|r: u64| r < 7 implies ((#[trigger] (b >> r)) & 1 == 1) == ((rel_bits(m[c], t)
        >> r) & 1 == 1) by {
        lemma_or_step(b, 0, h as u64, r);
        assert(((rel_bits(m[c], t) >> ((r as int) as u64)) & 1 == 1) == (r < m[c].len() && m[c][r as int] == t));
        if r < h {
            assert(m[c][r as int] == bits_token(board, mask, c, r as int));
        }
    }
    lemma_eq_bits(b, rel_bits(m[c], t));
}

/// The asymmetric key adds each column's board and mask fields and a one,
/// which gives the column's key field.
proof fn lemma_asymm_key(board: u64, mask: u64)
    requires
        masks_ok(board, mask),
    ensures
        board + mask + BOTTOM_MASK < 0x2_0000_0000_0000,
        forall|c: int|
            0 <= c < 7 ==> #[trigger] field((board + mask + BOTTOM_MASK) as u64, c) == board_code(
                bits_cols(board, mask),
                c,
            ),
{
    lemma_board_field(board, mask, 0);
    lemma_board_field(board, mask, 1);
    lemma_board_field(board, mask, 2);
    lemma_board_field(board, mask, 3);
    lemma_board_field(board, mask, 4);
    lemma_board_field(board, mask, 5);
    lemma_board_field(board, mask, 6);
    lemma_subset(board, mask, 0, 0);
    assert(board <= mask) by {
        assert((board & mask == board) ==> board <= mask) by (bit_vector);
    }
    assert(field(board, 0) == (board >> 0u64) & 0x7f);
    lemma_add_fields(board, mask, 0);
    assert forall|c: int| 0 <= c < 7 implies #[trigger] field((board + mask + BOTTOM_MASK) as u64, c)
        == board_code(bits_cols(board, mask), c) by {
        lemma_add_fields(board, mask, c as u64);
        lemma_board_field(board, mask, c);
    }
}

/// How the key reads the sides of the asymmetric key, and words with the
/// same seven fields are equal.
proof fn lemma_sides(k: u64, j: u64, a: u64, b: u64, c: u64)
    by (bit_vector)
    requires
        a < 128,
        b < 128,
        c < 128,
    ensures
        k & 0x1f_ffff == ((k >> 0u64) & 0x7f) | (((k >> 7u64) & 0x7f) | ((((k >> 14u64) & 0x7f) | (0u64
            << 7u64)) << 7u64)) << 7u64,
        (c | (b << 7u64)) | (a << 14u64) == c | ((b | ((a | (0u64 << 7u64)) << 7u64)) << 7u64),
        k < 0x2_0000_0000_0000 && j < 0x2_0000_0000_0000 && (k >> 0u64) & 0x7f == (j >> 0u64) & 0x7f
            && (k >> 7u64) & 0x7f == (j >> 7u64) & 0x7f && (k >> 14u64) & 0x7f == (j >> 14u64) & 0x7f
            && (k >> 21u64) & 0x7f == (j >> 21u64) & 0x7f && (k >> 28u64) & 0x7f == (j >> 28u64)
            & 0x7f && (k >> 35u64) & 0x7f == (j >> 35u64) & 0x7f && (k >> 42u64) & 0x7f == (j
            >> 42u64) & 0x7f ==> k == j,
{
}

/// Facts about the key fields of a well-formed board.
proof fn lemma_board_codes(m: Seq<Seq<Token>>)
    requires
        wf_cols(m),
    ensures
        forall|c: int| 0 <= c < 7 ==> 1 <= #[trigger] board_code(m, c) < 128,
        0 < bit_board_key(m) < 0x2_0000_0000_0000,
{
    assert forall|c: int| 0 <= c < 7 implies 1 <= #[trigger] board_code(m, c) < 128 by {
        lemma_rel_code(m[c], curr_token(num_moves(m)));
    }
    let (f0, f1, f2, f3) = (board_code(m, 0), board_code(m, 1), board_code(m, 2), board_code(m, 3));
    let (f4, f5, f6) = (board_code(m, 4), board_code(m, 5), board_code(m, 6));
    lemma_side_key(f2, f1, f0, f2, f1, f0);
    lemma_side_key(f4, f5, f6, f4, f5, f6);
    let l = side_key(f2, f1, f0);
    let r = side_key(f4, f5, f6);
    lemma_triple_key(l, f3, r, l, f3, r);
    lemma_triple_key(r, f3, l, r, f3, l);
}

/// Boards whose key fields agree column by column (or column against mirrored
/// column) are equal (or mirror images), and the other way round.
proof fn lemma_codes_models(m1: Seq<Seq<Token>>, m2: Seq<Seq<Token>>)
    requires
        wf_cols(m1),
        wf_cols(m2),
    ensures
        (forall|c: int| 0 <= c < 7 ==> #[trigger] board_code(m1, c) == board_code(m2, c)) <==> m1
            == m2,
        (forall|c: int| 0 <= c < 7 ==> #[trigger] board_code(m1, c) == board_code(m2, 6 - c))
            <==> mirror_cols(m1) == m2,
{
    reveal_with_fuel(moves_upto, 8);
    lemma_mirror_cols(m1);
    lemma_mirror_cols(m2);
    let t1 = curr_token(num_moves(m1));
    let t2 = curr_token(num_moves(m2));
    if forall|c: int| 0 <= c < 7 ==> #[trigger] board_code(m1, c) == board_code(m2, c) {
        assert forall|c: int| 0 <= c < 7 implies #[trigger] m1[c].len() == m2[c].len() by {
            assert(board_code(m1, c) == board_code(m2, c));
            lemma_rel_code_eq(m1[c], t1, m2[c], t2);
        }
        assert(num_moves(m1) == num_moves(m2));
        assert forall|c: int| 0 <= c < 7 implies #[trigger] m1[c] == m2[c] by {
            assert(board_code(m1, c) == board_code(m2, c));
            lemma_rel_code_eq(m1[c], t1, m2[c], t2);
        }
        assert(m1 =~= m2);
    }
    if forall|c: int| 0 <= c < 7 ==> #[trigger] board_code(m1, c) == board_code(m2, 6 - c) {
        let mm = mirror_cols(m1);
        assert forall|c: int| 0 <= c < 7 implies #[trigger] mm[c].len() == m2[c].len() by {
            assert(board_code(m1, 6 - c) == board_code(m2, 6 - (6 - c)));
            lemma_rel_code_eq(m1[6 - c], t1, m2[c], t2);
        }
        assert(num_moves(mm) == num_moves(m2));
        assert forall|c: int| 0 <= c < 7 implies #[trigger] mm[c] == m2[c] by {
            assert(board_code(m1, 6 - c) == board_code(m2, 6 - (6 - c)));
            lemma_rel_code_eq(m1[6 - c], t1, m2[c], t2);
        }
        assert(mm =~= m2);
    }
    if mirror_cols(m1) == m2 {
        assert forall|c: int| 0 <= c < 7 implies #[trigger] board_code(m1, c) == board_code(m2, 6 - c) by {
            assert(m2[6 - c] == m1[c]);
        }
    }
}

impl BitBoard {
    /// Bitmask with a 1 at the cell of every valid move: for each column that
    /// is not full, the bit of the cell just above its top token.
    pub fn possible_mask(&self) -> (p: u64)
        ensures
            forall|c: int|
                0 <= c < 7 ==> #[trigger] field(p, c) == if is_placeable(self.model(), c) {
                    1u64 << (self.model()[c].len() as u64)
                } else {
                    0u64
                },
            p < 0x2_0000_0000_0000,
    {
        proof {
            use_type_invariant(self);
            lemma_masks(self.board, self.mask);
            let mask = self.mask;
            assert forall|c: int| 0 <= c < 7 implies #[trigger] field(mask, c) < 127 - field(0, c) by {
                assert(height_of(mask, c) <= 6);
                lemma_fields(0, 0, 0, c as u64, 0);
                lemma_height_bit(field(mask, c), 0);
            }
            lemma_add_words(mask, 0);
            let a = (mask + 0 + BOTTOM_MASK) as u64;
            assert forall|c: int| 0 <= c < 7 implies #[trigger] field(a & BOARD_MASK, c) == if is_placeable(
                self.model(),
                c,
            ) {
                1u64 << (self.model()[c].len() as u64)
            } else {
                0u64
            } by {
                assert(height_of(mask, c) <= 6);
                lemma_fields(a, BOARD_MASK, 0, c as u64, 0);
                lemma_fields(0, 0, 0, c as u64, 0);
                lemma_height_bit(field(mask, c), 0);
                lemma_low_ones(0);
                assert(field(a, c) == field(mask, c) + 1);
                assert(field(BOARD_MASK, c) == 63);
                assert(self.model()[c].len() == height_of(mask, c));
            }
            assert((a & BOARD_MASK) <= BOARD_MASK) by {
                assert((a & 0xfdfb_f7ef_dfbfu64) <= 0xfdfb_f7ef_dfbfu64) by (bit_vector);
            }
        }
        (self.mask + BOTTOM_MASK) & BOARD_MASK
    }

    /// Place the current player's token at the given column,
    /// without checking if it is not full.
    pub fn placed_curr_unchecked(&self, col: column::Idx) -> (b: Self)
        requires
            is_placeable(self.model(), col@ as int),
        ensures
            b.inv(),
            b.model() == crate::board::model::placed_cols(
                self.model(),
                col@ as int,
                curr_token(num_moves(self.model())),
            ),
    {
        let _ = col.index();
        proof {
            use_type_invariant(self);
            lemma_masks(self.board, self.mask);
            lemma_pushed_fields(self.mask, col@ as int);
            lemma_push_col(self.board, self.mask, col@ as int, curr_token(num_moves(self.model())));
        }
        BitBoard { board: self.board ^ self.mask, mask: self.mask | (self.mask + bottom_col_mask(col)) }
    }

    /// Returns an asymmetric key for the board state: each column's key field
    /// in its own seven bits.
    fn asymm_key(&self) -> (k: u64)
        ensures
            k < 0x2_0000_0000_0000,
            forall|c: int| 0 <= c < 7 ==> #[trigger] field(k, c) == board_code(self.model(), c),
    {
        proof {
            use_type_invariant(self);
            lemma_asymm_key(self.board, self.mask);
        }
        self.board + self.mask + BOTTOM_MASK
    }
}

impl HashBoard for BitBoard {
    open spec fn key_model(m: Seq<Seq<Token>>) -> u64 {
        bit_board_key(m)
    }

    proof fn lemma_key_model(m1: Seq<Seq<Token>>, m2: Seq<Seq<Token>>) {
        lemma_board_codes(m1);
        lemma_board_codes(m2);
        let (a1, b1, d1) = (board_code(m1, 0), board_code(m1, 1), board_code(m1, 2));
        let (e1, f1, g1) = (board_code(m1, 6), board_code(m1, 5), board_code(m1, 4));
        let (a2, b2, d2) = (board_code(m2, 0), board_code(m2, 1), board_code(m2, 2));
        let (e2, f2, g2) = (board_code(m2, 6), board_code(m2, 5), board_code(m2, 4));
        let l1 = side_key(d1, b1, a1);
        let r1 = side_key(g1, f1, e1);
        let l2 = side_key(d2, b2, a2);
        let r2 = side_key(g2, f2, e2);
        let c1 = board_code(m1, 3);
        let c2 = board_code(m2, 3);
        lemma_side_key(d1, b1, a1, d2, b2, a2);
        lemma_side_key(g1, f1, e1, g2, f2, e2);
        lemma_side_key(d1, b1, a1, g2, f2, e2);
        lemma_side_key(g1, f1, e1, d2, b2, a2);
        lemma_side_key(d2, b2, a2, d2, b2, a2);
        lemma_side_key(g2, f2, e2, g2, f2, e2);
        let lo1 = if l1 <= r1 { l1 } else { r1 };
        let hi1 = if l1 <= r1 { r1 } else { l1 };
        let lo2 = if l2 <= r2 { l2 } else { r2 };
        let hi2 = if l2 <= r2 { r2 } else { l2 };
        lemma_triple_key(lo1, c1, hi1, lo2, c2, hi2);
        lemma_codes_models(m1, m2);
        lemma_mirror_cols(m1);
        lemma_mirror_cols(m2);
        if l1 == l2 && r1 == r2 {
            assert forall|c: int| 0 <= c < 7 implies #[trigger] board_code(m1, c) == board_code(m2, c) by {
                assert(c == 0 || c == 1 || c == 2 || c == 3 || c == 4 || c == 5 || c == 6);
            }
        } else {
            assert(l1 == r2 && r1 == l2);
            assert forall|c: int| 0 <= c < 7 implies #[trigger] board_code(m1, c) == board_code(m2, 6 - c) by {
                assert(c == 0 || c == 1 || c == 2 || c == 3 || c == 4 || c == 5 || c == 6);
            }
            assert(mirror_cols(mirror_cols(m1)) == mirror_cols(m2));
        }
    }

    fn key(&self) -> (k: u64) {
        proof {
            lemma_masks(self.board, self.mask);
            lemma_board_codes(self.model());
        }
        let k = self.asymm_key();
        let centre = k & col_mask(column::Idx::centre());
        let left = k & LEFT_SIDE_MASK;
        let mut right: u64 = get_col(k, column::Idx::right());
        right |= get_col(k, column::Idx::raw(5)) << WIDTH;
        right |= get_col(k, column::Idx::raw(4)) << (2 * WIDTH);
        proof {
            let m = self.model();
            lemma_fields(k, k, 3, 3, 0);
            lemma_sides(k, k, board_code(m, 4), board_code(m, 5), board_code(m, 6));
            assert(field(k, 0) == (k >> 0u64) & 0x7f);
            assert(field(k, 1) == (k >> 7u64) & 0x7f);
            assert(field(k, 2) == (k >> 14u64) & 0x7f);
            assert(left == side_key(board_code(m, 2), board_code(m, 1), board_code(m, 0)));
            assert(right == side_key(board_code(m, 4), board_code(m, 5), board_code(m, 6)));
            assert((7 * 3) as u64 == 21u64);
            assert(field(k, 3) == board_code(m, 3));
            assert(centre == board_code(m, 3) << 21u64);
        }
        let (left, right) = if left <= right {
            (left, right)
        } else {
            (right, left)
        };
        let right = right << (4 * WIDTH);
        left | centre | right
    }
}

impl PartialEq for BitBoard {
    fn eq(&self, other: &Self) -> (r: bool) {
        proof {
            use_type_invariant(self);
            use_type_invariant(other);
            lemma_masks(self.board, self.mask);
            lemma_masks(other.board, other.mask);
            lemma_codes_models(self.model(), other.model());
        }
        let k1 = self.asymm_key();
        let k2 = other.asymm_key();
        proof {
            lemma_sides(k1, k2, 0, 0, 0);
            assert(field(k1, 0) == (k1 >> 0u64) & 0x7f && field(k2, 0) == (k2 >> 0u64) & 0x7f);
            if self.model() == other.model() {
                assert(field(k1, 0) == field(k2, 0) && field(k1, 1) == field(k2, 1));
                assert(field(k1, 2) == field(k2, 2) && field(k1, 3) == field(k2, 3));
                assert(field(k1, 4) == field(k2, 4) && field(k1, 5) == field(k2, 5));
                assert(field(k1, 6) == field(k2, 6));
            }
            if k1 == k2 {
                assert forall|c: int| 0 <= c < 7 implies #[trigger] board_code(self.model(), c)
                    == board_code(other.model(), c) by {
                    assert(field(k1, c) == field(k2, c));
                }
            }
        }
        if k1 == k2 {
            return true;
        }
        let mut all = true;
        let mut i: usize = 0;
        while i < column::COUNT
            invariant
                i <= 7,
                forall|c: int| 0 <= c < 7 ==> #[trigger] field(k1, c) == board_code(self.model(), c),
                forall|c: int| 0 <= c < 7 ==> #[trigger] field(k2, c) == board_code(other.model(), c),
                all == forall|c: int|
                    0 <= c < i ==> #[trigger] board_code(self.model(), c) == board_code(
                        other.model(),
                        6 - c,
                    ),
            decreases 7 - i,
        {
            let col = column::Idx::raw(i);
            all = all && get_col(k1, col) == get_col(k2, col.mirrored());
            i = i + 1;
        }
        all
    }
}

impl PartialEqSpecImpl for BitBoard {
    open spec fn obeys_eq_spec() -> bool {
        true
    }

    open spec fn eq_spec(&self, other: &BitBoard) -> bool {
        self.model() == other.model() || mirror_cols(self.model()) == other.model()
    }
}

impl Eq for BitBoard {}

/// The bits of the tokens of player `u`: the current player's are marked
/// in `board`, the other player's are the rest of `mask`.
pub open spec fn owner_bits(board: u64, mask: u64, u: Token) -> u64 {
    if u == curr_token(total_height(mask) as int) {
        board
    } else {
        board ^ mask
    }
}

/// Bit `7c + r` of a word is bit `r` of the field of column `c`.
proof fn lemma_bit_fbit(x: u64, c: int, r: int)
    requires
        0 <= c < 7,
        0 <= r < 7,
    ensures
        bit(x, 7 * c + r) == fbit(x, c, r),
{
    lemma_fields(x, x, c as u64, c as u64, r as u64);
}

/// The bits of a player's tokens match the board the bitmaps stand for.
proof fn lemma_owner_bits(board: u64, mask: u64, u: Token)
    requires
        masks_ok(board, mask),
    ensures
        bits_match(owner_bits(board, mask, u), bits_cols(board, mask), u),
        owner_bits(board, mask, u) < 0x2_0000_0000_0000,
{
    let x = owner_bits(board, mask, u);
    let m = bits_cols(board, mask);
    let t = curr_token(total_height(mask) as int);
    lemma_masks(board, mask);
    lemma_subset(board, mask, 0, 0);
    assert forall|c: int, r: int| -1 <= c <= 7 && -1 <= r <= 6 implies #[trigger] bit(x, 7 * c + r) == (token_at(m, c, r) == Some(u)) by {
        if c == 7 {
            if r == -1 {
                lemma_owner_bit(board, mask, u, 6, 6);
                assert(7 * c + r == 7 * 6 + 6);
            } else {
                lemma_bit_high(x, 7 * c + r);
            }
        } else if c >= 0 && r == -1 {
            if c > 0 {
                lemma_owner_bit(board, mask, u, c - 1, 6);
                assert(7 * c + r == 7 * (c - 1) + 6);
            }
        } else if c >= 0 {
            lemma_owner_bit(board, mask, u, c, r);
        }
    }
}

/// The bit of a cell of a column, the spare row included, in the bits of
/// a player's tokens.
proof fn lemma_owner_bit(board: u64, mask: u64, u: Token, c: int, r: int)
    requires
        masks_ok(board, mask),
        0 <= c < 7,
        0 <= r < 7,
    ensures
        bit(owner_bits(board, mask, u), 7 * c + r) == (r < 6 && token_at(bits_cols(board, mask), c, r) == Some(u)),
{
    let x = owner_bits(board, mask, u);
    let m = bits_cols(board, mask);
    lemma_masks(board, mask);
    assert(height_of(mask, c) <= 6);
    lemma_bit_fbit(x, c, r);
    lemma_fbit_ops(board, mask, c, r);
    lemma_mask_bit(mask, c, r);
    if r < height_of(mask, c) {
        assert(m[c][r] == bits_token(board, mask, c, r));
    }
}

impl BitBoard {
    /// Bitmask of all cells of the board that are empty and where a token of
    /// the player whose tokens are marked in `board` would complete four in a row.
    fn win_mask(board: u64, mask: u64) -> (w: u64)
        requires
            board < 0x2_0000_0000_0000,
            mask < 0x2_0000_0000_0000,
        ensures
            forall|q: int| 0 <= q < 64 ==> #[trigger] bit(w, q) == (bit(BOARD_MASK ^ mask, q) && wins_bits(board, q)),
            w < 0x2_0000_0000_0000,
    {
        // Vertical
        let v = (board << 1) & (board << 2) & (board << 3);

        // Horizontal
        let p1 = (board << WIDTH) & (board << (2 * WIDTH));  // 0 1 1 => 1 0 0
        let h1 = p1 & (board << (3 * WIDTH));  // 0 1 1 1 => 1 0 0 0
        let h2 = p1 & (board >> WIDTH);  // 1 0 1 1 => 0 1 0 0
        let p2 = p1 >> (3 * WIDTH);  // 1 1 0 => 0 0 1
        let h3 = p2 & (board << WIDTH);  // 1 1 0 1 => 0 0 1 0
        let h4 = p2 & (board >> (3 * WIDTH));  // 1 1 1 0 => 0 0 0 1

        // Positive Diagonal
        let q1 = (board << (WIDTH - 1)) & (board << (2 * (WIDTH - 1)));
        let d1 = q1 & (board << (3 * (WIDTH - 1)));
        let d2 = q1 & (board >> (WIDTH - 1));
        let q2 = q1 >> (3 * (WIDTH - 1));
        let d3 = q2 & (board << (WIDTH - 1));
        let d4 = q2 & (board >> (3 * (WIDTH - 1)));

        // Negative Diagonal
        let n1 = (board << (WIDTH + 1)) & (board << (2 * (WIDTH + 1)));
        let e1 = n1 & (board << (3 * (WIDTH + 1)));
        let e2 = n1 & (board >> (WIDTH + 1));
        let n2 = n1 >> (3 * (WIDTH + 1));
        let e3 = n2 & (board << (WIDTH + 1));
        let e4 = n2 & (board >> (3 * (WIDTH + 1)));

        let r = v | h1 | h2 | h3 | h4 | d1 | d2 | d3 | d4 | e1 | e2 | e3 | e4;
        proof {
            crate::board::bit_board::lemma_bits(r, BOARD_MASK ^ mask, 0);
            lemma_subset(mask, BOARD_MASK, 0, 0);
            assert((BOARD_MASK ^ mask) < 0x2_0000_0000_0000) by {
                assert(mask < 0x2_0000_0000_0000 ==> (0xfdfb_f7ef_dfbfu64 ^ mask) < 0x2_0000_0000_0000) by (bit_vector);
            }
            assert forall|q: int| 0 <= q < 64 implies #[trigger] bit(r, q) == wins_bits(board, q) by {
                lemma_window_mask(board, 7, q);
                lemma_window_mask(board, 6, q);
                lemma_window_mask(board, 8, q);
                lemma_bit_shl(board, 1, q);
                lemma_bit_shl(board, 2, q);
                lemma_bit_shl(board, 3, q);
                lemma_bit_ops(board << 1, board << 2, q);
                lemma_bit_ops((board << 1) & (board << 2), board << 3, q);
                lemma_bit_ops(v, h1, q);
                lemma_bit_ops(v | h1, h2, q);
                lemma_bit_ops(v | h1 | h2, h3, q);
                lemma_bit_ops(v | h1 | h2 | h3, h4, q);
                lemma_bit_ops(v | h1 | h2 | h3 | h4, d1, q);
                lemma_bit_ops(v | h1 | h2 | h3 | h4 | d1, d2, q);
                lemma_bit_ops(v | h1 | h2 | h3 | h4 | d1 | d2, d3, q);
                lemma_bit_ops(v | h1 | h2 | h3 | h4 | d1 | d2 | d3, d4, q);
                lemma_bit_ops(v | h1 | h2 | h3 | h4 | d1 | d2 | d3 | d4, e1, q);
                lemma_bit_ops(v | h1 | h2 | h3 | h4 | d1 | d2 | d3 | d4 | e1, e2, q);
                lemma_bit_ops(v | h1 | h2 | h3 | h4 | d1 | d2 | d3 | d4 | e1 | e2, e3, q);
                lemma_bit_ops(v | h1 | h2 | h3 | h4 | d1 | d2 | d3 | d4 | e1 | e2 | e3, e4, q);
            }
            assert forall|q: int| 0 <= q < 64 implies #[trigger] bit(r & (BOARD_MASK ^ mask), q) == (bit(BOARD_MASK ^ mask, q) && wins_bits(board, q)) by {
                lemma_bit_ops(r, BOARD_MASK ^ mask, q);
            }
        }
        r & (BOARD_MASK ^ mask)
    }
}

impl BitBoard {
    /// Bitmask with a 1 at every cell that would result in a win for the
    /// given player: the empty cells of the board where a token of theirs
    /// completes four in a row.
    fn player_win_mask(&self, u: Token) -> (w: u64)
        ensures
            forall|c: int, r: int|
                0 <= c < 7 && 0 <= r < 7 ==> #[trigger] bit(w, 7 * c + r) == (r < 6 && self.model()[c].len() <= r
                    && wins_at(self.model(), c, r, u)),
            w < 0x2_0000_0000_0000,
    {
        proof {
            use_type_invariant(self);
            lemma_owner_bits(self.board, self.mask, u);
            lemma_masks(self.board, self.mask);
        }
        let w = if u == self.calc_curr() {
            Self::win_mask(self.board, self.mask)
        } else {
            Self::win_mask(self.board ^ self.mask, self.mask)
        };
        proof {
            let m = self.model();
            assert forall|c: int, r: int|
                0 <= c < 7 && 0 <= r < 7 implies #[trigger] bit(w, 7 * c + r) == (r < 6 && m[c].len() <= r
                    && wins_at(m, c, r, u)) by {
                assert(height_of(self.mask, c) <= 6);
                lemma_bit_ops(BOARD_MASK, self.mask, 7 * c + r);
                lemma_bit_fbit(BOARD_MASK, c, r);
                lemma_bit_fbit(self.mask, c, r);
                lemma_fields(BOARD_MASK, BOARD_MASK, 0, c as u64, 0);
                lemma_low_ones(r as u64);
                lemma_mask_bit(self.mask, c, r);
                if r < 6 {
                    crate::board::win_bits::lemma_wins_bits(owner_bits(self.board, self.mask, u), m, u, c, r);
                }
            }
        }
        w
    }

    /// Bitmask with a 1 at every cell that would result
    /// in a win for the current player
    fn curr_win_mask(&self) -> (w: u64)
        ensures
            forall|c: int, r: int|
                0 <= c < 7 && 0 <= r < 7 ==> #[trigger] bit(w, 7 * c + r) == (r < 6 && self.model()[c].len() <= r
                    && wins_at(self.model(), c, r, curr_token(num_moves(self.model())))),
            w < 0x2_0000_0000_0000,
    {
        proof {
            use_type_invariant(self);
            lemma_masks(self.board, self.mask);
        }
        self.player_win_mask(self.calc_curr())
    }

    /// Bitmask with a 1 at every cell that would result
    /// in a win for the opponent
    fn opp_win_mask(&self) -> (w: u64)
        ensures
            forall|c: int, r: int|
                0 <= c < 7 && 0 <= r < 7 ==> #[trigger] bit(w, 7 * c + r) == (r < 6 && self.model()[c].len() <= r
                    && wins_at(self.model(), c, r, other(curr_token(num_moves(self.model()))))),
            w < 0x2_0000_0000_0000,
    {
        proof {
            use_type_invariant(self);
            lemma_masks(self.board, self.mask);
        }
        self.player_win_mask(self.calc_curr().opp())
    }
}

/// 1 when player `u` wins at once by dropping into column `c`, else 0.
pub open spec fn threat_ind(m: Seq<Seq<Token>>, u: Token, c: int) -> nat {
    if is_placeable(m, c) && wins_at(m, c, m[c].len() as int, u) {
        1
    } else {
        0
    }
}

/// Number of columns where player `u` wins at once by dropping a token.
pub open spec fn threat_count(m: Seq<Seq<Token>>, u: Token) -> nat {
    threat_ind(m, u, 0) + threat_ind(m, u, 1) + threat_ind(m, u, 2) + threat_ind(m, u, 3)
        + threat_ind(m, u, 4) + threat_ind(m, u, 5) + threat_ind(m, u, 6)
}

/// Dropping into column `c` leaves the opponent no immediate win: it does
/// not let them win just above, and no other column is a threat of theirs.
pub open spec fn safe_col(m: Seq<Seq<Token>>, c: int) -> bool {
    &&& is_placeable(m, c)
    &&& !crate::board::threats::above_threat(m, c)
    &&& forall|c2: int| c2 != c ==> !#[trigger] crate::board::threats::opp_threat(m, c2)
}

/// A move found by `possible_nonlosing_nexts`: its column is safe, and the
/// board is the one after the player to move drops there.
pub open spec fn nonlosing_child(m: Seq<Seq<Token>>, x: (column::Idx, BitBoard)) -> bool {
    &&& safe_col(m, x.0@ as int)
    &&& x.1.inv()
    &&& x.1.model() == crate::board::model::placed_cols(m, x.0@ as int, curr_token(num_moves(m)))
}

/// The safe columns among the first `k` in centred order, in that order.
pub open spec fn safe_centred(m: Seq<Seq<Token>>, k: nat) -> Seq<int>
    decreases k,
{
    if k == 0 {
        Seq::empty()
    } else {
        let prev = safe_centred(m, (k - 1) as nat);
        let c = crate::basic::column::centred_index(k - 1);
        if safe_col(m, c) {
            prev.push(c)
        } else {
            prev
        }
    }
}

/// Some entry of `s` is for column `c`.
pub open spec fn lists_col(s: Seq<(column::Idx, BitBoard)>, c: int) -> bool {
    exists|k: int| 0 <= k < s.len() && s[k].0@ == c
}

/// Number of empty cells among the lowest `k` rows of column `c` where a
/// token of `u` would complete four in a row.
pub open spec fn col_win_cells(m: Seq<Seq<Token>>, u: Token, c: int, k: int) -> nat
    decreases k,
{
    if k <= 0 {
        0
    } else {
        col_win_cells(m, u, c, k - 1) + if m[c].len() <= k - 1 && wins_at(m, c, k - 1, u) {
            1nat
        } else {
            0nat
        }
    }
}

/// Number of empty cells of the board where a token of `u` would complete
/// four in a row, reachable now or not.
pub open spec fn win_cells(m: Seq<Seq<Token>>, u: Token) -> nat {
    col_win_cells(m, u, 0, 6) + col_win_cells(m, u, 1, 6) + col_win_cells(m, u, 2, 6)
        + col_win_cells(m, u, 3, 6) + col_win_cells(m, u, 4, 6) + col_win_cells(m, u, 5, 6)
        + col_win_cells(m, u, 6, 6)
}

/// A column has at most `k` winning cells among its lowest `k` rows.
proof fn lemma_col_win_cells_le(m: Seq<Seq<Token>>, u: Token, c: int, k: int)
    ensures
        col_win_cells(m, u, c, k) <= if k < 0 { 0 } else { k },
    decreases k,
{
    if k > 0 {
        lemma_col_win_cells_le(m, u, c, k - 1);
    }
}

/// The set bits of a seven-bit field, one by one.
proof fn lemma_pc7(f: u64)
    requires
        f < 128,
    ensures
        pc(f) == ((f >> 0u64) & 1) + ((f >> 1u64) & 1) + ((f >> 2u64) & 1) + ((f >> 3u64) & 1) + ((f
            >> 4u64) & 1) + ((f >> 5u64) & 1) + ((f >> 6u64) & 1),
{
    reveal_with_fuel(pc, 8);
    let f1 = f / 2;
    let f2 = f1 / 2;
    let f3 = f2 / 2;
    let f4 = f3 / 2;
    let f5 = f4 / 2;
    let f6 = f5 / 2;
    assert(f < 128 ==> f % 2 == (f >> 0u64) & 1 && (f / 2) % 2 == (f >> 1u64) & 1 && ((f / 2) / 2) % 2
        == (f >> 2u64) & 1 && (((f / 2) / 2) / 2) % 2 == (f >> 3u64) & 1 && ((((f / 2) / 2) / 2) / 2)
        % 2 == (f >> 4u64) & 1 && (((((f / 2) / 2) / 2) / 2) / 2) % 2 == (f >> 5u64) & 1 && ((((((f
        / 2) / 2) / 2) / 2) / 2) / 2) % 2 == (f >> 6u64) & 1 && (((((((f / 2) / 2) / 2) / 2) / 2) / 2)
        / 2) == 0) by (bit_vector);
    assert(pc(f6 / 2) == 0);
}

/// The set bits of field `c` of a winning-cells mask of `u` count the
/// winning cells of `u` in column `c`.
proof fn lemma_pc_win_field(w: u64, m: Seq<Seq<Token>>, u: Token, c: int)
    requires
        0 <= c < 7,
        forall|c: int, r: int|
            0 <= c < 7 && 0 <= r < 7 ==> #[trigger] bit(w, 7 * c + r) == (r < 6 && m[c].len() <= r
                && wins_at(m, c, r, u)),
    ensures
        pc(field(w, c)) == col_win_cells(m, u, c, 6),
{
    let f = field(w, c);
    let y = w >> ((7 * c) as u64);
    assert(y & 0x7f < 128) by (bit_vector);
    lemma_pc7(f);
    reveal_with_fuel(col_win_cells, 7);
    assert forall|r: int| 0 <= r < 7 implies #[trigger] ((f >> (r as u64)) & 1) == if r < 6 && m[c].len()
        <= r && wins_at(m, c, r, u) {
        1u64
    } else {
        0u64
    } by {
        lemma_bit_fbit(w, c, r);
        assert(bit(w, 7 * c + r) == (r < 6 && m[c].len() <= r && wins_at(m, c, r, u)));
        let z = f >> (r as u64);
        assert(z & 1 == 1 || z & 1 == 0) by (bit_vector);
    }
    assert(((f >> 0u64) & 1) == ((f >> (0int as u64)) & 1));
    assert(((f >> 1u64) & 1) == ((f >> (1int as u64)) & 1));
    assert(((f >> 2u64) & 1) == ((f >> (2int as u64)) & 1));
    assert(((f >> 3u64) & 1) == ((f >> (3int as u64)) & 1));
    assert(((f >> 4u64) & 1) == ((f >> (4int as u64)) & 1));
    assert(((f >> 5u64) & 1) == ((f >> (5int as u64)) & 1));
    assert(((f >> 6u64) & 1) == ((f >> (6int as u64)) & 1));
}

/// The set bits of a winning-cells mask of `u` count the winning cells of `u`.
proof fn lemma_pc_win_mask(w: u64, m: Seq<Seq<Token>>, u: Token)
    requires
        w < 0x2_0000_0000_0000,
        forall|c: int, r: int|
            0 <= c < 7 && 0 <= r < 7 ==> #[trigger] bit(w, 7 * c + r) == (r < 6 && m[c].len() <= r
                && wins_at(m, c, r, u)),
    ensures
        pc(w) == win_cells(m, u),
{
    lemma_pc_fields(w);
    lemma_pc_win_field(w, m, u, 0);
    lemma_pc_win_field(w, m, u, 1);
    lemma_pc_win_field(w, m, u, 2);
    lemma_pc_win_field(w, m, u, 3);
    lemma_pc_win_field(w, m, u, 4);
    lemma_pc_win_field(w, m, u, 5);
    lemma_pc_win_field(w, m, u, 6);
}

/// Clearing the lowest set bit of a non-zero word removes one set bit.
proof fn lemma_pc_clear_lowest(x: u64)
    requires
        x != 0,
    ensures
        pc(x & ((x - 1) as u64)) + 1 == pc(x),
    decreases x,
{
    assert((x % 2 == 1 ==> x & ((x - 1) as u64) == (x - 1) as u64) && (x != 0 && x % 2 == 0 ==> (x
        & ((x - 1) as u64)) / 2 == (x / 2) & ((x / 2 - 1) as u64) && (x & ((x - 1) as u64)) % 2 == 0
        && x / 2 != 0)) by (bit_vector);
    if x % 2 == 1 {
        assert(((x - 1) as u64) / 2 == x / 2);
    } else {
        lemma_pc_clear_lowest(x / 2);
    }
}

/// A non-zero word has a set bit.
proof fn lemma_pc_zero(x: u64)
    ensures
        pc(x) == 0 <==> x == 0,
    decreases x,
{
    if x != 0 && x % 2 == 0 {
        lemma_pc_zero(x / 2);
    }
}

/// A word below `2^49` is zero exactly when all its fields are.
proof fn lemma_fields_zero(x: u64)
    requires
        x < 0x2_0000_0000_0000,
    ensures
        x == 0 <==> forall|c: int| 0 <= c < 7 ==> #[trigger] field(x, c) == 0,
{
    lemma_sides(x, 0, 0, 0, 0);
    lemma_fields(0, 0, 0, 0, 0);
    assert(field(x, 0) == (x >> 0u64) & 0x7f && field(0, 0) == (0u64 >> 0u64) & 0x7f);
    if forall|c: int| 0 <= c < 7 ==> #[trigger] field(x, c) == 0 {
        assert(field(x, 1) == 0 && field(x, 2) == 0 && field(x, 3) == 0);
        assert(field(x, 4) == 0 && field(x, 5) == 0 && field(x, 6) == 0);
        assert forall|c: int| 0 <= c < 7 implies #[trigger] field(0, c) == 0 by {
            lemma_fields(0, 0, 0, c as u64, 0);
        }
        assert(field(0, 1) == 0 && field(0, 2) == 0 && field(0, 3) == 0);
        assert(field(0, 4) == 0 && field(0, 5) == 0 && field(0, 6) == 0);
    }
    if x == 0 {
        assert forall|c: int| 0 <= c < 7 implies #[trigger] field(x, c) == 0 by {
            lemma_fields(0, 0, 0, c as u64, 0);
        }
    }
}

/// A word whose field `c` holds just the bit above column `c`'s top token
/// when column `c` is a threat of `u`, and nothing otherwise: it is zero
/// exactly when there is no threat, and counts the threats.
#[verifier::spinoff_prover]
#[verifier::rlimit(40)]
proof fn lemma_threat_word(x: u64, m: Seq<Seq<Token>>, u: Token)
    requires
        wf_cols(m),
        x < 0x2_0000_0000_0000,
        forall|c: int| 0 <= c < 7 ==> #[trigger] field(x, c) == if threat_ind(m, u, c) == 1 {
            1u64 << (m[c].len() as u64)
        } else {
            0u64
        },
    ensures
        pc(x) == threat_count(m, u),
        x == 0 <==> threat_count(m, u) == 0,
{
    reveal_with_fuel(pc, 8);
    lemma_low_ones(0);
    lemma_pc_fields(x);
    lemma_fields_zero(x);
    assert forall|c: int| 0 <= c < 7 implies pc(#[trigger] field(x, c)) == threat_ind(m, u, c) by {
        if threat_ind(m, u, c) == 1 {
            assert(m[c].len() < 6);
        }
    }
    assert(pc(field(x, 0)) == threat_ind(m, u, 0) && pc(field(x, 1)) == threat_ind(m, u, 1));
    assert(pc(field(x, 2)) == threat_ind(m, u, 2) && pc(field(x, 3)) == threat_ind(m, u, 3));
    assert(pc(field(x, 4)) == threat_ind(m, u, 4) && pc(field(x, 5)) == threat_ind(m, u, 5));
    assert(pc(field(x, 6)) == threat_ind(m, u, 6));
    if threat_count(m, u) == 0 {
        assert forall|c: int| 0 <= c < 7 implies #[trigger] field(x, c) == 0 by {}
    }
    if x == 0 {
        assert(field(x, 0) == 0 && field(x, 1) == 0 && field(x, 2) == 0 && field(x, 3) == 0);
        assert(field(x, 4) == 0 && field(x, 5) == 0 && field(x, 6) == 0);
    }
}

/// The playable cells where the winning cells of `u` meet the possible
/// moves: the threats of `u`.
proof fn lemma_threat_fields(m: Seq<Seq<Token>>, possible: u64, w: u64, u: Token)
    requires
        wf_cols(m),
        forall|c: int|
            0 <= c < 7 ==> #[trigger] field(possible, c) == if is_placeable(m, c) {
                1u64 << (m[c].len() as u64)
            } else {
                0u64
            },
        possible < 0x2_0000_0000_0000,
        forall|c: int, r: int|
            0 <= c < 7 && 0 <= r < 7 ==> #[trigger] bit(w, 7 * c + r) == (r < 6 && m[c].len() <= r
                && wins_at(m, c, r, u)),
    ensures
        forall|c: int| 0 <= c < 7 ==> #[trigger] field(possible & w, c) == if threat_ind(m, u, c) == 1 {
            1u64 << (m[c].len() as u64)
        } else {
            0u64
        },
        possible & w < 0x2_0000_0000_0000,
        pc(possible & w) == threat_count(m, u),
        possible & w == 0 <==> threat_count(m, u) == 0,
{
    let x = possible & w;
    crate::board::bit_board::lemma_bits(w, possible, 0);
    assert forall|c: int| 0 <= c < 7 implies #[trigger] field(x, c) == if threat_ind(m, u, c) == 1 {
        1u64 << (m[c].len() as u64)
    } else {
        0u64
    } by {
        let h = m[c].len();
        lemma_fields(possible, w, 0, c as u64, 0);
        assert(field(x, c) == field(possible, c) & field(w, c));
        crate::board::bit_board::lemma_bits(field(w, c), h as u64, 0);
        if h < 6 {
            assert(field(possible, c) == 1u64 << (h as u64));
            lemma_bit_fbit(w, c, h as int);
            assert(bit(w, 7 * c + h) == (h < 6 && m[c].len() <= h && wins_at(m, c, h as int, u)));
            assert(fbit(w, c, h as int) == ((field(w, c) >> (h as u64)) & 1 == 1));
        } else {
            assert(field(possible, c) == 0);
        }
    }
    assert(x <= possible) by {
        crate::board::bit_board::lemma_bits(w, possible, 0);
        assert(w & possible == possible & w) by (bit_vector);
    }
    lemma_threat_word(x, m, u);
}

impl BitBoard {
    /// The playable cells where `u` would win: for each column, the bit of
    /// the cell above its top token when dropping a token of `u` there wins.
    fn threat_mask(&self, u: Token) -> (x: u64)
        ensures
            forall|c: int| 0 <= c < 7 ==> #[trigger] field(x, c) == if threat_ind(self.model(), u, c) == 1 {
                1u64 << (self.model()[c].len() as u64)
            } else {
                0u64
            },
            x < 0x2_0000_0000_0000,
            pc(x) == threat_count(self.model(), u),
            x == 0 <==> threat_count(self.model(), u) == 0,
    {
        proof {
            use_type_invariant(self);
            lemma_masks(self.board, self.mask);
        }
        let possible = self.possible_mask();
        let w = self.player_win_mask(u);
        proof {
            lemma_threat_fields(self.model(), possible, w, u);
        }
        possible & w
    }

    /// Bitmask of every possible move that doesn't
    /// allow the opponent to win in their next move.
    /// Returns `Err(())` if there are none, otherwise
    /// `Ok(mask)`
    fn possible_nonlosing_mask(&self) -> (r: Result<u64, ()>)
        ensures
            r is Err <==> forall|c: int| !#[trigger] safe_col(self.model(), c),
            r matches Ok(mask) ==> mask < 0x2_0000_0000_0000 && forall|c: int|
                0 <= c < 7 ==> #[trigger] field(mask, c) == if safe_col(self.model(), c) {
                    1u64 << (self.model()[c].len() as u64)
                } else {
                    0u64
                },
    {
        proof {
            use_type_invariant(self);
            lemma_masks(self.board, self.mask);
        }
        let ghost m = self.model();
        let ghost u = other(curr_token(num_moves(m)));
        let possible = self.possible_mask();
        let opp_win = self.opp_win_mask();

        let mut mask = possible;

        let forced = possible & opp_win;
        proof {
            lemma_threat_fields(m, possible, opp_win, u);
            assert forall|c: int| crate::board::threats::opp_threat(m, c) == (0 <= c < 7 && threat_ind(m, u, c) == 1) by {}
        }
        if forced > 0 {
            proof {
                lemma_pc_clear_lowest(forced);
                lemma_pc_zero(forced & ((forced - 1) as u64));
            }
            if forced & (forced - 1) > 0 {
                proof {
                    assert forall|c: int| !#[trigger] safe_col(m, c) by {
                        if safe_col(m, c) {
                            assert(c == 0 || !crate::board::threats::opp_threat(m, 0));
                            assert(c == 1 || !crate::board::threats::opp_threat(m, 1));
                            assert(c == 2 || !crate::board::threats::opp_threat(m, 2));
                            assert(c == 3 || !crate::board::threats::opp_threat(m, 3));
                            assert(c == 4 || !crate::board::threats::opp_threat(m, 4));
                            assert(c == 5 || !crate::board::threats::opp_threat(m, 5));
                            assert(c == 6 || !crate::board::threats::opp_threat(m, 6));
                        }
                    }
                }
                return Err(());  // Opponent has two possible wins
            } else {
                mask = forced;  // We must block the opponent
            }
        }
        let below = opp_win >> 1;
        let ghost before = mask;
        mask &= !below;  // Avoid playing below an opponent win
        proof {
            let count = threat_count(m, u);
            assert(forced > 0 ==> before == forced && count == 1);
            assert(forced == 0 ==> before == possible && count == 0);
            lemma_subset(0, before, 0, below);
            assert(mask < 0x2_0000_0000_0000);
            assert forall|c: int| 0 <= c < 7 implies #[trigger] field(mask, c) == if safe_col(m, c) {
                1u64 << (m[c].len() as u64)
            } else {
                0u64
            } by {
                let h = m[c].len();
                lemma_fields(before, below, 0, c as u64, 0);
                assert(field(mask, c) == field(before, c) & !field(below, c));
                assert(field(before, c) == if (count == 1 && threat_ind(m, u, c) == 1) || (count == 0 && is_placeable(m, c)) {
                    1u64 << (h as u64)
                } else {
                    0u64
                });
                crate::board::bit_board::lemma_bits(!field(below, c), h as u64, h as u64);
                crate::board::bit_board::lemma_bits(field(below, c), h as u64, h as u64);
                if h < 6 {
                    lemma_bit_fbit(below, c, h as int);
                    lemma_bit_shr(opp_win, 1, 7 * c + h);
                    assert(bit(opp_win, 7 * c + (h + 1)) == (h + 1 < 6 && m[c].len() <= h + 1 && wins_at(m, c, h + 1int, u)));
                    assert(fbit(below, c, h as int) == crate::board::threats::above_threat(m, c));
                }
                if count == 1 {
                    assert(threat_ind(m, u, 0) + threat_ind(m, u, 1) + threat_ind(m, u, 2) + threat_ind(m, u, 3)
                        + threat_ind(m, u, 4) + threat_ind(m, u, 5) + threat_ind(m, u, 6) == 1);
                    if threat_ind(m, u, c) == 1 {
                        assert forall|c2: int| c2 != c implies !#[trigger] crate::board::threats::opp_threat(m, c2) by {
                            if 0 <= c2 < 7 {
                                assert(threat_ind(m, u, c2) == 0);
                            }
                        }
                    } else {
                        let f = if threat_ind(m, u, 0) == 1 {
                            0int
                        } else if threat_ind(m, u, 1) == 1 {
                            1
                        } else if threat_ind(m, u, 2) == 1 {
                            2
                        } else if threat_ind(m, u, 3) == 1 {
                            3
                        } else if threat_ind(m, u, 4) == 1 {
                            4
                        } else if threat_ind(m, u, 5) == 1 {
                            5
                        } else {
                            6
                        };
                        assert(crate::board::threats::opp_threat(m, f) && f != c);
                    }
                } else {
                    assert(count == 0);
                    assert forall|c2: int| c2 != c implies !#[trigger] crate::board::threats::opp_threat(m, c2) by {
                        if 0 <= c2 < 7 {
                            assert(threat_ind(m, u, c2) == 0);
                        }
                    }
                }
            }
            lemma_fields_zero(mask);
            assert forall|c: int| !(0 <= c < 7) implies !#[trigger] safe_col(m, c) by {}
        }
        if mask == 0 {
            proof {
                assert forall|c: int| !#[trigger] safe_col(m, c) by {
                    if 0 <= c < 7 && safe_col(m, c) {
                        lemma_low_ones(0);
                        assert(field(mask, c) == 0);
                    }
                }
            }
            return Err(());  // No nonlosing option
        }
        proof {
            let c = choose|c: int| 0 <= c < 7 && #[trigger] field(mask, c) != 0;
            assert(safe_col(m, c));
        }
        Ok(mask)
    }

    /// The resulting board for every move that doesn't allow the opponent to
    /// win in their next move, with its column, in centred order. Returns
    /// `Err(())` if there are none (i.e. the current player will lose),
    /// otherwise `Ok(nexts)`.
    pub fn possible_nonlosing_nexts(&self) -> (r: Result<Vec<(column::Idx, Self)>, ()>)
        ensures
            r is Err <==> forall|c: int| !#[trigger] safe_col(self.model(), c),
            r matches Ok(v) ==> forall|k: int| 0 <= k < v@.len() ==> nonlosing_child(self.model(), #[trigger] v@[k]),
            r matches Ok(v) ==> forall|c: int| #[trigger] safe_col(self.model(), c) ==> lists_col(v@, c),
            r matches Ok(v) ==> v@.len() <= 7,
            r matches Ok(v) ==> v@.len() == safe_centred(self.model(), 7).len() && forall|k: int|
                0 <= k < v@.len() ==> #[trigger] v@[k].0@ == safe_centred(self.model(), 7)[k],
    {
        proof {
            use_type_invariant(self);
        }
        let mask = match self.possible_nonlosing_mask() {
            Ok(mask) => mask,
            Err(()) => return Err(()),
        };
        let ghost m = self.model();
        let t = self.curr();
        let mut out: Vec<(column::Idx, Self)> = Vec::new();
        let mut i: usize = 0;
        while i < column::COUNT
            invariant
                self.inv(),
                m == self.model(),
                t == curr_token(num_moves(m)),
                i <= 7,
                out@.len() <= i,
                out@.len() == safe_centred(m, i as nat).len(),
                forall|k: int| 0 <= k < out@.len() ==> #[trigger] out@[k].0@ == safe_centred(m, i as nat)[k],
                mask < 0x2_0000_0000_0000,
                forall|c: int|
                    0 <= c < 7 ==> #[trigger] field(mask, c) == if safe_col(m, c) {
                        1u64 << (m[c].len() as u64)
                    } else {
                        0u64
                    },
                forall|k: int| 0 <= k < out@.len() ==> nonlosing_child(m, #[trigger] out@[k]),
                forall|j: int|
                    0 <= j < i && #[trigger] safe_col(m, crate::basic::column::centred_index(j)) ==> exists|k: int|
                        0 <= k < out@.len() && out@[k].0@ == crate::basic::column::centred_index(j),
            decreases 7 - i,
        {
            let col = column::centred(i);
            let cm = col_mask(col);
            proof {
                lemma_fields(mask, mask, col@ as u64, col@ as u64, 0);
                lemma_low_ones(0);
                crate::board::lemmas::lemma_centred_index(i as int);
                crate::board::bit_board::lemma_bits(cm, mask, 0);
                assert((cm & mask != 0) == (field(mask, col@ as int) != 0));
            }
            proof {
                if safe_col(m, col@ as int) {
                    let h = m[col@ as int].len();
                    assert(h < 6);
                    assert((1u64 << (h as u64)) != 0) by {
                        lemma_low_ones(0);
                        if h == 0 {
                        } else if h == 1 {
                        } else if h == 2 {
                        } else if h == 3 {
                        } else if h == 4 {
                        } else {
                            assert(h == 5);
                        }
                    }
                }
            }
            if cm & mask > 0 {
                proof {
                    assert(field(mask, col@ as int) != 0);
                    assert(safe_col(m, col@ as int));
                }
                let next = self.placed(col, t).unwrap();
                let ghost before = out@;
                proof {
                    assert(nonlosing_child(m, (col, next)));
                }
                out.push((col, next));
                proof {
                    assert forall|k: int| 0 <= k < out@.len() implies nonlosing_child(m, #[trigger] out@[k]) by {
                        if k < before.len() {
                            assert(out@[k] == before[k]);
                        }
                    }
                    assert forall|j: int|
                        0 <= j < i + 1 && #[trigger] safe_col(m, crate::basic::column::centred_index(j)) implies exists|k: int|
                            0 <= k < out@.len() && out@[k].0@ == crate::basic::column::centred_index(j) by {
                        if j < i {
                            let k = choose|k: int| 0 <= k < before.len() && before[k].0@ == crate::basic::column::centred_index(j);
                            assert(out@[k] == before[k]);
                        } else {
                            assert(out@[out@.len() - 1].0@ == crate::basic::column::centred_index(j));
                        }
                    }
                }
            }
            i = i + 1;
        }
        proof {
            assert forall|c: int| #[trigger] safe_col(m, c) implies lists_col(out@, c) by {
                let j = crate::board::lemmas::lemma_centred_onto(c);
                assert(safe_col(m, crate::basic::column::centred_index(j)));
            }
        }
        Ok(out)
    }

    /// Count of possible wins for the current player
    pub fn curr_win_count(&self) -> (n: u32)
        ensures
            n == threat_count(self.model(), curr_token(num_moves(self.model()))),
    {
        proof {
            use_type_invariant(self);
            lemma_masks(self.board, self.mask);
        }
        count_ones(self.threat_mask(self.calc_curr()))
    }

    /// Heuristic to order move exploration. A higher score represents
    /// a better position for the current player: the number of empty cells
    /// where the current player would complete four, less the number where
    /// the opponent would.
    pub fn heuristic(&self) -> (h: isize)
        ensures
            h == win_cells(self.model(), curr_token(num_moves(self.model())))
                - win_cells(self.model(), other(curr_token(num_moves(self.model())))),
            -42 <= h <= 42,
    {
        let cw = self.curr_win_mask();
        let ow = self.opp_win_mask();
        proof {
            let m = self.model();
            let t = curr_token(num_moves(m));
            lemma_pc_win_mask(cw, m, t);
            lemma_pc_win_mask(ow, m, other(t));
            assert forall|c: int| col_win_cells(m, t, c, 6) <= 6 && #[trigger] col_win_cells(m, other(t), c, 6) <= 6 by {
                lemma_col_win_cells_le(m, t, c, 6);
                lemma_col_win_cells_le(m, other(t), c, 6);
            }
        }
        let wins = count_ones(cw) as isize;
        let losses = count_ones(ow) as isize;
        wins - losses
    }

    /// Can the current player win on their next move
    pub fn curr_can_win(&self) -> (b: bool)
        ensures
            b == exists|c: int| crate::board::threats::curr_threat(self.model(), c),
    {
        proof {
            use_type_invariant(self);
            lemma_masks(self.board, self.mask);
            let m = self.model();
            let t = curr_token(num_moves(m));
            if exists|c: int| crate::board::threats::curr_threat(m, c) {
                let c = choose|c: int| crate::board::threats::curr_threat(m, c);
                assert(threat_ind(m, t, c) == 1);
            }
            if threat_count(m, t) > 0 {
                if threat_ind(m, t, 0) == 1 {
                    assert(crate::board::threats::curr_threat(m, 0));
                } else if threat_ind(m, t, 1) == 1 {
                    assert(crate::board::threats::curr_threat(m, 1));
                } else if threat_ind(m, t, 2) == 1 {
                    assert(crate::board::threats::curr_threat(m, 2));
                } else if threat_ind(m, t, 3) == 1 {
                    assert(crate::board::threats::curr_threat(m, 3));
                } else if threat_ind(m, t, 4) == 1 {
                    assert(crate::board::threats::curr_threat(m, 4));
                } else if threat_ind(m, t, 5) == 1 {
                    assert(crate::board::threats::curr_threat(m, 5));
                } else {
                    assert(crate::board::threats::curr_threat(m, 6));
                }
            }
        }
        self.curr_win_count() > 0
    }
}

/// The window terms of `win_mask` for one line, with bits `s` apart.
proof fn lemma_window_mask(b: u64, s: u64, q: int)
    requires
        b < 0x2_0000_0000_0000,
        s == 6 || s == 7 || s == 8,
        0 <= q < 64,
    ensures
        ({
            let p1 = (b << s) & (b << (2 * s) as u64);
            let p2 = p1 >> (3 * s) as u64;
            bit(
                (p1 & (b << (3 * s) as u64)),
                q,
            ) == (bit(b, q - s) && bit(b, q - 2 * s) && bit(b, q - 3 * s)) && bit(
                (p1 & (b >> s)),
                q,
            ) == (bit(b, q - s) && bit(b, q - 2 * s) && bit(b, q + s)) && bit(
                (p2 & (b << s)),
                q,
            ) == (bit(b, q + s) && bit(b, q + 2 * s) && bit(b, q - s)) && bit(
                (p2 & (b >> (3 * s) as u64)),
                q,
            ) == (bit(b, q + s) && bit(b, q + 2 * s) && bit(b, q + 3 * s))
        }),
{
    let p1 = (b << s) & (b << (2 * s) as u64);
    let p2 = p1 >> (3 * s) as u64;
    lemma_bit_shl(b, s, q);
    lemma_bit_shl(b, (2 * s) as u64, q);
    lemma_bit_shl(b, (3 * s) as u64, q);
    lemma_bit_shr(b, s, q);
    lemma_bit_shr(b, (3 * s) as u64, q);
    lemma_bit_ops(b << s, b << (2 * s) as u64, q);
    lemma_bit_ops(p1, b << (3 * s) as u64, q);
    lemma_bit_ops(p1, b >> s, q);
    lemma_bit_ops(p2, b << s, q);
    lemma_bit_ops(p2, b >> (3 * s) as u64, q);
    lemma_bit_shr(p1, (3 * s) as u64, q);
    let q3 = q + 3 * s;
    if q3 < 64 {
        lemma_bit_shl(b, s, q3);
        lemma_bit_shl(b, (2 * s) as u64, q3);
        lemma_bit_ops(b << s, b << (2 * s) as u64, q3);
        assert(q3 - s == q + 2 * s && q3 - 2 * s == q + s);
    } else {
        lemma_bit_high(b, q + 2 * s);
    }
}

impl MutBoard for BitBoard {
    fn unplace(&mut self, col: column::Idx) {
        let _ = col.index();
        proof {
            lemma_masks(self.board, self.mask);
            lemma_pop_col(self.board, self.mask, col@ as int);
        }
        let bit_mask = cell_mask(self.top(col).unwrap());
        let mut board = self.board;
        let mut mask = self.mask;
        mask &= !bit_mask;
        board &= !bit_mask;
        board ^= mask;
        *self = BitBoard { board, mask };
    }
}

impl CloneBoard for BitBoard {}

impl Position for BitBoard {
    fn move_count(&self) -> (n: usize) {
        self.count_moves()
    }

    fn curr(&self) -> (t: Token) {
        self.calc_curr()
    }
}

/// Shifting a seven-bit field into column `k` keeps its number of set bits.
proof fn lemma_pc_shifted(f: u64, k: nat)
    requires
        f < 128,
        k < 7,
    ensures
        pc(f << ((7 * k) as u64)) == pc(f),
    decreases k,
{
    if k > 0 {
        let k1 = (k - 1) as u64;
        assert(f < 128 && k1 < 6 ==> (f << ((7 * (k1 + 1)) as u64)) == ((f << ((7 * k1) as u64))
            << 7u64) && (f << ((7 * k1) as u64)) < 0x200_0000_0000_0000) by (bit_vector);
        lemma_pc_shifted(f, (k - 1) as nat);
        lemma_pc_shl7(f << ((7 * k1) as u64));
    } else {
        assert(f << 0u64 == f) by (bit_vector);
    }
}

} // verus!
