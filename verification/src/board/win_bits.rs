//! Four in a row read off a bitmap of one player's tokens: bit `7c + r`
//! stands for column `c`, row `r`, and row 6 of each column stays empty.
use vstd::prelude::*;

use crate::basic::{dir_offsets, step_col, step_row, Dir, Token};
use crate::board::model::{run, token_at, wf_cols, wins_at};

verus! {

/// Bit `q` of `x`; positions outside the word hold no bit.
pub open spec fn bit(x: u64, q: int) -> bool {
    0 <= q < 64 && (x >> (q as u64)) & 1 == 1
}

/// Bits of shifted words, and words below `2^49` have no higher bits.
proof fn lemma_shift_bits(a: u64, s: u64, r: u64)
    by (bit_vector)
    requires
        s < 64,
        r < 64,
    ensures
        (((a << s) >> r) & 1 == 1) == (r >= s && ((a >> ((r - s) as u64)) & 1 == 1)),
        (((a >> s) >> r) & 1 == 1) == (r + s < 64 && ((a >> ((r + s) as u64)) & 1 == 1)),
        a < 0x2_0000_0000_0000 && r >= 49 ==> (a >> r) & 1 != 1,
{
}

/// A left shift moves bit `q - s` to `q`.
pub proof fn lemma_bit_shl(a: u64, s: u64, q: int)
    requires
        s < 64,
        q < 64,
    ensures
        bit(a << s, q) == bit(a, q - s),
{
    if 0 <= q {
        lemma_shift_bits(a, s, q as u64);
    }
}

/// A right shift moves bit `q + s` to `q`.
pub proof fn lemma_bit_shr(a: u64, s: u64, q: int)
    requires
        s < 64,
        0 <= q,
    ensures
        bit(a >> s, q) == bit(a, q + s),
{
    if q < 64 {
        lemma_shift_bits(a, s, q as u64);
    }
}

/// A word below `2^49` has no bit at 49 or above.
pub proof fn lemma_bit_high(a: u64, q: int)
    requires
        a < 0x2_0000_0000_0000,
        q >= 49,
    ensures
        !bit(a, q),
{
    if q < 64 {
        lemma_shift_bits(a, 0, q as u64);
    }
}

/// Bits of the results of bitwise operations.
pub proof fn lemma_bit_ops(a: u64, b: u64, q: int)
    ensures
        bit(a & b, q) == (bit(a, q) && bit(b, q)),
        bit(a | b, q) == (bit(a, q) || bit(b, q)),
        bit(a ^ b, q) == (bit(a, q) != bit(b, q)),
        bit(a & !b, q) == (bit(a, q) && !bit(b, q)),
{
    if 0 <= q < 64 {
        crate::board::bit_board::lemma_bits(a, b, q as u64);
    }
}

/// Three bits `s` apart around `q` that make four in a row with position `q`.
pub open spec fn window_bits(x: u64, q: int, s: int) -> bool {
    ||| bit(x, q - s) && bit(x, q - 2 * s) && bit(x, q - 3 * s)
    ||| bit(x, q - s) && bit(x, q - 2 * s) && bit(x, q + s)
    ||| bit(x, q + s) && bit(x, q + 2 * s) && bit(x, q - s)
    ||| bit(x, q + s) && bit(x, q + 2 * s) && bit(x, q + 3 * s)
}

/// Position `q` completes four in a row of the bits of `x`: with the three
/// just below it in its column, or in a window along its row or a diagonal.
pub open spec fn wins_bits(x: u64, q: int) -> bool {
    ||| bit(x, q - 1) && bit(x, q - 2) && bit(x, q - 3)
    ||| window_bits(x, q, 7)
    ||| window_bits(x, q, 6)
    ||| window_bits(x, q, 8)
}

/// `x` marks exactly the cells of `m` holding `u`, and nothing at the
/// positions of the cells one step off the board.
pub open spec fn bits_match(x: u64, m: Seq<Seq<Token>>, u: Token) -> bool {
    forall|c: int, r: int|
        -1 <= c <= 7 && -1 <= r <= 6 ==> #[trigger] bit(x, 7 * c + r) == (token_at(m, c, r) == Some(u))
}

/// A run reaches `a` within three steps exactly when its first `a` steps all
/// find the token.
proof fn lemma_run_prefix(m: Seq<Seq<Token>>, c: int, r: int, d: Dir, u: Token, a: nat)
    requires
        a <= 3,
    ensures
        run(m, c, r, d, u, 3) >= a <==> run(m, c, r, d, u, a) == a,
{
    lemma_run_steps(m, c, r, d, u, 3);
    if a <= 2 {
        lemma_run_steps(m, c, r, d, u, 2);
    }
    if a <= 1 {
        lemma_run_steps(m, c, r, d, u, 1);
    }
}

/// A run never exceeds its length, and once short it stays as it was.
proof fn lemma_run_steps(m: Seq<Seq<Token>>, c: int, r: int, d: Dir, u: Token, k: nat)
    ensures
        run(m, c, r, d, u, k) <= k,
        k > 0 ==> (run(m, c, r, d, u, k) == k <==> run(m, c, r, d, u, (k - 1) as nat) == k - 1
            && token_at(m, step_col(c, d, k as int), step_row(r, d, k as int)) == Some(u)),
        k > 0 && run(m, c, r, d, u, (k - 1) as nat) < k - 1 ==> run(m, c, r, d, u, k) == run(
            m,
            c,
            r,
            d,
            u,
            (k - 1) as nat,
        ),
    decreases k,
{
    if k > 0 {
        lemma_run_steps(m, c, r, d, u, (k - 1) as nat);
    }
}

/// The first `j` steps from a cell of the board, in direction `d`, find the
/// token exactly when the bits at those steps are set; each step moves `s`
/// bits.
proof fn lemma_arm(x: u64, m: Seq<Seq<Token>>, u: Token, c: int, r: int, d: Dir, s: int, j: nat)
    requires
        bits_match(x, m, u),
        wf_cols(m),
        0 <= c < 7,
        0 <= r < 6,
        j <= 3,
        s == 7 * dir_offsets(d).0 + dir_offsets(d).1,
    ensures
        run(m, c, r, d, u, j) == j <==> ((j >= 1 ==> bit(x, 7 * c + r + s)) && (j >= 2 ==> bit(
            x,
            7 * c + r + 2 * s,
        )) && (j >= 3 ==> bit(x, 7 * c + r + 3 * s))),
    decreases j,
{
    lemma_run_steps(m, c, r, d, u, j);
    if j > 0 {
        lemma_arm(x, m, u, c, r, d, s, (j - 1) as nat);
        let (a, b) = dir_offsets(d);
        let cj = step_col(c, d, j as int);
        let rj = step_row(r, d, j as int);
        let cp = step_col(c, d, j - 1);
        let rp = step_row(r, d, j - 1);
        assert(cj == cp + a && rj == rp + b && 7 * cj + rj == 7 * c + r + j * s) by (nonlinear_arith)
            requires
                cj == c + a * j,
                rj == r + b * j,
                cp == c + a * (j - 1),
                rp == r + b * (j - 1),
                s == 7 * a + b,
        ;
        if run(m, c, r, d, u, (j - 1) as nat) == j - 1 {
            // every earlier step found the token, so this one is at most
            // one step off the board
            if j > 1 {
                lemma_run_steps(m, c, r, d, u, (j - 1) as nat);
                assert(token_at(m, cp, rp) == Some(u));
            }
            assert(bit(x, 7 * cj + rj) == (token_at(m, cj, rj) == Some(u)));
            if j == 1 {
                assert(7 * cj + rj == 7 * c + r + s);
            } else if j == 2 {
                assert(7 * cj + rj == 7 * c + r + 2 * s);
            } else {
                assert(7 * cj + rj == 7 * c + r + 3 * s);
            }
        }
    }
}

/// Along one line through a cell of the board, the window test on the bits
/// says whether the line of `u` through that cell is at least four long.
proof fn lemma_window(x: u64, m: Seq<Seq<Token>>, u: Token, c: int, r: int, dn: Dir, dp: Dir, s: int)
    requires
        bits_match(x, m, u),
        wf_cols(m),
        0 <= c < 7,
        0 <= r < 6,
        s == 7 * dir_offsets(dp).0 + dir_offsets(dp).1,
        -s == 7 * dir_offsets(dn).0 + dir_offsets(dn).1,
    ensures
        window_bits(x, 7 * c + r, s) == (1 + run(m, c, r, dn, u, 3) + run(m, c, r, dp, u, 3) >= 4),
{
    lemma_arm(x, m, u, c, r, dn, -s, 1);
    lemma_arm(x, m, u, c, r, dn, -s, 2);
    lemma_arm(x, m, u, c, r, dn, -s, 3);
    lemma_arm(x, m, u, c, r, dp, s, 1);
    lemma_arm(x, m, u, c, r, dp, s, 2);
    lemma_arm(x, m, u, c, r, dp, s, 3);
    lemma_run_prefix(m, c, r, dn, u, 1);
    lemma_run_prefix(m, c, r, dn, u, 2);
    lemma_run_prefix(m, c, r, dn, u, 3);
    lemma_run_prefix(m, c, r, dp, u, 1);
    lemma_run_prefix(m, c, r, dp, u, 2);
    lemma_run_prefix(m, c, r, dp, u, 3);
    lemma_run_steps(m, c, r, dn, u, 3);
    lemma_run_steps(m, c, r, dp, u, 3);
    let q = 7 * c + r;
    assert(q + -s == q - s && q + 2 * -s == q - 2 * s && q + 3 * -s == q - 3 * s);
}

/// On a board matched by the bits, a token of `u` at a cell of the board
/// completes four in a row exactly when the bit test says so.
pub proof fn lemma_wins_bits(x: u64, m: Seq<Seq<Token>>, u: Token, c: int, r: int)
    requires
        bits_match(x, m, u),
        wf_cols(m),
        0 <= c < 7,
        0 <= r < 6,
    ensures
        wins_bits(x, 7 * c + r) == wins_at(m, c, r, u),
{
    lemma_arm(x, m, u, c, r, Dir::Down, -1, 3);
    lemma_run_steps(m, c, r, Dir::Down, u, 3);
    lemma_window(x, m, u, c, r, Dir::Left, Dir::Right, 7);
    lemma_window(x, m, u, c, r, Dir::LeftDown, Dir::RightUp, 8);
    lemma_window(x, m, u, c, r, Dir::LeftUp, Dir::RightDown, 6);
    let q = 7 * c + r;
    assert(q + -1 == q - 1 && q + 2 * -1 == q - 2 && q + 3 * -1 == q - 3);
}

} // verus!
