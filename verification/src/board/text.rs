//! The text picture of a board: one line per row, top row first, between
//! bars, `X` for `Token::A`, `O` for `Token::B` and `⋅` for an empty cell.
use vstd::prelude::*;
use vstd::std_specs::iter::IteratorSpec;

use crate::basic::Token;
use crate::board::model::{empty_cols, token_at, wf_cols};
use crate::board::place_if_room;

verus! {

/// The character showing the content of a cell.
pub open spec fn cell_char(t: Option<Token>) -> char {
    match t {
        Some(Token::B) => 'O',
        Some(Token::A) => 'X',
        None => '\u{22c5}',
    }
}

/// The text of row `r`: a bar and a space, then each of the first `k`
/// cells followed by a space.
pub open spec fn row_text(m: Seq<Seq<Token>>, r: int, k: nat) -> Seq<char>
    decreases k,
{
    if k == 0 {
        seq!['|', ' ']
    } else {
        row_text(m, r, (k - 1) as nat) + seq![cell_char(token_at(m, k - 1, r)), ' ']
    }
}

/// The text of the top `k` rows, top row first, each ending with a bar and
/// a newline.
pub open spec fn display_text(m: Seq<Seq<Token>>, k: nat) -> Seq<char>
    decreases k,
{
    if k == 0 {
        Seq::empty()
    } else {
        display_text(m, (k - 1) as nat) + row_text(m, 6 - k, 7) + seq!['|', '\n']
    }
}

/// Appends a character to a string, from `String::push`.
pub assume_specification[ String::push ](s: &mut String, ch: char)
    ensures
        final(s)@ == old(s)@.push(ch),
;

/// Does the character show a token?
pub open spec fn is_token_char(ch: char) -> bool {
    ch == 'A' || ch == 'B' || ch == 'X' || ch == 'O'
}

/// Start of the piece of `s` that ends at `end`: just after the last bar
/// before `end`, or 0.
pub open spec fn piece_start(s: Seq<char>, end: int) -> int
    decreases end,
{
    if end <= 0 {
        0
    } else if s[end - 1] == '|' {
        end
    } else {
        piece_start(s, end - 1)
    }
}

/// Reads the characters `s[i..end]` of a line into the columns from `j` on:
/// spaces are skipped, every other character takes the next column, up to
/// the seventh. `A` or `X` drops a `Token::A`, `B` or `O` a `Token::B` (into
/// a full column, nothing), `⋅` leaves the column alone, `+` or `-` ends the
/// line. `None` for any other character.
pub open spec fn read_line(m: Seq<Seq<Token>>, s: Seq<char>, i: int, end: int, j: int) -> Option<
    Seq<Seq<Token>>,
>
    decreases end - i,
{
    if i >= end || j >= 7 {
        Some(m)
    } else if s[i] == ' ' {
        read_line(m, s, i + 1, end, j)
    } else if s[i] == 'A' || s[i] == 'X' {
        read_line(place_if_room(m, j, Token::A), s, i + 1, end, j + 1)
    } else if s[i] == 'B' || s[i] == 'O' {
        read_line(place_if_room(m, j, Token::B), s, i + 1, end, j + 1)
    } else if s[i] == '\u{22c5}' {
        read_line(m, s, i + 1, end, j + 1)
    } else if s[i] == '+' || s[i] == '-' {
        Some(m)
    } else {
        None
    }
}

/// Reads the piece `s[start..end]`: lines that show no token are skipped.
pub open spec fn read_piece(m: Seq<Seq<Token>>, s: Seq<char>, start: int, end: int) -> Option<
    Seq<Seq<Token>>,
> {
    if exists|i: int| start <= i < end && #[trigger] is_token_char(s[i]) {
        read_line(m, s, start, end, 0)
    } else {
        Some(m)
    }
}

/// Reads the pieces of `s[..end]` between bars, the last piece first, so
/// the bottom row of a picture is read first.
pub open spec fn read_pieces(m: Seq<Seq<Token>>, s: Seq<char>, end: int) -> Option<Seq<Seq<Token>>>
    decreases end,
{
    let start = piece_start(s, end);
    match read_piece(m, s, start, end) {
        None => None,
        Some(m1) => if start <= 0 {
            Some(m1)
        } else {
            proof {
                lemma_piece_start_le(s, end);
            }
            read_pieces(m1, s, start - 1)
        },
    }
}

/// A piece starts no later than it ends.
pub proof fn lemma_piece_start_le(s: Seq<char>, end: int)
    ensures
        piece_start(s, end) <= if end < 0 { 0 } else { end },
    decreases end,
{
    if end > 0 && s[end - 1] != '|' {
        lemma_piece_start_le(s, end - 1);
    }
}

/// The start of a piece lies between 0 and its end.
pub proof fn lemma_piece_start(s: Seq<char>, end: int)
    requires
        0 <= end <= s.len(),
    ensures
        0 <= piece_start(s, end) <= end,
        piece_start(s, end) > 0 ==> s[piece_start(s, end) - 1] == '|',
        forall|i: int| piece_start(s, end) <= i < end ==> s[i] != '|',
    decreases end,
{
    if end > 0 && s[end - 1] != '|' {
        lemma_piece_start(s, end - 1);
    }
}

/// The characters of a string, in order.
pub fn chars_of(string: &str) -> (v: Vec<char>)
    ensures
        v@ == string@,
{
    let mut it = string.chars();
    let mut v: Vec<char> = Vec::new();
    loop
        invariant
            v@ + it.remaining() == string@,
            it.obeys_prophetic_iter_laws(),
            it.decrease() is Some,
        ensures
            v@ == string@,
        decreases it.decrease()->0,
    {
        match it.next() {
            Some(ch) => {
                v.push(ch);
            },
            None => {
                break;
            },
        }
    }
    v
}

/// The rows below `r` of `m`: each column keeps at most its lowest `r` tokens.
pub open spec fn rows_below(m: Seq<Seq<Token>>, r: int) -> Seq<Seq<Token>> {
    Seq::new(7, |c: int| m[c].subrange(0, if m[c].len() < r { m[c].len() as int } else { r }))
}

/// The rows below `r` of `m`, and row `r` in the columns left of `j`.
spec fn rows_upto(m: Seq<Seq<Token>>, r: int, j: int) -> Seq<Seq<Token>> {
    Seq::new(
        7,
        |c: int|
            {
                let h = if c < j { r + 1 } else { r };
                m[c].subrange(0, if m[c].len() < h { m[c].len() as int } else { h })
            },
    )
}

/// Where the characters of a row's text stand.
proof fn lemma_row_text(m: Seq<Seq<Token>>, r: int, k: nat)
    ensures
        row_text(m, r, k).len() == 2 + 2 * k,
        row_text(m, r, k)[0] == '|',
        row_text(m, r, k)[1] == ' ',
        forall|j: int| 0 <= j < k ==> #[trigger] row_text(m, r, k)[2 + 2 * j] == cell_char(token_at(m, j, r)),
        forall|j: int| 0 <= j < k ==> #[trigger] row_text(m, r, k)[3 + 2 * j] == ' ',
    decreases k,
{
    if k > 0 {
        lemma_row_text(m, r, (k - 1) as nat);
        let p = row_text(m, r, (k - 1) as nat);
        let t = row_text(m, r, k);
        assert forall|j: int| 0 <= j < k implies #[trigger] t[2 + 2 * j] == cell_char(token_at(m, j, r)) by {
            if j < k - 1 {
                assert(t[2 + 2 * j] == p[2 + 2 * j]);
            }
        }
        assert forall|j: int| 0 <= j < k implies #[trigger] t[3 + 2 * j] == ' ' by {
            if j < k - 1 {
                assert(t[3 + 2 * j] == p[3 + 2 * j]);
            }
        }
    }
}

/// Where the characters of the text of the top `k` rows stand: the line of
/// row `5 - q` takes the eighteen characters from `18 q`.
proof fn lemma_display_text(m: Seq<Seq<Token>>, k: nat)
    requires
        k <= 6,
    ensures
        display_text(m, k).len() == 18 * k,
        forall|q: int| 0 <= q < k ==> #[trigger] display_text(m, k)[18 * q] == '|' && display_text(m, k)[18 * q + 1]
            == ' ' && display_text(m, k)[18 * q + 16] == '|' && display_text(m, k)[18 * q + 17] == '\n',
        forall|q: int, j: int|
            0 <= q < k && 0 <= j < 7 ==> #[trigger] display_text(m, k)[18 * q + 2 + 2 * j] == cell_char(
                token_at(m, j, 5 - q),
            ) && display_text(m, k)[18 * q + 3 + 2 * j] == ' ',
    decreases k,
{
    if k > 0 {
        lemma_display_text(m, (k - 1) as nat);
        lemma_row_text(m, 6 - k, 7);
        let p = display_text(m, (k - 1) as nat);
        let t = display_text(m, k);
        let row = row_text(m, 6 - k, 7);
        let base = 18 * (k - 1);
        assert(t == p + row + seq!['|', '\n']);
        assert forall|q: int| 0 <= q < k implies #[trigger] t[18 * q] == '|' && t[18 * q + 1] == ' ' && t[18 * q
            + 16] == '|' && t[18 * q + 17] == '\n' by {
            if q < k - 1 {
                assert(t[18 * q] == p[18 * q]);
                assert(t[18 * q + 1] == p[18 * q + 1]);
                assert(t[18 * q + 16] == p[18 * q + 16]);
                assert(t[18 * q + 17] == p[18 * q + 17]);
            } else {
                assert(t[18 * q] == row[0]);
                assert(t[18 * q + 1] == row[1]);
            }
        }
        assert forall|q: int, j: int| 0 <= q < k && 0 <= j < 7 implies #[trigger] t[18 * q + 2 + 2 * j] == cell_char(
            token_at(m, j, 5 - q),
        ) && t[18 * q + 3 + 2 * j] == ' ' by {
            if q < k - 1 {
                assert(t[18 * q + 2 + 2 * j] == p[18 * q + 2 + 2 * j]);
                assert(t[18 * q + 3 + 2 * j] == p[18 * q + 3 + 2 * j]);
            } else {
                assert(t[18 * q + 2 + 2 * j] == row[2 + 2 * j]);
                assert(t[18 * q + 3 + 2 * j] == row[3 + 2 * j]);
            }
        }
    }
}

/// Where a bar stands at `o` and none after it before `e`, the piece ending
/// at `e` starts just after `o`.
proof fn lemma_piece_after_bar(s: Seq<char>, o: int, e: int)
    requires
        0 <= o < e <= s.len(),
        s[o] == '|',
        forall|i: int| o < i < e ==> s[i] != '|',
    ensures
        piece_start(s, e) == o + 1,
    decreases e,
{
    if e > o + 1 {
        lemma_piece_after_bar(s, o, e - 1);
    }
}

/// Reading the cells of row `r` from column `j` on completes that row.
proof fn lemma_read_row(m: Seq<Seq<Token>>, s: Seq<char>, o: int, r: int, j: int)
    requires
        wf_cols(m),
        0 <= r < 6,
        0 <= j <= 7,
        0 <= o,
        o + 16 <= s.len(),
        forall|j2: int| 0 <= j2 < 7 ==> #[trigger] s[o + 2 + 2 * j2] == cell_char(token_at(m, j2, r)) && s[o + 3
            + 2 * j2] == ' ',
    ensures
        read_line(rows_upto(m, r, j), s, o + 2 + 2 * j, o + 16, j) == Some(rows_below(m, r + 1)),
    decreases 7 - j,
{
    let cur = rows_upto(m, r, j);
    if j == 7 {
        assert(cur =~= rows_below(m, r + 1));
    } else {
        let next = rows_upto(m, r, j + 1);
        let i = o + 2 + 2 * j;
        lemma_read_row(m, s, o, r, j + 1);
        assert(s[i] == cell_char(token_at(m, j, r)));
        assert(s[i + 1] == ' ');
        if r < m[j].len() {
            let t = m[j][r];
            assert(cur[j] =~= m[j].subrange(0, r));
            assert(crate::board::model::placed_cols(cur, j, t) =~= next) by {
                assert(m[j].subrange(0, r).push(t) =~= m[j].subrange(0, r + 1));
            }
            if t == Token::A {
                assert(read_line(cur, s, i, o + 16, j) == read_line(next, s, i + 1, o + 16, j + 1));
            } else {
                assert(read_line(cur, s, i, o + 16, j) == read_line(next, s, i + 1, o + 16, j + 1));
            }
        } else {
            assert(cur =~= next);
            assert(read_line(cur, s, i, o + 16, j) == read_line(next, s, i + 1, o + 16, j + 1));
        }
        if j + 1 < 7 {
            assert(read_line(next, s, i + 1, o + 16, j + 1) == read_line(next, s, i + 2, o + 16, j + 1));
        }
    }
}

/// Reading the text of the board from its end down to the line of row `r`,
/// on top of its rows below `r`, gives back the board.
proof fn lemma_read_rows(m: Seq<Seq<Token>>, r: int)
    requires
        wf_cols(m),
        0 <= r <= 6,
    ensures
        read_pieces(rows_below(m, r), display_text(m, 6), 18 * (6 - r)) == Some(m),
    decreases 6 - r,
{
    let s = display_text(m, 6);
    lemma_display_text(m, 6);
    if r == 6 {
        assert forall|c: int| 0 <= c < 7 implies #[trigger] rows_below(m, 6)[c] =~= m[c] by {}
        assert(rows_below(m, 6) =~= m);
        assert(read_piece(m, s, 0, 0) == Some(m));
    } else {
        lemma_read_rows(m, r + 1);
        let q = 5 - r;
        let o = 18 * q;
        let end = o + 18;
        let cur = rows_below(m, r);
        assert(s[o] == '|' && s[o + 1] == ' ' && s[o + 16] == '|' && s[o + 17] == '\n');
        assert forall|j2: int| 0 <= j2 < 7 implies #[trigger] s[o + 2 + 2 * j2] == cell_char(token_at(m, j2, r))
            && s[o + 3 + 2 * j2] == ' ' by {
            assert(s[18 * q + 2 + 2 * j2] == cell_char(token_at(m, j2, 5 - q)));
        }
        // the newline after the row's closing bar
        assert(piece_start(s, end - 1) == end - 1);
        assert(piece_start(s, end) == end - 1);
        assert(!(exists|i: int| end - 1 <= i < end && #[trigger] is_token_char(s[i])));
        assert(read_piece(cur, s, end - 1, end) == Some(cur));
        // the cells of the row
        assert forall|i: int| o < i < o + 16 implies s[i] != '|' by {
            if i == o + 1 {
            } else if (i - o) % 2 == 0 {
                let j2 = (i - o - 2) / 2;
                assert(i == o + 2 + 2 * j2);
                assert(s[o + 2 + 2 * j2] == cell_char(token_at(m, j2, r)));
            } else {
                let j2 = (i - o - 3) / 2;
                assert(i == o + 3 + 2 * j2);
                assert(s[o + 2 + 2 * j2] == cell_char(token_at(m, j2, r)));
                assert(s[o + 3 + 2 * j2] == ' ');
            }
        }
        lemma_piece_after_bar(s, o, o + 16);
        assert(rows_upto(m, r, 0) =~= cur);
        lemma_read_row(m, s, o, r, 0);
        assert(read_line(cur, s, o + 1, o + 16, 0) == Some(rows_below(m, r + 1)));
        if !(exists|i: int| o + 1 <= i < o + 16 && #[trigger] is_token_char(s[i])) {
            assert(cur =~= rows_below(m, r + 1)) by {
                assert forall|c: int| 0 <= c < 7 implies #[trigger] m[c].len() <= r by {
                    if m[c].len() > r {
                        assert(s[o + 2 + 2 * c] == cell_char(token_at(m, c, r)));
                        assert(is_token_char(s[o + 2 + 2 * c]));
                    }
                }
            }
        }
        assert(read_piece(cur, s, o + 1, o + 16) == Some(rows_below(m, r + 1)));
        assert(read_pieces(cur, s, o + 16) == read_pieces(rows_below(m, r + 1), s, o));
        assert(read_pieces(cur, s, end) == read_pieces(cur, s, end - 2));
        assert(18 * (6 - (r + 1)) == o);
    }
}

/// Reading a board's picture gives the board back.
pub proof fn lemma_display_roundtrip(m: Seq<Seq<Token>>)
    requires
        wf_cols(m),
    ensures
        read_pieces(empty_cols(), display_text(m, 6), display_text(m, 6).len() as int) == Some(m),
{
    lemma_display_text(m, 6);
    lemma_read_rows(m, 0);
    assert forall|c: int| 0 <= c < 7 implies #[trigger] rows_below(m, 0)[c] =~= empty_cols()[c] by {}
    assert(rows_below(m, 0) =~= empty_cols());
}

} // verus!
