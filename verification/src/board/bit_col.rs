use vstd::prelude::*;
use vstd::std_specs::bits::{axiom_u8_leading_zeros, u8_leading_zeros};

use crate::basic::{row, Token};

verus! {

/// The bit that stands for a token: 0 for `A`, 1 for `B`.
pub open spec fn token_bit(t: Token) -> u8 {
    match t {
        Token::A => 0,
        Token::B => 1,
    }
}

/// The token that a bit stands for.
pub open spec fn bit_token(b: u8) -> Token {
    if b == 0 {
        Token::A
    } else {
        Token::B
    }
}

/// Number of tokens in a column encoded as `v`: the position of its leading one.
pub open spec fn col_height(v: u8) -> nat {
    if v >= 64 {
        6
    } else if v >= 32 {
        5
    } else if v >= 16 {
        4
    } else if v >= 8 {
        3
    } else if v >= 4 {
        2
    } else if v >= 2 {
        1
    } else {
        0
    }
}

/// The tokens of a column encoded as `v`, bottom first: row `i` is
/// the bit `col_height(v) - 1 - i`.
pub open spec fn col_tokens(v: u8) -> Seq<Token> {
    Seq::new(col_height(v), |i: int| bit_token((v >> ((col_height(v) - 1 - i) as u8)) & 1))
}

/// The encoding of a column: a leading one followed by one bit per token,
/// bottom first.
pub open spec fn col_code(s: Seq<Token>) -> nat
    decreases s.len(),
{
    if s.len() == 0 {
        1
    } else {
        2 * col_code(s.drop_last()) + token_bit(s.last()) as nat
    }
}

/// Encoding a column of at most six tokens gives a value below 128 that
/// decodes back to the same tokens.
pub proof fn lemma_code_roundtrip(s: Seq<Token>)
    requires
        s.len() <= 6,
    ensures
        1 <= col_code(s) < 128,
        col_code(s) < pow2_spec(s.len() + 1),
        col_tokens(col_code(s) as u8) == s,
    decreases s.len(),
{
    reveal_with_fuel(pow2_spec, 8);
    if s.len() == 0 {
        assert(col_tokens(1) =~= s);
    } else {
        let p = s.drop_last();
        lemma_code_roundtrip(p);
        assert(pow2_spec(s.len() + 1) == 2 * pow2_spec(s.len()));
        let v = col_code(p) as u8;
        let b = token_bit(s.last());
        lemma_pushed_bits(v, b);
        lemma_push_tokens(v, (2 * v + b) as u8, s.last());
        assert(p.push(s.last()) =~= s);
    }
}

/// Powers of two.
pub open spec fn pow2_spec(k: nat) -> nat
    decreases k,
{
    if k == 0 {
        1
    } else {
        2 * pow2_spec((k - 1) as nat)
    }
}

/// Decoding a value below 128 and encoding again gives the value back.
proof fn lemma_tokens_code(v: u8)
    requires
        1 <= v < 128,
    ensures
        col_code(col_tokens(v)) == v,
    decreases v,
{
    if v >= 2 {
        let w = v / 2;
        let b = v % 2;
        assert(w < 64);
        lemma_tokens_code(w);
        lemma_pushed_bits(w, b);
        assert(((w << 1) | b) == v);
        lemma_push_tokens(w, v, bit_token(b));
        assert(col_tokens(v).drop_last() =~= col_tokens(w));
    } else {
        assert(col_tokens(v) =~= Seq::<Token>::empty());
    }
}

/// Convert a token to a single bit
fn token_to_u8(token: Token) -> (b: u8)
    ensures
        b == token_bit(token),
{
    match token {
        Token::A => 0,
        Token::B => 1,
    }
}

/// Convert a single bit into a token
fn u8_to_token(bit: u8) -> (t: Token)
    requires
        bit < 2,
    ensures
        t == bit_token(bit),
{
    if bit == 0 {
        Token::A
    } else {
        Token::B
    }
}

/// A column of the board, stored as a u8.
/// Formatted with a leading 1 bit, followed by the rows from bottom to top,
/// The top tile is the LSB and the bottom tile is the MSB after the leading 1.
/// Examples:
/// `0b01ab_cdef` : col is full, a at bottom, f at top
/// `0b0000_0001` : col is empty
#[derive(Clone, Copy, Debug, PartialEq, Eq, Structural)]
pub struct BitCol(u8);

impl View for BitCol {
    type V = Seq<Token>;

    closed spec fn view(&self) -> Seq<Token> {
        col_tokens(self.0)
    }
}

proof fn lemma_height_is_leading(v: u8)
    requires
        1 <= v < 128,
    ensures
        7 - u8_leading_zeros(v) == col_height(v),
        u8_leading_zeros(v) >= 1,
{
    axiom_u8_leading_zeros(v);
    let l = u8_leading_zeros(v) as u8;
    assert(1 <= v < 128 && l <= 8 && (l < 8 ==> (v >> ((7 - l) as u8)) & 1 != 0) && (v >> ((8 - l) as u8)) == 0
        ==> (l == 1 && v >= 64) || (l == 2 && 32 <= v < 64) || (l == 3 && 16 <= v < 32)
            || (l == 4 && 8 <= v < 16) || (l == 5 && 4 <= v < 8) || (l == 6 && 2 <= v < 4) || (l == 7
            && v == 1)) by (bit_vector);
}

impl BitCol {
    /// A column never holds more than six tokens.
    pub proof fn lemma_len(c: BitCol)
        ensures
            c@.len() <= 6,
    {
    }

    #[verifier::type_invariant]
    spec fn inv(self) -> bool {
        1 <= self.0 < 128
    }

    /// An empty BitCol.
    pub fn empty() -> (c: BitCol)
        ensures
            c@ == Seq::<Token>::empty(),
    {
        let c = BitCol(1);
        assert(c@ =~= Seq::<Token>::empty());
        c
    }

    /// Counts the number of tokens in the column.
    /// Also the bit index of the leading one.
    pub fn count(&self) -> (n: usize)
        ensures
            n == self@.len(),
            n <= 6,
    {
        proof {
            use_type_invariant(self);
            lemma_height_is_leading(self.0);
        }
        7 - self.0.leading_zeros() as usize
    }

    /// Is the column empty?
    pub fn is_empty(&self) -> (b: bool)
        ensures
            b == (self@.len() == 0),
    {
        proof {
            use_type_invariant(self);
        }
        self.0 == 0b0000_0001
    }

    /// Is the column full i.e. can no more
    /// tokens be pushed onto it
    pub fn is_full(&self) -> (b: bool)
        ensures
            b == (self@.len() == 6),
            self@.len() <= 6,
    {
        proof {
            use_type_invariant(self);
            let v = self.0;
            assert(v < 128 ==> ((v & 0b1100_0000 != 0) == (v >= 64))) by (bit_vector);
        }
        self.0 & 0b1100_0000 != 0
    }

    /// Gets the token at the given row in the column.
    pub fn get(&self, row: row::Idx) -> (r: Option<Token>)
        ensures
            r == (if row@ < self@.len() {
                Some(self@[row@ as int])
            } else {
                None::<Token>
            }),
    {
        let r = row.index();
        if self.count() > r {
            // The bit index of the desired row
            let bit_idx = self.count() - r - 1;
            let v = self.0;
            proof {
                assert((v >> (bit_idx as u8)) & 1 < 2) by (bit_vector);
            }
            Some(u8_to_token((v >> bit_idx) & 1))
        } else {
            None
        }
    }

    /// Pops the top token from the column, which must not be empty.
    pub fn force_pop(&mut self)
        requires
            old(self)@.len() > 0,
        ensures
            final(self)@ == old(self)@.drop_last(),
    {
        proof {
            use_type_invariant(&*self);
        }
        let v = self.0;
        let w = v >> 1;
        proof {
            assert(v >> 1 == v / 2) by (bit_vector);
            assert forall|k: u8| k < 7 implies ((w >> k) & 1) == ((v >> ((k + 1) as u8)) & 1) by {
                assert(k < 7 ==> ((v >> 1) >> k) & 1 == (v >> ((k + 1) as u8)) & 1) by (bit_vector);
            }
            let old_s = col_tokens(v);
            let new_s = col_tokens(w);
            assert forall|i: int| 0 <= i < new_s.len() implies new_s[i] == old_s.drop_last()[i] by {
                let k = (col_height(w) - 1 - i) as u8;
                assert(((w >> k) & 1) == ((v >> ((k + 1) as u8)) & 1));
            }
            assert(new_s =~= old_s.drop_last());
        }
        self.0 = w;
    }

    /// Pushes a token onto the column, which must not be full.
    pub fn force_push(&mut self, token: Token)
        requires
            old(self)@.len() < 6,
        ensures
            final(self)@ == old(self)@.push(token),
    {
        proof {
            use_type_invariant(&*self);
        }
        let token_bit = token_to_u8(token);
        let v = self.0;
        let w = (v << 1) | token_bit;
        proof {
            lemma_pushed_bits(v, token_bit);
            lemma_push_tokens(v, w, token);
        }
        self.0 = w;
    }

    /// Returns a new column with the pushed token,
    /// or `None` if the column was full
    pub fn pushed(self, token: Token) -> (r: Option<BitCol>)
        ensures
            r is Some <==> self@.len() < 6,
            r matches Some(c) ==> c@ == self@.push(token),
    {
        proof {
            use_type_invariant(&self);
        }
        let token_bit = token_to_u8(token);
        let v = self.0;
        let pushed = (v << 1) | token_bit;
        proof {
            assert(v < 128 && token_bit < 2 ==> (((v << 1) | token_bit) & 0b1000_0000 != 0) == (v
                >= 64)) by (bit_vector);
        }
        // check whether pushed is still valid
        if pushed & 0b1000_0000 != 0 {
            None  // column has overflowed
        } else {
            proof {
                lemma_pushed_bits(v, token_bit);
                lemma_push_tokens(v, pushed, token);
            }
            Some(BitCol(pushed))
        }
    }

    /// The row of the highest element in the column.
    /// `None` if the column is empty.
    pub fn top(&self) -> (r: Option<row::Idx>)
        ensures
            r is Some <==> self@.len() > 0,
            r matches Some(i) ==> i@ + 1 == self@.len(),
    {
        let n = self.count();
        if n == 0 {
            None
        } else {
            Some(row::Idx::raw(n - 1))
        }
    }

    /// Returns the underlying u8 value of the column.
    pub fn to_u8(self) -> (b: u8)
        ensures
            b == col_code(self@),
            1 <= b < 128,
    {
        proof {
            use_type_invariant(&self);
            lemma_tokens_code(self.0);
        }
        self.0
    }

    /// Returns the underlying u8 value of the column as u64
    pub fn to_u64(self) -> (b: u64)
        ensures
            b == col_code(self@),
            1 <= b < 128,
    {
        proof {
            use_type_invariant(&self);
            lemma_tokens_code(self.0);
        }
        self.0 as u64
    }
}

/// Shifting in a bit moves every bit up by one, with the new bit at the bottom.
proof fn lemma_pushed_bits(v: u8, b: u8)
    requires
        1 <= v < 64,
        b < 2,
    ensures
        ((v << 1) | b) == 2 * v + b,
        forall|k: u8| k < 7 ==> #[trigger] ((((v << 1) | b) >> ((k + 1) as u8)) & 1) == ((v >> k) & 1),
        (((v << 1) | b) >> 0u8) & 1 == b,
{
    assert(v < 64 && b < 2 ==> ((v << 1) | b) == 2 * v + b) by (bit_vector);
    assert(b < 2 ==> (((v << 1) | b) >> 0u8) & 1 == b) by (bit_vector);
    assert forall|k: u8| k < 7 implies #[trigger] ((((v << 1) | b) >> ((k + 1) as u8)) & 1) == ((v
        >> k) & 1) by {
        assert(k < 7 && b < 2 ==> ((((v << 1) | b) >> ((k + 1) as u8)) & 1) == ((v >> k) & 1))
            by (bit_vector);
    }
}

proof fn lemma_push_tokens(v: u8, w: u8, t: Token)
    requires
        1 <= v < 64,
        w == 2 * v + token_bit(t),
        forall|k: u8| k < 7 ==> #[trigger] (((w >> ((k + 1) as u8)) & 1)) == ((v >> k) & 1),
        (w >> 0u8) & 1 == token_bit(t),
    ensures
        col_tokens(w) == col_tokens(v).push(t),
        1 <= w < 128,
{
    let s = col_tokens(v).push(t);
    let h = col_height(v);
    assert(col_height(w) == h + 1);
    assert forall|i: int| 0 <= i < col_height(w) implies col_tokens(w)[i] == s[i] by {
        if i < h {
            let k = (h - 1 - i) as u8;
            assert((((w >> ((k + 1) as u8)) & 1)) == ((v >> k) & 1));
        }
    }
    assert(col_tokens(w) =~= s);
}

} // verus!
