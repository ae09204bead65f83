//! Test sets of positions with their known values, and the format of the
//! lines they are stored in: the moves as column digits, a space, and the value.
use vstd::prelude::*;

use crate::board::Moves;

verus! {

/// Number of leading bytes of `s` within `lo..=hi`.
pub open spec fn byte_run(s: Seq<u8>, lo: u8, hi: u8) -> nat
    decreases s.len(),
{
    if s.len() == 0 || !(lo <= s[0] <= hi) {
        0
    } else {
        1 + byte_run(s.drop_first(), lo, hi)
    }
}

/// The value of a sequence of decimal digits.
pub open spec fn decimal(s: Seq<u8>) -> int
    decreases s.len(),
{
    if s.len() == 0 {
        0
    } else {
        10 * decimal(s.drop_last()) + (s.last() - 48)
    }
}

/// An ASCII whitespace byte: space, tab, newline, vertical tab, form feed
/// or carriage return.
pub open spec fn is_ws(b: u8) -> bool {
    b == 32 || (9 <= b && b <= 13)
}

/// Number of leading whitespace bytes of `s`.
pub open spec fn ws_run(s: Seq<u8>) -> nat
    decreases s.len(),
{
    if s.len() == 0 || !is_ws(s[0]) {
        0
    } else {
        1 + ws_run(s.drop_first())
    }
}

/// A line of a test set: two fields between whitespace. The first is one
/// or more column digits `1` to `7`, the moves; the second the value: an
/// optional `+` or `-`, then one or more decimal digits, within the range of
/// `isize`. Gives the digits of the moves and the value.
pub open spec fn test_line(line: Seq<u8>) -> Option<(Seq<u8>, int)> {
    let a = line.skip(ws_run(line) as int);
    let k = byte_run(a, 49, 55);
    let b = a.skip(k as int);
    let sp = ws_run(b);
    let c = b.skip(sp as int);
    let signed = c.len() > 0 && (c[0] == 45 || c[0] == 43);
    let neg = c.len() > 0 && c[0] == 45;
    let ds = if signed {
        c.skip(1)
    } else {
        c
    };
    let nd = byte_run(ds, 48, 57);
    let e = ds.skip(nd as int);
    let mag = decimal(ds.take(nd as int));
    let v = if neg {
        -mag
    } else {
        mag
    };
    if 0 < k && sp > 0 && nd > 0 && ws_run(e) == e.len() && isize::MIN <= v <= isize::MAX {
        Some((a.take(k as int), v))
    } else {
        None
    }
}

/// Counts the leading bytes of `s[from..]` within `lo..=hi`.
fn count_run(s: &[u8], from: usize, lo: u8, hi: u8) -> (n: usize)
    requires
        from <= s@.len(),
    ensures
        n == byte_run(s@.skip(from as int), lo, hi),
        from + n <= s@.len(),
{
    let mut i = from;
    while i < s.len() && lo <= s[i] && s[i] <= hi
        invariant
            from <= i <= s@.len(),
            byte_run(s@.skip(from as int), lo, hi) == (i - from) + byte_run(s@.skip(i as int), lo, hi),
        decreases s@.len() - i,
    {
        proof {
            assert(s@.skip(i as int).drop_first() =~= s@.skip(i + 1));
        }
        i = i + 1;
    }
    i - from
}

/// Counts the leading whitespace bytes of `s[from..]`.
fn count_ws(s: &[u8], from: usize) -> (n: usize)
    requires
        from <= s@.len(),
    ensures
        n == ws_run(s@.skip(from as int)),
        from + n <= s@.len(),
{
    let mut i = from;
    while i < s.len() && (s[i] == 32u8 || (9u8 <= s[i] && s[i] <= 13u8))
        invariant
            from <= i <= s@.len(),
            ws_run(s@.skip(from as int)) == (i - from) + ws_run(s@.skip(i as int)),
        decreases s@.len() - i,
    {
        proof {
            assert(s@.skip(i as int).drop_first() =~= s@.skip(i + 1));
        }
        i = i + 1;
    }
    i - from
}

/// Reads one line of a test set: the moves, the players taking turns from
/// the starting token, and the value. `None` if the line is not in the format.
#[verifier::rlimit(60)]
pub fn parse_test_line(line: &[u8]) -> (r: Option<(Moves, isize)>)
    ensures
        r is Some <==> test_line(line@) is Some,
        r matches Some(p) ==> p.1 == test_line(line@).unwrap().1 && p.0@.len() == test_line(
            line@,
        ).unwrap().0.len() && forall|i: int|
            0 <= i < p.0@.len() ==> (#[trigger] p.0@[i]).0@ == test_line(line@).unwrap().0[i] - 49
                && p.0@[i].1 == crate::board::model::curr_token(i),
        r matches Some(p) ==> exists|w: int|
            #[trigger] ws_prefix(line@, w) && w + p.0@.len() < line@.len() && is_ws(line@[w + p.0@.len()])
                && forall|i: int| 0 <= i < p.0@.len() ==> (#[trigger] p.0@[i]).0@ == line@[w + i] - 49,
        r matches Some(p) ==> exists|e: int|
            #[trigger] ws_suffix(line@, e) && 0 < e && 48 <= line@[e - 1] <= 57 && (if p.1 < 0 {
                -p.1
            } else {
                p.1 as int
            }) % 10 == line@[e - 1] - 48 && (p.1 < 0 ==> exists|q: int|
                0 <= q < e - 1 && #[trigger] line@[q] == 45) && (!(48 <= line@[e - 2] <= 57) ==> (if p.1
                < 0 {
                -p.1
            } else {
                p.1 as int
            }) == line@[e - 1] - 48),
{
    let len = line.len();
    proof {
        assert(line@.skip(0) =~= line@);
    }
    let w0 = count_ws(line, 0);
    let ghost a = line@.skip(w0 as int);
    let k = count_run(line, w0, 49u8, 55u8);
    let ghost b = a.skip(k as int);
    proof {
        assert(b =~= line@.skip(w0 + k));
    }
    let sp = count_ws(line, w0 + k);
    let mut start = w0 + k + sp;
    let ghost c = b.skip(sp as int);
    proof {
        assert(c =~= line@.skip(start as int));
    }
    let neg = start < len && line[start] == 45u8;
    let signed = start < len && (line[start] == 45u8 || line[start] == 43u8);
    if signed {
        start = start + 1;
    }
    let ghost ds = line@.skip(start as int);
    proof {
        if signed {
            assert(c.skip(1) =~= ds);
        }
    }
    let nd = count_run(line, start, 48u8, 57u8);
    let tail = count_ws(line, start + nd);
    proof {
        assert(ds.skip(nd as int) =~= line@.skip(start + nd));
        lemma_ws_run_len(ds.skip(nd as int));
    }
    let ghost e = ds.skip(nd as int);
    let ghost dsv = ds.take(nd as int);
    proof {
        assert(line@.skip(ws_run(line@) as int) == a);
        assert(c.len() > 0 ==> c[0] == line@[(w0 + k + sp) as int]);
        assert(signed == (c.len() > 0 && (c[0] == 45 || c[0] == 43)));
        assert(neg == (c.len() > 0 && c[0] == 45));
        assert((ws_run(e) == e.len()) == (start + nd + tail == len));
    }
    if !(0 < k && sp > 0 && 0 < nd && start + nd + tail == len) {
        return None;
    }
    // the magnitude may reach one more than `isize::MAX` when negative
    let max = isize::MAX as u64;
    let limit: u64 = if neg {
        max + 1
    } else {
        max
    };
    proof {
        assert(dsv =~= line@.subrange(start as int, start + nd));
        assert forall|q: int| start <= q < start + nd implies 48 <= #[trigger] line@[q] <= 57 by {
            lemma_run_all(ds, 48, 57, q - start);
            assert(ds[q - start] == line@[q]);
        }
    }
    let mag = match read_decimal(line, start, nd, limit) {
        Some(v) => v,
        None => {
            proof {
                assert(test_line(line@) is None);
            }
            return None;
        },
    };
    let value: isize = if neg {
        if mag == max + 1 {
            isize::MIN
        } else {
            -(mag as isize)
        }
    } else {
        mag as isize
    };
    proof {
        assert(value == if neg { -decimal(dsv) } else { decimal(dsv) });
        assert(a.take(k as int) =~= line@.subrange(w0 as int, w0 + k));
        assert forall|q: int| w0 <= q < w0 + k implies 49 <= #[trigger] line@[q] <= 55 by {
            lemma_run_all(a, 49, 55, q - w0);
            assert(a[q - w0] == line@[q]);
        }
        assert(test_line(line@) == Some((a.take(k as int), value as int)));
    }
    let moves = bytes_of(line, w0, k);
    let parsed = Moves::from_digits(&moves);
    proof {
        lemma_moves_in_line(line@, parsed@);
        lemma_test_line_value(line@);
    }
    Some((parsed, value))
}

/// Moves read from the digits of an accepted line stand for the bytes of
/// its first field.
proof fn lemma_moves_in_line(line: Seq<u8>, mv: Seq<(crate::basic::column::Idx, crate::basic::Token)>)
    requires
        test_line(line) is Some,
        mv.len() == test_line(line).unwrap().0.len(),
        forall|i: int| 0 <= i < mv.len() ==> (#[trigger] mv[i]).0@ == test_line(line).unwrap().0[i] - 49,
    ensures
        exists|w: int|
            #[trigger] ws_prefix(line, w) && w + mv.len() < line.len() && is_ws(line[w + mv.len()])
                && forall|i: int| 0 <= i < mv.len() ==> (#[trigger] mv[i]).0@ == line[w + i] - 49,
{
    let t = test_line(line).unwrap();
    lemma_test_line_moves(line);
    let w = choose|w: int|
        #[trigger] ws_prefix(line, w) && w + t.0.len() < line.len() && is_ws(line[w + t.0.len()])
            && forall|i: int| 0 <= i < t.0.len() ==> #[trigger] t.0[i] == line[w + i];
    assert forall|i: int| 0 <= i < mv.len() implies (#[trigger] mv[i]).0@ == line[w + i] - 49 by {
        assert(t.0[i] == line[w + i]);
    }
}

/// The first `w` bytes of `s` are whitespace.
pub open spec fn ws_prefix(s: Seq<u8>, w: int) -> bool {
    &&& 0 <= w <= s.len()
    &&& forall|q: int| 0 <= q < w ==> is_ws(#[trigger] s[q])
}

/// The moves of an accepted line are the bytes of its first field as they
/// stand in the line: after the leading whitespace, and ended by whitespace.
pub proof fn lemma_test_line_moves(line: Seq<u8>)
    ensures
        test_line(line) matches Some(t) ==> exists|w: int|
            #[trigger] ws_prefix(line, w) && w + t.0.len() < line.len() && is_ws(line[w + t.0.len()])
                && forall|i: int| 0 <= i < t.0.len() ==> #[trigger] t.0[i] == line[w + i],
{
    if test_line(line) is Some {
        let w = ws_run(line) as int;
        let a = line.skip(w);
        let k = byte_run(a, 49, 55) as int;
        let b = a.skip(k);
        lemma_ws_run_len(line);
        lemma_ws_all(line);
        lemma_run_len(a, 49, 55);
        assert(ws_run(b) > 0);
        assert(b.len() > 0 && is_ws(b[0]));
        assert(b[0] == line[w + k]);
        assert(ws_prefix(line, w));
        let t = test_line(line).unwrap();
        assert(t.0 == a.take(k));
        assert forall|i: int| 0 <= i < t.0.len() implies #[trigger] t.0[i] == line[w + i] by {}
    }
}

/// The bytes of `s` from `e` on are whitespace.
pub open spec fn ws_suffix(s: Seq<u8>, e: int) -> bool {
    &&& 0 <= e <= s.len()
    &&& forall|q: int| e <= q < s.len() ==> is_ws(#[trigger] s[q])
}

/// The value of an accepted line ends with the last digit of the line,
/// which only whitespace follows: its last decimal digit is that byte's
/// digit, it is negative only when a `-` stands before that digit, and it is
/// that digit's value when no other digit comes just before it.
pub proof fn lemma_test_line_value(line: Seq<u8>)
    ensures
        test_line(line) matches Some(t) ==> exists|e: int|
            #[trigger] ws_suffix(line, e) && 0 < e && 48 <= line[e - 1] <= 57 && (if t.1 < 0 {
                -t.1
            } else {
                t.1
            }) % 10 == line[e - 1] - 48 && (t.1 < 0 ==> exists|q: int|
                0 <= q < e - 1 && #[trigger] line[q] == 45) && (!(48 <= line[e - 2] <= 57) ==> (if t.1 < 0 {
                -t.1
            } else {
                t.1
            }) == line[e - 1] - 48),
{
    if test_line(line) is Some {
        let t = test_line(line).unwrap();
        let w = ws_run(line) as int;
        let a = line.skip(w);
        let k = byte_run(a, 49, 55) as int;
        let b = a.skip(k);
        let sp = ws_run(b) as int;
        let c = b.skip(sp);
        let signed = c.len() > 0 && (c[0] == 45 || c[0] == 43);
        let neg = c.len() > 0 && c[0] == 45;
        let ds = if signed {
            c.skip(1)
        } else {
            c
        };
        let nd = byte_run(ds, 48, 57) as int;
        let tail = ds.skip(nd);
        lemma_ws_run_len(line);
        lemma_run_len(a, 49, 55);
        lemma_ws_run_len(b);
        lemma_run_len(ds, 48, 57);
        let start = line.len() - ds.len();
        let e = start + nd;
        assert(tail =~= line.skip(e));
        lemma_ws_all(tail);
        assert forall|q: int| e <= q < line.len() implies is_ws(#[trigger] line[q]) by {
            assert(line[q] == tail[q - e]);
        }
        assert(ws_suffix(line, e));
        let dv = ds.take(nd);
        assert forall|q: int| 0 <= q < dv.len() implies 48 <= #[trigger] dv[q] <= 57 by {
            lemma_run_all(ds, 48, 57, q);
        }
        lemma_decimal_nonneg(dv.drop_last());
        assert(dv.last() == line[e - 1]);
        assert(decimal(dv) == 10 * decimal(dv.drop_last()) + (dv.last() - 48));
        assert(decimal(dv) % 10 == dv.last() - 48);
        if nd >= 2 {
            assert(line[e - 2] == dv[nd - 2]);
        } else {
            assert(dv.drop_last() =~= Seq::<u8>::empty());
        }
        if t.1 < 0 {
            assert(neg);
            assert(c[0] == line[start - 1]);
            assert(line[start - 1] == 45);
        }
    }
}

/// Dropping the last digit of the value of an accepted line, when another
/// digit comes before it, leaves a line that is accepted too, with the same
/// moves, a value of the same sign (or 0), and the magnitude divided by ten.
#[verifier::spinoff_prover]
#[verifier::rlimit(50)]
pub proof fn lemma_test_line_drop_digit(line: Seq<u8>, e: int)
    requires
        test_line(line) is Some,
        ws_suffix(line, e),
        2 <= e,
        48 <= line[e - 1] <= 57,
        48 <= line[e - 2] <= 57,
    ensures
        test_line(line.remove(e - 1)) is Some,
        test_line(line.remove(e - 1)).unwrap().0 == test_line(line).unwrap().0,
        (if test_line(line.remove(e - 1)).unwrap().1 < 0 {
            -test_line(line.remove(e - 1)).unwrap().1
        } else {
            test_line(line.remove(e - 1)).unwrap().1
        }) == (if test_line(line).unwrap().1 < 0 {
            -test_line(line).unwrap().1
        } else {
            test_line(line).unwrap().1
        }) / 10,
        test_line(line).unwrap().1 < 0 ==> test_line(line.remove(e - 1)).unwrap().1 <= 0,
        test_line(line).unwrap().1 > 0 ==> test_line(line.remove(e - 1)).unwrap().1 >= 0,
{
    let t = test_line(line).unwrap();
    let w = ws_run(line) as int;
    let a = line.skip(w);
    let k = byte_run(a, 49, 55) as int;
    let b = a.skip(k);
    let sp = ws_run(b) as int;
    let c = b.skip(sp);
    let signed = c.len() > 0 && (c[0] == 45 || c[0] == 43);
    let neg = c.len() > 0 && c[0] == 45;
    let ds = if signed {
        c.skip(1)
    } else {
        c
    };
    let nd = byte_run(ds, 48, 57) as int;
    let tail = ds.skip(nd);
    lemma_ws_run_len(line);
    lemma_run_len(a, 49, 55);
    lemma_ws_run_len(b);
    lemma_run_len(ds, 48, 57);
    let start = line.len() - ds.len();
    assert(start + nd == e && nd >= 2) by {
        // the given end is the end of the value's digits
        lemma_ws_all(tail);
        assert forall|q: int| start + nd <= q < line.len() implies is_ws(#[trigger] line[q]) by {
            assert(line[q] == tail[q - start - nd]);
        }
        if start + nd < e {
            assert(is_ws(line[e - 1]));
        }
        if start + nd > e {
            assert(is_ws(line[start + nd - 1]));
            lemma_run_all(ds, 48, 57, nd - 1);
            assert(ds[nd - 1] == line[start + nd - 1]);
        }
        assert(start + nd == e);
        // a second digit before the last belongs to the value
        if nd < 2 {
            assert(line[e - 2] == line[start - 1]);
            if signed {
                assert(line[start - 1] == c[0]);
            } else {
                assert(sp > 0);
                assert(line[start - 1] == b[sp - 1]);
                lemma_ws_all(b);
            }
        }
    }
    let line2 = line.remove(e - 1);
    lemma_ws_run_remove(line, e - 1);
    let a2 = line2.skip(w);
    assert(a2 =~= a.remove(e - 1 - w));
    lemma_byte_run_remove(a, 49, 55, e - 1 - w);
    let b2 = a2.skip(k);
    assert(b2 =~= b.remove(e - 1 - w - k));
    lemma_ws_run_remove(b, e - 1 - w - k);
    let c2 = b2.skip(sp);
    assert(c2 =~= c.remove(e - 1 - w - k - sp));
    assert(c2.len() > 0 && c2[0] == c[0]);
    let ds2 = if signed {
        c2.skip(1)
    } else {
        c2
    };
    assert(ds2 =~= ds.remove(nd - 1));
    lemma_run_stop(ds, 48, 57);
    assert forall|q: int| 0 <= q < nd - 1 implies 48 <= #[trigger] ds2[q] <= 57 by {
        lemma_run_all(ds, 48, 57, q);
        assert(ds2[q] == ds[q]);
    }
    if nd - 1 < ds2.len() {
        assert(ds2[nd - 1] == ds[nd]);
    }
    lemma_run_exact(ds2, 48, 57, nd - 1);
    assert(ds2.skip(nd - 1) =~= tail);
    let dv = ds.take(nd);
    assert(ds2.take(nd - 1) =~= dv.drop_last());
    assert forall|q: int| 0 <= q < dv.len() implies 48 <= #[trigger] dv[q] <= 57 by {
        lemma_run_all(ds, 48, 57, q);
    }
    assert forall|q: int| 0 <= q < dv.drop_last().len() implies 48 <= #[trigger] dv.drop_last()[q] <= 57 by {
        assert(dv.drop_last()[q] == dv[q]);
    }
    lemma_decimal_nonneg(dv.drop_last());
    assert(decimal(dv) == 10 * decimal(dv.drop_last()) + (dv.last() - 48));
    assert(decimal(dv) / 10 == decimal(dv.drop_last()));
}

/// A line of column digits, a space and one decimal digit is accepted,
/// with those digits as the moves and that digit's value.
pub proof fn lemma_test_line_plain(m: Seq<u8>, d: u8)
    requires
        0 < m.len(),
        forall|q: int| 0 <= q < m.len() ==> 49 <= #[trigger] m[q] <= 55,
        48 <= d <= 57,
    ensures
        test_line(m + seq![32u8, d]) == Some((m, d - 48)),
{
    let line = m + seq![32u8, d];
    assert(ws_run(line) == 0);
    assert(line.skip(0) =~= line);
    assert forall|q: int| 0 <= q < m.len() implies 49 <= #[trigger] line[q] <= 55 by {
        assert(line[q] == m[q]);
    }
    lemma_run_exact(line, 49, 55, m.len() as int);
    let b = line.skip(m.len() as int);
    assert(b =~= seq![32u8, d]);
    assert(b.drop_first() =~= seq![d]);
    assert(seq![d].drop_first() =~= Seq::<u8>::empty());
    assert(ws_run(seq![d]) == 0);
    assert(ws_run(b) == 1);
    let c = b.skip(1);
    assert(c =~= seq![d]);
    assert(seq![d][0] == d);
    assert(byte_run(Seq::<u8>::empty(), 48, 57) == 0);
    assert(byte_run(seq![d], 48, 57) == 1);
    assert(c.skip(1) =~= Seq::<u8>::empty());
    assert(c.take(1) =~= seq![d]);
    assert(seq![d].drop_last() =~= Seq::<u8>::empty());
    assert(decimal(Seq::<u8>::empty()) == 0);
    assert(seq![d].last() == d);
    assert(decimal(seq![d]) == d - 48);
    assert(line.take(m.len() as int) =~= m);
}

/// Removing a byte past the leading whitespace run keeps the run.
proof fn lemma_ws_run_remove(s: Seq<u8>, j: int)
    requires
        ws_run(s) < j < s.len(),
    ensures
        ws_run(s.remove(j)) == ws_run(s),
    decreases s.len(),
{
    if is_ws(s[0]) {
        assert(s.remove(j).drop_first() =~= s.drop_first().remove(j - 1));
        lemma_ws_run_remove(s.drop_first(), j - 1);
    }
}

/// Removing a byte past the leading run within `lo..=hi` keeps the run.
proof fn lemma_byte_run_remove(s: Seq<u8>, lo: u8, hi: u8, j: int)
    requires
        byte_run(s, lo, hi) < j < s.len(),
    ensures
        byte_run(s.remove(j), lo, hi) == byte_run(s, lo, hi),
    decreases s.len(),
{
    if lo <= s[0] <= hi {
        assert(s.remove(j).drop_first() =~= s.drop_first().remove(j - 1));
        lemma_byte_run_remove(s.drop_first(), lo, hi, j - 1);
    }
}

/// The leading run within `lo..=hi` stops at a byte outside the range.
proof fn lemma_run_stop(s: Seq<u8>, lo: u8, hi: u8)
    ensures
        byte_run(s, lo, hi) < s.len() ==> !(lo <= s[byte_run(s, lo, hi) as int] <= hi),
    decreases s.len(),
{
    if s.len() > 0 && lo <= s[0] <= hi {
        lemma_run_stop(s.drop_first(), lo, hi);
        lemma_run_len(s.drop_first(), lo, hi);
        if byte_run(s, lo, hi) < s.len() {
            assert(s[byte_run(s, lo, hi) as int] == s.drop_first()[byte_run(s.drop_first(), lo, hi) as int]);
        }
    }
}

/// A run of `n` bytes within `lo..=hi` that stops at the end or at a byte
/// outside the range is the leading run.
proof fn lemma_run_exact(s: Seq<u8>, lo: u8, hi: u8, n: int)
    requires
        0 <= n <= s.len(),
        forall|q: int| 0 <= q < n ==> lo <= #[trigger] s[q] <= hi,
        n < s.len() ==> !(lo <= s[n] <= hi),
    ensures
        byte_run(s, lo, hi) == n,
    decreases n,
{
    if n > 0 {
        assert forall|q: int| 0 <= q < n - 1 implies lo <= #[trigger] s.drop_first()[q] <= hi by {
            assert(s.drop_first()[q] == s[q + 1]);
        }
        if n < s.len() {
            assert(s.drop_first()[n - 1] == s[n]);
        }
        lemma_run_exact(s.drop_first(), lo, hi, n - 1);
    }
}

/// Every byte of the leading whitespace run is whitespace.
proof fn lemma_ws_all(s: Seq<u8>)
    ensures
        forall|q: int| 0 <= q < ws_run(s) ==> is_ws(#[trigger] s[q]),
    decreases s.len(),
{
    if s.len() > 0 && is_ws(s[0]) {
        lemma_ws_all(s.drop_first());
        lemma_ws_run_len(s.drop_first());
        assert forall|q: int| 0 <= q < ws_run(s) implies is_ws(#[trigger] s[q]) by {
            if q > 0 {
                assert(s[q] == s.drop_first()[q - 1]);
            }
        }
    }
}

/// The value of the decimal digits `s[from..from + n]`, if it is at most `limit`.
fn read_decimal(s: &[u8], from: usize, n: usize, limit: u64) -> (r: Option<u64>)
    requires
        from + n <= s@.len(),
        forall|q: int| from <= q < from + n ==> 48 <= #[trigger] s@[q] <= 57,
        limit >= 9,
    ensures
        r is Some <==> decimal(s@.subrange(from as int, from + n)) <= limit,
        r matches Some(v) ==> v == decimal(s@.subrange(from as int, from + n)),
{
    let ghost ds = s@.subrange(from as int, from + n);
    let slen = s.len();
    let end = from + n;
    let mut mag: u64 = 0;
    let mut i = from;
    while i < end
        invariant
            from <= i <= end == from + n <= s@.len(),
            ds == s@.subrange(from as int, from + n),
            forall|q: int| from <= q < from + n ==> 48 <= #[trigger] s@[q] <= 57,
            limit >= 9,
            mag == decimal(ds.take(i - from)),
            mag <= limit,
        decreases end - i,
    {
        proof {
            assert(ds.take(i - from + 1).drop_last() =~= ds.take(i - from));
            assert(ds.take(i - from + 1).last() == s@[i as int]);
            assert(48 <= s@[i as int] <= 57);
        }
        let d = (s[i] - 48u8) as u64;
        if mag > (limit - d) / 10 {
            proof {
                assert(10 * mag + d > limit) by (nonlinear_arith)
                    requires
                        mag > (limit - d) / 10,
                        d <= 9,
                        limit >= 9,
                ;
                assert forall|q: int| 0 <= q < ds.len() implies 48 <= #[trigger] ds[q] <= 57 by {
                    assert(ds[q] == s@[from + q]);
                }
                lemma_decimal_mono(ds, i - from + 1, n as int);
                assert(ds.take(n as int) =~= ds);
            }
            return None;
        }
        proof {
            assert(10 * mag + d <= limit) by (nonlinear_arith)
                requires
                    mag <= (limit - d) / 10,
                    d <= 9,
                    limit >= 9,
            ;
        }
        mag = 10 * mag + d;
        i = i + 1;
    }
    proof {
        assert(ds.take(n as int) =~= ds);
    }
    Some(mag)
}

/// The bytes `s[from..from + n]`.
fn bytes_of(s: &[u8], from: usize, n: usize) -> (v: Vec<u8>)
    requires
        from + n <= s@.len(),
    ensures
        v@ == s@.subrange(from as int, from + n),
{
    let slen = s.len();
    let mut v: Vec<u8> = Vec::new();
    let mut j: usize = 0;
    while j < n
        invariant
            j <= n,
            from + n <= s@.len() == slen,
            v@ == s@.subrange(from as int, from + j),
        decreases n - j,
    {
        v.push(s[from + j]);
        proof {
            assert(s@.subrange(from as int, from + j + 1) =~= s@.subrange(from as int, from + j).push(s@[from + j]));
        }
        j = j + 1;
    }
    v
}

/// The leading whitespace run is no longer than the sequence.
proof fn lemma_ws_run_len(s: Seq<u8>)
    ensures
        ws_run(s) <= s.len(),
    decreases s.len(),
{
    if s.len() > 0 {
        lemma_ws_run_len(s.drop_first());
    }
}

/// Reading more digits never gives a smaller value.
proof fn lemma_decimal_mono(s: Seq<u8>, i: int, j: int)
    requires
        0 <= i <= j <= s.len(),
        forall|q: int| 0 <= q < s.len() ==> 48 <= #[trigger] s[q] <= 57,
    ensures
        decimal(s.take(i)) <= decimal(s.take(j)),
    decreases j - i,
{
    if i < j {
        lemma_decimal_mono(s, i, j - 1);
        assert(s.take(j).drop_last() =~= s.take(j - 1));
        lemma_decimal_nonneg(s.take(j - 1));
        assert(decimal(s.take(j)) == 10 * decimal(s.take(j - 1)) + (s[j - 1] - 48));
    }
}

/// The value of digits is not negative.
proof fn lemma_decimal_nonneg(s: Seq<u8>)
    requires
        forall|q: int| 0 <= q < s.len() ==> 48 <= #[trigger] s[q] <= 57,
    ensures
        decimal(s) >= 0,
    decreases s.len(),
{
    if s.len() > 0 {
        lemma_decimal_nonneg(s.drop_last());
    }
}

/// Every byte inside the leading run is within the range.
proof fn lemma_run_all(s: Seq<u8>, lo: u8, hi: u8, i: int)
    requires
        0 <= i < byte_run(s, lo, hi),
    ensures
        lo <= s[i] <= hi,
    decreases s.len(),
{
    lemma_run_len(s, lo, hi);
    if i > 0 {
        lemma_run_all(s.drop_first(), lo, hi, i - 1);
        assert(s.drop_first()[i - 1] == s[i]);
    }
}

/// The leading run is no longer than the sequence.
proof fn lemma_run_len(s: Seq<u8>, lo: u8, hi: u8)
    ensures
        byte_run(s, lo, hi) <= s.len(),
    decreases s.len(),
{
    if s.len() > 0 {
        lemma_run_len(s.drop_first(), lo, hi);
    }
}

/// A testset with a name and tests,
/// each a pair of moves and their true eval
#[derive(Debug, Clone)]
pub struct TestSet {
    name: String,
    tests: Vec<(Moves, isize)>,
}

impl TestSet {
    /// Construct a new testset with the given name and tests
    pub fn new(name: &str, tests: Vec<(Moves, isize)>) -> (t: Self)
        ensures
            t.name_view() == name@,
            t.tests_view() == tests@,
    {
        TestSet { name: name.to_owned(), tests }
    }

    /// The name, as characters.
    pub closed spec fn name_view(&self) -> Seq<char> {
        self.name@
    }

    /// The tests.
    pub closed spec fn tests_view(&self) -> Seq<(Moves, isize)> {
        self.tests@
    }

    /// Name of the testset
    pub fn name(&self) -> (s: &str)
        ensures
            s@ == self.name_view(),
    {
        self.name.as_str()
    }

    /// Number of tests in the testset
    pub fn len(&self) -> (n: usize)
        ensures
            n == self.tests_view().len(),
    {
        self.tests.len()
    }

    /// Tests in the testset
    pub fn tests(&self) -> (s: &[(Moves, isize)])
        ensures
            s@ == self.tests_view(),
    {
        self.tests.as_slice()
    }

    /// Take the first `count` tests from the testset
    pub fn take(self, count: usize) -> (t: Self)
        ensures
            t.name_view() == self.name_view(),
            t.tests_view() == if count < self.tests_view().len() {
                self.tests_view().take(count as int)
            } else {
                self.tests_view()
            },
    {
        let mut tests = self.tests;
        if count < tests.len() {
            tests.truncate(count);
        }
        TestSet { name: self.name, tests }
    }
}

} // verus!
