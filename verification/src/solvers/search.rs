//! Facts shared by the searches: what the columns explored so far say
//! about the value of the position.
use vstd::prelude::*;

use crate::basic::Token;
use crate::board::lemmas::{lemma_num_moves_bounds, lemma_value_is_max};
use crate::board::model::{child_score, is_placeable, max_moves, num_moves, remaining, value, wf_cols};

verus! {

/// Every explored playable column scores at most `a`.
pub open spec fn all_at_most(m: Seq<Seq<Token>>, cols: Set<int>, a: int) -> bool {
    forall|c: int|
        cols.contains(c) && is_placeable(m, c) ==> #[trigger] child_score(m, c, remaining(m)) <= a
}

/// Some explored playable column scores exactly `a`.
pub open spec fn some_equal(m: Seq<Seq<Token>>, cols: Set<int>, a: int) -> bool {
    exists|c: int|
        cols.contains(c) && is_placeable(m, c) && #[trigger] child_score(m, c, remaining(m)) == a
}

/// Every playable column has been explored.
pub open spec fn covers(m: Seq<Seq<Token>>, cols: Set<int>) -> bool {
    forall|c: int| #[trigger] is_placeable(m, c) ==> cols.contains(c)
}

/// When every playable column scores at most `a`, so does the position.
pub proof fn lemma_fail_low(m: Seq<Seq<Token>>, cols: Set<int>, a: int)
    requires
        wf_cols(m),
        num_moves(m) < max_moves(),
        covers(m, cols),
        all_at_most(m, cols, a),
    ensures
        value(m) <= a,
{
    lemma_value_is_max(m);
    let c = choose|c: int| #[trigger] is_placeable(m, c) && child_score(m, c, remaining(m)) == value(m);
    assert(cols.contains(c));
}

/// A column that scores `a` gives the position at least `a`.
pub proof fn lemma_attained(m: Seq<Seq<Token>>, cols: Set<int>, a: int)
    requires
        wf_cols(m),
        num_moves(m) < max_moves(),
        some_equal(m, cols, a),
    ensures
        value(m) >= a,
{
    lemma_value_is_max(m);
    let c = choose|c: int| cols.contains(c) && is_placeable(m, c) && #[trigger] child_score(m, c, remaining(m)) == a;
}

/// Exploring one more column keeps the facts, updated by its score.
pub proof fn lemma_explore(m: Seq<Seq<Token>>, cols: Set<int>, a: int, c: int, a2: int)
    requires
        all_at_most(m, cols, a),
        a <= a2,
        is_placeable(m, c) ==> child_score(m, c, remaining(m)) <= a2,
    ensures
        all_at_most(m, cols.insert(c), a2),
        some_equal(m, cols, a) ==> some_equal(m, cols.insert(c), a),
        is_placeable(m, c) && child_score(m, c, remaining(m)) == a2 ==> some_equal(
            m,
            cols.insert(c),
            a2,
        ),
{
    if some_equal(m, cols, a) {
        let c0 = choose|c0: int| cols.contains(c0) && is_placeable(m, c0) && #[trigger] child_score(m, c0, remaining(m)) == a;
        assert(cols.insert(c).contains(c0));
    }
    if is_placeable(m, c) && child_score(m, c, remaining(m)) == a2 {
        assert(cols.insert(c).contains(c));
    }
}

} // verus!
