//! Facts about the board model and the game value.
use vstd::prelude::*;

use crate::basic::column::centred_index;
use crate::basic::Token;
use crate::board::model::{
    best_child, child_score, curr_token, empty_cols, is_placeable, max_moves, moves_upto,
    no_score, num_moves, placed_cols, remaining, unplaced_cols, value, value_rec, will_lose_eval,
    will_win_eval, wf_cols,
};

verus! {

/// Every column is some `centred_index(j)`, and every `centred_index(j)` is a column.
pub proof fn lemma_centred_index(c: int)
    requires
        0 <= c < 7,
    ensures
        c >= 3 ==> centred_index(2 * (c - 3)) == c,
        c < 3 ==> centred_index(2 * (3 - c) - 1) == c,
        0 <= centred_index(c) < 7,
{
}

/// The column of position `c` in centred order is found again at some `j < 7`.
pub proof fn lemma_centred_onto(c: int) -> (j: int)
    requires
        0 <= c < 7,
    ensures
        0 <= j < 7,
        centred_index(j) == c,
{
    lemma_centred_index(c);
    if c >= 3 {
        2 * (c - 3)
    } else {
        2 * (3 - c) - 1
    }
}

/// Counting moves column by column stays within six per column.
pub proof fn lemma_moves_upto_bounds(m: Seq<Seq<Token>>, k: int)
    requires
        wf_cols(m),
        0 <= k <= 7,
    ensures
        0 <= moves_upto(m, k) <= 6 * k,
        moves_upto(m, k) == 6 * k ==> forall|c: int| 0 <= c < k ==> #[trigger] m[c].len() == 6,
    decreases k,
{
    if k > 0 {
        lemma_moves_upto_bounds(m, k - 1);
    }
}

/// Replacing one column changes the count by the difference in its length.
pub proof fn lemma_moves_upto_update(m: Seq<Seq<Token>>, c: int, s: Seq<Token>, k: int)
    requires
        m.len() == 7,
        0 <= c < 7,
        0 <= k <= 7,
    ensures
        moves_upto(m.update(c, s), k) == moves_upto(m, k) + (if c < k {
            s.len() - m[c].len()
        } else {
            0
        }),
    decreases k,
{
    if k > 0 {
        lemma_moves_upto_update(m, c, s, k - 1);
    }
}

/// Counting moves only looks at the columns.
pub proof fn lemma_moves_upto_ext(m1: Seq<Seq<Token>>, m2: Seq<Seq<Token>>, k: int)
    requires
        0 <= k <= 7,
        forall|c: int| 0 <= c < k ==> #[trigger] m1[c].len() == m2[c].len(),
    ensures
        moves_upto(m1, k) == moves_upto(m2, k),
    decreases k,
{
    if k > 0 {
        lemma_moves_upto_ext(m1, m2, k - 1);
    }
}

/// A well-formed board holds between 0 and 42 tokens; with 42 it is full.
pub proof fn lemma_num_moves_bounds(m: Seq<Seq<Token>>)
    requires
        wf_cols(m),
    ensures
        0 <= num_moves(m) <= max_moves(),
        num_moves(m) == max_moves() ==> forall|c: int| 0 <= c < 7 ==> !#[trigger] is_placeable(m, c),
{
    lemma_moves_upto_bounds(m, 7);
}

/// A board that is not full has a playable column.
pub proof fn lemma_not_full(m: Seq<Seq<Token>>) -> (c: int)
    requires
        wf_cols(m),
        num_moves(m) < max_moves(),
    ensures
        is_placeable(m, c),
{
    if forall|c: int| 0 <= c < 7 ==> !#[trigger] is_placeable(m, c) {
        assert forall|c: int| 0 <= c < 7 implies #[trigger] m[c].len() == 6 by {
            assert(!is_placeable(m, c));
        }
        lemma_all_full(m, 7);
        assert(false);
        0
    } else {
        choose|c: int| 0 <= c < 7 && #[trigger] is_placeable(m, c)
    }
}

proof fn lemma_all_full(m: Seq<Seq<Token>>, k: int)
    requires
        0 <= k <= 7,
        forall|c: int| 0 <= c < k ==> #[trigger] m[c].len() == 6,
    ensures
        moves_upto(m, k) == 6 * k,
    decreases k,
{
    if k > 0 {
        lemma_all_full(m, k - 1);
    }
}

/// The empty board is well formed and holds no token.
pub proof fn lemma_empty()
    ensures
        wf_cols(empty_cols()),
        num_moves(empty_cols()) == 0,
{
    lemma_all_empty(empty_cols(), 7);
}

proof fn lemma_all_empty(m: Seq<Seq<Token>>, k: int)
    requires
        0 <= k <= 7,
        forall|c: int| 0 <= c < k ==> #[trigger] m[c].len() == 0,
    ensures
        moves_upto(m, k) == 0,
    decreases k,
{
    if k > 0 {
        lemma_all_empty(m, k - 1);
    }
}

/// Dropping a token into a playable column adds one move.
pub proof fn lemma_placed(m: Seq<Seq<Token>>, c: int, t: Token)
    requires
        wf_cols(m),
        is_placeable(m, c),
    ensures
        wf_cols(placed_cols(m, c, t)),
        num_moves(placed_cols(m, c, t)) == num_moves(m) + 1,
        remaining(placed_cols(m, c, t)) == remaining(m) - 1,
        num_moves(m) < max_moves(),
{
    lemma_moves_upto_update(m, c, m[c].push(t), 7);
    lemma_num_moves_bounds(m);
    lemma_num_moves_bounds(placed_cols(m, c, t));
}

/// Removing the top token of a non-empty column removes one move.
pub proof fn lemma_unplaced(m: Seq<Seq<Token>>, c: int)
    requires
        wf_cols(m),
        0 <= c < 7,
        m[c].len() > 0,
    ensures
        wf_cols(unplaced_cols(m, c)),
        num_moves(unplaced_cols(m, c)) == num_moves(m) - 1,
{
    lemma_moves_upto_update(m, c, m[c].drop_last(), 7);
}

/// Placing then removing in a column gives back the board.
pub proof fn lemma_place_unplace(m: Seq<Seq<Token>>, c: int, t: Token)
    requires
        wf_cols(m),
        0 <= c < 7,
    ensures
        unplaced_cols(placed_cols(m, c, t), c) == m,
{
    assert(placed_cols(m, c, t)[c].drop_last() =~= m[c]);
    assert(unplaced_cols(placed_cols(m, c, t), c) =~= m);
}

/// The best child over the first `k` centred columns is at least each of them.
pub proof fn lemma_best_child_ge(m: Seq<Seq<Token>>, d: nat, k: nat, j: int)
    requires
        0 <= j < k <= 7,
        is_placeable(m, centred_index(j)),
    ensures
        best_child(m, d, k) >= child_score(m, centred_index(j), d),
    decreases k,
{
    if j < k - 1 {
        lemma_best_child_ge(m, d, (k - 1) as nat, j);
    }
}

/// The best child over the first `k` centred columns is one of them, or
/// `no_score()` when none can be played; child scores in `[lo, hi]` keep it there.
pub proof fn lemma_best_child_attained(m: Seq<Seq<Token>>, d: nat, k: nat, lo: int, hi: int)
    requires
        k <= 7,
        no_score() < lo,
        forall|j: int|
            #![trigger centred_index(j)]
            0 <= j < k && is_placeable(m, centred_index(j)) ==> lo <= child_score(
                m,
                centred_index(j),
                d,
            ) <= hi,
    ensures
        best_child(m, d, k) == no_score() || exists|j: int|
            #![trigger centred_index(j)]
            0 <= j < k && is_placeable(m, centred_index(j)) && best_child(m, d, k) == child_score(
                m,
                centred_index(j),
                d,
            ),
        best_child(m, d, k) == no_score() <==> forall|j: int|
            #![trigger centred_index(j)]
            0 <= j < k ==> !is_placeable(m, centred_index(j)),
        best_child(m, d, k) != no_score() ==> lo <= best_child(m, d, k) <= hi,
    decreases k,
{
    if k > 0 {
        lemma_best_child_attained(m, d, (k - 1) as nat, lo, hi);
        let c = centred_index(k - 1);
        if is_placeable(m, c) {
            assert(lo <= child_score(m, centred_index(k - 1), d) <= hi);
        }
    }
}

/// The value of a position lies between losing and winning on the next move,
/// and so does every child score.
pub proof fn lemma_value_bounds_rec(m: Seq<Seq<Token>>, d: nat)
    requires
        wf_cols(m),
        d == remaining(m),
    ensures
        will_lose_eval(num_moves(m)) <= value_rec(m, d) <= will_win_eval(num_moves(m)),
        forall|c: int|
            #[trigger] is_placeable(m, c) ==> will_lose_eval(num_moves(m)) <= child_score(m, c, d)
                <= will_win_eval(num_moves(m)),
    decreases d,
{
    lemma_num_moves_bounds(m);
    let n = num_moves(m);
    if d == 0 {
        assert forall|c: int| #[trigger] is_placeable(m, c) implies will_lose_eval(n) <= child_score(
            m,
            c,
            d,
        ) <= will_win_eval(n) by {
            assert(false);
        }
    } else {
        assert forall|c: int| #[trigger] is_placeable(m, c) implies will_lose_eval(n) <= child_score(
            m,
            c,
            d,
        ) <= will_win_eval(n) by {
            let t = curr_token(n);
            let m2 = placed_cols(m, c, t);
            lemma_placed(m, c, t);
            lemma_value_bounds_rec(m2, (d - 1) as nat);
        }
        lemma_best_child_attained(m, d, 7, will_lose_eval(n), will_win_eval(n));
        let c = lemma_not_full(m);
        let j = lemma_centred_onto(c);
        lemma_best_child_ge(m, d, 7, j);
    }
}

/// The value of a position lies between losing and winning on the next move.
pub proof fn lemma_value_bounds(m: Seq<Seq<Token>>)
    requires
        wf_cols(m),
    ensures
        will_lose_eval(num_moves(m)) <= value(m) <= will_win_eval(num_moves(m)),
        forall|c: int|
            #[trigger] is_placeable(m, c) ==> will_lose_eval(num_moves(m)) <= child_score(
                m,
                c,
                remaining(m),
            ) <= will_win_eval(num_moves(m)),
{
    lemma_value_bounds_rec(m, remaining(m));
}

/// A position that is not full has as value the largest of its child scores.
pub proof fn lemma_value_is_max(m: Seq<Seq<Token>>)
    requires
        wf_cols(m),
        num_moves(m) < max_moves(),
    ensures
        forall|c: int| #[trigger] is_placeable(m, c) ==> child_score(m, c, remaining(m)) <= value(m),
        exists|c: int| #[trigger] is_placeable(m, c) && child_score(m, c, remaining(m)) == value(m),
{
    let d = remaining(m);
    lemma_num_moves_bounds(m);
    lemma_value_bounds(m);
    assert forall|c: int| #[trigger] is_placeable(m, c) implies child_score(m, c, d) <= value(m) by {
        let j = lemma_centred_onto(c);
        lemma_best_child_ge(m, d, 7, j);
    }
    let n = num_moves(m);
    lemma_best_child_attained(m, d, 7, will_lose_eval(n), will_win_eval(n));
    let c0 = lemma_not_full(m);
    let j0 = lemma_centred_onto(c0);
    assert(!(forall|j: int| #![trigger centred_index(j)] 0 <= j < 7 ==> !is_placeable(m, centred_index(j))));
    let j = choose|j: int|
        #![trigger centred_index(j)]
        0 <= j < 7 && is_placeable(m, centred_index(j)) && best_child(m, d, 7) == child_score(
            m,
            centred_index(j),
            d,
        );
    lemma_centred_index(j);
    assert(is_placeable(m, centred_index(j)));
}

} // verus!

verus! {

/// A direction reflected left to right.
pub open spec fn mirror_dir(d: crate::basic::Dir) -> crate::basic::Dir {
    match d {
        crate::basic::Dir::Up => crate::basic::Dir::Up,
        crate::basic::Dir::Down => crate::basic::Dir::Down,
        crate::basic::Dir::Left => crate::basic::Dir::Right,
        crate::basic::Dir::Right => crate::basic::Dir::Left,
        crate::basic::Dir::RightUp => crate::basic::Dir::LeftUp,
        crate::basic::Dir::LeftDown => crate::basic::Dir::RightDown,
        crate::basic::Dir::RightDown => crate::basic::Dir::LeftDown,
        crate::basic::Dir::LeftUp => crate::basic::Dir::RightUp,
    }
}

/// Mirroring keeps a board well formed, keeps its number of moves, and undoes itself.
pub proof fn lemma_mirror_cols(m: Seq<Seq<Token>>)
    requires
        wf_cols(m),
    ensures
        wf_cols(crate::board::model::mirror_cols(m)),
        num_moves(crate::board::model::mirror_cols(m)) == num_moves(m),
        crate::board::model::mirror_cols(crate::board::model::mirror_cols(m)) == m,
        remaining(crate::board::model::mirror_cols(m)) == remaining(m),
{
    let mm = crate::board::model::mirror_cols(m);
    reveal_with_fuel(moves_upto, 8);
    assert(crate::board::model::mirror_cols(mm) =~= m);
}

/// Looking from a cell of the mirrored board is looking from the mirrored
/// cell of the board in the mirrored direction.
pub proof fn lemma_mirror_run(
    m: Seq<Seq<Token>>,
    c: int,
    r: int,
    d: crate::basic::Dir,
    t: Token,
    k: nat,
)
    requires
        wf_cols(m),
    ensures
        crate::board::model::run(crate::board::model::mirror_cols(m), c, r, d, t, k)
            == crate::board::model::run(m, 6 - c, r, mirror_dir(d), t, k),
    decreases k,
{
    if k > 0 {
        lemma_mirror_run(m, c, r, d, t, (k - 1) as nat);
        let mm = crate::board::model::mirror_cols(m);
        let c1 = crate::basic::step_col(c, d, k as int);
        let r1 = crate::basic::step_row(r, d, k as int);
        let a = crate::basic::dir_offsets(d).0;
        let b = crate::basic::dir_offsets(mirror_dir(d)).0;
        assert(b == -a);
        assert(crate::basic::dir_offsets(mirror_dir(d)).1 == crate::basic::dir_offsets(d).1);
        assert(b * (k as int) == -(a * (k as int))) by (nonlinear_arith)
            requires
                b == -a,
        ;
        assert(crate::basic::step_col(6 - c, mirror_dir(d), k as int) == 6 - c1);
        assert(crate::basic::step_row(r, mirror_dir(d), k as int) == r1);
        assert(crate::board::model::token_at(mm, c1, r1) == crate::board::model::token_at(
            m,
            6 - c1,
            r1,
        ));
    }
}

/// A move wins on the mirrored board exactly when the mirrored move wins on the board.
pub proof fn lemma_mirror_wins(m: Seq<Seq<Token>>, c: int, r: int, t: Token)
    requires
        wf_cols(m),
    ensures
        crate::board::model::wins_at(crate::board::model::mirror_cols(m), c, r, t)
            == crate::board::model::wins_at(m, 6 - c, r, t),
{
    lemma_mirror_run(m, c, r, crate::basic::Dir::Left, t, 3);
    lemma_mirror_run(m, c, r, crate::basic::Dir::Right, t, 3);
    lemma_mirror_run(m, c, r, crate::basic::Dir::Down, t, 3);
    lemma_mirror_run(m, c, r, crate::basic::Dir::LeftDown, t, 3);
    lemma_mirror_run(m, c, r, crate::basic::Dir::RightUp, t, 3);
    lemma_mirror_run(m, c, r, crate::basic::Dir::RightDown, t, 3);
    lemma_mirror_run(m, c, r, crate::basic::Dir::LeftUp, t, 3);
}

/// Mirror images have the same value, and mirrored moves the same score.
pub proof fn lemma_mirror_value_rec(m: Seq<Seq<Token>>, d: nat)
    requires
        wf_cols(m),
        d == remaining(m),
    ensures
        value_rec(crate::board::model::mirror_cols(m), d) == value_rec(m, d),
        forall|c: int|
            #[trigger] is_placeable(crate::board::model::mirror_cols(m), c) ==> child_score(
                crate::board::model::mirror_cols(m),
                c,
                d,
            ) == child_score(m, 6 - c, d),
    decreases d,
{
    let mm = crate::board::model::mirror_cols(m);
    lemma_mirror_cols(m);
    let n = num_moves(m);
    assert forall|c: int| #[trigger] is_placeable(mm, c) implies child_score(mm, c, d)
        == child_score(m, 6 - c, d) by {
        if d > 0 {
            let t = curr_token(n);
            let m2 = placed_cols(m, 6 - c, t);
            lemma_placed(m, 6 - c, t);
            assert(placed_cols(mm, c, t) =~= crate::board::model::mirror_cols(m2));
            lemma_mirror_wins(m2, c, m[6 - c].len() as int, t);
            lemma_mirror_value_rec(m2, (d - 1) as nat);
        }
    }
    if d > 0 {
        lemma_num_moves_bounds(m);
        lemma_value_is_max(m);
        lemma_value_is_max(mm);
        let c0 = choose|c: int| #[trigger] is_placeable(m, c) && child_score(m, c, remaining(m)) == value(m);
        assert(is_placeable(mm, 6 - c0));
        let c1 = choose|c: int| #[trigger] is_placeable(mm, c) && child_score(mm, c, remaining(mm)) == value(mm);
        assert(is_placeable(m, 6 - c1));
    }
}

/// Mirror images have the same value.
pub proof fn lemma_mirror_value(m: Seq<Seq<Token>>)
    requires
        wf_cols(m),
    ensures
        value(crate::board::model::mirror_cols(m)) == value(m),
{
    lemma_mirror_cols(m);
    lemma_mirror_value_rec(m, remaining(m));
}

} // verus!

verus! {

/// Everything about the child reached by the player to move dropping into `c`:
/// it is well formed with one more move, its value is within the bounds,
/// and the child score is the win score or minus the child's value.
pub proof fn lemma_child(m: Seq<Seq<Token>>, c: int)
    requires
        wf_cols(m),
        is_placeable(m, c),
    ensures
        wf_cols(placed_cols(m, c, curr_token(num_moves(m)))),
        num_moves(placed_cols(m, c, curr_token(num_moves(m)))) == num_moves(m) + 1,
        remaining(placed_cols(m, c, curr_token(num_moves(m)))) == remaining(m) - 1,
        0 <= num_moves(m) < max_moves(),
        remaining(m) > 0,
        -21 <= value(placed_cols(m, c, curr_token(num_moves(m)))) <= 21,
        will_lose_eval(num_moves(m) + 1) <= value(placed_cols(m, c, curr_token(num_moves(m))))
            <= will_win_eval(num_moves(m) + 1),
        crate::board::model::just_won_eval(num_moves(m) + 1) == will_win_eval(num_moves(m)),
        child_score(m, c, remaining(m)) == if crate::board::model::wins_at(
            placed_cols(m, c, curr_token(num_moves(m))),
            c,
            m[c].len() as int,
            curr_token(num_moves(m)),
        ) {
            crate::board::model::just_won_eval(num_moves(m) + 1)
        } else {
            -value(placed_cols(m, c, curr_token(num_moves(m))))
        },
        will_lose_eval(num_moves(m)) <= child_score(m, c, remaining(m)) <= will_win_eval(
            num_moves(m),
        ),
        will_lose_eval(num_moves(m)) <= value(m) <= will_win_eval(num_moves(m)),
        child_score(m, c, remaining(m)) <= value(m),
        -21 <= will_lose_eval(num_moves(m)) <= 0 <= will_win_eval(num_moves(m)) <= 21,
{
    let t = curr_token(num_moves(m));
    lemma_placed(m, c, t);
    lemma_num_moves_bounds(m);
    lemma_num_moves_bounds(placed_cols(m, c, t));
    lemma_value_bounds(placed_cols(m, c, t));
    lemma_value_bounds(m);
    lemma_value_is_max(m);
}

/// One more column of the centred order either updates the best child or not.
pub proof fn lemma_best_child_step(m: Seq<Seq<Token>>, d: nat, i: nat)
    requires
        i < 7,
    ensures
        best_child(m, d, i + 1) == if is_placeable(m, centred_index(i as int)) {
            if child_score(m, centred_index(i as int), d) > best_child(m, d, i) {
                child_score(m, centred_index(i as int), d)
            } else {
                best_child(m, d, i)
            }
        } else {
            best_child(m, d, i)
        },
{
}

} // verus!
