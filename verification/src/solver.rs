//! The symmetry-reduced single-board solver: exact counts of X-win and O-win
//! terminal leaves under exhaustive alternating play on one 3x3 board,
//! deduplicating states under the 8-element symmetry group of the square.

use vstd::prelude::*;

use crate::board::{
    Board, Player, Square, board_winner, count_empty, empty_board_seq, has_win, is_board_won,
    lemma_open_cells_props, lemma_winner_has_win, lemma_winner_none_iff, lemma_winner_unique,
    open_board_squares, open_cells,
};

verus! {

/// X's token.
pub const X_TOKEN: u8 = 88;

/// O's token.
pub const O_TOKEN: u8 = 79;

/// The state of one 3x3 board analyzed in isolation: the board and whose
/// turn it is.
#[derive(Copy, Clone, PartialEq, Eq, Hash, Debug)]
pub struct SingleBoardState {
    pub board: Board,
    pub x_is_next: bool,
}

/// The token the player to move places.
pub open spec fn token_of(x_is_next: bool) -> Player {
    if x_is_next {
        X_TOKEN
    } else {
        O_TOKEN
    }
}

/// Every occupied square holds X's or O's token.
pub open spec fn cells_valid(b: Seq<Square>) -> bool {
    forall|i: int|
        0 <= i < 9 ==> (b[i] is None || b[i] == Some(X_TOKEN) || b[i] == Some(O_TOKEN))
}

/// An exact pair of terminal-leaf counts below some position: in how many of
/// the complete play sequences X is the eventual winner, and in how many O is.
pub ghost struct ScorePair {
    pub x: nat,
    pub o: nat,
}

/// The exact win counts of a position under exhaustive alternating play:
/// a board won by X or O is one terminal leaf for that player; any other
/// board scores the component-wise sum, over its open squares, of the counts
/// one move deeper. A full board without a winner contributes nothing.
pub open spec fn score(b: Seq<Square>, x_is_next: bool) -> ScorePair
    decreases count_empty(b), 10int,
{
    if board_winner(b) == Some(X_TOKEN) {
        ScorePair { x: 1, o: 0 }
    } else if board_winner(b) == Some(O_TOKEN) {
        ScorePair { x: 0, o: 1 }
    } else {
        score_sum(b, x_is_next, 9)
    }
}

/// The component-wise sum of `score` one move deeper, over the open squares
/// among the first `k` cells.
pub open spec fn score_sum(b: Seq<Square>, x_is_next: bool, k: int) -> ScorePair
    decreases count_empty(b), k,
{
    if k <= 0 || k > 9 || b.len() != 9 {
        ScorePair { x: 0, o: 0 }
    } else {
        let rest = score_sum(b, x_is_next, k - 1);
        if b[k - 1] is None {
            let sub = score(b.update(k - 1, Some(token_of(x_is_next))), !x_is_next);
            ScorePair { x: rest.x + sub.x, o: rest.o + sub.o }
        } else {
            rest
        }
    }
}

/// The number of terminal leaves below a position: every decided or full
/// board is one leaf; any other board sums the counts one move deeper.
pub open spec fn leaves(b: Seq<Square>, x_is_next: bool) -> nat
    decreases count_empty(b), 10int,
{
    if board_winner(b) == Some(X_TOKEN) || board_winner(b) == Some(O_TOKEN) {
        1
    } else if count_empty(b) == 0 {
        1
    } else {
        leaves_sum(b, x_is_next, 9)
    }
}

/// The sum of `leaves` one move deeper, over the open squares among the
/// first `k` cells.
pub open spec fn leaves_sum(b: Seq<Square>, x_is_next: bool, k: int) -> nat
    decreases count_empty(b), k,
{
    if k <= 0 || k > 9 || b.len() != 9 {
        0
    } else {
        leaves_sum(b, x_is_next, k - 1) + if b[k - 1] is None {
            leaves(b.update(k - 1, Some(token_of(x_is_next))), !x_is_next)
        } else {
            0
        }
    }
}

/// Nine to the `e`-th power: a coarse upper bound on leaf counts.
pub open spec fn pow9(e: nat) -> nat
    decreases e,
{
    if e == 0 {
        1
    } else {
        9 * pow9((e - 1) as nat)
    }
}

/// `pow9` is at least one and monotone.
pub proof fn lemma_pow9_mono(e1: nat, e2: nat)
    requires
        e1 <= e2,
    ensures
        1 <= pow9(e1) <= pow9(e2),
    decreases e2,
{
    if e2 > 0 {
        if e1 == e2 {
            lemma_pow9_mono(0, (e2 - 1) as nat);
        } else {
            lemma_pow9_mono(e1, (e2 - 1) as nat);
        }
    }
}

/// Filling an open square leaves one open square fewer.
pub proof fn lemma_count_empty_update(b: Seq<Square>, j: int, v: Square)
    requires
        b.len() == 9,
        0 <= j < 9,
        b[j] is None,
        v is Some,
    ensures
        count_empty(b.update(j, v)) == count_empty(b) - 1,
{
}

/// Score components are bounded by nine to the number of open squares.
pub proof fn lemma_score_bound(b: Seq<Square>, x_is_next: bool)
    requires
        b.len() == 9,
    ensures
        score(b, x_is_next).x + score(b, x_is_next).o <= pow9(count_empty(b)),
    decreases count_empty(b), 10int,
{
    lemma_pow9_mono(0, count_empty(b));
    if board_winner(b) == Some(X_TOKEN) || board_winner(b) == Some(O_TOKEN) {
    } else {
        lemma_score_sum_bound(b, x_is_next, 9);
        if count_empty(b) > 0 {
            assert(9 * pow9((count_empty(b) - 1) as nat) == pow9(count_empty(b)));
        }
    }
}

/// Partial score sums are bounded by `k` times the per-branch bound.
pub proof fn lemma_score_sum_bound(b: Seq<Square>, x_is_next: bool, k: int)
    requires
        b.len() == 9,
        0 <= k <= 9,
    ensures
        count_empty(b) > 0 ==> score_sum(b, x_is_next, k).x + score_sum(b, x_is_next, k).o <= k
            * pow9((count_empty(b) - 1) as nat),
        count_empty(b) == 0 ==> score_sum(b, x_is_next, k) == (ScorePair { x: 0, o: 0 }),
    decreases count_empty(b), k,
{
    if k > 0 {
        lemma_score_sum_bound(b, x_is_next, k - 1);
        let e = count_empty(b);
        let p = pow9((e - 1) as nat);
        if b[k - 1] is None {
            let child = b.update(k - 1, Some(token_of(x_is_next)));
            lemma_count_empty_update(b, k - 1, Some(token_of(x_is_next)));
            lemma_score_bound(child, !x_is_next);
            assert((k - 1) * p + p == k * p) by (nonlinear_arith);
        } else {
            if e > 0 {
                assert((k - 1) * p <= k * p) by (nonlinear_arith)
                    requires
                        p >= 0,
                        k >= 1,
                ;
            }
        }
    }
}

/// Leaf counts are bounded by nine to the number of open squares.
pub proof fn lemma_leaves_bound(b: Seq<Square>, x_is_next: bool)
    requires
        b.len() == 9,
    ensures
        leaves(b, x_is_next) <= pow9(count_empty(b)),
    decreases count_empty(b), 10int,
{
    lemma_pow9_mono(0, count_empty(b));
    if board_winner(b) == Some(X_TOKEN) || board_winner(b) == Some(O_TOKEN) {
    } else if count_empty(b) == 0 {
    } else {
        lemma_leaves_sum_bound(b, x_is_next, 9);
        assert(9 * pow9((count_empty(b) - 1) as nat) == pow9(count_empty(b)));
    }
}

/// Partial leaf sums are bounded by `k` times the per-branch bound.
pub proof fn lemma_leaves_sum_bound(b: Seq<Square>, x_is_next: bool, k: int)
    requires
        b.len() == 9,
        0 <= k <= 9,
        count_empty(b) > 0,
    ensures
        leaves_sum(b, x_is_next, k) <= k * pow9((count_empty(b) - 1) as nat),
    decreases count_empty(b), k,
{
    if k > 0 {
        lemma_leaves_sum_bound(b, x_is_next, k - 1);
        let e = count_empty(b);
        let p = pow9((e - 1) as nat);
        if b[k - 1] is None {
            let child = b.update(k - 1, Some(token_of(x_is_next)));
            lemma_count_empty_update(b, k - 1, Some(token_of(x_is_next)));
            lemma_leaves_bound(child, !x_is_next);
            assert((k - 1) * p + p == k * p) by (nonlinear_arith);
        } else {
            assert((k - 1) * p <= k * p) by (nonlinear_arith)
                requires
                    p >= 0,
                    k >= 1,
            ;
        }
    }
}

/// Where each square of the `t`-th symmetry image comes from: square `i` of
/// the image holds square `perm_seq(t)[i]` of the original. The eight
/// transforms are the dihedral group of the square: the identity, the three
/// rotations, and the four reflections.
pub open spec fn perm_seq(t: int) -> Seq<int> {
    if t == 1 {
        seq![6int, 3, 0, 7, 4, 1, 8, 5, 2]
    } else if t == 2 {
        seq![8int, 7, 6, 5, 4, 3, 2, 1, 0]
    } else if t == 3 {
        seq![2int, 5, 8, 1, 4, 7, 0, 3, 6]
    } else if t == 4 {
        seq![2int, 1, 0, 5, 4, 3, 8, 7, 6]
    } else if t == 5 {
        seq![8int, 5, 2, 7, 4, 1, 6, 3, 0]
    } else if t == 6 {
        seq![6int, 7, 8, 3, 4, 5, 0, 1, 2]
    } else if t == 7 {
        seq![0int, 3, 6, 1, 4, 7, 2, 5, 8]
    } else {
        seq![0int, 1, 2, 3, 4, 5, 6, 7, 8]
    }
}

/// The `t`-th symmetry image of a board.
pub open spec fn transform_board(b: Seq<Square>, t: int) -> Seq<Square> {
    Seq::new(9, |i: int| b[perm_seq(t)[i]])
}

/// Each symmetry is a permutation of the nine squares.
pub proof fn lemma_perm_bij(t: int)
    requires
        0 <= t < 8,
    ensures
        forall|i: int| 0 <= i < 9 ==> 0 <= #[trigger] perm_seq(t)[i] < 9,
        forall|i: int, j: int|
            0 <= i < 9 && 0 <= j < 9 && i != j ==> perm_seq(t)[i] != perm_seq(t)[j],
{
}

/// A symmetry maps each winning line onto a winning line, so it preserves
/// who has a win.
pub proof fn lemma_has_win_transform(b: Seq<Square>, t: int)
    requires
        b.len() == 9,
        0 <= t < 8,
    ensures
        forall|p: Player| has_win(transform_board(b, t), p) == has_win(b, p),
{
    assert forall|p: Player| has_win(transform_board(b, t), p) == has_win(b, p) by {
        let tb = transform_board(b, t);
        assert(forall|i: int| 0 <= i < 9 ==> tb[i] == b[perm_seq(t)[i]]);
    }
}

/// Placing a token commutes with a symmetry: transforming after the move
/// equals moving on the transformed board at the image square.
pub proof fn lemma_transform_update(b: Seq<Square>, t: int, i: int, v: Square)
    requires
        b.len() == 9,
        0 <= t < 8,
        0 <= i < 9,
    ensures
        transform_board(b.update(perm_seq(t)[i], v), t) == transform_board(b, t).update(i, v),
{
    lemma_perm_bij(t);
    assert(transform_board(b.update(perm_seq(t)[i], v), t) =~= transform_board(b, t).update(i, v));
}

/// At most one player has a completed line, and any completed line belongs
/// to X or to O. This holds of every state the solver can reach, and it is
/// what makes the reported winner independent of the scan order — and hence
/// stable under symmetry.
pub open spec fn win_unambiguous(b: Seq<Square>) -> bool {
    &&& forall|p: Player, q: Player| has_win(b, p) && has_win(b, q) ==> p == q
    &&& forall|p: Player| has_win(b, p) ==> p == X_TOKEN || p == O_TOKEN
}

/// A move on a board with no completed line can complete lines only for the
/// mover, so the child position is again unambiguous.
pub proof fn lemma_child_unambiguous(b: Seq<Square>, j: int, tok: Player)
    requires
        b.len() == 9,
        0 <= j < 9,
        forall|p: Player| !has_win(b, p),
        tok == X_TOKEN || tok == O_TOKEN,
    ensures
        forall|p: Player| has_win(b.update(j, Some(tok)), p) ==> p == tok,
        win_unambiguous(b.update(j, Some(tok))),
{
    let bu = b.update(j, Some(tok));
    assert forall|p: Player| has_win(bu, p) implies p == tok by {
        assert(!has_win(b, p));
    }
}

/// The contribution of playing at square `c`: the score one move deeper if
/// `c` is open, and nothing otherwise.
#[verifier::opaque]
pub open spec fn branch_score(b: Seq<Square>, x_is_next: bool, c: int) -> ScorePair {
    if 0 <= c < 9 && b.len() == 9 && b[c] is None {
        score(b.update(c, Some(token_of(x_is_next))), !x_is_next)
    } else {
        ScorePair { x: 0, o: 0 }
    }
}

/// The contribution of playing at square `c` to the leaf count.
#[verifier::opaque]
pub open spec fn branch_leaves(b: Seq<Square>, x_is_next: bool, c: int) -> nat {
    if 0 <= c < 9 && b.len() == 9 && b[c] is None {
        leaves(b.update(c, Some(token_of(x_is_next))), !x_is_next)
    } else {
        0
    }
}

/// The sum of `branch_score` over the first `k` squares of a list.
pub open spec fn score_over(b: Seq<Square>, x_is_next: bool, cells: Seq<int>, k: int) -> ScorePair
    decreases k,
{
    if k <= 0 {
        ScorePair { x: 0, o: 0 }
    } else {
        let rest = score_over(b, x_is_next, cells, k - 1);
        let tm = branch_score(b, x_is_next, cells[k - 1]);
        ScorePair { x: rest.x + tm.x, o: rest.o + tm.o }
    }
}

/// The sum of `branch_leaves` over the first `k` squares of a list.
pub open spec fn leaves_over(b: Seq<Square>, x_is_next: bool, cells: Seq<int>, k: int) -> nat
    decreases k,
{
    if k <= 0 {
        0
    } else {
        leaves_over(b, x_is_next, cells, k - 1) + branch_leaves(b, x_is_next, cells[k - 1])
    }
}

/// `score_sum` and `leaves_sum` are the square-list sums over `0, 1, .., k-1`.
proof fn lemma_sum_as_over(b: Seq<Square>, x_is_next: bool, k: int)
    requires
        b.len() == 9,
        0 <= k <= 9,
    ensures
        score_sum(b, x_is_next, k) == score_over(b, x_is_next, perm_seq(0), k),
        leaves_sum(b, x_is_next, k) == leaves_over(b, x_is_next, perm_seq(0), k),
    decreases k,
{
    reveal(branch_score);
    reveal(branch_leaves);
    if k > 0 {
        lemma_sum_as_over(b, x_is_next, k - 1);
        assert(perm_seq(0)[k - 1] == k - 1);
    }
}

/// Summing the transformed board's branches over some squares equals summing
/// the original board's branches over the image squares, provided each
/// branch scores the same as its image.
proof fn lemma_over_transform(b: Seq<Square>, x_is_next: bool, t: int, cells: Seq<int>, k: int)
    requires
        b.len() == 9,
        0 <= t < 8,
        0 <= k <= cells.len(),
        forall|i: int| 0 <= i < cells.len() ==> 0 <= #[trigger] cells[i] < 9,
        forall|i: int|
            0 <= i < 9 && transform_board(b, t)[i] is None ==> score(
                #[trigger] transform_board(b, t).update(i, Some(token_of(x_is_next))),
                !x_is_next,
            ) == score(b.update(perm_seq(t)[i], Some(token_of(x_is_next))), !x_is_next) && leaves(
                transform_board(b, t).update(i, Some(token_of(x_is_next))),
                !x_is_next,
            ) == leaves(b.update(perm_seq(t)[i], Some(token_of(x_is_next))), !x_is_next),
    ensures
        score_over(transform_board(b, t), x_is_next, cells, k) == score_over(
            b,
            x_is_next,
            Seq::new(cells.len(), |i: int| perm_seq(t)[cells[i]]),
            k,
        ),
        leaves_over(transform_board(b, t), x_is_next, cells, k) == leaves_over(
            b,
            x_is_next,
            Seq::new(cells.len(), |i: int| perm_seq(t)[cells[i]]),
            k,
        ),
    decreases k,
{
    reveal(branch_score);
    reveal(branch_leaves);
    lemma_perm_bij(t);
    let tb = transform_board(b, t);
    let mapped = Seq::new(cells.len(), |i: int| perm_seq(t)[cells[i]]);
    if k > 0 {
        lemma_over_transform(b, x_is_next, t, cells, k - 1);
        let c = cells[k - 1];
        assert(mapped[k - 1] == perm_seq(t)[c]);
        assert(tb[c] == b[perm_seq(t)[c]]);
        if tb[c] is None {
            assert(score(tb.update(c, Some(token_of(x_is_next))), !x_is_next) == score(
                b.update(perm_seq(t)[c], Some(token_of(x_is_next))),
                !x_is_next,
            ));
        }
        assert(branch_score(tb, x_is_next, c) == branch_score(b, x_is_next, perm_seq(t)[c]));
        assert(branch_leaves(tb, x_is_next, c) == branch_leaves(b, x_is_next, perm_seq(t)[c]));
    }
}

/// Summing the branches over the squares in the order a symmetry lists them
/// gives the same totals as summing them in ascending order: addition does
/// not care about the order of the nine branches.
#[verifier::rlimit(100)]
#[verifier::spinoff_prover]
proof fn lemma_over_perm(b: Seq<Square>, x_is_next: bool, t: int)
    requires
        b.len() == 9,
        0 <= t < 8,
    ensures
        score_over(b, x_is_next, perm_seq(t), 9) == score_over(b, x_is_next, perm_seq(0), 9),
        leaves_over(b, x_is_next, perm_seq(t), 9) == leaves_over(b, x_is_next, perm_seq(0), 9),
{
    reveal_with_fuel(score_over, 11);
    reveal_with_fuel(leaves_over, 11);
    if t == 1 {
        assert(score_over(b, x_is_next, perm_seq(1), 9) == score_over(b, x_is_next, perm_seq(0), 9));
        assert(leaves_over(b, x_is_next, perm_seq(1), 9) == leaves_over(
            b,
            x_is_next,
            perm_seq(0),
            9,
        ));
    } else if t == 2 {
        assert(score_over(b, x_is_next, perm_seq(2), 9) == score_over(b, x_is_next, perm_seq(0), 9));
        assert(leaves_over(b, x_is_next, perm_seq(2), 9) == leaves_over(
            b,
            x_is_next,
            perm_seq(0),
            9,
        ));
    } else if t == 3 {
        assert(score_over(b, x_is_next, perm_seq(3), 9) == score_over(b, x_is_next, perm_seq(0), 9));
        assert(leaves_over(b, x_is_next, perm_seq(3), 9) == leaves_over(
            b,
            x_is_next,
            perm_seq(0),
            9,
        ));
    } else if t == 4 {
        assert(score_over(b, x_is_next, perm_seq(4), 9) == score_over(b, x_is_next, perm_seq(0), 9));
        assert(leaves_over(b, x_is_next, perm_seq(4), 9) == leaves_over(
            b,
            x_is_next,
            perm_seq(0),
            9,
        ));
    } else if t == 5 {
        assert(score_over(b, x_is_next, perm_seq(5), 9) == score_over(b, x_is_next, perm_seq(0), 9));
        assert(leaves_over(b, x_is_next, perm_seq(5), 9) == leaves_over(
            b,
            x_is_next,
            perm_seq(0),
            9,
        ));
    } else if t == 6 {
        assert(score_over(b, x_is_next, perm_seq(6), 9) == score_over(b, x_is_next, perm_seq(0), 9));
        assert(leaves_over(b, x_is_next, perm_seq(6), 9) == leaves_over(
            b,
            x_is_next,
            perm_seq(0),
            9,
        ));
    } else if t == 7 {
        assert(score_over(b, x_is_next, perm_seq(7), 9) == score_over(b, x_is_next, perm_seq(0), 9));
        assert(leaves_over(b, x_is_next, perm_seq(7), 9) == leaves_over(
            b,
            x_is_next,
            perm_seq(0),
            9,
        ));
    }
}

/// A symmetry preserves the reported winner of any board on which wins are
/// unambiguous.
pub proof fn lemma_winner_transform(b: Seq<Square>, t: int)
    requires
        b.len() == 9,
        0 <= t < 8,
        win_unambiguous(b),
    ensures
        board_winner(transform_board(b, t)) == board_winner(b),
{
    let tb = transform_board(b, t);
    lemma_has_win_transform(b, t);
    lemma_winner_none_iff(b);
    lemma_winner_none_iff(tb);
    lemma_winner_has_win(b);
    if board_winner(b) is Some {
        let w = board_winner(b)->0;
        assert forall|q: Player| has_win(tb, q) implies q == w by {
            assert(has_win(b, q));
        }
        lemma_winner_unique(tb, w);
    }
}

/// Bridge: given that every branch of the transformed board scores as its
/// source branch, the per-board sums agree.
proof fn lemma_sum_transform_bridge(b: Seq<Square>, x_is_next: bool, t: int)
    requires
        b.len() == 9,
        0 <= t < 8,
        forall|i: int|
            0 <= i < 9 && transform_board(b, t)[i] is None ==> score(
                #[trigger] transform_board(b, t).update(i, Some(token_of(x_is_next))),
                !x_is_next,
            ) == score(b.update(perm_seq(t)[i], Some(token_of(x_is_next))), !x_is_next) && leaves(
                transform_board(b, t).update(i, Some(token_of(x_is_next))),
                !x_is_next,
            ) == leaves(b.update(perm_seq(t)[i], Some(token_of(x_is_next))), !x_is_next),
    ensures
        score_sum(transform_board(b, t), x_is_next, 9) == score_sum(b, x_is_next, 9),
        leaves_sum(transform_board(b, t), x_is_next, 9) == leaves_sum(b, x_is_next, 9),
{
    let tb = transform_board(b, t);
    lemma_sum_as_over(b, x_is_next, 9);
    lemma_sum_as_over(tb, x_is_next, 9);
    lemma_over_transform(b, x_is_next, t, perm_seq(0), 9);
    assert(Seq::new(perm_seq(0).len(), |i: int| perm_seq(t)[perm_seq(0)[i]]) =~= perm_seq(t));
    lemma_over_perm(b, x_is_next, t);
}

/// A symmetry preserves the number of open squares.
#[verifier::spinoff_prover]
pub proof fn lemma_count_transform(b: Seq<Square>, t: int)
    requires
        b.len() == 9,
        0 <= t < 8,
    ensures
        count_empty(transform_board(b, t)) == count_empty(b),
{
    if t == 1 {
        assert(count_empty(transform_board(b, 1)) == count_empty(b));
    } else if t == 2 {
        assert(count_empty(transform_board(b, 2)) == count_empty(b));
    } else if t == 3 {
        assert(count_empty(transform_board(b, 3)) == count_empty(b));
    } else if t == 4 {
        assert(count_empty(transform_board(b, 4)) == count_empty(b));
    } else if t == 5 {
        assert(count_empty(transform_board(b, 5)) == count_empty(b));
    } else if t == 6 {
        assert(count_empty(transform_board(b, 6)) == count_empty(b));
    } else if t == 7 {
        assert(count_empty(transform_board(b, 7)) == count_empty(b));
    } else {
        assert(count_empty(transform_board(b, 0)) == count_empty(b));
    }
}

/// Symmetry invariance of the exact counts: every one of the eight
/// transforms of a board has the same score and the same number of terminal
/// leaves as the board itself, whoever is to move. This is what lets the
/// solver reuse a memoized result for any symmetry-equivalent state.
pub proof fn lemma_score_transform(b: Seq<Square>, x_is_next: bool, t: int)
    requires
        b.len() == 9,
        0 <= t < 8,
        win_unambiguous(b),
    ensures
        score(transform_board(b, t), x_is_next) == score(b, x_is_next),
        leaves(transform_board(b, t), x_is_next) == leaves(b, x_is_next),
    decreases count_empty(b),
{
    let tb = transform_board(b, t);
    lemma_perm_bij(t);
    lemma_winner_transform(b, t);
    lemma_count_transform(b, t);
    lemma_winner_has_win(b);
    if board_winner(b) is Some {
        let w = board_winner(b)->0;
        assert(w == X_TOKEN || w == O_TOKEN);
    } else {
        lemma_winner_none_iff(b);
        let tok = token_of(x_is_next);
        assert forall|i: int| 0 <= i < 9 && tb[i] is None implies score(
            #[trigger] tb.update(i, Some(tok)),
            !x_is_next,
        ) == score(b.update(perm_seq(t)[i], Some(tok)), !x_is_next) && leaves(
            tb.update(i, Some(tok)),
            !x_is_next,
        ) == leaves(b.update(perm_seq(t)[i], Some(tok)), !x_is_next) by {
            lemma_transform_update(b, t, i, Some(tok));
            lemma_child_unambiguous(b, perm_seq(t)[i], tok);
            lemma_count_empty_update(b, perm_seq(t)[i], Some(tok));
            lemma_score_transform(b.update(perm_seq(t)[i], Some(tok)), !x_is_next, t);
        }
        lemma_sum_transform_bridge(b, x_is_next, t);
    }
}

/// Rotate a board a quarter turn clockwise.
fn rotate_clockwise(b: Board) -> (r: Board)
    ensures
        r@ == transform_board(b@, 1),
{
    let r: Board = [b[6], b[3], b[0], b[7], b[4], b[1], b[8], b[5], b[2]];
    proof {
        assert(r@ =~= transform_board(b@, 1));
    }
    r
}

/// Rotate a board a quarter turn counterclockwise.
fn rotate_counterclockwise(b: Board) -> (r: Board)
    ensures
        r@ == transform_board(b@, 3),
{
    let r: Board = [b[2], b[5], b[8], b[1], b[4], b[7], b[0], b[3], b[6]];
    proof {
        assert(r@ =~= transform_board(b@, 3));
    }
    r
}

/// Mirror a board left-to-right.
fn horizontal_flip(b: Board) -> (r: Board)
    ensures
        r@ == transform_board(b@, 4),
{
    let r: Board = [b[2], b[1], b[0], b[5], b[4], b[3], b[8], b[7], b[6]];
    proof {
        assert(r@ =~= transform_board(b@, 4));
    }
    r
}

/// Mirror a board top-to-bottom.
fn vertical_flip(b: Board) -> (r: Board)
    ensures
        r@ == transform_board(b@, 6),
{
    let r: Board = [b[6], b[7], b[8], b[3], b[4], b[5], b[0], b[1], b[2]];
    proof {
        assert(r@ =~= transform_board(b@, 6));
    }
    r
}

/// The eight symmetry images of a board under the dihedral group of the
/// square: the identity, the three rotations, and the four reflections.
pub fn invariant_boards(board: Board) -> (r: [Board; 8])
    ensures
        forall|t: int| 0 <= t < 8 ==> #[trigger] r@[t]@ == transform_board(board@, t),
{
    let horiz_flipped = horizontal_flip(board);
    let r: [Board; 8] = [
        board,
        rotate_clockwise(board),
        vertical_flip(horiz_flipped),
        rotate_counterclockwise(board),
        horiz_flipped,
        rotate_clockwise(horiz_flipped),
        vertical_flip(board),
        rotate_counterclockwise(horiz_flipped),
    ];
    proof {
        assert(r@[0]@ =~= transform_board(board@, 0));
        assert(r@[2]@ =~= transform_board(board@, 2));
        assert(r@[5]@ =~= transform_board(board@, 5));
        assert(r@[7]@ =~= transform_board(board@, 7));
    }
    r
}

/// The eight symmetry-equivalent states of a single-board state: the
/// transformed boards, with the same player to move.
pub fn invariant_states(state: SingleBoardState) -> (r: [SingleBoardState; 8])
    ensures
        forall|t: int|
            0 <= t < 8 ==> #[trigger] r@[t].board@ == transform_board(state.board@, t)
                && r@[t].x_is_next == state.x_is_next,
{
    let boards = invariant_boards(state.board);
    [
        SingleBoardState { board: boards[0], x_is_next: state.x_is_next },
        SingleBoardState { board: boards[1], x_is_next: state.x_is_next },
        SingleBoardState { board: boards[2], x_is_next: state.x_is_next },
        SingleBoardState { board: boards[3], x_is_next: state.x_is_next },
        SingleBoardState { board: boards[4], x_is_next: state.x_is_next },
        SingleBoardState { board: boards[5], x_is_next: state.x_is_next },
        SingleBoardState { board: boards[6], x_is_next: state.x_is_next },
        SingleBoardState { board: boards[7], x_is_next: state.x_is_next },
    ]
}

/// Which single symmetry equals applying `t1`, then `t2`.
pub open spec fn compose_transform(t1: int, t2: int) -> int {
    seq![
        seq![0int, 1, 2, 3, 4, 5, 6, 7],
        seq![1int, 2, 3, 0, 7, 4, 5, 6],
        seq![2int, 3, 0, 1, 6, 7, 4, 5],
        seq![3int, 0, 1, 2, 5, 6, 7, 4],
        seq![4int, 5, 6, 7, 0, 1, 2, 3],
        seq![5int, 6, 7, 4, 3, 0, 1, 2],
        seq![6int, 7, 4, 5, 2, 3, 0, 1],
        seq![7int, 4, 5, 6, 1, 2, 3, 0],
    ][t1][t2]
}

/// Symmetry closure: applying any of the eight transforms to any member of a
/// board's symmetry set yields another member of the same set — the group is
/// closed under composition.
#[verifier::rlimit(100)]
#[verifier::spinoff_prover]
pub proof fn lemma_symmetry_closed(b: Seq<Square>, t1: int, t2: int)
    requires
        b.len() == 9,
        0 <= t1 < 8,
        0 <= t2 < 8,
    ensures
        0 <= compose_transform(t1, t2) < 8,
        transform_board(transform_board(b, t1), t2) == transform_board(
            b,
            compose_transform(t1, t2),
        ),
{
    if t1 == 0 {
        assert(transform_board(transform_board(b, t1), t2) =~= transform_board(
            b,
            compose_transform(t1, t2),
        ));
    } else if t1 == 1 {
        assert(transform_board(transform_board(b, t1), t2) =~= transform_board(
            b,
            compose_transform(t1, t2),
        ));
    } else if t1 == 2 {
        assert(transform_board(transform_board(b, t1), t2) =~= transform_board(
            b,
            compose_transform(t1, t2),
        ));
    } else if t1 == 3 {
        assert(transform_board(transform_board(b, t1), t2) =~= transform_board(
            b,
            compose_transform(t1, t2),
        ));
    } else if t1 == 4 {
        assert(transform_board(transform_board(b, t1), t2) =~= transform_board(
            b,
            compose_transform(t1, t2),
        ));
    } else if t1 == 5 {
        assert(transform_board(transform_board(b, t1), t2) =~= transform_board(
            b,
            compose_transform(t1, t2),
        ));
    } else if t1 == 6 {
        assert(transform_board(transform_board(b, t1), t2) =~= transform_board(
            b,
            compose_transform(t1, t2),
        ));
    } else {
        assert(transform_board(transform_board(b, t1), t2) =~= transform_board(
            b,
            compose_transform(t1, t2),
        ));
    }
}

impl SingleBoardState {
    /// Every occupied square holds X's or O's token.
    pub open spec fn valid(self) -> bool {
        cells_valid(self.board@)
    }

    /// The empty board, X to move.
    pub fn new() -> (r: Self)
        ensures
            r.board@ == empty_board_seq(),
            r.x_is_next == true,
            r.valid(),
    {
        let r = SingleBoardState { board: [None; 9], x_is_next: true };
        proof {
            assert(r.board@ =~= empty_board_seq());
        }
        r
    }

    /// Wrap an existing board.
    pub fn from_board(board: Board, x_is_next: bool) -> (r: Self)
        ensures
            r.board == board,
            r.x_is_next == x_is_next,
    {
        SingleBoardState { board, x_is_next }
    }

    /// Play at square `mov`: place the mover's token and pass the turn.
    pub fn apply(self, mov: usize) -> (r: Self)
        requires
            mov < 9,
            self.board@[mov as int] is None,
        ensures
            r.board@ == self.board@.update(mov as int, Some(token_of(self.x_is_next))),
            r.x_is_next == !self.x_is_next,
    {
        let mut s = self;
        s.board[mov] = Some(if s.x_is_next {
            X_TOKEN
        } else {
            O_TOKEN
        });
        s.x_is_next = !s.x_is_next;
        s
    }

    /// The states one move deeper, in ascending order of the square played.
    pub fn successors(self) -> (r: Vec<SingleBoardState>)
        ensures
            r@.len() == open_cells(self.board@).len(),
            forall|k: int|
                0 <= k < r@.len() ==> (#[trigger] r@[k]).board@ == self.board@.update(
                    open_cells(self.board@)[k] as int,
                    Some(token_of(self.x_is_next)),
                ) && r@[k].x_is_next == !self.x_is_next,
    {
        proof {
            lemma_open_cells_props(self.board@);
        }
        let cells = open_board_squares(self.board);
        let mut r: Vec<SingleBoardState> = Vec::new();
        let mut k: usize = 0;
        while k < cells.len()
            invariant
                k <= cells@.len(),
                cells@ == open_cells(self.board@),
                forall|j: int|
                    0 <= j < cells@.len() ==> 0 <= #[trigger] cells@[j] < 9
                        && self.board@[cells@[j] as int] is None,
                r@.len() == k,
                forall|j: int|
                    0 <= j < k ==> (#[trigger] r@[j]).board@ == self.board@.update(
                        cells@[j] as int,
                        Some(token_of(self.x_is_next)),
                    ) && r@[j].x_is_next == !self.x_is_next,
            decreases cells@.len() - k,
        {
            let succ = self.apply(cells[k]);
            r.push(succ);
            proof {
                assert(r@[k as int] == succ);
            }
            k += 1;
        }
        r
    }

    /// The winner of this board, if any.
    pub fn winner(&self) -> (r: Option<Player>)
        ensures
            r == board_winner(self.board@),
    {
        is_board_won(&self.board)
    }
}

/// The base-3 digit of one square: empty 0, an X token 1, anything else 2.
pub open spec fn square_digit(s: Square) -> int {
    if s is None {
        0
    } else if s == Some(X_TOKEN) {
        1
    } else {
        2
    }
}

/// The board read as a base-3 number, least-significant square first.
pub open spec fn board_code(b: Seq<Square>) -> int {
    square_digit(b[0]) + 3 * square_digit(b[1]) + 9 * square_digit(b[2]) + 27 * square_digit(b[3])
        + 81 * square_digit(b[4]) + 243 * square_digit(b[5]) + 729 * square_digit(b[6]) + 2187
        * square_digit(b[7]) + 6561 * square_digit(b[8])
}

/// A perfect index for a single-board state, below `39366 == 2 * 3^9`.
pub open spec fn state_code_spec(b: Seq<Square>, x_is_next: bool) -> int {
    board_code(b) * 2 + if x_is_next {
        1int
    } else {
        0int
    }
}

/// The base-3 digit of one square.
fn square_digit_of(s: Square) -> (d: usize)
    ensures
        d == square_digit(s),
        d <= 2,
{
    match s {
        None => 0,
        Some(p) => if p == X_TOKEN {
            1
        } else {
            2
        },
    }
}

/// The perfect index of a state.
fn state_code(s: &SingleBoardState) -> (c: usize)
    ensures
        c == state_code_spec(s.board@, s.x_is_next),
        c < 39366,
{
    let b = &s.board;
    let code = square_digit_of(b[0]) + 3 * square_digit_of(b[1]) + 9 * square_digit_of(b[2]) + 27
        * square_digit_of(b[3]) + 81 * square_digit_of(b[4]) + 243 * square_digit_of(b[5]) + 729
        * square_digit_of(b[6]) + 2187 * square_digit_of(b[7]) + 6561 * square_digit_of(b[8]);
    code * 2 + if s.x_is_next {
        1
    } else {
        0
    }
}

/// True exactly when the two states hold the same board and the same turn.
pub fn states_equal(a: &SingleBoardState, b: &SingleBoardState) -> (r: bool)
    ensures
        r == (a.board@ == b.board@ && a.x_is_next == b.x_is_next),
{
    if a.x_is_next != b.x_is_next {
        return false;
    }
    let mut i: usize = 0;
    while i < 9
        invariant
            i <= 9,
            forall|j: int| 0 <= j < i ==> a.board@[j] == b.board@[j],
        decreases 9 - i,
    {
        let same = match (a.board[i], b.board[i]) {
            (None, None) => true,
            (Some(p), Some(q)) => p == q,
            _ => false,
        };
        if !same {
            return false;
        }
        i += 1;
    }
    proof {
        assert(a.board@ =~= b.board@);
    }
    true
}

/// One memoized result: the state it is for and its exact win counts.
#[derive(Clone, Copy)]
pub struct ScoreEntry {
    pub state: SingleBoardState,
    pub x_wins: u32,
    pub o_wins: u32,
}

/// The solver's memo table: one slot per state index, each holding the state
/// it was filled for and that state's exact score.
pub struct ScoreTable {
    pub entries: Vec<Option<ScoreEntry>>,
}

impl ScoreTable {
    /// The table holds a result for exactly this state: the slot under the
    /// state's index is filled, and for it.
    pub open spec fn has_entry_for(self, b: Seq<Square>, x_is_next: bool) -> bool {
        match self.entries@[state_code_spec(b, x_is_next)] {
            Some(e) => e.state.board@ == b && e.state.x_is_next == x_is_next,
            None => false,
        }
    }

    /// Every stored entry records the exact score of the state it names.
    pub open spec fn wf(self) -> bool {
        &&& self.entries@.len() == 39366
        &&& forall|c: int|
            0 <= c < 39366 ==> match #[trigger] self.entries@[c] {
                Some(e) => (ScorePair { x: e.x_wins as nat, o: e.o_wins as nat }) == score(
                    e.state.board@,
                    e.state.x_is_next,
                ),
                None => true,
            }
    }

    /// An empty table.
    pub fn new() -> (r: ScoreTable)
        ensures
            r.wf(),
            forall|c: int| 0 <= c < 39366 ==> #[trigger] r.entries@[c] is None,
    {
        let mut entries: Vec<Option<ScoreEntry>> = Vec::new();
        let mut i: usize = 0;
        while i < 39366
            invariant
                i <= 39366,
                entries@.len() == i,
                forall|j: int| 0 <= j < i ==> #[trigger] entries@[j] is None,
            decreases 39366 - i,
        {
            entries.push(None);
            i += 1;
        }
        proof {
            assert(forall|c: int| 0 <= c < 39366 ==> #[trigger] entries@[c] is None);
        }
        ScoreTable { entries }
    }

    /// The memoized score of exactly this state, if present; `None` exactly
    /// when no result for this state is stored.
    pub fn lookup(&self, s: &SingleBoardState) -> (r: Option<(u32, u32)>)
        requires
            self.wf(),
        ensures
            r matches Some(sc) ==> (ScorePair { x: sc.0 as nat, o: sc.1 as nat }) == score(
                s.board@,
                s.x_is_next,
            ),
            r is Some <==> self.has_entry_for(s.board@, s.x_is_next),
    {
        let c = state_code(s);
        match self.entries[c] {
            Some(e) => if states_equal(&e.state, s) {
                Some((e.x_wins, e.o_wins))
            } else {
                None
            },
            None => None,
        }
    }

    /// The memoized score of any of the eight symmetry-equivalent states, if
    /// one is present — sound because the score is symmetry-invariant — and
    /// `None` exactly when no member of the symmetry class is stored.
    pub fn lookup_equivalent(&self, s: &SingleBoardState) -> (r: Option<(u32, u32)>)
        requires
            self.wf(),
            win_unambiguous(s.board@),
        ensures
            r matches Some(sc) ==> (ScorePair { x: sc.0 as nat, o: sc.1 as nat }) == score(
                s.board@,
                s.x_is_next,
            ),
            r is Some <==> exists|t: int|
                0 <= t < 8 && self.has_entry_for(
                    #[trigger] transform_board(s.board@, t),
                    s.x_is_next,
                ),
    {
        let boards = invariant_boards(s.board);
        let mut t: usize = 0;
        while t < 8
            invariant
                t <= 8,
                self.wf(),
                win_unambiguous(s.board@),
                forall|u: int| 0 <= u < 8 ==> #[trigger] boards@[u]@ == transform_board(s.board@, u),
                forall|u: int|
                    0 <= u < t ==> !self.has_entry_for(
                        #[trigger] transform_board(s.board@, u),
                        s.x_is_next,
                    ),
            decreases 8 - t,
        {
            let cand = SingleBoardState::from_board(boards[t], s.x_is_next);
            if let Some(sc) = self.lookup(&cand) {
                proof {
                    lemma_score_transform(s.board@, s.x_is_next, t as int);
                    assert(self.has_entry_for(transform_board(s.board@, t as int), s.x_is_next));
                }
                return Some(sc);
            }
            t += 1;
        }
        None
    }

    /// Memoize the exact score of a state under its own index.
    pub fn store(&mut self, s: &SingleBoardState, x_wins: u32, o_wins: u32)
        requires
            old(self).wf(),
            (ScorePair { x: x_wins as nat, o: o_wins as nat }) == score(s.board@, s.x_is_next),
        ensures
            final(self).wf(),
            final(self).entries@[state_code_spec(s.board@, s.x_is_next)] matches Some(e)
                && e.state.board@ == s.board@ && e.state.x_is_next == s.x_is_next && e.x_wins
                == x_wins && e.o_wins == o_wins,
    {
        let c = state_code(s);
        self.entries[c] = Some(ScoreEntry { state: *s, x_wins, o_wins });
    }
}

/// Component-wise sum of two score pairs.
pub fn add_scores(a: (u32, u32), b: (u32, u32)) -> (r: (u32, u32))
    requires
        a.0 + b.0 <= u32::MAX,
        a.1 + b.1 <= u32::MAX,
    ensures
        r.0 == a.0 + b.0,
        r.1 == a.1 + b.1,
{
    (a.0 + b.0, a.1 + b.1)
}

/// The overflow headroom of one partial sum: at most nine branches, each
/// below nine to the eighth.
proof fn lemma_partial_sum_fits(b: Seq<Square>, x_is_next: bool, i: int)
    requires
        b.len() == 9,
        0 <= i < 9,
        b[i] is None,
    ensures
        score_sum(b, x_is_next, i).x + score(
            b.update(i, Some(token_of(x_is_next))),
            !x_is_next,
        ).x <= 387420489,
        score_sum(b, x_is_next, i).o + score(
            b.update(i, Some(token_of(x_is_next))),
            !x_is_next,
        ).o <= 387420489,
        score_sum(b, x_is_next, i).x + score_sum(b, x_is_next, i).o <= 387420489,
        leaves_sum(b, x_is_next, i) + leaves(b.update(i, Some(token_of(x_is_next))), !x_is_next)
            <= 387420489,
{
    let e = count_empty(b);
    let p = pow9((e - 1) as nat);
    let child = b.update(i, Some(token_of(x_is_next)));
    lemma_score_sum_bound(b, x_is_next, i);
    lemma_leaves_sum_bound(b, x_is_next, i);
    lemma_count_empty_update(b, i, Some(token_of(x_is_next)));
    lemma_score_bound(child, !x_is_next);
    lemma_leaves_bound(child, !x_is_next);
    lemma_pow9_mono((e - 1) as nat, 8);
    assert(pow9(9) == 387420489) by {
        reveal_with_fuel(pow9, 10);
    }
    assert(i * p + p <= 8 * p + p) by (nonlinear_arith)
        requires
            p >= 0,
            i <= 8,
    ;
    assert(9 * pow9(8) == pow9(9));
    assert(8 * p + p == 9 * p) by (nonlinear_arith);
    assert(9 * p <= 9 * pow9(8)) by (nonlinear_arith)
        requires
            p <= pow9(8),
    ;
}

/// One step of the memoized solve: the exact score of `state`. A decided
/// board is scored directly; otherwise the open squares are expanded, each
/// successor scored through any memoized symmetry-equivalent result before
/// recursing. The result is memoized under the state's own index.
pub fn recursive_step(state: SingleBoardState, table: &mut ScoreTable) -> (r: (u32, u32))
    requires
        old(table).wf(),
        state.valid(),
    ensures
        final(table).wf(),
        (ScorePair { x: r.0 as nat, o: r.1 as nat }) == score(state.board@, state.x_is_next),
        final(table).entries@[state_code_spec(state.board@, state.x_is_next)] matches Some(e)
            && e.state.board@ == state.board@ && e.state.x_is_next == state.x_is_next
            && e.x_wins == r.0 && e.o_wins == r.1,
    decreases count_empty(state.board@),
{
    let ghost b = state.board@;
    let w = is_board_won(&state.board);
    proof {
        lemma_winner_has_win(b);
    }
    let result: (u32, u32) = match w {
        Some(p) => if p == X_TOKEN {
            (1, 0)
        } else {
            (0, 1)
        },
        None => {
            proof {
                lemma_winner_none_iff(b);
            }
            let mut acc: (u32, u32) = (0, 0);
            let mut i: usize = 0;
            while i < 9
                invariant
                    i <= 9,
                    table.wf(),
                    state.valid(),
                    b == state.board@,
                    forall|p: Player| !has_win(b, p),
                    (ScorePair { x: acc.0 as nat, o: acc.1 as nat }) == score_sum(
                        b,
                        state.x_is_next,
                        i as int,
                    ),
                decreases 9 - i,
            {
                if state.board[i].is_none() {
                    let succ = state.apply(i);
                    proof {
                        lemma_child_unambiguous(b, i as int, token_of(state.x_is_next));
                        lemma_count_empty_update(b, i as int, Some(token_of(state.x_is_next)));
                        lemma_partial_sum_fits(b, state.x_is_next, i as int);
                    }
                    let sub = match table.lookup_equivalent(&succ) {
                        Some(sc) => sc,
                        None => recursive_step(succ, table),
                    };
                    acc = add_scores(acc, sub);
                }
                i += 1;
            }
            acc
        },
    };
    table.store(&state, result.0, result.1);
    result
}

/// Solve the empty board: memoize the exact score of every position the
/// symmetry-reduced recursion expands, and return the filled table. The
/// root's exact score stands in the table under the empty board's own index.
pub fn game_tree() -> (t: ScoreTable)
    ensures
        t.wf(),
        t.entries@[state_code_spec(empty_board_seq(), true)] matches Some(e)
            && e.state.board@ == empty_board_seq() && e.state.x_is_next
            && (ScorePair { x: e.x_wins as nat, o: e.o_wins as nat }) == score(
            empty_board_seq(),
            true,
        ),
{
    let mut table = ScoreTable::new();
    recursive_step(SingleBoardState::new(), &mut table);
    table
}

/// The exact (X-win, O-win) terminal-leaf counts for the empty board, X to
/// move, computed by the symmetry-reduced solver.
pub fn solve_single_board() -> (r: (u32, u32))
    ensures
        (ScorePair { x: r.0 as nat, o: r.1 as nat }) == score(empty_board_seq(), true),
{
    let mut table = ScoreTable::new();
    recursive_step(SingleBoardState::new(), &mut table)
}

/// The same counts as `recursive_step`, by plain exhaustive recursion over
/// the un-deduplicated game tree: no memo table and no symmetry reduction.
pub fn count_outcomes(state: SingleBoardState) -> (r: (u32, u32))
    requires
        state.valid(),
    ensures
        (ScorePair { x: r.0 as nat, o: r.1 as nat }) == score(state.board@, state.x_is_next),
    decreases count_empty(state.board@),
{
    let ghost b = state.board@;
    let w = is_board_won(&state.board);
    proof {
        lemma_winner_has_win(b);
    }
    match w {
        Some(p) => if p == X_TOKEN {
            (1, 0)
        } else {
            (0, 1)
        },
        None => {
            proof {
                lemma_winner_none_iff(b);
            }
            let mut acc: (u32, u32) = (0, 0);
            let mut i: usize = 0;
            while i < 9
                invariant
                    i <= 9,
                    state.valid(),
                    b == state.board@,
                    forall|p: Player| !has_win(b, p),
                    (ScorePair { x: acc.0 as nat, o: acc.1 as nat }) == score_sum(
                        b,
                        state.x_is_next,
                        i as int,
                    ),
                decreases 9 - i,
            {
                if state.board[i].is_none() {
                    let succ = state.apply(i);
                    proof {
                        lemma_child_unambiguous(b, i as int, token_of(state.x_is_next));
                        lemma_count_empty_update(b, i as int, Some(token_of(state.x_is_next)));
                        lemma_partial_sum_fits(b, state.x_is_next, i as int);
                    }
                    let sub = count_outcomes(succ);
                    acc = add_scores(acc, sub);
                }
                i += 1;
            }
            acc
        },
    }
}

/// The number of terminal leaves below a state — complete play sequences,
/// whoever wins them — by plain exhaustive recursion.
pub fn count_leaves(state: SingleBoardState) -> (r: u32)
    requires
        state.valid(),
    ensures
        r as nat == leaves(state.board@, state.x_is_next),
    decreases count_empty(state.board@),
{
    let ghost b = state.board@;
    let w = is_board_won(&state.board);
    proof {
        lemma_winner_has_win(b);
    }
    match w {
        Some(_) => 1,
        None => {
            proof {
                lemma_winner_none_iff(b);
            }
            if !crate::board::board_has_open_square(&state.board) {
                return 1;
            }
            let mut acc: u32 = 0;
            let mut i: usize = 0;
            while i < 9
                invariant
                    i <= 9,
                    state.valid(),
                    b == state.board@,
                    forall|p: Player| !has_win(b, p),
                    acc as nat == leaves_sum(b, state.x_is_next, i as int),
                decreases 9 - i,
            {
                if state.board[i].is_none() {
                    let succ = state.apply(i);
                    proof {
                        lemma_child_unambiguous(b, i as int, token_of(state.x_is_next));
                        lemma_count_empty_update(b, i as int, Some(token_of(state.x_is_next)));
                        lemma_partial_sum_fits(b, state.x_is_next, i as int);
                    }
                    let sub = count_leaves(succ);
                    acc = acc + sub;
                }
                i += 1;
            }
            acc
        },
    }
}

} // verus!
