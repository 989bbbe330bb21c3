//! Board primitives: the square / board / super-board value types and win
//! detection for a 3x3 grid.

use vstd::prelude::*;

verus! {

/// A player's token (a printable byte such as `b'X'`).
pub type Player = u8;

/// One square of a 3x3 board: empty or occupied by a player.
pub type Square = Option<Player>;

/// A 3x3 tic-tac-toe board in row-major order.
pub type Board = [Square; 9];

/// A 3x3 grid of sub-boards, row-major.
pub type SuperBoard = [Board; 9];

/// Most players a game can hold.
pub const MAX_PLAYERS: usize = 4;

/// Three cells all occupied by `p`.
pub open spec fn line_won_by(b: Seq<Square>, i: int, j: int, k: int, p: Player) -> bool {
    b[i] == Some(p) && b[j] == Some(p) && b[k] == Some(p)
}

/// Some winning line (3 rows, 3 columns, 2 diagonals) is fully occupied by `p`.
pub open spec fn has_win(b: Seq<Square>, p: Player) -> bool {
    ||| line_won_by(b, 0, 1, 2, p)
    ||| line_won_by(b, 3, 4, 5, p)
    ||| line_won_by(b, 6, 7, 8, p)
    ||| line_won_by(b, 0, 3, 6, p)
    ||| line_won_by(b, 1, 4, 7, p)
    ||| line_won_by(b, 2, 5, 8, p)
    ||| line_won_by(b, 0, 4, 8, p)
    ||| line_won_by(b, 2, 4, 6, p)
}

/// Winner of a single line: the occupant, if all three cells agree.
pub open spec fn line_winner(b: Seq<Square>, i: int, j: int, k: int) -> Option<Player> {
    if b[i] is Some && b[j] == b[i] && b[k] == b[i] {
        b[i]
    } else {
        None
    }
}

/// The first of two optional winners, in scan order.
pub open spec fn first_of(a: Option<Player>, b: Option<Player>) -> Option<Player> {
    if a is Some {
        a
    } else {
        b
    }
}

/// The winner a board reports: the first won line in a fixed scan order
/// (the three rows, then the three columns, then the two diagonals).
pub open spec fn board_winner(b: Seq<Square>) -> Option<Player> {
    first_of(
        line_winner(b, 0, 1, 2),
        first_of(
            line_winner(b, 3, 4, 5),
            first_of(
                line_winner(b, 6, 7, 8),
                first_of(
                    line_winner(b, 0, 3, 6),
                    first_of(
                        line_winner(b, 1, 4, 7),
                        first_of(
                            line_winner(b, 2, 5, 8),
                            first_of(line_winner(b, 0, 4, 8), line_winner(b, 2, 4, 6)),
                        ),
                    ),
                ),
            ),
        ),
    )
}

/// Every won line's occupant has a win on the board.
proof fn lemma_each_line_winner_has_win(b: Seq<Square>)
    ensures
        line_winner(b, 0, 1, 2) matches Some(q) ==> has_win(b, q),
        line_winner(b, 3, 4, 5) matches Some(q) ==> has_win(b, q),
        line_winner(b, 6, 7, 8) matches Some(q) ==> has_win(b, q),
        line_winner(b, 0, 3, 6) matches Some(q) ==> has_win(b, q),
        line_winner(b, 1, 4, 7) matches Some(q) ==> has_win(b, q),
        line_winner(b, 2, 5, 8) matches Some(q) ==> has_win(b, q),
        line_winner(b, 0, 4, 8) matches Some(q) ==> has_win(b, q),
        line_winner(b, 2, 4, 6) matches Some(q) ==> has_win(b, q),
{
}

/// A board reports no winner exactly when no line is fully occupied by any player.
pub proof fn lemma_winner_none_iff(b: Seq<Square>)
    ensures
        board_winner(b) is None <==> (forall|p: Player| !has_win(b, p)),
{
    lemma_each_line_winner_has_win(b);
}

/// A reported winner always owns a fully occupied line.
pub proof fn lemma_winner_has_win(b: Seq<Square>)
    ensures
        board_winner(b) matches Some(w) ==> has_win(b, w),
{
    lemma_each_line_winner_has_win(b);
}

/// If `p` owns a fully occupied line and no other player does, the board
/// reports `p` as winner, whatever else the board holds.
pub proof fn lemma_winner_unique(b: Seq<Square>, p: Player)
    requires
        has_win(b, p),
        forall|q: Player| has_win(b, q) ==> q == p,
    ensures
        board_winner(b) == Some(p),
{
    lemma_each_line_winner_has_win(b);
}

/// How many cells of the board are empty.
pub open spec fn count_empty(b: Seq<Square>) -> nat {
    (if b[0] is None {
        1nat
    } else {
        0nat
    }) + (if b[1] is None {
        1nat
    } else {
        0nat
    }) + (if b[2] is None {
        1nat
    } else {
        0nat
    }) + (if b[3] is None {
        1nat
    } else {
        0nat
    }) + (if b[4] is None {
        1nat
    } else {
        0nat
    }) + (if b[5] is None {
        1nat
    } else {
        0nat
    }) + (if b[6] is None {
        1nat
    } else {
        0nat
    }) + (if b[7] is None {
        1nat
    } else {
        0nat
    }) + (if b[8] is None {
        1nat
    } else {
        0nat
    })
}

/// The empty-cell indices at positions `k..9`, in ascending order.
pub open spec fn open_cells_from(b: Seq<Square>, k: int) -> Seq<usize>
    decreases 9 - k,
{
    if k < 0 || k >= 9 {
        Seq::empty()
    } else if b[k] is None {
        seq![k as usize] + open_cells_from(b, k + 1)
    } else {
        open_cells_from(b, k + 1)
    }
}

/// The empty-cell indices of the board, in ascending order.
pub open spec fn open_cells(b: Seq<Square>) -> Seq<usize> {
    open_cells_from(b, 0)
}

/// `open_cells_from` lists exactly the empty cells at `k..9`, strictly ascending.
pub proof fn lemma_open_cells_from_props(b: Seq<Square>, k: int)
    requires
        0 <= k <= 9,
    ensures
        forall|j: int|
            0 <= j < open_cells_from(b, k).len() ==> k <= #[trigger] open_cells_from(b, k)[j] < 9
                && b[open_cells_from(b, k)[j] as int] is None,
        forall|c: int| k <= c < 9 && b[c] is None ==> open_cells_from(b, k).contains(c as usize),
        forall|j1: int, j2: int|
            0 <= j1 < j2 < open_cells_from(b, k).len() ==> #[trigger] open_cells_from(b, k)[j1]
                < #[trigger] open_cells_from(b, k)[j2],
    decreases 9 - k,
{
    if k < 9 {
        lemma_open_cells_from_props(b, k + 1);
        assert forall|c: int| k <= c < 9 && b[c] is None implies open_cells_from(b, k).contains(
            c as usize,
        ) by {
            if c > k {
                assert(open_cells_from(b, k + 1).contains(c as usize));
                let j = choose|j: int|
                    0 <= j < open_cells_from(b, k + 1).len() && #[trigger] open_cells_from(
                        b,
                        k + 1,
                    )[j] == (c as usize);
                if b[k] is None {
                    assert(open_cells_from(b, k)[j + 1] == (c as usize));
                } else {
                    assert(open_cells_from(b, k)[j] == (c as usize));
                }
            } else {
                assert(open_cells_from(b, k)[0] == (c as usize));
            }
        }
    }
}

/// Same facts for the full list of open cells.
pub proof fn lemma_open_cells_props(b: Seq<Square>)
    ensures
        forall|j: int|
            0 <= j < open_cells(b).len() ==> 0 <= #[trigger] open_cells(b)[j] < 9
                && b[open_cells(b)[j] as int] is None,
        forall|c: int| 0 <= c < 9 && b[c] is None ==> open_cells(b).contains(c as usize),
        forall|j1: int, j2: int|
            0 <= j1 < j2 < open_cells(b).len() ==> #[trigger] open_cells(b)[j1]
                < #[trigger] open_cells(b)[j2],
{
    lemma_open_cells_from_props(b, 0);
}

/// The sub-board winners of a super-board, as a derived 3x3 meta-board.
/// A drawn (full, unwon) sub-board counts as empty here: it is never
/// attributed to either player.
pub open spec fn meta_board(sb: Seq<Board>) -> Seq<Square> {
    Seq::new(9, |i: int| board_winner(sb[i]@))
}

/// The overall winner of a super-board: the winner of its meta-board.
pub open spec fn superboard_winner(sb: Seq<Board>) -> Option<Player> {
    board_winner(meta_board(sb))
}

/// If the per-sub-board winners form a line for `p`, and none for anyone
/// else, the super-board reports `p` — drawn sub-boards count as empty in
/// the meta-board, never as a token of either player.
pub proof fn lemma_superboard_aggregation(sb: Seq<Board>, p: Player)
    requires
        has_win(meta_board(sb), p),
        forall|q: Player| has_win(meta_board(sb), q) ==> q == p,
    ensures
        superboard_winner(sb) == Some(p),
{
    lemma_winner_unique(meta_board(sb), p);
}

/// Winner of one row of three squares, if all three agree.
pub fn row_is_won(row: [Square; 3]) -> (r: Option<Player>)
    ensures
        r == line_winner(row@, 0, 1, 2),
{
    match row[0] {
        Some(p) => {
            let won = match (row[1], row[2]) {
                (Some(q1), Some(q2)) => q1 == p && q2 == p,
                _ => false,
            };
            if won {
                Some(p)
            } else {
                None
            }
        },
        None => None,
    }
}

/// Winner of a 3x3 board: checks the three rows, the three columns and the
/// two diagonals, in that order, and returns the first win found.
pub fn is_board_won(board: &Board) -> (r: Option<Player>)
    ensures
        r == board_winner(board@),
{
    let r0 = row_is_won([board[0], board[1], board[2]]);
    if r0.is_some() {
        return r0;
    }
    let r1 = row_is_won([board[3], board[4], board[5]]);
    if r1.is_some() {
        return r1;
    }
    let r2 = row_is_won([board[6], board[7], board[8]]);
    if r2.is_some() {
        return r2;
    }
    let c0 = row_is_won([board[0], board[3], board[6]]);
    if c0.is_some() {
        return c0;
    }
    let c1 = row_is_won([board[1], board[4], board[7]]);
    if c1.is_some() {
        return c1;
    }
    let c2 = row_is_won([board[2], board[5], board[8]]);
    if c2.is_some() {
        return c2;
    }
    let d0 = row_is_won([board[0], board[4], board[8]]);
    if d0.is_some() {
        return d0;
    }
    let d1 = row_is_won([board[2], board[4], board[6]]);
    if d1.is_some() {
        return d1;
    }
    None
}

/// Overall winner of a super-board: computes each sub-board's winner to form
/// the meta-board, then applies `is_board_won` to it. A drawn sub-board
/// contributes an empty meta-cell.
pub fn is_superboard_won(superboard: &SuperBoard) -> (r: Option<Player>)
    ensures
        r == superboard_winner(superboard@),
{
    let mut meta: Board = [None; 9];
    let mut i: usize = 0;
    while i < 9
        invariant
            i <= 9,
            forall|j: int| 0 <= j < i ==> meta@[j] == board_winner(superboard@[j]@),
        decreases 9 - i,
    {
        meta[i] = is_board_won(&superboard[i]);
        i += 1;
    }
    proof {
        assert(meta@ =~= meta_board(superboard@));
    }
    is_board_won(&meta)
}

/// The indices of the squares yet to be populated, in ascending order;
/// empty if the board is full.
pub fn open_board_squares(board: Board) -> (r: Vec<usize>)
    ensures
        r@ == open_cells(board@),
{
    let mut r: Vec<usize> = Vec::new();
    let mut i: usize = 0;
    while i < 9
        invariant
            i <= 9,
            open_cells(board@) == r@ + open_cells_from(board@, i as int),
        decreases 9 - i,
    {
        proof {
            if board@[i as int] is None {
                assert((r@ + seq![i]) + open_cells_from(board@, i + 1) =~= r@ + (seq![i]
                    + open_cells_from(board@, i + 1)));
            }
        }
        if board[i].is_none() {
            r.push(i);
        }
        i += 1;
    }
    proof {
        assert(open_cells(board@) =~= r@);
    }
    r
}

/// True when the board still has at least one empty square.
pub fn board_has_open_square(board: &Board) -> (r: bool)
    ensures
        r == (count_empty(board@) > 0),
{
    let mut i: usize = 0;
    while i < 9
        invariant
            i <= 9,
            forall|j: int| 0 <= j < i ==> board@[j] is Some,
        decreases 9 - i,
    {
        if board[i].is_none() {
            return true;
        }
        i += 1;
    }
    false
}

/// What one shorthand character denotes: `-` an empty square, any other
/// byte a token of that player.
pub open spec fn shorthand_square(c: u8) -> Square {
    if c == 45 {
        None
    } else {
        Some(c)
    }
}

/// Parse an array of characters into a board: `-` is an empty square, any
/// other byte a player token.
pub fn board_shorthand(chars: [u8; 9]) -> (r: Board)
    ensures
        r@ == chars@.map_values(|c: u8| shorthand_square(c)),
{
    let mut r: Board = [None; 9];
    let mut i: usize = 0;
    while i < 9
        invariant
            i <= 9,
            forall|j: int| 0 <= j < i ==> r@[j] == shorthand_square(chars@[j]),
        decreases 9 - i,
    {
        if chars[i] != 45 {
            r[i] = Some(chars[i]);
        } else {
            r[i] = None;
        }
        i += 1;
    }
    proof {
        assert(r@ =~= chars@.map_values(|c: u8| shorthand_square(c)));
    }
    r
}

/// The view of a board with all nine squares empty.
pub open spec fn empty_board_seq() -> Seq<Square> {
    Seq::new(9, |i: int| None)
}

/// True exactly when two boards hold the same squares.
pub fn boards_equal(a: &Board, b: &Board) -> (r: bool)
    ensures
        r == (a@ == b@),
{
    let mut i: usize = 0;
    while i < 9
        invariant
            i <= 9,
            forall|j: int| 0 <= j < i ==> a@[j] == b@[j],
        decreases 9 - i,
    {
        let same = match (a[i], b[i]) {
            (None, None) => true,
            (Some(p), Some(q)) => p == q,
            _ => false,
        };
        if !same {
            return false;
        }
        i += 1;
    }
    proof {
        assert(a@ =~= b@);
    }
    true
}

/// The board with all nine squares empty.
pub fn empty_board() -> (r: Board)
    ensures
        forall|i: int| 0 <= i < 9 ==> r@[i] is None,
{
    [None; 9]
}

/// The super-board whose nine sub-boards are all empty.
pub fn empty_superboard() -> (r: SuperBoard)
    ensures
        forall|i: int, j: int| 0 <= i < 9 && 0 <= j < 9 ==> r@[i]@[j] is None,
{
    [[None; 9]; 9]
}

} // verus!
