//! The game state machine: `GameState`, legal-move enumeration and the
//! `apply_move` transition, including the "send-to" forcing rule.

use vstd::prelude::*;

use crate::board::{
    Board, Player, Square, SuperBoard, MAX_PLAYERS, board_has_open_square, board_winner,
    count_empty, is_board_won, is_superboard_won, lemma_open_cells_props, open_board_squares,
    open_cells, superboard_winner,
};

verus! {

/// One move of the meta-game.
#[derive(Copy, Clone, Debug, PartialEq, Eq, Hash)]
pub struct Move {
    /// If the player has the choice of the super-board square of this move,
    /// this is `Some(index)`, and otherwise `None`.
    pub superboard: Option<usize>,
    /// Which square of the sub-board to make the move to.
    pub board: usize,
}

/// The full state of one game.
#[derive(Clone, Copy, Debug, Hash, PartialEq, Eq)]
#[verifier::ext_equal]
pub struct GameState {
    /// The board state.
    pub superboard: SuperBoard,
    /// Index into `players` of the player who makes the next move.
    pub next_to_play: usize,
    /// If any, the super-board square the next player has been sent to.
    pub sent_to: Option<usize>,
    /// The players of this game, ordered by who goes first; unused slots
    /// hold a filler token.
    pub players: [Player; 4],
    /// Number of players.
    pub num_players: usize,
}

impl GameState {
    /// The data-model invariant: player indices are in range, and a forced
    /// sub-board always has an open square and is not yet decided.
    pub open spec fn wf(self) -> bool {
        &&& 1 <= self.num_players <= MAX_PLAYERS
        &&& self.next_to_play < self.num_players
        &&& match self.sent_to {
            Some(i) => i < 9 && count_empty(self.superboard@[i as int]@) > 0 && board_winner(
                self.superboard@[i as int]@,
            ) is None,
            None => true,
        }
    }
}

/// The moves offered into one open sub-board when the player was sent there:
/// one per open square, with no super-board index.
pub open spec fn forced_moves(b: Seq<Square>) -> Seq<Move> {
    open_cells(b).map_values(|c: usize| Move { superboard: None, board: c })
}

/// The moves offered into sub-board `j` when the player chooses freely:
/// one per open square, tagged with `j`.
pub open spec fn board_moves(b: Seq<Square>, j: usize) -> Seq<Move> {
    open_cells(b).map_values(|c: usize| Move { superboard: Some(j), board: c })
}

/// A sub-board accepts moves only while it is neither decided nor full.
pub open spec fn sub_board_eligible(sb: Seq<Board>, j: int) -> bool {
    board_winner(sb[j]@) is None && count_empty(sb[j]@) > 0
}

/// The free-choice moves over sub-boards `j..9`, in ascending sub-board
/// order, then ascending square order.
pub open spec fn free_moves_from(sb: Seq<Board>, j: int) -> Seq<Move>
    decreases 9 - j,
{
    if j < 0 || j >= 9 {
        Seq::empty()
    } else {
        (if sub_board_eligible(sb, j) {
            board_moves(sb[j]@, j as usize)
        } else {
            Seq::empty()
        }) + free_moves_from(sb, j + 1)
    }
}

/// All legal moves of a state. Empty exactly when the game is over: the
/// super-board is decided, or no reachable sub-board has an open square.
pub open spec fn legal_moves(s: GameState) -> Seq<Move> {
    if superboard_winner(s.superboard@) is Some {
        Seq::empty()
    } else {
        match s.sent_to {
            Some(i) => forced_moves(s.superboard@[i as int]@),
            None => free_moves_from(s.superboard@, 0),
        }
    }
}

/// Return the successors of the current board state: all legal moves, in
/// ascending sub-board order, then ascending square order. An empty vector
/// is the terminal signal, not an error.
pub fn successors(state: &GameState) -> (r: Vec<Move>)
    requires
        state.wf(),
    ensures
        r@ == legal_moves(*state),
{
    if is_superboard_won(&state.superboard).is_some() {
        return Vec::new();
    }
    match state.sent_to {
        Some(send) => {
            let cells = open_board_squares(state.superboard[send]);
            let mut r: Vec<Move> = Vec::new();
            let mut k: usize = 0;
            while k < cells.len()
                invariant
                    k <= cells@.len(),
                    cells@ == open_cells(state.superboard@[state.sent_to->0 as int]@),
                    r@.len() == k,
                    forall|idx: int|
                        0 <= idx < k ==> r@[idx] == (Move {
                            superboard: None,
                            board: cells@[idx],
                        }),
                decreases cells@.len() - k,
            {
                r.push(Move { superboard: None, board: cells[k] });
                k += 1;
            }
            proof {
                assert(r@ =~= forced_moves(state.superboard@[state.sent_to->0 as int]@));
            }
            r
        },
        None => {
            let mut r: Vec<Move> = Vec::new();
            let mut j: usize = 0;
            while j < 9
                invariant
                    j <= 9,
                    state.wf(),
                    superboard_winner(state.superboard@) is None,
                    state.sent_to is None,
                    free_moves_from(state.superboard@, 0) == r@ + free_moves_from(
                        state.superboard@,
                        j as int,
                    ),
                decreases 9 - j,
            {
                let b = state.superboard[j];
                let ghost r0 = r@;
                if is_board_won(&b).is_none() && board_has_open_square(&b) {
                    let cells = open_board_squares(b);
                    let mut k: usize = 0;
                    while k < cells.len()
                        invariant
                            k <= cells@.len(),
                            j < 9,
                            cells@ == open_cells(state.superboard@[j as int]@),
                            r@.len() == r0.len() + k,
                            forall|idx: int| 0 <= idx < r0.len() ==> r@[idx] == r0[idx],
                            forall|idx: int|
                                0 <= idx < k ==> r@[r0.len() + idx] == (Move {
                                    superboard: Some(j),
                                    board: cells@[idx],
                                }),
                        decreases cells@.len() - k,
                    {
                        r.push(Move { superboard: Some(j), board: cells[k] });
                        k += 1;
                    }
                    proof {
                        assert(r@ =~= r0 + board_moves(state.superboard@[j as int]@, j));
                    }
                } else {
                    proof {
                        assert(!sub_board_eligible(state.superboard@, j as int));
                    }
                }
                proof {
                    assert(r0 + free_moves_from(state.superboard@, j as int) =~= r@
                        + free_moves_from(state.superboard@, j as int + 1));
                }
                j += 1;
            }
            proof {
                assert(free_moves_from(state.superboard@, 9) =~= Seq::<Move>::empty());
                assert(legal_moves(*state) =~= r@);
            }
            r
        },
    }
}

/// The sub-board a move plays into: the forced one, or the one the move names.
pub open spec fn move_target(s: GameState, mov: Move) -> int {
    if s.sent_to is Some {
        s.sent_to->0 as int
    } else {
        mov.superboard->0 as int
    }
}

/// A move is well-shaped for a state: the super-board index is present
/// exactly when the player is not forced, indices are in range, and the
/// target square is currently empty.
pub open spec fn move_ok(s: GameState, mov: Move) -> bool {
    &&& (s.sent_to is Some) != (mov.superboard is Some)
    &&& (mov.superboard matches Some(j) ==> j < 9)
    &&& mov.board < 9
    &&& s.superboard@[move_target(s, mov)]@[mov.board as int] is None
}

/// The state after a move: the token placed, the opponent forced to the
/// sub-board named by the move's square — unless that sub-board is full or
/// decided — and the turn advanced cyclically.
pub open spec fn apply_move_spec(s: GameState, mov: Move) -> GameState {
    let idx = move_target(s, mov);
    let tok = s.players@[s.next_to_play as int];
    let new_board = vstd::array::spec_array_update(
        s.superboard@[idx],
        mov.board as int,
        Some(tok),
    );
    let new_sb = vstd::array::spec_array_update(s.superboard, idx, new_board);
    let dest = new_sb@[mov.board as int]@;
    GameState {
        superboard: new_sb,
        next_to_play: ((s.next_to_play + 1) as int % s.num_players as int) as usize,
        sent_to: if count_empty(dest) > 0 && board_winner(dest) is None {
            Some(mov.board)
        } else {
            None
        },
        players: s.players,
        num_players: s.num_players,
    }
}

/// Every free-choice move names an eligible sub-board and an open square there.
proof fn lemma_free_moves_ok(sb: Seq<Board>, j: int, mov: Move)
    requires
        0 <= j <= 9,
        free_moves_from(sb, j).contains(mov),
    ensures
        mov.superboard matches Some(jj) ==> j <= jj < 9 && sub_board_eligible(sb, jj as int)
            && mov.board < 9 && sb[jj as int]@[mov.board as int] is None,
        mov.superboard is Some,
    decreases 9 - j,
{
    if j < 9 {
        let head = if sub_board_eligible(sb, j) {
            board_moves(sb[j]@, j as usize)
        } else {
            Seq::<Move>::empty()
        };
        let idx = choose|idx: int|
            0 <= idx < free_moves_from(sb, j).len() && free_moves_from(sb, j)[idx] == mov;
        if idx < head.len() {
            lemma_open_cells_props(sb[j]@);
            assert(mov == head[idx]);
            assert(mov.board == open_cells(sb[j]@)[idx]);
        } else {
            assert(free_moves_from(sb, j + 1)[idx - head.len()] == mov);
            assert(free_moves_from(sb, j + 1).contains(mov));
            lemma_free_moves_ok(sb, j + 1, mov);
        }
    } else {
        assert(false);
    }
}

/// Every open square of an eligible sub-board is offered by the free-choice
/// move list, tagged with its sub-board index.
proof fn lemma_free_moves_complete(sb: Seq<Board>, j0: int, j: usize, c: usize)
    requires
        0 <= j0 <= j < 9,
        sub_board_eligible(sb, j as int),
        c < 9,
        sb[j as int]@[c as int] is None,
    ensures
        free_moves_from(sb, j0).contains(Move { superboard: Some(j), board: c }),
    decreases j - j0,
{
    let mov = Move { superboard: Some(j), board: c };
    if j0 == j {
        lemma_open_cells_props(sb[j as int]@);
        assert(open_cells(sb[j as int]@).contains(c));
        let idx = choose|idx: int|
            0 <= idx < open_cells(sb[j as int]@).len() && open_cells(sb[j as int]@)[idx] == c;
        assert(board_moves(sb[j as int]@, j)[idx] == mov);
        assert(free_moves_from(sb, j0)[idx] == mov);
    } else {
        lemma_free_moves_complete(sb, j0 + 1, j, c);
        let rest = free_moves_from(sb, j0 + 1);
        let idx = choose|idx: int| 0 <= idx < rest.len() && rest[idx] == mov;
        let head = if sub_board_eligible(sb, j0) {
            board_moves(sb[j0]@, j0 as usize)
        } else {
            Seq::<Move>::empty()
        };
        assert(free_moves_from(sb, j0)[head.len() + idx] == mov);
    }
}

/// A board with an open square has a nonempty open-cell list.
proof fn lemma_open_cells_nonempty(b: Seq<Square>)
    requires
        count_empty(b) > 0,
    ensures
        open_cells(b).len() > 0,
{
    lemma_open_cells_props(b);
    assert(b[0] is None || b[1] is None || b[2] is None || b[3] is None || b[4] is None
        || b[5] is None || b[6] is None || b[7] is None || b[8] is None);
    let c = choose|c: int| 0 <= c < 9 && b[c] is None;
    assert(open_cells(b).contains(c as usize));
}

/// The free-choice move list is empty exactly when no sub-board at `j..9`
/// is still eligible.
proof fn lemma_free_moves_empty_iff(sb: Seq<Board>, j: int)
    requires
        0 <= j <= 9,
    ensures
        free_moves_from(sb, j).len() == 0 <==> (forall|jj: int|
            j <= jj < 9 ==> !sub_board_eligible(sb, jj)),
    decreases 9 - j,
{
    if j < 9 {
        lemma_free_moves_empty_iff(sb, j + 1);
        if sub_board_eligible(sb, j) {
            lemma_open_cells_nonempty(sb[j]@);
        }
    }
}

/// The terminal signal: a state offers no legal move exactly when the game
/// has no legal continuation — the super-board is decided, or the player is
/// free to choose and every sub-board is full or already decided. (A forced
/// state always offers a move: the forced sub-board is open by invariant.)
pub proof fn lemma_terminal_signal(s: GameState)
    requires
        s.wf(),
    ensures
        legal_moves(s).len() == 0 <==> (superboard_winner(s.superboard@) is Some || (
        s.sent_to is None && forall|j: int| 0 <= j < 9 ==> !sub_board_eligible(s.superboard@, j))),
{
    if superboard_winner(s.superboard@) is None {
        match s.sent_to {
            Some(i) => {
                lemma_open_cells_nonempty(s.superboard@[i as int]@);
            },
            None => {
                lemma_free_moves_empty_iff(s.superboard@, 0);
            },
        }
    }
}

/// Round-trip of legality: every move that `legal_moves` offers is
/// well-shaped for `apply_move`, and applying it yields a well-formed state.
pub proof fn lemma_legal_moves_ok(s: GameState, mov: Move)
    requires
        s.wf(),
        legal_moves(s).contains(mov),
    ensures
        move_ok(s, mov),
        apply_move_spec(s, mov).wf(),
{
    if superboard_winner(s.superboard@) is Some {
        assert(false);
    } else {
        match s.sent_to {
            Some(i) => {
                let b = s.superboard@[i as int]@;
                let moves = forced_moves(b);
                let idx = choose|idx: int| 0 <= idx < moves.len() && moves[idx] == mov;
                lemma_open_cells_props(b);
                assert(mov == moves[idx]);
                assert(mov.board == open_cells(b)[idx]);
            },
            None => {
                lemma_free_moves_ok(s.superboard@, 0, mov);
            },
        }
    }
}

/// The forcing rule: a move into sub-board square `c` forces the opponent to
/// sub-board `c` exactly when that sub-board still has an open square and is
/// not already decided; otherwise the opponent chooses freely among all
/// eligible sub-boards, each move carrying its super-board index.
pub proof fn lemma_forcing_rule(s: GameState, mov: Move)
    requires
        s.wf(),
        move_ok(s, mov),
    ensures
        ({
            let r = apply_move_spec(s, mov);
            let dest = r.superboard@[mov.board as int]@;
            &&& (r.sent_to == Some(mov.board) <==> (count_empty(dest) > 0 && board_winner(
                dest,
            ) is None))
            &&& (r.sent_to is None <==> !(count_empty(dest) > 0 && board_winner(dest) is None))
            &&& (r.sent_to is None && superboard_winner(r.superboard@) is None ==> legal_moves(r)
                == free_moves_from(r.superboard@, 0))
            &&& (r.sent_to is None && superboard_winner(r.superboard@) is None ==> forall|
                j: usize,
                c: usize,
            |
                j < 9 && c < 9 && sub_board_eligible(r.superboard@, j as int)
                    && r.superboard@[j as int]@[c as int] is None ==> #[trigger] legal_moves(
                    r,
                ).contains(Move { superboard: Some(j), board: c }))
        }),
{
    let r = apply_move_spec(s, mov);
    if r.sent_to is None && superboard_winner(r.superboard@) is None {
        assert forall|j: usize, c: usize|
            j < 9 && c < 9 && sub_board_eligible(r.superboard@, j as int)
                && r.superboard@[j as int]@[c as int] is None implies #[trigger] legal_moves(
            r,
        ).contains(Move { superboard: Some(j), board: c }) by {
            lemma_free_moves_complete(r.superboard@, 0, j, c);
        }
    }
}

impl GameState {
    /// A fresh game: empty super-board, the given players (at most
    /// `MAX_PLAYERS`), player 0 to move, nobody forced anywhere.
    pub fn new(players: &[Player]) -> (r: GameState)
        requires
            players@.len() <= MAX_PLAYERS,
        ensures
            forall|i: int, j: int| 0 <= i < 9 && 0 <= j < 9 ==> r.superboard@[i]@[j] is None,
            r.next_to_play == 0,
            r.sent_to is None,
            r.num_players == players@.len(),
            forall|i: int| 0 <= i < players@.len() ==> r.players@[i] == players@[i],
            forall|i: int| players@.len() <= i < 4 ==> r.players@[i] == 42u8,
            players@.len() >= 1 ==> r.wf(),
    {
        let mut players_array: [Player; 4] = [42u8; 4];
        let mut i: usize = 0;
        while i < players.len()
            invariant
                i <= players@.len(),
                players@.len() <= 4,
                forall|k: int| 0 <= k < i ==> players_array@[k] == players@[k],
                forall|k: int| i <= k < 4 ==> players_array@[k] == 42u8,
            decreases players@.len() - i,
        {
            players_array[i] = players[i];
            i += 1;
        }
        GameState {
            superboard: [[None; 9]; 9],
            next_to_play: 0,
            sent_to: None,
            players: players_array,
            num_players: players.len(),
        }
    }

    /// The player who makes the next move.
    pub fn next_to_play(&self) -> (r: Player)
        requires
            self.wf(),
        ensures
            r == self.players@[self.next_to_play as int],
    {
        self.players[self.next_to_play]
    }

    /// Apply a legal move, returning the new state. The move must carry a
    /// super-board index exactly when this state forces none, and must name
    /// an empty square; anything else is a caller bug, ruled out here.
    pub fn apply_move(&self, mov: Move) -> (r: GameState)
        requires
            self.wf(),
            move_ok(*self, mov),
        ensures
            r == apply_move_spec(*self, mov),
            r.wf(),
    {
        let board_idx: usize = match (self.sent_to, mov.superboard) {
            (Some(i), None) => i,
            (None, Some(i)) => i,
            _ => {
                proof {
                    assert(false);
                }
                0
            },
        };

        let mut board = self.superboard[board_idx];
        board[mov.board] = Some(self.players[self.next_to_play]);

        let mut superboard = self.superboard;
        superboard[board_idx] = board;

        let sent_board = superboard[mov.board];
        let sent_to = if board_has_open_square(&sent_board) && is_board_won(&sent_board).is_none() {
            Some(mov.board)
        } else {
            None
        };

        let next_to_play = (self.next_to_play + 1) % self.num_players;

        let r = GameState {
            superboard,
            next_to_play,
            sent_to,
            players: self.players,
            num_players: self.num_players,
        };
        proof {
            let s = apply_move_spec(*self, mov);
            assert(board =~= s.superboard@[move_target(*self, mov)]);
            assert(superboard =~= s.superboard);
            assert(r == s);
        }
        r
    }
}

} // verus!
