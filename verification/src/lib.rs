//! Ultimate Tic-Tac-Toe: a meta-game of nine 3x3 boards arranged in a 3x3
//! super-board, where each move forces the opponent into the corresponding
//! sub-board. The crate provides the game state machine (legal-move
//! generation and move application), win detection at board and super-board
//! granularity, a reachable-state explorer, and a symmetry-reduced solver
//! for a single 3x3 board.

mod ai;
mod board;
mod coords;
mod explore;
mod game;
mod solver;

pub use board::{
    Board, Player, Square, SuperBoard, MAX_PLAYERS, board_has_open_square, board_shorthand,
    board_winner, count_empty, empty_board, empty_superboard, first_of, has_win, is_board_won,
    is_superboard_won, lemma_open_cells_from_props, lemma_open_cells_props,
    lemma_superboard_aggregation, lemma_winner_has_win, lemma_winner_none_iff, lemma_winner_unique,
    line_winner, line_won_by, meta_board, open_board_squares, open_cells, open_cells_from,
    boards_equal, row_is_won, shorthand_square, superboard_winner,
};
pub use ai::random_move;
pub use explore::{
    Exploration, count_decided, count_won_by, explore, game_states_equal, successor_states,
};
pub use coords::{
    col_value, coord_col_char, coord_row_char, coord_to_chars, fmt_move, move_text, parse_coord,
    parse_coord_spec, row_value,
};
pub use solver::{
    O_TOKEN, ScoreEntry, ScorePair, ScoreTable, SingleBoardState, X_TOKEN, add_scores,
    board_code, cells_valid, compose_transform, count_leaves, count_outcomes, game_tree,
    invariant_boards, invariant_states, leaves, leaves_over, leaves_sum, lemma_child_unambiguous,
    lemma_count_transform, lemma_has_win_transform, lemma_perm_bij, lemma_score_transform,
    lemma_symmetry_closed, lemma_transform_update, lemma_winner_transform, perm_seq, pow9,
    recursive_step, score, score_over, score_sum, solve_single_board, square_digit,
    state_code_spec, states_equal, token_of, transform_board, win_unambiguous,
};
pub use game::{
    GameState, Move, apply_move_spec, board_moves, forced_moves, free_moves_from, legal_moves,
    lemma_forcing_rule, lemma_legal_moves_ok, lemma_terminal_signal, move_ok, move_target,
    sub_board_eligible, successors,
};
