use ultimate_ttt::{
    SingleBoardState, add_scores, board_shorthand, count_leaves, count_outcomes, game_tree,
    invariant_boards, invariant_states, open_board_squares, solve_single_board, states_equal,
};

// Solver exactness: the symmetry-reduced solver and the naive un-reduced
// recursion agree on the empty board, and both give the classic counts of
// complete terminal play sequences: 131184 X wins, 77904 O wins, 46080
// draws, 255168 in all.
#[test]
fn solver_matches_naive_and_classic_counts() {
    let reduced = solve_single_board();
    let naive = count_outcomes(SingleBoardState::new());
    assert_eq!(reduced, naive);
    assert_eq!(reduced, (131184, 77904));
    let total = count_leaves(SingleBoardState::new());
    assert_eq!(total, 255168);
    assert_eq!(total - reduced.0 - reduced.1, 46080);
}

#[test]
fn test_combinatorics() {
    let tree = game_tree();
    let states: Vec<SingleBoardState> =
        tree.entries.iter().filter_map(|e| e.as_ref().map(|e| e.state)).collect();
    let distinct_games =
        states.iter().filter(|s| open_board_squares(s.board).len() == 0).count();
    let x_wins = states.iter().filter(|s| s.winner() == Some(b'X')).count();
    let o_wins = states.iter().filter(|s| s.winner() == Some(b'O')).count();
    let _ = (distinct_games, x_wins, o_wins);
}

#[test]
fn memo_table_has_root_score() {
    let tree = game_tree();
    let root = SingleBoardState::new();
    assert_eq!(tree.lookup(&root), Some((131184, 77904)));
}

// A memoized result is found through any of the eight symmetry-equivalent
// keys, and the counts are the same for every member of the class.
#[test]
fn symmetric_states_share_scores() {
    let tree = game_tree();
    let corner = SingleBoardState::from_board(board_shorthand(*b"X--------"), false);
    let direct = tree
        .lookup_equivalent(&corner)
        .expect("a corner opening must be memoized up to symmetry");
    let other_corner = SingleBoardState::from_board(board_shorthand(*b"--------X"), false);
    assert_eq!(tree.lookup_equivalent(&other_corner), Some(direct));
    let naive = count_outcomes(other_corner);
    assert_eq!(naive, direct);
}

// Symmetry closure: applying any transform to any member of a board's
// 8-element symmetry set yields a member of the same set.
#[test]
fn symmetry_set_closed_under_transforms() {
    let board = board_shorthand(*b"XO--X---O");
    let family = invariant_boards(board);
    for member in family.iter() {
        for image in invariant_boards(*member).iter() {
            assert!(family.contains(image));
        }
    }
}

// A board with no internal symmetry has eight pairwise distinct transforms.
// (A lone corner mark is not such a board: the diagonal reflection through
// that corner fixes it, leaving only four distinct images; a second mark on
// a neighbouring edge breaks every symmetry.)
#[test]
fn asymmetric_board_has_eight_distinct_images() {
    let board = board_shorthand(*b"XO-------");
    let family = invariant_boards(board);
    for i in 0..8 {
        for j in 0..8 {
            if i != j {
                assert_ne!(family[i], family[j]);
            }
        }
    }
    // the corner-only board, by contrast, has exactly four distinct images
    let corner = board_shorthand(*b"X--------");
    let mut distinct: Vec<_> = Vec::new();
    for image in invariant_boards(corner).iter() {
        if !distinct.contains(image) {
            distinct.push(*image);
        }
    }
    assert_eq!(distinct.len(), 4);
}

#[test]
fn invariant_states_keep_turn() {
    let state = SingleBoardState::from_board(board_shorthand(*b"X---O----"), false);
    let family = invariant_states(state);
    let boards = invariant_boards(state.board);
    for t in 0..8 {
        assert!(!family[t].x_is_next);
        assert_eq!(family[t].board, boards[t]);
    }
}

#[test]
fn apply_places_token_and_flips_turn() {
    let s = SingleBoardState::new();
    let s1 = s.apply(4);
    assert_eq!(s1.board[4], Some(b'X'));
    assert!(!s1.x_is_next);
    let s2 = s1.apply(0);
    assert_eq!(s2.board[0], Some(b'O'));
    assert!(s2.x_is_next);
    assert_eq!(s2.winner(), None);
    assert_eq!(s1.successors().len(), 8);
}

#[test]
fn states_equal_compares_fields() {
    let a = SingleBoardState::from_board(board_shorthand(*b"X--------"), true);
    let b = SingleBoardState::from_board(board_shorthand(*b"X--------"), true);
    let c = SingleBoardState::from_board(board_shorthand(*b"X--------"), false);
    let d = SingleBoardState::from_board(board_shorthand(*b"-X-------"), true);
    assert!(states_equal(&a, &b));
    assert!(!states_equal(&a, &c));
    assert!(!states_equal(&a, &d));
}

#[test]
fn add_scores_componentwise() {
    assert_eq!(add_scores((1, 2), (30, 40)), (31, 42));
    assert_eq!(add_scores((0, 0), (0, 0)), (0, 0));
}

// A board already won counts as a single leaf for its winner.
#[test]
fn decided_board_scores_one_leaf() {
    let x_won = SingleBoardState::from_board(board_shorthand(*b"XXX-O-O--"), false);
    assert_eq!(count_outcomes(x_won), (1, 0));
    assert_eq!(count_leaves(x_won), 1);
    let o_won = SingleBoardState::from_board(board_shorthand(*b"OOOXX-X--"), true);
    assert_eq!(count_outcomes(o_won), (0, 1));
    let drawn = SingleBoardState::from_board(board_shorthand(*b"XOXXOXOXO"), true);
    assert_eq!(count_outcomes(drawn), (0, 0));
    assert_eq!(count_leaves(drawn), 1);
}
