use ultimate_ttt::{
    GameState, Move, board_shorthand, empty_board, explore, game_states_equal, successors,
};

// A bounded walk from the start: the first visited state is the initial one,
// its recorded successor list matches the 81 opening moves, and no state is
// recorded twice.
#[test]
fn explore_start_records_distinct_states() {
    let init = GameState::new(b"XO");
    let result = explore(&init, 50);
    assert_eq!(result.visited.len(), result.successor_lists.len());
    assert!(result.visited.len() <= 50);
    assert!(game_states_equal(&result.visited[0], &init));
    assert_eq!(result.successor_lists[0].len(), 81);
    for i in 0..result.visited.len() {
        for j in 0..i {
            assert!(!game_states_equal(&result.visited[i], &result.visited[j]));
        }
        let moves = successors(&result.visited[i]);
        assert_eq!(moves.len(), result.successor_lists[i].len());
        for (k, m) in moves.iter().enumerate() {
            let child = result.visited[i].apply_move(*m);
            assert!(game_states_equal(&child, &result.successor_lists[i][k]));
        }
    }
}

// A nearly finished game is exhausted: the frontier empties, every reachable
// state is visited exactly once, and the successor map is closed.
#[test]
fn explore_exhausts_small_endgame() {
    let full_drawn = board_shorthand(*b"XOXXOXOXO");
    let mut superboard = [full_drawn; 9];
    superboard[8] = board_shorthand(*b"XOXXOXOX-");
    let init = GameState {
        superboard,
        next_to_play: 0,
        sent_to: Some(8),
        players: *b"XO**",
        num_players: 2,
    };
    let result = explore(&init, 100);
    assert!(result.frontier.is_empty());
    assert_eq!(result.visited.len(), 2);
    assert_eq!(result.successor_lists[0].len(), 1);
    assert_eq!(result.successor_lists[1].len(), 0);
    assert_eq!(result.x_wins, 0);
    assert_eq!(result.o_wins, 0);
    assert_eq!(result.decided, 0);
}

// A game one move away from a super-board win: the winning child is visited
// and tallied for X.
#[test]
fn explore_tallies_winner() {
    let x_won = board_shorthand(*b"XXX-O-O--");
    let full_drawn = board_shorthand(*b"XOXXOXOXO");
    let mut superboard = [full_drawn; 9];
    superboard[0] = x_won;
    superboard[1] = x_won;
    superboard[2] = board_shorthand(*b"XX-XOOO-O");
    let init = GameState {
        superboard,
        next_to_play: 0,
        sent_to: Some(2),
        players: *b"XO**",
        num_players: 2,
    };
    // X can play into sub-board 2 at square 2 or 7; square 2 completes the
    // top row of sub-boards for X.
    let moves = successors(&init);
    assert_eq!(
        moves,
        vec![Move { superboard: None, board: 2 }, Move { superboard: None, board: 7 }]
    );
    let result = explore(&init, 1000);
    assert!(result.frontier.is_empty());
    assert_eq!(result.x_wins, 1);
    assert_eq!(result.o_wins, 0);
    assert_eq!(result.decided, 1);
    let _ = empty_board();
}
