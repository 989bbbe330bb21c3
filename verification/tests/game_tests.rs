use ultimate_ttt::{
    GameState, Move, board_shorthand, coord_to_chars, empty_board, fmt_move, parse_coord,
    random_move, successors,
};

#[test]
fn human_test_parse_coord() {
    assert_eq!(parse_coord("A1".into()), Some(0));
    assert_eq!(parse_coord("1A".into()), Some(0));
    assert_eq!(parse_coord("3A".into()), Some(6));
    assert_eq!(parse_coord("2B".into()), Some(4));
    assert_eq!(parse_coord("3C".into()), Some(8));
    assert_eq!(parse_coord("B".into()), None);
    assert_eq!(parse_coord("1".into()), None);
    assert_eq!(parse_coord("A0".into()), None);
    assert_eq!(parse_coord("".into()), None);
}

#[test]
fn main_test_parse_coord() {
    assert_eq!(parse_coord("A1".into()), Some(0));
    assert_eq!(parse_coord("1A".into()), Some(0));
    assert_eq!(parse_coord("3A".into()), Some(6));
    assert_eq!(parse_coord("2B".into()), Some(4));
    assert_eq!(parse_coord("3C".into()), Some(8));
    assert_eq!(parse_coord("B".into()), None);
    assert_eq!(parse_coord("1".into()), None);
    assert_eq!(parse_coord("A0".into()), None);
    assert_eq!(parse_coord("".into()), None);
}

#[test]
fn new_game_offers_every_square() {
    let state = GameState::new(b"XO");
    assert_eq!(state.next_to_play(), b'X');
    assert_eq!(state.num_players, 2);
    assert!(state.sent_to.is_none());
    let moves = successors(&state);
    assert_eq!(moves.len(), 81);
    // ascending sub-board order, then ascending square order
    assert_eq!(moves[0], Move { superboard: Some(0), board: 0 });
    assert_eq!(moves[80], Move { superboard: Some(8), board: 8 });
}

// Forcing rule: a move into square `c` of any sub-board forces the opponent
// into sub-board `c` when that sub-board is open and undecided.
#[test]
fn forcing_rule_sends_opponent() {
    let state = GameState::new(b"XO");
    let next = state.apply_move(Move { superboard: Some(0), board: 4 });
    assert_eq!(next.sent_to, Some(4));
    assert_eq!(next.next_to_play, 1);
    assert_eq!(next.superboard[0][4], Some(b'X'));
    // the forced reply offers exactly sub-board 4's open squares, untagged
    let moves = successors(&next);
    assert_eq!(moves.len(), 9);
    for m in moves.iter() {
        assert!(m.superboard.is_none());
    }
}

// Forcing rule, negative half: a move sending the opponent to a full or to a
// decided sub-board leaves the choice free, and the next move list spans all
// undecided sub-boards with explicit super-board indices.
#[test]
fn forcing_rule_frees_on_full_or_decided() {
    let full_drawn = board_shorthand(*b"XOXXOXOXO");
    let x_won = board_shorthand(*b"XXX-O-O--");
    let mut superboard = [empty_board(); 9];
    superboard[2] = full_drawn;
    superboard[5] = x_won;
    let state = GameState {
        superboard,
        next_to_play: 0,
        sent_to: None,
        players: *b"XO**",
        num_players: 2,
    };

    // sending to the full sub-board 2 frees the opponent
    let next = state.apply_move(Move { superboard: Some(0), board: 2 });
    assert_eq!(next.sent_to, None);

    // sending to the decided sub-board 5 frees the opponent too
    let next = state.apply_move(Move { superboard: Some(0), board: 5 });
    assert_eq!(next.sent_to, None);

    // and the free move list spans all undecided, non-full sub-boards
    let moves = successors(&next);
    assert!(moves.iter().all(|m| m.superboard.is_some()));
    assert!(moves.iter().any(|m| m.superboard == Some(0)));
    assert!(moves.iter().any(|m| m.superboard == Some(8)));
    assert!(moves.iter().all(|m| m.superboard != Some(2)));
    assert!(moves.iter().all(|m| m.superboard != Some(5)));
}

// Round-trip of legality: every move successors offers is accepted by
// apply_move, two plies deep from the start.
#[test]
fn legal_moves_round_trip() {
    let state = GameState::new(b"XO");
    for m in successors(&state) {
        let next = state.apply_move(m);
        for m2 in successors(&next) {
            let _ = next.apply_move(m2);
        }
    }
}

// A decided super-board offers no moves at all: the terminal signal.
#[test]
fn decided_superboard_ends_game() {
    let x_won = board_shorthand(*b"XXX-O-O--");
    let mut superboard = [empty_board(); 9];
    superboard[0] = x_won;
    superboard[1] = x_won;
    superboard[2] = x_won;
    let state = GameState {
        superboard,
        next_to_play: 1,
        sent_to: None,
        players: *b"XO**",
        num_players: 2,
    };
    assert!(successors(&state).is_empty());
    assert_eq!(random_move(state), None);
}

// A drawn-out game — every sub-board full or decided, nobody winning the
// super-board — offers no moves either.
#[test]
fn drawn_out_game_ends_too() {
    let full_drawn = board_shorthand(*b"XOXXOXOXO");
    let state = GameState {
        superboard: [full_drawn; 9],
        next_to_play: 0,
        sent_to: None,
        players: *b"XO**",
        num_players: 2,
    };
    assert!(successors(&state).is_empty());
}

#[test]
fn random_move_is_legal() {
    let state = GameState::new(b"XO");
    let moves = successors(&state);
    for _ in 0..20 {
        let m = random_move(state).expect("fresh game must offer a move");
        assert!(moves.contains(&m));
    }
}

#[test]
fn three_player_turns_cycle() {
    let state = GameState::new(b"XOR");
    assert_eq!(state.num_players, 3);
    let s1 = state.apply_move(Move { superboard: Some(0), board: 0 });
    assert_eq!(s1.next_to_play(), b'O');
    let s2 = s1.apply_move(Move { superboard: None, board: 1 });
    assert_eq!(s2.next_to_play(), b'R');
    let s3 = s2.apply_move(Move { superboard: None, board: 2 });
    assert_eq!(s3.next_to_play(), b'X');
}

#[test]
fn fmt_move_shorthand() {
    assert_eq!(fmt_move(Move { superboard: Some(4), board: 0 }), "B2>A1");
    assert_eq!(fmt_move(Move { superboard: None, board: 8 }), "C3");
    assert_eq!(fmt_move(Move { superboard: Some(0), board: 5 }), "A1>C2");
}

#[test]
fn coord_chars_roundtrip() {
    assert_eq!(coord_to_chars(0), ['A', '1']);
    assert_eq!(coord_to_chars(4), ['B', '2']);
    assert_eq!(coord_to_chars(8), ['C', '3']);
    for c in 0..9usize {
        let chars = coord_to_chars(c);
        let text: String = chars.iter().collect();
        assert_eq!(parse_coord(text), Some(c));
    }
}
