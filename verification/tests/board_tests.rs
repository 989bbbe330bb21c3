use ultimate_ttt::{
    board_shorthand, empty_board, is_board_won, is_superboard_won, open_board_squares,
};

#[test]
fn test_is_board_won() {
    assert!(is_board_won(&board_shorthand(*b"---------")).is_none());

    assert!(is_board_won(&board_shorthand(*b"----X----")).is_none());

    assert!(is_board_won(&board_shorthand(*b"O---X---O")).is_none());

    assert!(is_board_won(&board_shorthand(*b"X-X-X---O")).is_none());

    assert!(is_board_won(&board_shorthand(*b"X-X-X---X")) == Some(b'X'));

    assert!(is_board_won(&board_shorthand(*b"O-X-X-X-X")) == Some(b'X'));

    assert!(is_board_won(&board_shorthand(*b"O-X-XXO-X")) == Some(b'X'));

    assert!(is_board_won(&board_shorthand(*b"XXX-O-O--")) == Some(b'X'));
}

#[test]
fn test_is_super_board_won() {
    let superboard = [
        board_shorthand(*b"XXX-O-O--"),
        board_shorthand(*b"XXX-O-O--"),
        board_shorthand(*b"XXX-O-O--"),
        board_shorthand(*b"XOX-O-O--"),
        board_shorthand(*b"XOX-O-O--"),
        board_shorthand(*b"XOX-O-O--"),
        board_shorthand(*b"XOX-O-O--"),
        board_shorthand(*b"XOX-O-O--"),
        board_shorthand(*b"XXX-O-O--"),
    ];

    assert_eq!(is_superboard_won(&superboard), Some(b'X'));

    let superboard = [
        board_shorthand(*b"XXX-O-O--"),
        board_shorthand(*b"X-X-O-O--"),
        board_shorthand(*b"XOX-O-O--"),
        board_shorthand(*b"XXX-O-O--"),
        board_shorthand(*b"XOX-O-O--"),
        board_shorthand(*b"XXX-O-O--"),
        board_shorthand(*b"X-X-O-O--"),
        board_shorthand(*b"XXX-O-O--"),
        board_shorthand(*b"X-X-O-O--"),
    ];

    assert!(is_superboard_won(&superboard).is_none());
}

// Every one of the 8 winning lines, fully occupied by one player with the
// rest empty, reports that player.
#[test]
fn every_winning_line_detected() {
    let lines: [[usize; 3]; 8] = [
        [0, 1, 2],
        [3, 4, 5],
        [6, 7, 8],
        [0, 3, 6],
        [1, 4, 7],
        [2, 5, 8],
        [0, 4, 8],
        [2, 4, 6],
    ];
    for line in lines.iter() {
        for token in [b'X', b'O'] {
            let mut chars = *b"---------";
            for &cell in line.iter() {
                chars[cell] = token;
            }
            assert_eq!(is_board_won(&board_shorthand(chars)), Some(token));
        }
    }
}

// A winning line with arbitrary other tokens (no second win for the other
// player) still reports its owner; a board with no completed line reports
// no winner.
#[test]
fn winner_with_noise_and_no_winner() {
    assert_eq!(is_board_won(&board_shorthand(*b"OOXXXXOXO")), Some(b'X'));
    assert!(is_board_won(&board_shorthand(*b"XOXXOOOXX")).is_none());
}

// A drawn (full, unwon) sub-board never counts as a token of either player
// in the meta-board: X's winning line of sub-boards still wins even next to
// drawn sub-boards.
#[test]
fn drawn_sub_board_counts_as_empty() {
    let x_won = board_shorthand(*b"XXX-O-O--");
    let drawn = board_shorthand(*b"XOXXOOOXX");
    let superboard = [
        x_won, x_won, x_won, drawn, drawn, drawn, drawn, drawn, drawn,
    ];
    assert_eq!(is_superboard_won(&superboard), Some(b'X'));

    // a column of drawn sub-boards forms no line for anyone
    let superboard = [
        drawn, x_won, drawn, drawn, x_won, drawn, drawn, drawn, drawn,
    ];
    assert!(is_superboard_won(&superboard).is_none());
}

#[test]
fn open_squares_listed_ascending() {
    let board = board_shorthand(*b"X-X-X---O");
    assert_eq!(open_board_squares(board), vec![1, 3, 5, 6, 7]);
    assert_eq!(open_board_squares(empty_board()), vec![0, 1, 2, 3, 4, 5, 6, 7, 8]);
    assert_eq!(open_board_squares(board_shorthand(*b"XOXXOOOXX")), Vec::<usize>::new());
}

#[test]
fn shorthand_maps_tokens() {
    let board = board_shorthand(*b"X-O------");
    assert_eq!(board[0], Some(b'X'));
    assert_eq!(board[1], None);
    assert_eq!(board[2], Some(b'O'));
    assert_eq!(board, board_shorthand(*b"X-O------"));
}
