//! Textual coordinates: parsing a square coordinate such as `A1` or `1A`,
//! and formatting a move back into that shorthand.

use vstd::prelude::*;

use crate::game::Move;

verus! {

/// The column letter of a square index: `A`, `B` or `C`.
pub open spec fn coord_col_char(c: int) -> char {
    if c % 3 == 0 {
        'A'
    } else if c % 3 == 1 {
        'B'
    } else {
        'C'
    }
}

/// The row digit of a square index: `1`, `2` or `3`.
pub open spec fn coord_row_char(c: int) -> char {
    if c / 3 == 0 {
        '1'
    } else if c / 3 == 1 {
        '2'
    } else {
        '3'
    }
}

/// The column a coordinate letter denotes, either case.
pub open spec fn col_value(ch: char) -> Option<usize> {
    if ch == 'a' || ch == 'A' {
        Some(0usize)
    } else if ch == 'b' || ch == 'B' {
        Some(1usize)
    } else if ch == 'c' || ch == 'C' {
        Some(2usize)
    } else {
        None
    }
}

/// The row a coordinate digit denotes.
pub open spec fn row_value(ch: char) -> Option<usize> {
    if ch == '1' {
        Some(0usize)
    } else if ch == '2' {
        Some(1usize)
    } else if ch == '3' {
        Some(2usize)
    } else {
        None
    }
}

/// What a coordinate string denotes: its first two characters must be a row
/// digit and a column letter, in either order; anything else is rejected.
/// Characters past the first two are ignored.
pub open spec fn parse_coord_spec(s: Seq<char>) -> Option<usize> {
    if s.len() < 2 {
        None
    } else {
        let a = s[0];
        let b = s[1];
        if row_value(a) is Some && col_value(b) is Some {
            Some(((row_value(a)->0 * 3 + col_value(b)->0)) as usize)
        } else if col_value(a) is Some && row_value(b) is Some {
            Some(((row_value(b)->0 * 3 + col_value(a)->0)) as usize)
        } else {
            None
        }
    }
}

/// The row denoted by a character, if any.
fn row_val(ch: char) -> (r: Option<usize>)
    ensures
        r == row_value(ch),
{
    if ch == '1' {
        Some(0)
    } else if ch == '2' {
        Some(1)
    } else if ch == '3' {
        Some(2)
    } else {
        None
    }
}

/// The column denoted by a character, if any.
fn col_val(ch: char) -> (r: Option<usize>)
    ensures
        r == col_value(ch),
{
    if ch == 'a' || ch == 'A' {
        Some(0)
    } else if ch == 'b' || ch == 'B' {
        Some(1)
    } else if ch == 'c' || ch == 'C' {
        Some(2)
    } else {
        None
    }
}

/// Parse a square coordinate such as `A1` or `1A` into a square index,
/// row-major. Rejects anything whose first two characters are not a row
/// digit and a column letter in some order.
pub fn parse_coord(s: String) -> (r: Option<usize>)
    ensures
        r == parse_coord_spec(s@),
        r matches Some(i) ==> i < 9,
{
    let st = s.as_str();
    let n = st.unicode_len();
    if n < 2 {
        return None;
    }
    let a = st.get_char(0);
    let b = st.get_char(1);
    match (row_val(a), col_val(b)) {
        (Some(row), Some(col)) => Some(row * 3 + col),
        _ => match (col_val(a), row_val(b)) {
            (Some(col), Some(row)) => Some(row * 3 + col),
            _ => None,
        },
    }
}

/// The two characters of a square coordinate: column letter, then row digit.
pub fn coord_to_chars(c: usize) -> (r: [char; 2])
    requires
        c < 9,
    ensures
        r@[0] == coord_col_char(c as int),
        r@[1] == coord_row_char(c as int),
{
    let col = match c % 3 {
        0 => 'A',
        1 => 'B',
        _ => 'C',
    };
    let row = match c / 3 {
        0 => '1',
        1 => '2',
        _ => '3',
    };
    [col, row]
}

/// The coordinate of a square index, as a string slice.
fn coord_str(c: usize) -> (r: &'static str)
    requires
        c < 9,
    ensures
        r@ == seq![coord_col_char(c as int), coord_row_char(c as int)],
{
    let r: &'static str = match c {
        0 => "A1",
        1 => "B1",
        2 => "C1",
        3 => "A2",
        4 => "B2",
        5 => "C2",
        6 => "A3",
        7 => "B3",
        _ => "C3",
    };
    proof {
        reveal_strlit("A1");
        reveal_strlit("B1");
        reveal_strlit("C1");
        reveal_strlit("A2");
        reveal_strlit("B2");
        reveal_strlit("C2");
        reveal_strlit("A3");
        reveal_strlit("B3");
        reveal_strlit("C3");
        assert(r@ =~= seq![coord_col_char(c as int), coord_row_char(c as int)]);
    }
    r
}

/// The text of a move: the chosen sub-board's coordinate and `>` when the
/// move carries one, then the square's coordinate.
pub open spec fn move_text(mov: Move) -> Seq<char> {
    let cell = seq![coord_col_char(mov.board as int), coord_row_char(mov.board as int)];
    match mov.superboard {
        Some(j) => seq![coord_col_char(j as int), coord_row_char(j as int), '>'] + cell,
        None => cell,
    }
}

/// Format a move as text, `B2>A1` style: the sub-board coordinate and `>`
/// only when the player chose the sub-board.
pub fn fmt_move(mov: Move) -> (s: String)
    requires
        mov.board < 9,
        mov.superboard matches Some(j) ==> j < 9,
    ensures
        s@ == move_text(mov),
{
    let mut s = String::new();
    match mov.superboard {
        Some(j) => {
            s.append(coord_str(j));
            s.append(">");
            proof {
                reveal_strlit(">");
            }
        },
        None => {},
    }
    s.append(coord_str(mov.board));
    proof {
        assert(s@ =~= move_text(mov));
    }
    s
}

} // verus!
