use connect_four::board::{Board, MoveError};
use connect_four::player::Player;

fn named(token: char) -> Player {
    Player { name: format!("player-{}", token), token }
}

#[test]
fn new_board_is_all_empty() {
    let b = Board::new(3, 4);
    assert_eq!(b.rows.len(), 3);
    let mut cells = 0;
    for row in &b.rows {
        assert_eq!(row.len(), 4);
        for cell in row {
            assert!(cell.is_none());
            cells += 1;
        }
    }
    assert_eq!(cells, 12);
}

#[test]
fn place_token_lands_in_lowest_empty_row() {
    let mut b = Board::new(3, 2);
    // With k tokens already stacked, the next lands in row rows - 1 - k.
    assert!(b.place_token(0, named('a')).is_ok());
    assert_eq!(b.rows[2][0].as_ref().unwrap().token, 'a');
    assert!(b.rows[1][0].is_none());
    assert!(b.place_token(0, named('b')).is_ok());
    assert_eq!(b.rows[1][0].as_ref().unwrap().token, 'b');
    assert!(b.place_token(0, named('c')).is_ok());
    assert_eq!(b.rows[0][0].as_ref().unwrap().token, 'c');
    // The other column is untouched.
    for i in 0..3 {
        assert!(b.rows[i][1].is_none());
    }
}

#[test]
fn place_token_rejects_bad_columns() {
    let mut b = Board::new(2, 2);
    assert_eq!(b.place_token(2, named('a')), Err(MoveError::InvalidColumn));
    assert!(b.place_token(1, named('a')).is_ok());
    assert!(b.place_token(1, named('b')).is_ok());
    assert_eq!(b.place_token(1, named('c')), Err(MoveError::ColumnFull));
    // The board is unchanged by the rejected placements.
    assert!(b.rows[0][0].is_none());
    assert!(b.rows[1][0].is_none());
    assert_eq!(b.rows[0][1].as_ref().unwrap().token, 'b');
    assert_eq!(b.rows[1][1].as_ref().unwrap().token, 'a');
}

#[test]
fn valid_move_checks_range_and_space() {
    let mut b = Board::new(2, 3);
    assert!(b.valid_move(0));
    assert!(b.valid_move(2));
    assert!(!b.valid_move(3));
    assert!(!b.valid_move(usize::MAX));
    assert!(b.place_token(1, named('a')).is_ok());
    assert!(b.valid_move(1));
    assert!(b.place_token(1, named('b')).is_ok());
    assert!(!b.valid_move(1));
}

#[test]
fn board_full_after_any_filling_sequence() {
    let mut b = Board::new(2, 2);
    let order = [1, 0, 0, 1];
    let tokens = ['a', 'b', 'c', 'd'];
    for (col, tok) in order.iter().zip(tokens.iter()) {
        assert!(!b.is_board_full());
        assert!(b.place_token(*col, named(*tok)).is_ok());
    }
    assert!(b.is_board_full());
}

fn numbered_board_3x3() -> Board {
    // Tokens '0' .. '8', row by row, so each cell is identifiable.
    let mut b = Board::new(3, 3);
    for i in 0..3 {
        for j in 0..3 {
            let token = char::from(b'0' + (3 * i + j) as u8);
            b.rows[i][j] = Some(named(token));
        }
    }
    b
}

fn diagonal_tokens(diags: &[Vec<Option<Player>>]) -> Vec<Vec<char>> {
    diags
        .iter()
        .map(|d| d.iter().map(|c| c.as_ref().unwrap().token).collect())
        .collect()
}

#[test]
fn diagonals_first_direction_of_numbered_board() {
    let b = numbered_board_3x3();
    let diags = b.get_diagonals_top_left_to_bottom_right();
    assert_eq!(diags.len(), 5);
    let tokens = diagonal_tokens(&diags);
    assert_eq!(
        tokens,
        vec![
            vec!['0'],
            vec!['1', '3'],
            vec!['2', '4', '6'],
            vec!['5', '7'],
            vec!['8'],
        ]
    );
}

#[test]
fn diagonals_second_direction_of_numbered_board() {
    let b = numbered_board_3x3();
    let diags = b.get_diagonals_top_right_to_bottom_left();
    assert_eq!(diags.len(), 5);
    let tokens = diagonal_tokens(&diags);
    assert_eq!(
        tokens,
        vec![
            vec!['2'],
            vec!['1', '5'],
            vec!['0', '4', '8'],
            vec!['3', '7'],
            vec!['6'],
        ]
    );
}

#[test]
fn diagonals_partition_the_grid() {
    // Both directions of a 3 x 4 board: R + C - 1 non-empty diagonals,
    // and every cell appears exactly once across each direction.
    let mut b = Board::new(3, 4);
    for i in 0..3 {
        for j in 0..4 {
            let token = char::from(b'a' + (4 * i + j) as u8);
            b.rows[i][j] = Some(named(token));
        }
    }
    for diags in [
        b.get_diagonals_top_left_to_bottom_right(),
        b.get_diagonals_top_right_to_bottom_left(),
    ] {
        assert_eq!(diags.len(), 3 + 4 - 1);
        let mut seen: Vec<char> = Vec::new();
        for diag in &diags {
            assert!(!diag.is_empty());
            for cell in diag {
                seen.push(cell.as_ref().unwrap().token);
            }
        }
        seen.sort();
        let expected: Vec<char> = (0..12u8).map(|n| char::from(b'a' + n)).collect();
        assert_eq!(seen, expected);
    }
}
