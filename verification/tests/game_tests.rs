use connect_four::board::MoveError;
use connect_four::game::{ConfigError, Game, GameStatus};
use connect_four::player::{Player, TokenAllocator};

fn named(token: char) -> Player {
    Player { name: format!("player-{}", token), token }
}

fn two_players() -> Vec<Player> {
    vec![named('x'), named('o')]
}

#[test]
fn allocator_hands_out_tokens_in_sequence() {
    let mut tokens = TokenAllocator::new();
    let alice = Player::new("Alice".to_string(), &mut tokens);
    let bob = Player::new("Bob".to_string(), &mut tokens);
    assert_eq!(alice.name, "Alice");
    assert_eq!(alice.token, 'a');
    assert_eq!(bob.token, 'b');
    assert_eq!(tokens.next_token(), 'c');
}

#[test]
fn allocator_saturates_at_z() {
    let mut tokens = TokenAllocator::new();
    let mut last = ' ';
    for _ in 0..30 {
        last = tokens.next_token();
    }
    assert_eq!(last, 'z');
    assert_eq!(tokens.next_token(), 'z');
}

#[test]
fn check_line_finds_a_run() {
    let line = vec![None, Some(named('x')), Some(named('x')), Some(named('x'))];
    let winner = Game::check_line(&line, 3);
    assert_eq!(winner.unwrap().token, 'x');
}

#[test]
fn check_line_resets_on_empty_cell() {
    let x = || Some(named('x'));
    let line = vec![x(), x(), None, x(), x()];
    assert!(Game::check_line(&line, 3).is_none());
    let line = vec![x(), x(), None, x(), x(), x()];
    assert_eq!(Game::check_line(&line, 3).unwrap().token, 'x');
}

#[test]
fn check_line_resets_on_other_player() {
    let x = || Some(named('x'));
    let o = || Some(named('o'));
    let line = vec![x(), x(), o(), x(), x()];
    assert!(Game::check_line(&line, 3).is_none());
    let line = vec![x(), x(), o(), o(), o()];
    assert_eq!(Game::check_line(&line, 3).unwrap().token, 'o');
}

#[test]
fn check_line_reports_first_completed_run() {
    let line = vec![
        Some(named('x')),
        Some(named('x')),
        Some(named('o')),
        Some(named('o')),
    ];
    assert_eq!(Game::check_line(&line, 2).unwrap().token, 'x');
}

#[test]
fn construction_rejects_bad_configurations() {
    assert!(matches!(
        Game::new(6, 7, 4, vec![named('x')]),
        Err(ConfigError::NotEnoughPlayers)
    ));
    assert!(matches!(
        Game::new(0, 7, 4, two_players()),
        Err(ConfigError::InvalidDimensions)
    ));
    assert!(matches!(
        Game::new(6, 0, 4, two_players()),
        Err(ConfigError::InvalidDimensions)
    ));
    assert!(matches!(
        Game::new(6, 7, 1, two_players()),
        Err(ConfigError::TokensToWinTooSmall)
    ));
    assert!(matches!(
        Game::new(3, 7, 4, two_players()),
        Err(ConfigError::TokensToWinTooLarge)
    ));
    // A run of 2 cannot exceed the single row of a 1 x 2 board.
    assert!(matches!(
        Game::new(1, 2, 2, two_players()),
        Err(ConfigError::TokensToWinTooLarge)
    ));
    // Three players need six cells for their runs; a 2 x 2 board has four.
    assert!(matches!(
        Game::new(2, 2, 2, vec![named('a'), named('b'), named('c')]),
        Err(ConfigError::TooManyPlayers)
    ));
    assert!(Game::new(6, 7, 4, two_players()).is_ok());
}

#[test]
fn construction_rejects_duplicate_tokens() {
    let players = vec![named('x'), named('o'), named('x')];
    assert!(matches!(
        Game::new(6, 7, 4, players),
        Err(ConfigError::DuplicateToken)
    ));
}

#[test]
fn saturated_allocator_forces_duplicate_tokens() {
    // More than 26 players saturate the token allocator at 'z', so two
    // players share a token and construction fails before any turn.
    let mut tokens = TokenAllocator::new();
    let mut players = Vec::new();
    for n in 0..27 {
        players.push(Player::new(format!("player-{}", n), &mut tokens));
    }
    assert_eq!(players[25].token, 'z');
    assert_eq!(players[26].token, 'z');
    assert!(matches!(
        Game::new(9, 9, 2, players),
        Err(ConfigError::DuplicateToken)
    ));
}

#[test]
fn turns_cycle_through_players() {
    let mut game = Game::new(6, 7, 4, two_players()).unwrap();
    assert_eq!(game.current_turn, 0);
    assert!(game.take_turn(3).is_ok());
    assert_eq!(game.current_turn, 1);
    assert!(game.take_turn(3).is_ok());
    assert_eq!(game.current_turn, 0);
}

#[test]
fn invalid_turn_leaves_game_unchanged() {
    let mut game = Game::new(2, 2, 2, two_players()).unwrap();
    assert_eq!(game.take_turn(2), Err(MoveError::InvalidColumn));
    assert_eq!(game.current_turn, 0);
    assert!(game.take_turn(0).is_ok());
    assert!(game.take_turn(0).is_ok());
    assert_eq!(game.take_turn(0), Err(MoveError::ColumnFull));
    assert_eq!(game.current_turn, 0);
    assert!(game.board.rows[0][1].is_none());
}

#[test]
fn vertical_win_is_reported_immediately() {
    // 5 x 5 board, run of 4: the players alternate between columns 0 and
    // 1, and the fourth token of the first player stacks a vertical run.
    let mut game = Game::new(5, 5, 4, two_players()).unwrap();
    let moves = [0, 1, 0, 1, 0, 1];
    for col in moves {
        assert!(matches!(game.status(), GameStatus::Ongoing));
        assert!(game.take_turn(col).is_ok());
    }
    assert!(matches!(game.status(), GameStatus::Ongoing));
    assert!(game.take_turn(0).is_ok());
    match game.status() {
        GameStatus::Win(winner) => assert_eq!(winner.token, 'x'),
        _ => panic!("expected a win"),
    }
}

#[test]
fn horizontal_win_is_reported() {
    let mut game = Game::new(6, 7, 4, two_players()).unwrap();
    for col in [0, 0, 1, 1, 2, 2] {
        assert!(game.take_turn(col).is_ok());
    }
    assert!(matches!(game.status(), GameStatus::Ongoing));
    assert!(game.take_turn(3).is_ok());
    match game.status() {
        GameStatus::Win(winner) => assert_eq!(winner.token, 'x'),
        _ => panic!("expected a win"),
    }
}

#[test]
fn diagonal_win_is_reported() {
    // First player builds the rising diagonal (3,0) (2,1) (1,2) (0,3) of
    // a 4 x 4 board while the second player fills underneath.
    let mut game = Game::new(4, 4, 4, two_players()).unwrap();
    for col in [0, 1, 1, 2, 2, 3, 2, 3, 3, 0, 3] {
        assert!(game.take_turn(col).is_ok());
    }
    match game.status() {
        GameStatus::Win(winner) => assert_eq!(winner.token, 'x'),
        _ => panic!("expected a win"),
    }
}

#[test]
fn full_board_without_a_line_is_a_draw() {
    // A 3 x 3 game with a run of 3, filled to a classic drawn pattern:
    //   x o x
    //   x o o
    //   o x x
    let mut game = Game::new(3, 3, 3, two_players()).unwrap();
    for col in [1, 0, 0, 1, 0, 1, 2, 2, 2] {
        assert!(matches!(game.status(), GameStatus::Ongoing));
        assert!(game.take_turn(col).is_ok());
    }
    assert!(game.board.is_board_full());
    assert!(matches!(game.status(), GameStatus::Draw));
}

#[test]
fn win_on_the_filling_move_beats_the_draw() {
    // The move that fills the board also completes a run: the status is
    // a win, not a draw.
    let mut game = Game::new(2, 2, 2, two_players()).unwrap();
    for col in [0, 1, 0] {
        assert!(game.take_turn(col).is_ok());
    }
    assert!(matches!(game.status(), GameStatus::Win(_)));
    assert!(game.take_turn(1).is_ok());
    assert!(game.board.is_board_full());
    match game.status() {
        GameStatus::Win(winner) => assert_eq!(winner.token, 'x'),
        _ => panic!("expected a win"),
    }
}
