use go_engine::board::GoBoard;
use go_engine::board::GoCoordinates;
use go_engine::board::GoStone;
use go_engine::game::GoGame;
use go_engine::game::PlayError;
use go_engine::game::UndoError;

fn boards_equal(a: &GoBoard, b: &GoBoard) -> bool {
    a.same_position(b)
}

#[test]
fn test_liberty_single_stone() {
    // A lone stone with empty neighbors has liberties.
    let mut board = GoBoard::new();
    board.set_stone(GoCoordinates::new(4, 4), GoStone::BLACK);
    assert!(board.group_has_liberties(GoCoordinates::new(4, 4)));
}

#[test]
fn test_liberty_surrounded_stone() {
    // An interior stone with all four neighbors opponent-colored has none.
    let mut board = GoBoard::new();
    board.set_stone(GoCoordinates::new(4, 4), GoStone::BLACK);
    board.set_stone(GoCoordinates::new(3, 4), GoStone::WHITE);
    board.set_stone(GoCoordinates::new(5, 4), GoStone::WHITE);
    board.set_stone(GoCoordinates::new(4, 3), GoStone::WHITE);
    board.set_stone(GoCoordinates::new(4, 5), GoStone::WHITE);
    assert!(!board.group_has_liberties(GoCoordinates::new(4, 4)));
    // The surrounding stones themselves still have liberties.
    assert!(board.group_has_liberties(GoCoordinates::new(3, 4)));
}

#[test]
fn test_liberty_group() {
    // A two-stone group whose only liberty is shared.
    let mut board = GoBoard::new();
    board.set_stone(GoCoordinates::new(0, 0), GoStone::BLACK);
    board.set_stone(GoCoordinates::new(1, 0), GoStone::BLACK);
    board.set_stone(GoCoordinates::new(0, 1), GoStone::WHITE);
    board.set_stone(GoCoordinates::new(1, 1), GoStone::WHITE);
    board.set_stone(GoCoordinates::new(2, 0), GoStone::WHITE);
    assert!(!board.group_has_liberties(GoCoordinates::new(0, 0)));
    assert!(!board.group_has_liberties(GoCoordinates::new(1, 0)));
}

#[test]
fn test_remove_group() {
    let mut board = GoBoard::new();
    board.set_stone(GoCoordinates::new(0, 0), GoStone::BLACK);
    board.set_stone(GoCoordinates::new(1, 0), GoStone::BLACK);
    board.set_stone(GoCoordinates::new(1, 1), GoStone::BLACK);
    board.set_stone(GoCoordinates::new(3, 3), GoStone::BLACK);
    let removed = board.remove_group(GoCoordinates::new(0, 0));
    assert_eq!(removed, 3);
    assert_eq!(board.get_stone(GoCoordinates::new(0, 0)), GoStone::NONE);
    assert_eq!(board.get_stone(GoCoordinates::new(1, 0)), GoStone::NONE);
    assert_eq!(board.get_stone(GoCoordinates::new(1, 1)), GoStone::NONE);
    // A disconnected stone of the same color is untouched.
    assert_eq!(board.get_stone(GoCoordinates::new(3, 3)), GoStone::BLACK);
}

#[test]
fn test_kill_stones() {
    // White in the corner, strangled by two black stones.
    let mut board = GoBoard::new();
    board.set_stone(GoCoordinates::new(0, 0), GoStone::WHITE);
    board.set_stone(GoCoordinates::new(1, 0), GoStone::BLACK);
    board.set_stone(GoCoordinates::new(0, 1), GoStone::BLACK);
    let killed = board.kill_stones(GoCoordinates::new(0, 1));
    assert_eq!(killed, 1);
    assert_eq!(board.get_stone(GoCoordinates::new(0, 0)), GoStone::NONE);
    assert_eq!(board.get_stone(GoCoordinates::new(1, 0)), GoStone::BLACK);
    assert_eq!(board.get_stone(GoCoordinates::new(0, 1)), GoStone::BLACK);
}

#[test]
fn test_capture_scenario() {
    // Black at (1,0),(0,1),(1,2) surrounds White at (1,1); playing the last
    // surrounding stone at (2,1) captures exactly one White stone.
    let mut board = GoBoard::new();
    board.set_stone(GoCoordinates::new(1, 0), GoStone::BLACK);
    board.set_stone(GoCoordinates::new(0, 1), GoStone::BLACK);
    board.set_stone(GoCoordinates::new(1, 2), GoStone::BLACK);
    board.set_stone(GoCoordinates::new(1, 1), GoStone::WHITE);
    let mut game = GoGame::from_board(board, GoStone::BLACK);
    assert_eq!(game.current_turn(), GoStone::BLACK);
    assert_eq!(game.play_stone(GoCoordinates::new(2, 1)), Ok(()));
    assert_eq!(game.black_captures(), 1);
    assert_eq!(game.white_captures(), 0);
    assert_eq!(game.current_board().get_stone(GoCoordinates::new(1, 1)), GoStone::NONE);
    assert_eq!(game.current_board().get_stone(GoCoordinates::new(2, 1)), GoStone::BLACK);
    assert_eq!(game.current_turn(), GoStone::WHITE);
}

#[test]
fn test_occupied_rejection() {
    let mut game = GoGame::new();
    assert_eq!(game.play_stone(GoCoordinates::new(4, 4)), Ok(()));
    let before = game.current_board().clone_board();
    assert_eq!(game.play_stone(GoCoordinates::new(4, 4)), Err(PlayError::Occupied));
    assert!(boards_equal(&before, game.current_board()));
    assert_eq!(game.current_turn(), GoStone::WHITE);
}

#[test]
fn test_suicide_rejection() {
    // White plays into a point fully surrounded by Black, capturing nothing.
    let mut board = GoBoard::new();
    board.set_stone(GoCoordinates::new(1, 0), GoStone::BLACK);
    board.set_stone(GoCoordinates::new(0, 1), GoStone::BLACK);
    board.set_stone(GoCoordinates::new(1, 2), GoStone::BLACK);
    board.set_stone(GoCoordinates::new(2, 1), GoStone::BLACK);
    let before = board.clone_board();
    let mut game = GoGame::from_board(board, GoStone::WHITE);
    assert_eq!(game.current_turn(), GoStone::WHITE);
    assert_eq!(game.play_stone(GoCoordinates::new(1, 1)), Err(PlayError::Suicide));
    assert!(boards_equal(&before, game.current_board()));
    assert_eq!(game.current_turn(), GoStone::WHITE);
    assert_eq!(game.black_captures(), 0);
    assert_eq!(game.white_captures(), 0);
}

#[test]
fn test_superko_rejection() {
    // A ko: White recapturing would recreate the starting position, which is
    // two positions back in the history, not the immediately preceding one.
    let mut board = GoBoard::new();
    board.set_stone(GoCoordinates::new(1, 1), GoStone::BLACK);
    board.set_stone(GoCoordinates::new(2, 0), GoStone::BLACK);
    board.set_stone(GoCoordinates::new(2, 2), GoStone::BLACK);
    board.set_stone(GoCoordinates::new(2, 1), GoStone::WHITE);
    board.set_stone(GoCoordinates::new(3, 0), GoStone::WHITE);
    board.set_stone(GoCoordinates::new(3, 2), GoStone::WHITE);
    board.set_stone(GoCoordinates::new(4, 1), GoStone::WHITE);
    let mut game = GoGame::from_board(board, GoStone::BLACK);

    // Black takes the ko: captures the White stone at (2,1).
    assert_eq!(game.play_stone(GoCoordinates::new(3, 1)), Ok(()));
    assert_eq!(game.black_captures(), 1);
    assert_eq!(game.current_board().get_stone(GoCoordinates::new(2, 1)), GoStone::NONE);

    // White recapturing at (2,1) would restore the starting position exactly.
    let before = game.current_board().clone_board();
    assert_eq!(game.play_stone(GoCoordinates::new(2, 1)), Err(PlayError::Repetition));
    assert!(boards_equal(&before, game.current_board()));
    assert_eq!(game.current_turn(), GoStone::WHITE);
    assert_eq!(game.white_captures(), 0);
}

#[test]
fn test_play_then_undo_restores() {
    let mut game = GoGame::new();
    assert_eq!(game.play_stone(GoCoordinates::new(3, 3)), Ok(()));
    assert_eq!(game.play_stone(GoCoordinates::new(5, 5)), Ok(()));
    let turn_before = game.turn_number();
    let board_before = game.current_board().clone_board();
    let black_before = game.black_captures();
    let white_before = game.white_captures();

    assert_eq!(game.play_stone(GoCoordinates::new(4, 4)), Ok(()));
    assert_eq!(game.undo(), Ok(()));

    assert_eq!(game.turn_number(), turn_before);
    assert!(boards_equal(&board_before, game.current_board()));
    assert_eq!(game.black_captures(), black_before);
    assert_eq!(game.white_captures(), white_before);
}

#[test]
fn test_undo_at_initial_position() {
    let mut game = GoGame::new();
    assert_eq!(game.undo(), Err(UndoError::NoHistory));
    assert_eq!(game.turn_number(), 0);
    assert_eq!(game.current_turn(), GoStone::BLACK);
}

#[test]
fn test_turn_alternation() {
    let mut game = GoGame::new();
    assert_eq!(game.current_turn(), GoStone::BLACK);
    assert_eq!(game.play_stone(GoCoordinates::new(0, 0)), Ok(()));
    assert_eq!(game.current_turn(), GoStone::WHITE);
    assert_eq!(game.play_stone(GoCoordinates::new(1, 1)), Ok(()));
    assert_eq!(game.current_turn(), GoStone::BLACK);
    assert_eq!(game.undo(), Ok(()));
    assert_eq!(game.current_turn(), GoStone::WHITE);
    assert_eq!(game.current_board().get_stone(GoCoordinates::new(1, 1)), GoStone::NONE);
    assert_eq!(game.current_board().get_stone(GoCoordinates::new(0, 0)), GoStone::BLACK);
}

#[test]
fn test_clone_game_is_independent() {
    let mut game = GoGame::new();
    assert_eq!(game.play_stone(GoCoordinates::new(2, 2)), Ok(()));
    let mut copy = game.clone_game();
    assert_eq!(copy.turn_number(), game.turn_number());
    assert!(boards_equal(game.current_board(), copy.current_board()));
    assert_eq!(copy.play_stone(GoCoordinates::new(6, 6)), Ok(()));
    assert_eq!(game.current_board().get_stone(GoCoordinates::new(6, 6)), GoStone::NONE);
}
