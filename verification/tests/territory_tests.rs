use go_engine::board::GoBoard;
use go_engine::board::GoCoordinates;
use go_engine::board::GoStone;

#[test]
fn test_voronoi_empty_board() {
    // No color is adjacent to any empty cell, so no growth occurs at all.
    let board = GoBoard::new();
    assert_eq!(board.voronoi_score(), (0, 0));
    // The board itself is untouched.
    assert_eq!(board.count(GoStone::NONE), 81);
}

#[test]
fn test_voronoi_single_center_stone() {
    // With nothing to block it, a single Black stone grows over all 81 cells.
    let mut board = GoBoard::new();
    board.set_stone(GoCoordinates::new(4, 4), GoStone::BLACK);
    assert_eq!(board.voronoi_score(), (81, 0));
    // The original board still holds exactly one stone.
    assert_eq!(board.count(GoStone::BLACK), 1);
}

#[test]
fn test_voronoi_symmetric_corners() {
    // Opposite corners split the board evenly; the contested anti-diagonal
    // stays empty and counts toward neither side.
    let mut board = GoBoard::new();
    board.set_stone(GoCoordinates::new(0, 0), GoStone::BLACK);
    board.set_stone(GoCoordinates::new(8, 8), GoStone::WHITE);
    let (black, white) = board.voronoi_score();
    assert_eq!(black, white);
    assert!(black + white < 81);
    assert!(black > 0);
}

#[test]
fn test_grow_both_one_pass() {
    let mut board = GoBoard::new();
    board.set_stone(GoCoordinates::new(0, 0), GoStone::BLACK);
    board.set_stone(GoCoordinates::new(2, 0), GoStone::WHITE);
    assert!(board.grow_both());
    // (1,0) touches both colors and stays contested.
    assert_eq!(board.get_stone(GoCoordinates::new(1, 0)), GoStone::NONE);
    assert_eq!(board.get_stone(GoCoordinates::new(0, 1)), GoStone::BLACK);
    assert_eq!(board.get_stone(GoCoordinates::new(3, 0)), GoStone::WHITE);
    assert_eq!(board.get_stone(GoCoordinates::new(2, 1)), GoStone::WHITE);
    // (1,1) had only empty neighbors at the start of the pass: growth within
    // one pass does not cascade.
    assert_eq!(board.get_stone(GoCoordinates::new(1, 1)), GoStone::NONE);
}

#[test]
fn test_grow_both_fixed_point() {
    let mut board = GoBoard::new();
    assert!(!board.grow_both());
    board.set_stone(GoCoordinates::new(4, 4), GoStone::BLACK);
    for _ in 0..8 {
        assert!(board.grow_both());
    }
    // After eight passes the whole board is black and a further pass is a
    // fixed point.
    assert!(!board.grow_both());
    assert_eq!(board.count(GoStone::BLACK), 81);
}

#[test]
fn test_grow_single_color() {
    let mut board = GoBoard::new();
    board.set_stone(GoCoordinates::new(4, 4), GoStone::BLACK);
    assert!(board.grow(GoStone::BLACK));
    assert_eq!(board.count(GoStone::BLACK), 5);
    assert_eq!(board.get_stone(GoCoordinates::new(3, 4)), GoStone::BLACK);
    assert_eq!(board.get_stone(GoCoordinates::new(5, 4)), GoStone::BLACK);
    assert_eq!(board.get_stone(GoCoordinates::new(4, 3)), GoStone::BLACK);
    assert_eq!(board.get_stone(GoCoordinates::new(4, 5)), GoStone::BLACK);
}

#[test]
fn test_grow_overwrites_adjacent_stones() {
    // The single-color dilation claims every adjacent cell, stones included.
    let mut board = GoBoard::new();
    board.set_stone(GoCoordinates::new(4, 4), GoStone::BLACK);
    board.set_stone(GoCoordinates::new(4, 5), GoStone::WHITE);
    assert!(board.grow(GoStone::BLACK));
    assert_eq!(board.get_stone(GoCoordinates::new(4, 5)), GoStone::BLACK);
    assert_eq!(board.count(GoStone::WHITE), 0);
}

#[test]
fn test_grow_no_change() {
    let mut board = GoBoard::new();
    assert!(!board.grow(GoStone::BLACK));
    assert_eq!(board.count(GoStone::NONE), 81);
}
