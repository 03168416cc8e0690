use go_engine::board::GoBoard;
use go_engine::board::GoBoardMask;
use go_engine::board::GoCoordinates;
use go_engine::board::GoStone;
use go_engine::tritvector::Trit;
use go_engine::tritvector::TritVector;

#[test]
fn test_coordinate_transformation() {
    for i in 0..81 {
        assert_eq!(i, GoCoordinates::from_index(i).to_index());
    }
}

#[test]
fn test_coordinate_accessors() {
    let c = GoCoordinates::new(3, 7);
    assert_eq!(c.x(), 3);
    assert_eq!(c.y(), 7);
    let c2 = GoCoordinates::new_usize(8, 0);
    assert_eq!(c2.x(), 8);
    assert_eq!(c2.y(), 0);
    assert_eq!(c2.to_index(), 8);
}

#[test]
fn test_neighbor_counts() {
    // Corners have exactly 2 neighbors.
    assert_eq!(GoCoordinates::new(0, 0).neighbors().len(), 2);
    assert_eq!(GoCoordinates::new(8, 0).neighbors().len(), 2);
    assert_eq!(GoCoordinates::new(0, 8).neighbors().len(), 2);
    assert_eq!(GoCoordinates::new(8, 8).neighbors().len(), 2);
    // Edge cells that are not corners have exactly 3.
    assert_eq!(GoCoordinates::new(4, 0).neighbors().len(), 3);
    assert_eq!(GoCoordinates::new(0, 4).neighbors().len(), 3);
    assert_eq!(GoCoordinates::new(8, 4).neighbors().len(), 3);
    assert_eq!(GoCoordinates::new(4, 8).neighbors().len(), 3);
    // Interior cells have exactly 4.
    assert_eq!(GoCoordinates::new(4, 4).neighbors().len(), 4);
    assert_eq!(GoCoordinates::new(1, 1).neighbors().len(), 4);
}

#[test]
fn test_neighbor_order() {
    // Stable order: left, up, right, down.
    let n = GoCoordinates::new(4, 4).neighbors();
    assert_eq!(n[0], GoCoordinates::new(3, 4));
    assert_eq!(n[1], GoCoordinates::new(4, 3));
    assert_eq!(n[2], GoCoordinates::new(5, 4));
    assert_eq!(n[3], GoCoordinates::new(4, 5));
    let corner = GoCoordinates::new(0, 0).neighbors();
    assert_eq!(corner[0], GoCoordinates::new(1, 0));
    assert_eq!(corner[1], GoCoordinates::new(0, 1));
}

#[test]
fn test_opponent_color() {
    assert_eq!(GoStone::BLACK.opponent_color(), GoStone::WHITE);
    assert_eq!(GoStone::WHITE.opponent_color(), GoStone::BLACK);
    assert!(GoStone::NONE.is_none());
    assert!(!GoStone::BLACK.is_none());
    assert!(!GoStone::WHITE.is_none());
}

#[test]
fn test_storage_round_trip() {
    // Every cell takes each of the three stone values and reads back the same.
    for i in 0..81 {
        let c = GoCoordinates::from_index(i);
        for stone in [GoStone::BLACK, GoStone::WHITE, GoStone::NONE] {
            let mut board = GoBoard::new();
            board.set_stone(c, stone);
            assert_eq!(board.get_stone(c), stone);
        }
    }
}

#[test]
fn test_storage_overwrite_leaves_others() {
    let mut board = GoBoard::new();
    let a = GoCoordinates::new(2, 3);
    let b = GoCoordinates::new(3, 3);
    board.set_stone(a, GoStone::BLACK);
    board.set_stone(b, GoStone::WHITE);
    board.set_stone(a, GoStone::WHITE);
    assert_eq!(board.get_stone(a), GoStone::WHITE);
    assert_eq!(board.get_stone(b), GoStone::WHITE);
    for i in 0..81 {
        let c = GoCoordinates::from_index(i);
        if i != a.to_index() && i != b.to_index() {
            assert_eq!(board.get_stone(c), GoStone::NONE);
        }
    }
}

#[test]
fn test_tritvector_round_trip() {
    let mut v = TritVector::new(81);
    for i in 0..81 {
        assert!(matches!(v.get(i), Trit::ZERO));
    }
    v.set(0, Trit::ONE);
    v.set(1, Trit::TWO);
    v.set(80, Trit::ONE);
    assert!(matches!(v.get(0), Trit::ONE));
    assert!(matches!(v.get(1), Trit::TWO));
    assert!(matches!(v.get(80), Trit::ONE));
    assert!(matches!(v.get(2), Trit::ZERO));
    v.set(1, Trit::ZERO);
    assert!(matches!(v.get(1), Trit::ZERO));
}

#[test]
fn test_tritvector_eq() {
    let mut a = TritVector::new(81);
    let mut b = TritVector::new(81);
    assert!(a.eq(&b));
    a.set(40, Trit::TWO);
    assert!(!a.eq(&b));
    b.set(40, Trit::TWO);
    assert!(a.eq(&b));
    let short = TritVector::new(80);
    assert!(!a.eq(&short));
}

#[test]
fn test_board_equality_and_clone() {
    let mut a = GoBoard::new();
    a.set_stone(GoCoordinates::new(5, 5), GoStone::BLACK);
    let mut b = a.clone_board();
    assert!(a.same_position(&b));
    // The clone shares no storage with its source.
    b.set_stone(GoCoordinates::new(5, 5), GoStone::WHITE);
    assert!(!a.same_position(&b));
    assert_eq!(a.get_stone(GoCoordinates::new(5, 5)), GoStone::BLACK);
}

#[test]
fn test_stone_mask() {
    let mut board = GoBoard::new();
    let black_at = GoCoordinates::new(2, 3);
    board.set_stone(black_at, GoStone::BLACK);
    let black_mask = GoBoardMask::new_stone_mask(&board, GoStone::BLACK);
    let empty_mask = GoBoardMask::new_stone_mask(&board, GoStone::NONE);
    assert!(black_mask.get(black_at));
    assert!(!black_mask.get(GoCoordinates::new(0, 0)));
    assert!(!empty_mask.get(black_at));
    assert!(empty_mask.get(GoCoordinates::new(0, 0)));
}

#[test]
fn test_mask_set_and_get() {
    let mut mask = GoBoardMask::new();
    let c = GoCoordinates::new(7, 1);
    assert!(!mask.get(c));
    mask.set(c, true);
    assert!(mask.get(c));
    mask.set(c, false);
    assert!(!mask.get(c));
}

#[test]
fn test_count() {
    let mut board = GoBoard::new();
    assert_eq!(board.count(GoStone::NONE), 81);
    assert_eq!(board.count(GoStone::BLACK), 0);
    board.set_stone(GoCoordinates::new(0, 0), GoStone::BLACK);
    board.set_stone(GoCoordinates::new(1, 1), GoStone::BLACK);
    board.set_stone(GoCoordinates::new(2, 2), GoStone::BLACK);
    board.set_stone(GoCoordinates::new(3, 3), GoStone::WHITE);
    assert_eq!(board.count(GoStone::BLACK), 3);
    assert_eq!(board.count(GoStone::WHITE), 1);
    assert_eq!(board.count(GoStone::NONE), 77);
}
