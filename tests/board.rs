use goban::bitmask19::BitMask19;
use goban::bitmask_board::BitMaskBoard;
use goban::board::{BoardClearError, BoardPlacementError, FlexibleBoard, Group};
use goban::coordinate::FlexibleCoordinate;
use goban::coordinate_set::CoordinateSet;
use goban::flexible_bitmask::TestMask;
use goban::player::{PlaceStoneMove, Player};

const B: Option<Player> = Some(Player::Black);
const W: Option<Player> = Some(Player::White);

#[test]
fn given_empty_board_when_get_player_at_is_called_then_returns_none() {
    let board = BitMaskBoard::new(BitMask19::init);
    let res = board.get_player_at(&FlexibleCoordinate { x: 0, y: 0 });
    assert_eq!(None, res);
}

#[test]
fn given_position_set_to_black_when_get_player_at_is_called_then_returns_black() {
    let e = None;
    let position = vec![
            vec![B, W, e, e, e, e, e, e, e, e, e, e, e, e, e, e, e, e, e],
            vec![e, e, e, e, e, e, e, e, e, e, e, e, e, e, e, e, e, e, e],
            vec![e, e, e, e, e, e, e, e, e, e, e, e, e, e, e, e, e, e, e],
            vec![e, e, e, e, e, e, e, e, e, e, e, e, e, e, e, e, e, e, e],
            vec![e, e, e, e, e, e, e, e, e, e, e, e, e, e, e, e, e, e, e],
            vec![e, e, e, e, e, e, e, e, e, e, e, e, e, e, e, e, e, e, e],
            vec![e, e, e, e, e, e, e, e, e, e, e, e, e, e, e, e, e, e, e],
            vec![e, e, e, e, e, e, e, e, e, e, e, e, e, e, e, e, e, e, e],
            vec![e, e, e, e, e, e, e, e, e, e, e, e, e, e, e, e, e, e, e],
            vec![e, e, e, e, e, e, e, e, e, e, e, e, e, e, e, e, e, e, e],
            vec![e, e, e, e, e, e, e, e, e, e, e, e, e, e, e, e, e, e, e],
            vec![e, e, e, e, e, e, e, e, e, e, e, e, e, e, e, e, e, e, e],
            vec![e, e, e, e, e, e, e, e, e, e, e, e, e, e, e, e, e, e, e],
            vec![e, e, e, e, e, e, e, e, e, e, e, e, e, e, e, e, e, e, e],
            vec![e, e, e, e, e, e, e, e, e, e, e, e, e, e, e, e, e, e, e],
            vec![e, e, e, e, e, e, e, e, e, e, e, e, e, e, e, e, e, e, e],
            vec![e, e, e, e, e, e, e, e, e, e, e, e, e, e, e, e, e, e, e],
            vec![e, e, e, e, e, e, e, e, e, e, e, e, e, e, e, e, e, e, e],
            vec![e, e, e, e, e, e, e, e, e, e, e, e, e, e, e, e, e, e, e],
    ];
    let board = BitMaskBoard::from_position(BitMask19::init, position);
    let res = board.get_player_at(&FlexibleCoordinate { x: 0, y: 0 });
    assert_eq!(B, res);
}

#[test]
fn given_position_set_to_white_when_get_player_at_is_called_then_returns_white() {
    let e = None;
    let position = vec![
            vec![B, W, e, e, e, e, e, e, e, e, e, e, e, e, e, e, e, e, e],
            vec![e, e, e, e, e, e, e, e, e, e, e, e, e, e, e, e, e, e, e],
            vec![e, e, e, e, e, e, e, e, e, e, e, e, e, e, e, e, e, e, e],
            vec![e, e, e, e, e, e, e, e, e, e, e, e, e, e, e, e, e, e, e],
            vec![e, e, e, e, e, e, e, e, e, e, e, e, e, e, e, e, e, e, e],
            vec![e, e, e, e, e, e, e, e, e, e, e, e, e, e, e, e, e, e, e],
            vec![e, e, e, e, e, e, e, e, e, e, e, e, e, e, e, e, e, e, e],
            vec![e, e, e, e, e, e, e, e, e, e, e, e, e, e, e, e, e, e, e],
            vec![e, e, e, e, e, e, e, e, e, e, e, e, e, e, e, e, e, e, e],
            vec![e, e, e, e, e, e, e, e, e, e, e, e, e, e, e, e, e, e, e],
            vec![e, e, e, e, e, e, e, e, e, e, e, e, e, e, e, e, e, e, e],
            vec![e, e, e, e, e, e, e, e, e, e, e, e, e, e, e, e, e, e, e],
            vec![e, e, e, e, e, e, e, e, e, e, e, e, e, e, e, e, e, e, e],
            vec![e, e, e, e, e, e, e, e, e, e, e, e, e, e, e, e, e, e, e],
            vec![e, e, e, e, e, e, e, e, e, e, e, e, e, e, e, e, e, e, e],
            vec![e, e, e, e, e, e, e, e, e, e, e, e, e, e, e, e, e, e, e],
            vec![e, e, e, e, e, e, e, e, e, e, e, e, e, e, e, e, e, e, e],
            vec![e, e, e, e, e, e, e, e, e, e, e, e, e, e, e, e, e, e, e],
            vec![e, e, e, e, e, e, e, e, e, e, e, e, e, e, e, e, e, e, e],
    ];
    let board = BitMaskBoard::from_position(BitMask19::init, position);
    let res = board.get_player_at(&FlexibleCoordinate { x: 1, y: 0 });
    assert_eq!(W, res);
}

#[test]
fn given_a_board_when_get_liberties_is_called_then_it_should_exclude_opponent_pieces() {
    let e = None;
    let position = vec![
            vec![B, W, B, e, e, e, e, e, e],
            vec![B, e, B, e, e, e, e, e, e],
            vec![B, B, B, e, e, e, e, e, e],
            vec![e, e, e, e, e, e, e, e, e],
            vec![e, e, e, e, e, e, e, e, e],
            vec![e, e, e, e, e, e, e, e, e],
            vec![e, e, e, e, e, e, e, e, e],
            vec![e, e, e, e, e, e, e, e, e],
            vec![e, e, e, e, e, e, e, e, e],
    ];
    let board = BitMaskBoard::from_position(|| TestMask::empty((9, 9)), position);
    let white_group = board
        .find_group(&FlexibleCoordinate { x: 1, y: 0 })
        .expect("Expected group to be found");
    println!("{:?}", white_group);
    let res = board.get_liberties(&white_group);
    println!("{:?}", res);
    let expected = CoordinateSet::set(&[(1, 1)]);
    assert!(res.equals(&expected));
}

#[test]
fn given_a_board_when_get_liberties_is_called_then_it_should_exclude_opponent_pieces_two() {
    let e = None;
    let position = vec![
            vec![B, W, B, e, e, e, e, e, e],
            vec![B, e, B, e, e, e, e, e, e],
            vec![B, B, B, e, e, e, e, e, e],
            vec![e, e, e, e, e, e, e, e, e],
            vec![e, e, e, e, e, e, e, e, e],
            vec![e, e, e, e, e, e, e, e, e],
            vec![e, e, e, e, e, e, e, e, e],
            vec![e, e, e, e, e, e, e, e, e],
            vec![e, e, e, e, e, e, e, e, e],
    ];
    let board = BitMaskBoard::from_position(|| TestMask::empty((9, 9)), position);
    let black_group = board
        .find_group(&FlexibleCoordinate { x: 2, y: 0 })
        .expect("Expected group to be found");
    println!("{:?}", black_group);
    let res = board.get_liberties(&black_group);
    println!("{:?}", res);
    let expected =
        CoordinateSet::set(&[(3, 0), (3, 1), (3, 2), (0, 3), (1, 3), (2, 3), (1, 1)]);
    assert!(res.equals(&expected));
}

#[test]
fn given_a_board_when_capture_is_called_then_it_should_remove_the_stones() {
    let e = None;
    let position = vec![
            vec![B, W, B, e, e, e, e, e, e],
            vec![B, e, B, e, e, e, e, e, e],
            vec![B, B, B, e, e, e, e, e, e],
            vec![e, e, e, e, e, e, e, e, e],
            vec![e, e, e, e, e, e, e, e, e],
            vec![e, e, e, e, e, e, e, e, e],
            vec![e, e, e, e, e, e, e, e, e],
            vec![e, e, e, e, e, e, e, e, e],
            vec![e, e, e, e, e, e, e, e, e],
    ];
    let mut board = BitMaskBoard::from_position(|| TestMask::empty((9, 9)), position);
    let black_group = board
        .find_group(&FlexibleCoordinate { x: 2, y: 0 })
        .expect("Expected group to be found");
    println!("{:?}", black_group);
    board
        .capture(&black_group.coordinates)
        .expect("Should be able to capture stones");
    let mut expected_position = vec![vec![e; 9]; 9];
    expected_position[0][1] = W;
    let expected = BitMaskBoard::from_position(|| TestMask::empty((9, 9)), expected_position);
    assert_eq!(expected, board);
}

#[test]
fn given_a_board_when_find_groups_to_capture_from_move_is_called_then_it_should_return_all_groups_that_will_have_no_liberties()
{
    let e = None;
    let position = vec![
            vec![e, e, e, e, e, e, e, e, e],
            vec![e, e, e, e, e, e, e, e, e],
            vec![e, e, e, e, W, e, e, e, e],
            vec![e, e, W, W, B, W, e, e, e],
            vec![e, W, B, B, e, B, W, e, e],
            vec![e, e, W, W, B, W, e, e, e],
            vec![e, e, e, e, e, e, e, e, e],
            vec![e, e, e, e, e, e, e, e, e],
            vec![e, e, e, e, e, e, e, e, e],
    ];
    let board = BitMaskBoard::from_position(|| TestMask::empty((9, 9)), position);
    let capture_groups = board.find_groups_to_capture_from_move(&PlaceStoneMove {
        player: Player::White,
        coord: FlexibleCoordinate { x: 4, y: 4 },
    });
    println!("{:?}", capture_groups);
    assert_eq!(3, capture_groups.len());
    let expected_groups = vec![
        CoordinateSet::set(&[(4, 3)]),
        CoordinateSet::set(&[(5, 4)]),
        CoordinateSet::set(&[(2, 4), (3, 4)]),
    ];
    for expected_group in expected_groups {
        let exists: Vec<&Group> = capture_groups
            .iter()
            .filter(|x| x.coordinates.equals(&expected_group))
            .collect();
        assert_eq!(1, exists.len());
    }
}

#[test]
fn given_a_suicide_move_when_is_potential_suicide_is_called_then_it_should_return_true() {
    let e = None;
    let position = vec![
            vec![e, e, e, e, e, e, e, e, e],
            vec![e, e, e, e, e, e, e, e, e],
            vec![e, e, e, e, e, e, e, e, e],
            vec![e, e, e, e, B, e, e, e, e],
            vec![e, e, e, B, e, B, e, e, e],
            vec![e, e, e, e, B, e, e, e, e],
            vec![e, e, e, e, e, e, e, e, e],
            vec![e, e, e, e, e, e, e, e, e],
            vec![e, e, e, e, e, e, e, e, e],
    ];
    let board = BitMaskBoard::from_position(|| TestMask::empty((9, 9)), position);
    let res = board.is_potential_suicide(&PlaceStoneMove {
        player: Player::White,
        coord: FlexibleCoordinate { x: 4, y: 4 },
    });
    assert!(res);
}

#[test]
fn a_move_with_a_liberty_is_not_suicide() {
    let e = None;
    let position = vec![
            vec![e, e, e, e, e, e, e, e, e],
            vec![e, e, e, e, e, e, e, e, e],
            vec![e, e, e, e, e, e, e, e, e],
            vec![e, e, e, e, B, e, e, e, e],
            vec![e, e, e, B, e, B, e, e, e],
            vec![e, e, e, e, B, e, e, e, e],
            vec![e, e, e, e, e, e, e, e, e],
            vec![e, e, e, e, e, e, e, e, e],
            vec![e, e, e, e, e, e, e, e, e],
    ];
    let board = BitMaskBoard::from_position(|| TestMask::empty((9, 9)), position);
    assert!(!board.is_potential_suicide(&PlaceStoneMove {
        player: Player::White,
        coord: FlexibleCoordinate { x: 0, y: 0 },
    }));
}

#[test]
fn group_that_wraps_around_the_move_is_listed_once() {
    let e = None;
    let position = vec![
        vec![W, W, W, B, e, e, e, e, e],
        vec![W, e, W, B, e, e, e, e, e],
        vec![B, W, B, e, e, e, e, e, e],
        vec![e, B, e, e, e, e, e, e, e],
        vec![e, e, e, e, e, e, e, e, e],
        vec![e, e, e, e, e, e, e, e, e],
        vec![e, e, e, e, e, e, e, e, e],
        vec![e, e, e, e, e, e, e, e, e],
        vec![e, e, e, e, e, e, e, e, e],
    ];
    let board = BitMaskBoard::from_position(|| TestMask::empty((9, 9)), position);
    let groups = board.find_groups_to_capture_from_move(&PlaceStoneMove {
        player: Player::Black,
        coord: FlexibleCoordinate { x: 1, y: 1 },
    });
    assert_eq!(groups.len(), 2);
}

#[test]
fn placing_on_an_occupied_point_reports_its_owner() {
    let mut board = BitMaskBoard::new(|| TestMask::empty((5, 5)));
    let coord = FlexibleCoordinate { x: 2, y: 3 };
    assert!(board.set_player_at(&coord, &Player::White).is_ok());
    let res = board.set_player_at(&coord, &Player::Black);
    assert!(matches!(
        res,
        Err(BoardPlacementError::CoordinateOccupied { occupied_by: Player::White })
    ));
    assert_eq!(board.get_player_at(&coord), W);
}

#[test]
fn clearing_an_empty_point_fails() {
    let mut board = BitMaskBoard::new(|| TestMask::empty((5, 5)));
    let coord = FlexibleCoordinate { x: 1, y: 1 };
    assert!(matches!(board.clear_at(&coord), Err(BoardClearError::CoordinateEmpty)));
    assert!(board.set_player_at(&coord, &Player::Black).is_ok());
    assert!(board.clear_at(&coord).is_ok());
    assert_eq!(board.get_player_at(&coord), None);
}

#[test]
fn capturing_an_empty_point_fails_and_changes_nothing() {
    let mut board = BitMaskBoard::new(|| TestMask::empty((5, 5)));
    assert!(board.set_player_at(&FlexibleCoordinate { x: 0, y: 0 }, &Player::Black).is_ok());
    let before = board.clone();
    let res = board.capture(&CoordinateSet::set(&[(0, 0), (1, 0)]));
    assert!(matches!(res, Err(BoardClearError::CoordinateEmpty)));
    assert_eq!(before, board);
    assert_eq!(board.capture(&CoordinateSet::set(&[(0, 0)])).ok(), Some(1));
}

#[test]
fn predicted_group_joins_neighbouring_stones() {
    let mut board = BitMaskBoard::new(|| TestMask::empty((5, 5)));
    assert!(board.set_player_at(&FlexibleCoordinate { x: 1, y: 2 }, &Player::Black).is_ok());
    assert!(board.set_player_at(&FlexibleCoordinate { x: 3, y: 2 }, &Player::Black).is_ok());
    let group = board.predict_group(&PlaceStoneMove {
        player: Player::Black,
        coord: FlexibleCoordinate { x: 2, y: 2 },
    });
    assert!(group.coordinates.equals(&CoordinateSet::set(&[(1, 2), (2, 2), (3, 2)])));
    assert_eq!(board.get_size(), (5, 5));
}

#[test]
fn display_draws_each_row_with_discs_and_blanks() {
    let e = None;
    let position = vec![vec![B, e], vec![e, W]];
    let board = BitMaskBoard::from_position(|| TestMask::empty((2, 2)), position);
    assert_eq!(board.display().render(), "⚫  \n  ⚪\n");
}

#[test]
fn points_know_whether_they_are_on_the_board() {
    let board = BitMaskBoard::new(|| TestMask::empty((3, 2)));
    assert!(FlexibleCoordinate { x: 2, y: 1 }.is_in_board(&board));
    assert!(!FlexibleCoordinate { x: 3, y: 0 }.is_in_board(&board));
    assert!(!FlexibleCoordinate { x: 0, y: 2 }.is_in_board(&board));
    let mask = TestMask::empty((3, 2));
    assert!(FlexibleCoordinate { x: 0, y: 1 }.is_in_mask(&mask));
    assert!(!FlexibleCoordinate { x: 0, y: 2 }.is_in_mask(&mask));
}

#[test]
fn players_alternate_and_have_names() {
    assert_eq!(!Player::Black, Player::White);
    assert_eq!(Player::White.opponent(), Player::Black);
    assert_eq!(Player::Black.name(), "black");
    assert_eq!(Player::White.name(), "white");
}
