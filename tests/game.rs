use goban::bitmask_board::BitMaskBoard;
use goban::board::FlexibleBoard;
use goban::coordinate::FlexibleCoordinate;
use goban::flexible_bitmask::TestMask;
use goban::game::{Game, MoveError};
use goban::parsed_game::ParsedGame;
use goban::player::{Move, PlaceStoneMove, Player};

const B: Option<Player> = Some(Player::Black);
const W: Option<Player> = Some(Player::White);

#[test]
fn given_empty_game_when_make_move_is_called_then_it_should_place_the_stone() {
    // Given
    let board = BitMaskBoard::new(|| TestMask::empty((9, 9)));
    let mut game = Game::new(board);

    // When
    let res = game.make_move(&Move::PlaceStone(PlaceStoneMove {
        player: Player::Black,
        coord: FlexibleCoordinate { x: 0, y: 0 },
    }));

    // Then
    assert!(res.is_ok());
    let stone_at_placed_coord = game
        .get_board()
        .get_player_at(&FlexibleCoordinate { x: 0, y: 0 });
    assert_eq!(stone_at_placed_coord, Some(Player::Black));
}

#[test]
fn given_game_with_capture_position_when_make_move_is_called_then_it_should_capture_the_stones()
{
    // Given
    let e = None;
    let position = vec![
        vec![e, e, e, e, e, e, e, e, e],
        vec![e, e, e, e, e, e, e, e, e],
        vec![e, e, e, e, B, e, e, e, e],
        vec![e, e, B, W, W, B, e, e, e],
        vec![e, e, e, B, W, B, e, e, e],
        vec![e, e, e, e, B, e, e, e, e],
        vec![e, e, e, e, e, e, e, e, e],
        vec![e, e, e, e, e, e, e, e, e],
        vec![e, e, e, e, e, e, e, e, e],
    ];
    let board = BitMaskBoard::from_position(|| TestMask::empty((9, 9)), position);
    let mut game = Game::new(board);

    // When
    let res = game.make_move(&Move::PlaceStone(PlaceStoneMove {
        player: Player::Black,
        coord: FlexibleCoordinate { x: 3, y: 2 },
    }));

    // Then
    assert!(res.is_ok());

    let expected_position = vec![
        vec![e, e, e, e, e, e, e, e, e],
        vec![e, e, e, e, e, e, e, e, e],
        vec![e, e, e, B, B, e, e, e, e],
        vec![e, e, B, e, e, B, e, e, e],
        vec![e, e, e, B, e, B, e, e, e],
        vec![e, e, e, e, B, e, e, e, e],
        vec![e, e, e, e, e, e, e, e, e],
        vec![e, e, e, e, e, e, e, e, e],
        vec![e, e, e, e, e, e, e, e, e],
    ];
    let expected_board =
        BitMaskBoard::from_position(|| TestMask::empty((9, 9)), expected_position);

    assert_eq!(&expected_board, game.get_board());
    assert_eq!(3, game.captured_by_black());
}

#[test]
fn given_an_empty_board_when_a_full_game_is_played_then_it_should_have_actual_results() {
    // Given
    let board = BitMaskBoard::new(|| TestMask::empty((9, 9)));
    let mut game = Game::new(board);
    let a = 0;
    let b = 1;
    let c = 2;
    let d = 3;
    let e = 4;
    let f = 5;
    let g = 6;
    let h = 7;
    let i = 8;
    let moves = vec![
        PlaceStoneMove {
            player: Player::Black,
            coord: FlexibleCoordinate { x: g, y: c },
        },
        PlaceStoneMove {
            player: Player::White,
            coord: FlexibleCoordinate { x: e, y: e },
        },
        PlaceStoneMove {
            player: Player::Black,
            coord: FlexibleCoordinate { x: e, y: d },
        },
        PlaceStoneMove {
            player: Player::White,
            coord: FlexibleCoordinate { x: g, y: e },
        },
        PlaceStoneMove {
            player: Player::Black,
            coord: FlexibleCoordinate { x: d, y: e },
        },
        PlaceStoneMove {
            player: Player::White,
            coord: FlexibleCoordinate { x: d, y: f },
        },
        PlaceStoneMove {
            player: Player::Black,
            coord: FlexibleCoordinate { x: f, y: e },
        },
        PlaceStoneMove {
            player: Player::White,
            coord: FlexibleCoordinate { x: e, y: f },
        },
        PlaceStoneMove {
            player: Player::Black,
            coord: FlexibleCoordinate { x: f, y: d },
        },
        PlaceStoneMove {
            player: Player::White,
            coord: FlexibleCoordinate { x: f, y: f },
        },
        PlaceStoneMove {
            player: Player::Black,
            coord: FlexibleCoordinate { x: g, y: f },
        },
        PlaceStoneMove {
            player: Player::White,
            coord: FlexibleCoordinate { x: g, y: g },
        },
        PlaceStoneMove {
            player: Player::Black,
            coord: FlexibleCoordinate { x: c, y: f },
        },
        PlaceStoneMove {
            player: Player::White,
            coord: FlexibleCoordinate { x: c, y: g },
        },
        PlaceStoneMove {
            player: Player::Black,
            coord: FlexibleCoordinate { x: c, y: e },
        },
        PlaceStoneMove {
            player: Player::White,
            coord: FlexibleCoordinate { x: h, y: f },
        },
        PlaceStoneMove {
            player: Player::Black,
            coord: FlexibleCoordinate { x: b, y: g },
        },
        PlaceStoneMove {
            player: Player::White,
            coord: FlexibleCoordinate { x: b, y: h },
        },
        PlaceStoneMove {
            player: Player::Black,
            coord: FlexibleCoordinate { x: b, y: f },
        },
        PlaceStoneMove {
            player: Player::White,
            coord: FlexibleCoordinate { x: d, y: h },
        },
        PlaceStoneMove {
            player: Player::Black,
            coord: FlexibleCoordinate { x: h, y: d },
        },
        PlaceStoneMove {
            player: Player::White,
            coord: FlexibleCoordinate { x: h, y: e },
        },
        PlaceStoneMove {
            player: Player::Black,
            coord: FlexibleCoordinate { x: g, y: d },
        },
        PlaceStoneMove {
            player: Player::White,
            coord: FlexibleCoordinate { x: i, y: d },
        },
        PlaceStoneMove {
            player: Player::Black,
            coord: FlexibleCoordinate { x: h, y: g },
        },
        PlaceStoneMove {
            player: Player::White,
            coord: FlexibleCoordinate { x: h, y: c },
        },
        PlaceStoneMove {
            player: Player::Black,
            coord: FlexibleCoordinate { x: i, y: c },
        },
        PlaceStoneMove {
            player: Player::White,
            coord: FlexibleCoordinate { x: i, y: b },
        },
        PlaceStoneMove {
            player: Player::Black,
            coord: FlexibleCoordinate { x: h, y: b },
        },
        PlaceStoneMove {
            player: Player::White,
            coord: FlexibleCoordinate { x: i, y: c },
        },
        PlaceStoneMove {
            player: Player::Black,
            coord: FlexibleCoordinate { x: g, y: b },
        },
        PlaceStoneMove {
            player: Player::White,
            coord: FlexibleCoordinate { x: i, y: e },
        },
        PlaceStoneMove {
            player: Player::Black,
            coord: FlexibleCoordinate { x: h, y: a },
        },
        PlaceStoneMove {
            player: Player::White,
            coord: FlexibleCoordinate { x: a, y: g },
        },
        PlaceStoneMove {
            player: Player::Black,
            coord: FlexibleCoordinate { x: i, y: a },
        },
        PlaceStoneMove {
            player: Player::White,
            coord: FlexibleCoordinate { x: a, y: f },
        },
        PlaceStoneMove {
            player: Player::Black,
            coord: FlexibleCoordinate { x: i, y: g },
        },
        PlaceStoneMove {
            player: Player::White,
            coord: FlexibleCoordinate { x: h, y: h },
        },
        PlaceStoneMove {
            player: Player::Black,
            coord: FlexibleCoordinate { x: a, y: e },
        },
        PlaceStoneMove {
            player: Player::White,
            coord: FlexibleCoordinate { x: a, y: h },
        },
        PlaceStoneMove {
            player: Player::Black,
            coord: FlexibleCoordinate { x: e, y: g },
        },
        PlaceStoneMove {
            player: Player::White,
            coord: FlexibleCoordinate { x: f, y: h },
        },
    ];

    // When
    for m in moves {
        game.make_move(&Move::PlaceStone(m))
            .expect("Expected move to be allowed");
    }

    // Then
    let e = None;
    let expected_position = vec![
        vec![e, e, e, e, e, e, e, B, B],
        vec![e, e, e, e, e, e, B, B, W],
        vec![e, e, e, e, e, e, B, W, W],
        vec![e, e, e, e, B, B, B, B, W],
        vec![B, e, B, B, W, B, W, W, W],
        vec![W, B, B, W, W, W, e, W, e],
        vec![W, B, W, e, B, e, W, B, B],
        vec![W, W, e, W, e, W, e, W, e],
        vec![e, e, e, e, e, e, e, e, e],
    ];
    let expected_board =
        BitMaskBoard::from_position(|| TestMask::empty((9, 9)), expected_position);

    assert_eq!(&expected_board, game.get_board());
    assert_eq!(0, game.captured_by_black());
    assert_eq!(2, game.captured_by_white());
}

#[test]
fn surrounded_single_stone_is_captured_and_counted() {
    let e = None;
    let position = vec![
        vec![e, e, e, e, e],
        vec![e, e, B, e, e],
        vec![e, B, W, B, e],
        vec![e, e, e, e, e],
        vec![e, e, e, e, e],
    ];
    let board = BitMaskBoard::from_position(|| TestMask::empty((5, 5)), position);
    let mut game = Game::new(board);
    let res = game.make_move(&Move::PlaceStone(PlaceStoneMove {
        player: Player::Black,
        coord: FlexibleCoordinate { x: 2, y: 3 },
    }));
    assert!(res.is_ok());
    assert_eq!(game.get_board().get_player_at(&FlexibleCoordinate { x: 2, y: 2 }), None);
    assert_eq!(game.get_board().get_player_at(&FlexibleCoordinate { x: 2, y: 3 }), B);
    assert_eq!(game.captured_by_black(), 1);
    assert_eq!(game.captured_by_white(), 0);
}

#[test]
fn suicide_is_refused_and_board_kept() {
    let e = None;
    let position = vec![
        vec![e, B, e, e, e],
        vec![B, e, e, e, e],
        vec![e, e, e, e, e],
        vec![e, e, e, e, e],
        vec![e, e, e, e, e],
    ];
    let board = BitMaskBoard::from_position(|| TestMask::empty((5, 5)), position);
    let mut game = Game::new(board);
    let before = game.get_board().clone();
    let res = game.make_move(&Move::PlaceStone(PlaceStoneMove {
        player: Player::White,
        coord: FlexibleCoordinate { x: 0, y: 0 },
    }));
    assert!(matches!(res, Err(MoveError::Suicide)));
    assert_eq!(&before, game.get_board());
    assert_eq!(game.captured_by_white(), 0);
}

#[test]
fn capture_that_frees_a_liberty_is_not_suicide() {
    let e = None;
    let position = vec![
        vec![e, W, B, e, e],
        vec![W, B, e, e, e],
        vec![B, e, e, e, e],
        vec![e, e, e, e, e],
        vec![e, e, e, e, e],
    ];
    let board = BitMaskBoard::from_position(|| TestMask::empty((5, 5)), position);
    let mut game = Game::new(board);
    let res = game.make_move(&Move::PlaceStone(PlaceStoneMove {
        player: Player::Black,
        coord: FlexibleCoordinate { x: 0, y: 0 },
    }));
    assert!(res.is_ok());
    assert_eq!(game.captured_by_black(), 2);
    assert_eq!(game.get_board().get_player_at(&FlexibleCoordinate { x: 1, y: 0 }), None);
    assert_eq!(game.get_board().get_player_at(&FlexibleCoordinate { x: 0, y: 1 }), None);
}

#[test]
fn occupied_point_is_refused_with_its_owner() {
    let board = BitMaskBoard::new(|| TestMask::empty((9, 9)));
    let mut game = Game::new(board);
    let coord = FlexibleCoordinate { x: 4, y: 4 };
    assert!(game
        .make_move(&Move::PlaceStone(PlaceStoneMove { player: Player::White, coord }))
        .is_ok());
    let before = game.get_board().clone();
    let res = game.make_move(&Move::PlaceStone(PlaceStoneMove { player: Player::Black, coord }));
    assert!(matches!(
        res,
        Err(MoveError::CoordinateOccupied { occupied_by: Player::White })
    ));
    assert_eq!(&before, game.get_board());
}

#[test]
fn skip_hands_the_turn_over() {
    let board = BitMaskBoard::new(|| TestMask::empty((9, 9)));
    let mut game = Game::new(board);
    assert_eq!(game.current_player(), Player::Black);
    assert!(game.make_move(&Move::Skip { player: Player::Black }).is_ok());
    assert_eq!(game.current_player(), Player::White);
    assert_eq!(game.get_board().get_player_at(&FlexibleCoordinate { x: 0, y: 0 }), None);
}

#[test]
fn recorded_game_replays_or_stops_on_a_refused_move() {
    let stone = |player: Player, x: u16, y: u16| {
        Move::PlaceStone(PlaceStoneMove { player, coord: FlexibleCoordinate { x, y } })
    };
    let parsed = ParsedGame {
        width: 9,
        height: 9,
        moves: vec![stone(Player::Black, 2, 2), Move::Skip { player: Player::White }],
    };
    let game = parsed
        .run(|(w, h)| BitMaskBoard::new(move || TestMask::empty((w, h))))
        .expect("moves are legal");
    assert_eq!(game.get_board().get_player_at(&FlexibleCoordinate { x: 2, y: 2 }), B);
    assert_eq!(game.current_player(), Player::White);

    let refused = ParsedGame {
        width: 9,
        height: 9,
        moves: vec![stone(Player::Black, 2, 2), stone(Player::White, 2, 2)],
    };
    assert!(refused.run(|(w, h)| BitMaskBoard::new(move || TestMask::empty((w, h)))).is_none());

    let off_board = ParsedGame { width: 9, height: 9, moves: vec![stone(Player::Black, 9, 0)] };
    assert!(off_board.run(|(w, h)| BitMaskBoard::new(move || TestMask::empty((w, h)))).is_none());
}
