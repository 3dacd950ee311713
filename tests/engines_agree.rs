use goban::bitmask19::BitMask19;
use goban::bitmask_board::BitMaskBoard;
use goban::board::FlexibleBoard;
use goban::coordinate::{Coordinate, FlexibleCoordinate};
use goban::game::Game;
use goban::game_state::GameState;
use goban::player::{Move, PlaceStoneMove, Player};

#[test]
fn fast_and_generic_engines_allow_the_same_points() {
    // A corner fight: a white stone in atari, a black eye, a white wall.
    let points: [(u16, u16); 12] = [
        (1, 0), (0, 0), (2, 1), (1, 1), (0, 2), (2, 0),
        (3, 0), (10, 10), (1, 2), (11, 11), (5, 5), (0, 1),
    ];
    let mut state = GameState::init();
    let mut game = Game::new(BitMaskBoard::new(BitMask19::init));
    let mut player = Player::Black;
    for &(x, y) in points.iter() {
        let fast = state.make_move(Coordinate::init(x, y));
        let generic = game.make_move(&Move::PlaceStone(PlaceStoneMove {
            player,
            coord: FlexibleCoordinate { x, y },
        }));
        assert_eq!(fast.is_some(), generic.is_ok());
        if let Some(next) = fast {
            state = next;
            player = !player;
        }
    }
    for i in 0..361u16 {
        let coord = Coordinate::from_index(i);
        let (x, y) = (i / 19, i % 19);
        let mut probe = Game::new(game.get_board().clone());
        let accepted = probe
            .make_move(&Move::PlaceStone(PlaceStoneMove {
                player: state.current_player(),
                coord: FlexibleCoordinate { x, y },
            }))
            .is_ok();
        assert_eq!(state.is_legal_move(coord), accepted, "point ({}, {})", x, y);
        assert_eq!(
            state.board().get_piece_at(coord),
            game.get_board().get_player_at(&FlexibleCoordinate { x, y })
        );
    }
}
