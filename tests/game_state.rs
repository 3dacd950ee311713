use goban::coordinate::Coordinate;
use goban::fixed_board::Board;
use goban::game_state::GameState;
use goban::player::Player;

#[test]
fn create_board() {
    Board::init();
}

#[test]
fn test_player_moves() {
    let mut state = GameState::init();
    assert!(state.current_player() == Player::Black);
    state = state.make_move(Coordinate::from_index(0)).unwrap();
    assert!(state.current_player() == Player::White);
    state = state.make_move(Coordinate::from_index(1)).unwrap();
    assert!(state.current_player() == Player::Black);
}

#[test]
fn test_try_move() {
    let mut state = GameState::init();
    state = state.make_move(Coordinate::from_index(0)).unwrap();
    assert!(!state.is_legal_move(Coordinate::from_index(0)));
    assert!(state.is_legal_move(Coordinate::from_index(1)));
}

#[test]
fn test_get_moves() {
    let mut state = GameState::init();
    assert!(state.get_legal_moves().len() == (19 * 19));
    state = state.make_move(Coordinate::from_index(0)).unwrap();
    let moves = state.get_legal_moves();
    assert!(moves.len() == (19 * 19) - 1);
    assert!(moves.iter().all(|mov| mov.index != 0));
}

/// Plays the points in order, alternating colours starting with black.
fn play_all(points: &[(u16, u16)]) -> GameState {
    let mut state = GameState::init();
    for &(x, y) in points {
        state = state.make_move(Coordinate::init(x, y)).expect("move should be legal");
    }
    state
}

#[test]
fn fast_path_captures_a_surrounded_stone() {
    // Black surrounds the white stone at (5, 5); white plays elsewhere.
    let state = play_all(&[(4, 5), (5, 5), (6, 5), (0, 0), (5, 4), (0, 1), (5, 6)]);
    let board = state.board();
    assert_eq!(board.get_piece_at(Coordinate::init(5, 5)), None);
    assert_eq!(board.get_piece_at(Coordinate::init(5, 6)), Some(Player::Black));
    assert_eq!(board.get_piece_at(Coordinate::init(0, 0)), Some(Player::White));
    assert!(state.current_player() == Player::White);
}

#[test]
fn fast_path_refuses_suicide_but_allows_capture() {
    // Black stones around (0, 0) make it suicide for white.
    let state = play_all(&[(1, 0), (9, 9), (0, 1)]);
    assert!(state.current_player() == Player::White);
    assert!(!state.is_legal_move(Coordinate::init(0, 0)));
    assert!(state.make_move(Coordinate::init(0, 0)).is_none());
    assert!(state.is_legal_move(Coordinate::init(5, 5)));
    assert!(!state.get_legal_moves().iter().any(|c| c.index == 0));
}

#[test]
fn fast_path_capture_on_the_edge() {
    // White at (0, 0) is taken when black closes (0, 1).
    let state = play_all(&[(1, 0), (0, 0), (0, 1)]);
    let board = state.board();
    assert_eq!(board.get_piece_at(Coordinate::init(0, 0)), None);
    assert!(board.is_free(Coordinate::init(0, 0)));
    assert!(board.can_place_at(Coordinate::init(0, 0), Player::White) == false);
}

#[test]
fn text_shows_each_column_on_a_line() {
    let state = GameState::init().make_move(Coordinate::init(0, 1)).unwrap();
    let text = state.to_text();
    let first = text.lines().next().unwrap();
    assert_eq!(first, "_ X _ _ _ _ _ _ _ _ _ _ _ _ _ _ _ _ _ ");
    assert_eq!(text.lines().count(), 19);
    let mask_text = goban::bitmask::BitMask::from_coord(Coordinate::init(1, 0)).to_text();
    assert_eq!(mask_text.lines().nth(1).unwrap(), "x _ _ _ _ _ _ _ _ _ _ _ _ _ _ _ _ _ _ ");
}

#[test]
fn cleaning_takes_opponent_groups_before_own_ones() {
    // A white stone in the corner, closed in by black.
    let board = Board::init()
        .with_move(Coordinate::init(0, 0), Player::White)
        .with_move(Coordinate::init(1, 0), Player::Black)
        .with_move(Coordinate::init(0, 1), Player::Black);
    let mut cleaned = board;
    assert_eq!(cleaned.clean_taken_pieces(Player::Black), (1, 0));
    assert_eq!(cleaned.get_piece_at(Coordinate::init(0, 0)), None);
    assert_eq!(cleaned.get_piece_at(Coordinate::init(1, 0)), Some(Player::Black));
    assert_eq!(cleaned.get_piece_at(Coordinate::init(0, 1)), Some(Player::Black));
}

#[test]
fn cleaning_then_takes_own_groups_left_without_liberties() {
    // A black stone in the corner, closed in by white stones that keep their liberties.
    let board = Board::init()
        .with_move(Coordinate::init(0, 0), Player::Black)
        .with_move(Coordinate::init(1, 0), Player::White)
        .with_move(Coordinate::init(0, 1), Player::White);
    let mut cleaned = board;
    assert_eq!(cleaned.clean_taken_pieces(Player::Black), (0, 1));
    assert_eq!(cleaned.get_piece_at(Coordinate::init(0, 0)), None);
    assert_eq!(cleaned.get_piece_at(Coordinate::init(1, 0)), Some(Player::White));
}

#[test]
fn cleaning_counts_a_whole_group_once() {
    // Two connected white stones on the edge, closed in by black.
    let board = Board::init()
        .with_move(Coordinate::init(0, 0), Player::White)
        .with_move(Coordinate::init(0, 1), Player::White)
        .with_move(Coordinate::init(1, 0), Player::Black)
        .with_move(Coordinate::init(1, 1), Player::Black)
        .with_move(Coordinate::init(0, 2), Player::Black);
    let mut cleaned = board;
    assert_eq!(cleaned.clean_taken_pieces(Player::Black), (2, 0));
    assert!(cleaned.is_free(Coordinate::init(0, 0)));
    assert!(cleaned.is_free(Coordinate::init(0, 1)));
}

#[test]
fn no_point_ever_holds_both_colours() {
    let mut state = GameState::init();
    let points: [(u16, u16); 9] = [(3, 3), (3, 4), (4, 4), (2, 4), (3, 5), (10, 10), (4, 3), (11, 11), (2, 3)];
    for &(x, y) in points.iter() {
        if let Some(next) = state.make_move(Coordinate::init(x, y)) {
            state = next;
        }
        let text = state.to_text();
        let stones = text.chars().filter(|&c| c == 'X' || c == 'O').count();
        let mut occupied = 0;
        for i in 0..361u16 {
            let coord = Coordinate::from_index(i);
            match state.board().get_piece_at(coord) {
                Some(_) => {
                    occupied += 1;
                    assert!(!state.board().is_free(coord));
                }
                None => assert!(state.board().is_free(coord)),
            }
        }
        assert_eq!(stones, occupied);
    }
}
