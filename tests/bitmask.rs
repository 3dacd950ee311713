use goban::bitmask::{filled, lhs, rhs, BitMask};
use goban::bitmask19::BitMask19;
use goban::coordinate::{Coordinate, FlexibleCoordinate};
use goban::flexible_bitmask::FlexibleBitMask;

#[test]
pub fn leftshift_test_1() {
    let board = BitMask([1, 0, 0, 0, 0, 0]);
    let bitshifted_board = board << 64;
    assert_eq!(board.0[0], bitshifted_board.0[1]);
}

#[test]
pub fn leftshift_test_2() {
    let board = BitMask([1, 0, 0, 0, 0, 0]);
    let bitshifted_board = board << (64 * 3);
    assert_eq!(board.0[0], bitshifted_board.0[3]);
}

#[test]
pub fn leftshift_test_3() {
    let board = BitMask([1, 0, 0, 0, 0, 0]);
    let bitshifted_board = board << 2;
    assert_eq!(board.0[0] << 2, bitshifted_board.0[0]);
}

#[test]
pub fn leftshift_test_4() {
    let board = BitMask([1 << 63, 0, 0, 0, 0, 0]);
    let bitshifted_board = board << 1;
    let expected_board = BitMask([0, 1, 0, 0, 0, 0]);
    assert_eq!(bitshifted_board, expected_board);
}

#[test]
pub fn leftshift_test_5() {
    let board = BitMask([1 << 60, 0, 0, 0, 0, 0]);
    let bitshifted_board = board << 4;
    let expected_board = BitMask([0, 1, 0, 0, 0, 0]);
    assert_eq!(bitshifted_board, expected_board);
}

#[test]
pub fn leftshift_test_6() {
    let board = BitMask([1 << 60, 0, 0, 0, 0, 0]);
    let bitshifted_board = board << (4 + 64);
    let expected_board = BitMask([0, 0, 1, 0, 0, 0]);
    assert_eq!(bitshifted_board, expected_board);
}

#[test]
pub fn rightshift_test_1() {
    let board = BitMask([0, 1, 0, 0, 0, 0]);
    let bitshifted_board = board >> 64;
    assert_eq!(board.0[1], bitshifted_board.0[0]);
}

#[test]
pub fn rightshift_test_2() {
    let board = BitMask([0, 0, 0, 1, 0, 0]);
    let bitshifted_board = board >> (64 * 3);
    assert_eq!(board.0[3], bitshifted_board.0[0]);
}

#[test]
pub fn rightshift_test_3() {
    let board = BitMask([0b100, 0, 0, 0, 0, 0]);
    let bitshifted_board = board >> 2;
    let expected_board = BitMask([1, 0, 0, 0, 0, 0]);
    assert_eq!(bitshifted_board, expected_board);
}

#[test]
pub fn rightshift_test_4() {
    let board = BitMask([0, 1, 0, 0, 0, 0]);
    let bitshifted_board = board >> 1;
    let expected_board = BitMask([1 << 63, 0, 0, 0, 0, 0]);
    assert_eq!(bitshifted_board, expected_board);
}

#[test]
pub fn rightshift_test_5() {
    let board = BitMask([0, 1 << 3, 0, 0, 0, 0]);
    let bitshifted_board = board >> 4;
    let expected_board = BitMask([1 << 63, 0, 0, 0, 0, 0]);
    assert_eq!(bitshifted_board, expected_board);
}

#[test]
pub fn rightshift_test_6() {
    let board = BitMask([0, 0, 1 << 3, 0, 0, 0]);
    let bitshifted_board = board >> (4 + 64);
    let expected_board = BitMask([1 << 63, 0, 0, 0, 0, 0]);
    assert_eq!(bitshifted_board, expected_board);
}

#[test]
fn bitmask19_given_empty_bitmark_when_get_bit_at_is_called_then_returns_false() {
    let board = BitMask19::init();
    let res = board.get_bit_at(&FlexibleCoordinate { x: 0, y: 0 });
    assert!(!res);
}

#[test]
fn bitmask19_given_filled_board_when_get_bit_at_is_called_then_returns_true() {
    let board = BitMask19::filled();
    let res = board.get_bit_at(&FlexibleCoordinate { x: 0, y: 0 });
    assert!(res);
}

#[test]
fn bitmask19_given_empty_board_when_bit_is_set_then_retrieved_then_returns_true() {
    let mut board = BitMask19::init();
    let coord = FlexibleCoordinate { x: 0, y: 0 };
    board.set_bit_at(&coord, true);
    let res = board.get_bit_at(&coord);
    assert!(res);
}

#[test]
fn bitmask19_given_filled_board_when_bit_is_unset_then_retrieved_then_returns_false() {
    let mut board = BitMask19::filled();
    let coord = FlexibleCoordinate { x: 0, y: 0 };
    board.set_bit_at(&coord, false);
    let res = board.get_bit_at(&coord);
    assert!(!res);
}

#[test]
fn given_empty_bitmark_when_get_bit_at_is_called_then_returns_false() {
    let board = BitMask::init();
    let res = board.get_bit_at(&FlexibleCoordinate { x: 0, y: 0 });
    assert!(!res);
}

#[test]
fn given_filled_board_when_get_bit_at_is_called_then_returns_true() {
    let board = BitMask(filled());
    let res = board.get_bit_at(&FlexibleCoordinate { x: 0, y: 0 });
    assert!(res);
}

#[test]
fn given_empty_board_when_bit_is_set_then_retrieved_then_returns_true() {
    let mut board = BitMask::init();
    let coord = FlexibleCoordinate { x: 0, y: 0 };
    board.set_bit_at(&coord, true);
    let res = board.get_bit_at(&coord);
    assert!(res);
}

#[test]
fn given_filled_board_when_bit_is_unset_then_retrieved_then_returns_false() {
    let mut board = BitMask(filled());
    let coord = FlexibleCoordinate { x: 0, y: 0 };
    board.set_bit_at(&coord, false);
    let res = board.get_bit_at(&coord);
    assert!(!res);
}

#[test]
fn shift_by_zero_is_identity_both_ways() {
    let board = BitMask([5, 0, 1 << 40, 0, 7, 3]);
    assert_eq!(board << 0, board);
    assert_eq!(board >> 0, board);
}

#[test]
fn shift_past_the_last_word_clears_everything() {
    let board = BitMask([u64::MAX; 6]);
    assert_eq!(board << 384, BitMask::init());
    assert_eq!(board >> 400, BitMask::init());
}

#[test]
fn shift_left_carries_high_bits_across_words() {
    let board = BitMask([1 << 63, 1 << 63, 0, 0, 0, 0]);
    assert_eq!(board << 65, BitMask([0, 0, 1, 1, 0, 0]));
}

#[test]
fn bitwise_operators_work_word_by_word() {
    let a = BitMask([0b1100, 1, 0, 0, 0, u64::MAX]);
    let b = BitMask([0b1010, 1, 1, 0, 0, 0]);
    assert_eq!(a & b, BitMask([0b1000, 1, 0, 0, 0, 0]));
    assert_eq!(a | b, BitMask([0b1110, 1, 1, 0, 0, u64::MAX]));
    assert_eq!(!BitMask::init(), BitMask([u64::MAX; 6]));
}

#[test]
fn edge_masks_hold_the_first_and_last_row_of_each_column() {
    let left = BitMask(lhs());
    let right = BitMask(rhs());
    let full = BitMask(filled());
    assert_eq!(left.count_ones(), 19);
    assert_eq!(right.count_ones(), 19);
    assert_eq!(full.count_ones(), 361);
    assert!(left.is_set(Coordinate::init(3, 0)));
    assert!(!left.is_set(Coordinate::init(3, 1)));
    assert!(right.is_set(Coordinate::init(7, 18)));
    assert!(!right.is_set(Coordinate::init(7, 17)));
}

#[test]
fn coordinate_maps_to_word_and_bit() {
    let coord = Coordinate::init(3, 7);
    assert_eq!(coord.index, 64);
    assert_eq!(coord.to_board(), (1, 0));
    assert_eq!(Coordinate::from_index(360).to_board(), (5, 40));
}

#[test]
fn flood_fill_step_grows_in_four_directions_without_wrapping() {
    let start = BitMask::from_coord(Coordinate::init(1, 18));
    let step = start.flood_fill_step(BitMask::init());
    assert_eq!(step.count_ones(), 4);
    assert!(step.is_set(Coordinate::init(0, 18)));
    assert!(step.is_set(Coordinate::init(2, 18)));
    assert!(step.is_set(Coordinate::init(1, 17)));
    assert!(!step.is_set(Coordinate::init(2, 0)));
}

#[test]
fn flood_fill_stops_at_borders() {
    let mut walls = BitMask::init();
    for y in 0..19u16 {
        walls = walls | BitMask::from_coord(Coordinate::init(2, y));
    }
    let region = BitMask::from_coord(Coordinate::init(0, 0)).flood_fill(walls);
    assert_eq!(region.count_ones(), 38);
    assert!(region.is_set(Coordinate::init(1, 18)));
    assert!(!region.is_set(Coordinate::init(3, 0)));
    assert!(!region.is_empty());
    assert!(BitMask::init().is_empty());
}
