use goban::bitmask::BitMask;
use goban::coordinate::{Coordinate, FlexibleCoordinate};
use goban::coordinate_set::CoordinateSet;
use goban::flexible_bitmask::{FlexibleBitMask, TestMask};

#[test]
fn grow_single_coordinate_center() {
    let input = CoordinateSet::set(&[(5, 5)]);
    let result = input.grow((9, 9));
    let expected = CoordinateSet::set(&[(5, 5), (4, 5), (6, 5), (5, 4), (5, 6)]);
    assert!(result.equals(&expected));
}

#[test]
fn grow_single_coordinate_corner() {
    let input = CoordinateSet::set(&[(0, 0)]);
    let result = input.grow((9, 9));
    let expected = CoordinateSet::set(&[(0, 0), (1, 0), (0, 1)]);
    assert!(result.equals(&expected));
}

#[test]
fn grow_single_coordinate_edge() {
    let input = CoordinateSet::set(&[(0, 5)]);
    let result = input.grow((9, 9));
    let expected = CoordinateSet::set(&[(0, 5), (1, 5), (0, 4), (0, 6)]);
    assert!(result.equals(&expected));
}

#[test]
fn grow_twice_produces_larger_set() {
    let input = CoordinateSet::set(&[(5, 5)]);
    let once = input.grow((9, 9));
    let twice = once.grow((9, 9));
    assert_eq!(twice.len(), 13);
}

#[test]
fn grow_respects_board_bounds() {
    let input = CoordinateSet::set(&[(0, 0)]);
    let result = input.grow((2, 2));
    let expected = CoordinateSet::set(&[(0, 0), (1, 0), (0, 1)]);
    assert!(result.equals(&expected));
}

#[test]
fn subtract_removes_values_in_other_from_self() {
    let this = CoordinateSet::set(&[(0, 0), (0, 1), (0, 2), (0, 3)]);
    let other = CoordinateSet::set(&[(0, 0), (0, 3)]);
    let result = this.subtract(&other);
    let expected = CoordinateSet::set(&[(0, 1), (0, 2)]);
    assert!(result.equals(&expected));
}

#[test]
fn grow_twice_on_a_far_edge_corner_keeps_to_the_board() {
    let input = CoordinateSet::set(&[(8, 8)]);
    let twice = input.grow((9, 9)).grow((9, 9));
    let expected = CoordinateSet::set(&[(8, 8), (7, 8), (6, 8), (8, 7), (8, 6), (7, 7)]);
    assert!(twice.equals(&expected));
}

#[test]
fn set_operations_keep_each_point_once() {
    let mut set = CoordinateSet::new(vec![
        FlexibleCoordinate { x: 1, y: 1 },
        FlexibleCoordinate { x: 1, y: 1 },
        FlexibleCoordinate { x: 2, y: 1 },
    ]);
    assert_eq!(set.len(), 2);
    assert!(!set.insert(FlexibleCoordinate { x: 2, y: 1 }));
    assert!(set.insert(FlexibleCoordinate { x: 3, y: 1 }));
    assert!(set.contains(&FlexibleCoordinate { x: 3, y: 1 }));
    assert!(set.remove(&FlexibleCoordinate { x: 1, y: 1 }));
    assert!(!set.remove(&FlexibleCoordinate { x: 1, y: 1 }));
    assert_eq!(set.iter().len(), 2);
    assert!(!set.is_empty());
    assert!(CoordinateSet::from_set(vec![]).is_empty());
    assert!(!set.equals(&CoordinateSet::set(&[(2, 1)])));
}

#[test]
fn neighbour_helpers_stop_at_zero() {
    let c = FlexibleCoordinate { x: 0, y: 3 };
    assert_eq!(c.left(), None);
    assert_eq!(c.down(), Some(FlexibleCoordinate { x: 0, y: 2 }));
    assert_eq!(c.up(), FlexibleCoordinate { x: 0, y: 4 });
    assert_eq!(c.right(), FlexibleCoordinate { x: 1, y: 3 });
}

#[test]
fn given_group_when_flood_fill_is_called_then_it_should_select_whole_group() {
    let mask = TestMask::new(vec![
        vec![false, false, false, false, false],
        vec![false, true, true, true, false],
        vec![false, false, true, false, false],
        vec![false, true, true, false, false],
        vec![false, false, false, false, false],
    ]);
    let res = mask.flood_fill(FlexibleCoordinate { x: 1, y: 1 });
    let expected = CoordinateSet::set(&[(1, 1), (1, 3), (2, 1), (2, 2), (2, 3), (3, 1)]);
    assert!(res.equals(&expected));
}

/// A small deterministic generator for reproducible boards.
fn next_random(state: &mut u64) -> u64 {
    *state ^= *state << 13;
    *state ^= *state >> 7;
    *state ^= *state << 17;
    *state
}

#[test]
fn packed_and_queue_flood_fills_agree_on_random_boards() {
    let mut state: u64 = 0x2545_f491_4f6c_dd1d;
    for _ in 0..40 {
        let mut mask = BitMask::init();
        for x in 0..19u16 {
            for y in 0..19u16 {
                if next_random(&mut state) % 100 < 55 {
                    mask = mask | BitMask::from_coord(Coordinate::init(x, y));
                }
            }
        }
        for _ in 0..5 {
            let x = (next_random(&mut state) % 19) as u16;
            let y = (next_random(&mut state) % 19) as u16;
            let seed = Coordinate::init(x, y);
            if !mask.is_set(seed) {
                continue;
            }
            let packed = BitMask::from_coord(seed).flood_fill(!mask);
            let queued = FlexibleBitMask::flood_fill(&mask, FlexibleCoordinate { x, y });
            let mut count = 0u32;
            for px in 0..19u16 {
                for py in 0..19u16 {
                    let inside = packed.is_set(Coordinate::init(px, py));
                    assert_eq!(inside, queued.contains(&FlexibleCoordinate { x: px, y: py }));
                    if inside {
                        count += 1;
                    }
                }
            }
            assert_eq!(count, packed.count_ones());
            assert_eq!(count as usize, queued.len());
        }
    }
}
