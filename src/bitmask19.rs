use vstd::prelude::*;

use crate::bitmask::{arr_bit, lemma_row_join, packed_cells, BitMask};
use crate::coordinate::{in_bounds, Coordinate, FlexibleCoordinate};
use crate::flexible_bitmask::FlexibleBitMask;

verus! {

/// A 19x19 bit grid packed into six words, point `(x, y)` at position `x * 19 + y`.
#[derive(Debug, Clone, PartialEq, Eq)]
pub struct BitMask19(pub [u64; 6]);

impl BitMask19 {
    /// The all-clear grid.
    pub fn init() -> (r: BitMask19)
        ensures
            r.cells() == Set::<FlexibleCoordinate>::empty(),
    {
        let m = BitMask::init();
        let r = BitMask19(m.0);
        assert forall|c: FlexibleCoordinate| !r.cells().contains(c) by {
            assert(!m@.contains(c.x * 19 + c.y));
        }
        assert(r.cells() =~= Set::<FlexibleCoordinate>::empty());
        r
    }

    /// The grid with every word fully set, so every point of the board is set.
    pub fn filled() -> (r: BitMask19)
        ensures
            forall|c: FlexibleCoordinate| #[trigger] r.cells().contains(c) == in_bounds(c, 19, 19),
    {
        let r = BitMask19([u64::MAX; 6]);
        proof {
            assert forall|c: FlexibleCoordinate| #[trigger] r.cells().contains(c) == in_bounds(c, 19, 19) by {
                if in_bounds(c, 19, 19) {
                    let i = c.x * 19 + c.y;
                    assert(0 <= i / 64 < 6);
                    crate::bits::lemma_max_bit((i % 64) as u64);
                }
            }
        }
        r
    }

    /// The word and the bit inside it that hold a point of the board.
    fn get_bit_position(coord: &FlexibleCoordinate) -> (r: (usize, usize))
        requires
            in_bounds(*coord, 19, 19),
        ensures
            r.0 * 64 + r.1 == coord.x * 19 + coord.y,
            r.0 < 6,
            r.1 < 64,
    {
        Coordinate::init(coord.x, coord.y).to_board()
    }
}

impl FlexibleBitMask for BitMask19 {
    open spec fn width(&self) -> nat {
        19
    }

    open spec fn height(&self) -> nat {
        19
    }

    open spec fn cells(&self) -> Set<FlexibleCoordinate> {
        packed_cells(self.0)
    }

    open spec fn wf(&self) -> bool {
        true
    }

    proof fn lemma_cells_on_board(&self) {
    }

    fn get_size(&self) -> (r: (u16, u16)) {
        (19, 19)
    }

    fn get_bit_at(&self, coord: &FlexibleCoordinate) -> (r: bool) {
        let (word, bit) = BitMask19::get_bit_position(coord);
        BitMask(self.0).bit_at(word * 64 + bit)
    }

    fn set_bit_at(&mut self, coord: &FlexibleCoordinate, val: bool) {
        let (word, bit) = BitMask19::get_bit_position(coord);
        let old_mask = BitMask(self.0);
        let m = if val {
            old_mask.with_bit(word * 64 + bit)
        } else {
            old_mask.without_bit(word * 64 + bit)
        };
        self.0 = m.0;
        proof {
            lemma_packed_update(old_mask, m, *coord, val);
        }
    }
}

impl BitMask {
    /// The word and the bit inside it that hold a point of the board.
    fn get_bit_position(coord: &FlexibleCoordinate) -> (r: (usize, usize))
        requires
            in_bounds(*coord, 19, 19),
        ensures
            r.0 * 64 + r.1 == coord.x * 19 + coord.y,
            r.0 < 6,
            r.1 < 64,
    {
        Coordinate::init(coord.x, coord.y).to_board()
    }
}

/// The packed mask seen as a 19x19 grid of bits.
impl FlexibleBitMask for BitMask {
    open spec fn width(&self) -> nat {
        19
    }

    open spec fn height(&self) -> nat {
        19
    }

    open spec fn cells(&self) -> Set<FlexibleCoordinate> {
        packed_cells(self.0)
    }

    open spec fn wf(&self) -> bool {
        true
    }

    proof fn lemma_cells_on_board(&self) {
    }

    fn get_size(&self) -> (r: (u16, u16)) {
        (19, 19)
    }

    fn get_bit_at(&self, coord: &FlexibleCoordinate) -> (r: bool) {
        let r = self.is_set(Coordinate::init(coord.x, coord.y));
        assert(self@.contains(coord.x * 19 + coord.y) == arr_bit(self.0, coord.x * 19 + coord.y));
        r
    }

    fn set_bit_at(&mut self, coord: &FlexibleCoordinate, val: bool) {
        let (word, bit) = BitMask::get_bit_position(coord);
        let old_mask = *self;
        let m = if val {
            old_mask.with_bit(word * 64 + bit)
        } else {
            old_mask.without_bit(word * 64 + bit)
        };
        self.0 = m.0;
        proof {
            lemma_packed_update(old_mask, m, *coord, val);
        }
    }
}

/// Setting or clearing position `x * 19 + y` sets or clears the point `(x, y)` and no other.
pub proof fn lemma_packed_update(before: BitMask, after: BitMask, coord: FlexibleCoordinate, val: bool)
    requires
        in_bounds(coord, 19, 19),
        after@ == (if val {
            before@.insert(coord.x * 19 + coord.y)
        } else {
            before@.remove(coord.x * 19 + coord.y)
        }),
    ensures
        packed_cells(after.0) == (if val {
            packed_cells(before.0).insert(coord)
        } else {
            packed_cells(before.0).remove(coord)
        }),
{
    let expected = if val {
        packed_cells(before.0).insert(coord)
    } else {
        packed_cells(before.0).remove(coord)
    };
    assert forall|c: FlexibleCoordinate| packed_cells(after.0).contains(c) == expected.contains(c) by {
        assert(after@.contains(c.x * 19 + c.y) == arr_bit(after.0, c.x * 19 + c.y));
        assert(before@.contains(c.x * 19 + c.y) == arr_bit(before.0, c.x * 19 + c.y));
        if in_bounds(c, 19, 19) && c != coord {
            lemma_row_join(c.x as int, c.y as int);
            lemma_row_join(coord.x as int, coord.y as int);
            assert(c.x * 19 + c.y != coord.x * 19 + coord.y);
        }
    }
    assert(packed_cells(after.0) =~= expected);
}

} // verus!
