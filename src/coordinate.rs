use vstd::prelude::*;

verus! {

/// A point of the fixed 19x19 board, stored as the linear index `x * 19 + y`.
#[derive(Debug, Clone, Copy, PartialEq, Eq, Structural)]
pub struct Coordinate {
    pub index: u16,
}

impl Coordinate {
    /// A coordinate is meaningful when its index lies on the board.
    pub open spec fn wf(self) -> bool {
        self.index < 361
    }

    /// The point at column `x` and row `y`.
    pub fn init(x: u16, y: u16) -> (r: Coordinate)
        requires
            x < 19,
            y < 19,
        ensures
            r.index == x * 19 + y,
            r.wf(),
    {
        Coordinate { index: x * 19 + y }
    }

    /// The point with the given linear index.
    pub fn from_index(index: u16) -> (r: Coordinate)
        requires
            index < 361,
        ensures
            r.index == index,
            r.wf(),
    {
        Coordinate { index }
    }

    /// The word and the bit inside that word that hold this point in a packed mask.
    pub fn to_board(self) -> (r: (usize, usize))
        requires
            self.wf(),
        ensures
            r.0 == self.index / 64,
            r.1 == self.index % 64,
            r.0 < 6,
            r.1 < 64,
    {
        ((self.index / 64) as usize, (self.index % 64) as usize)
    }
}

} // verus!

verus! {

/// A point of a board of any size: column `x` and row `y`, both counted from zero. Whether it
/// lies on a given board is for the caller to check.
#[derive(Debug, Clone, Copy, PartialEq, Eq, Hash, Structural)]
pub struct FlexibleCoordinate {
    /// Zero-based position along the x axis.
    pub x: u16,
    /// Zero-based position along the y axis.
    pub y: u16,
}

/// Whether `c` lies on a board `w` wide and `h` high.
pub open spec fn in_bounds(c: FlexibleCoordinate, w: int, h: int) -> bool {
    c.x < w && c.y < h
}

/// Whether `a` and `b` are next to each other horizontally or vertically.
pub open spec fn adjacent(a: FlexibleCoordinate, b: FlexibleCoordinate) -> bool {
    ||| (a.x == b.x && (a.y + 1 == b.y || b.y + 1 == a.y))
    ||| (a.y == b.y && (a.x + 1 == b.x || b.x + 1 == a.x))
}

/// A set that holds every point of `cells` next to one of its own points.
pub open spec fn is_closed_group(t: Set<FlexibleCoordinate>, cells: Set<FlexibleCoordinate>) -> bool {
    forall|a: FlexibleCoordinate, b: FlexibleCoordinate|
        #![trigger t.contains(a), cells.contains(b), adjacent(a, b)]
        t.contains(a) && cells.contains(b) && adjacent(a, b) ==> t.contains(b)
}

/// The points connected to `seed` through `cells`: those in every closed set that holds
/// `seed`. The seed itself always belongs to it.
pub open spec fn component(
    cells: Set<FlexibleCoordinate>,
    seed: FlexibleCoordinate,
) -> Set<FlexibleCoordinate> {
    Set::new(
        |c: FlexibleCoordinate|
            forall|t: Set<FlexibleCoordinate>|
                #[trigger] is_closed_group(t, cells) && t.contains(seed) ==> t.contains(c),
    )
}

/// A closed set that holds `seed` and lies inside every closed set holding `seed` is the
/// component of `seed`.
pub proof fn lemma_component_unique(
    s: Set<FlexibleCoordinate>,
    cells: Set<FlexibleCoordinate>,
    seed: FlexibleCoordinate,
)
    requires
        s.contains(seed),
        is_closed_group(s, cells),
        forall|t: Set<FlexibleCoordinate>|
            #[trigger] is_closed_group(t, cells) && t.contains(seed) ==> s.subset_of(t),
    ensures
        s == component(cells, seed),
{
    assert forall|c: FlexibleCoordinate| s.contains(c) == component(cells, seed).contains(c) by {
        if s.contains(c) {
            assert forall|t: Set<FlexibleCoordinate>|
                #[trigger] is_closed_group(t, cells) && t.contains(seed) implies t.contains(c) by {
                assert(s.subset_of(t));
            }
        }
    }
    assert(s =~= component(cells, seed));
}

impl FlexibleCoordinate {
    /// The point one row further along y.
    pub fn up(&self) -> (r: FlexibleCoordinate)
        requires
            self.y < u16::MAX,
        ensures
            r.x == self.x,
            r.y == self.y + 1,
    {
        FlexibleCoordinate { x: self.x, y: self.y + 1 }
    }

    /// The point one row back along y, if there is one.
    pub fn down(&self) -> (r: Option<FlexibleCoordinate>)
        ensures
            self.y == 0 ==> r is None,
            self.y > 0 ==> r == Some(FlexibleCoordinate { x: self.x, y: (self.y - 1) as u16 }),
    {
        if self.y == 0 {
            return None;
        }
        Some(FlexibleCoordinate { x: self.x, y: self.y - 1 })
    }

    /// The point one column back along x, if there is one.
    pub fn left(&self) -> (r: Option<FlexibleCoordinate>)
        ensures
            self.x == 0 ==> r is None,
            self.x > 0 ==> r == Some(FlexibleCoordinate { x: (self.x - 1) as u16, y: self.y }),
    {
        if self.x == 0 {
            return None;
        }
        Some(FlexibleCoordinate { x: self.x - 1, y: self.y })
    }

    /// The point one column further along x.
    pub fn right(&self) -> (r: FlexibleCoordinate)
        requires
            self.x < u16::MAX,
        ensures
            r.x == self.x + 1,
            r.y == self.y,
    {
        FlexibleCoordinate { x: self.x + 1, y: self.y }
    }
}

} // verus!

verus! {

impl FlexibleCoordinate {
    /// Whether the point lies on the grid of `mask`.
    pub fn is_in_mask<TMask: crate::flexible_bitmask::FlexibleBitMask>(&self, mask: &TMask) -> (r:
        bool)
        requires
            mask.wf(),
        ensures
            r == in_bounds(*self, mask.width() as int, mask.height() as int),
    {
        let size = mask.get_size();
        if self.x >= size.0 {
            return false;
        }
        if self.y >= size.1 {
            return false;
        }
        true
    }

    /// Whether the point lies on `board`.
    pub fn is_in_board<TBoard: crate::board::FlexibleBoard>(&self, board: &TBoard) -> (r: bool)
        requires
            board.wf(),
        ensures
            r == in_bounds(*self, board.model().width as int, board.model().height as int),
    {
        let size = board.get_size();
        if self.x >= size.0 {
            return false;
        }
        if self.y >= size.1 {
            return false;
        }
        true
    }
}

/// A point of `cells` reaches back to the seed of any component it belongs to.
pub proof fn lemma_component_symmetric(
    cells: Set<FlexibleCoordinate>,
    a: FlexibleCoordinate,
    b: FlexibleCoordinate,
)
    requires
        cells.contains(a),
        component(cells, a).contains(b),
    ensures
        component(cells, b).contains(a),
{
    assert forall|t: Set<FlexibleCoordinate>|
        #[trigger] is_closed_group(t, cells) && t.contains(b) implies t.contains(a) by {
        if !t.contains(a) {
            let y = component(cells, a).difference(t);
            lemma_component_within(cells, a);
            assert(is_closed_group(y, cells)) by {
                lemma_component_closed(cells, a);
                assert forall|p: FlexibleCoordinate, q: FlexibleCoordinate|
                    #![trigger y.contains(p), cells.contains(q), adjacent(p, q)]
                    y.contains(p) && cells.contains(q) && adjacent(p, q) implies y.contains(q) by {
                    assert(component(cells, a).contains(q));
                    if t.contains(q) {
                        assert(cells.contains(p));
                        assert(adjacent(q, p));
                        assert(t.contains(p));
                    }
                }
            }
            assert(y.contains(a));
            assert(y.contains(b));
        }
    }
}

/// A component is closed.
pub proof fn lemma_component_closed(cells: Set<FlexibleCoordinate>, seed: FlexibleCoordinate)
    ensures
        is_closed_group(component(cells, seed), cells),
{
    let c = component(cells, seed);
    assert forall|p: FlexibleCoordinate, q: FlexibleCoordinate|
        #![trigger c.contains(p), cells.contains(q), adjacent(p, q)]
        c.contains(p) && cells.contains(q) && adjacent(p, q) implies c.contains(q) by {
        assert forall|t: Set<FlexibleCoordinate>|
            #[trigger] is_closed_group(t, cells) && t.contains(seed) implies t.contains(q) by {
            assert(t.contains(p));
        }
    }
}

/// A component holds its seed and otherwise only points of `cells`.
pub proof fn lemma_component_within(cells: Set<FlexibleCoordinate>, seed: FlexibleCoordinate)
    ensures
        component(cells, seed).contains(seed),
        component(cells, seed).subset_of(cells.insert(seed)),
{
    assert(is_closed_group(cells.insert(seed), cells));
}

/// Two points of `cells` in one component have the same component.
pub proof fn lemma_component_shared(
    cells: Set<FlexibleCoordinate>,
    a: FlexibleCoordinate,
    b: FlexibleCoordinate,
)
    requires
        cells.contains(a),
        cells.contains(b),
        component(cells, a).contains(b),
    ensures
        component(cells, a) == component(cells, b),
{
    lemma_component_symmetric(cells, a, b);
    lemma_component_closed(cells, a);
    lemma_component_closed(cells, b);
    assert forall|c: FlexibleCoordinate| component(cells, a).contains(c) implies component(cells, b).contains(c) by {
        assert forall|t: Set<FlexibleCoordinate>|
            #[trigger] is_closed_group(t, cells) && t.contains(b) implies t.contains(c) by {
            assert(t.contains(a));
        }
    }
    assert forall|c: FlexibleCoordinate| component(cells, b).contains(c) implies component(cells, a).contains(c) by {
        assert forall|t: Set<FlexibleCoordinate>|
            #[trigger] is_closed_group(t, cells) && t.contains(a) implies t.contains(c) by {
            assert(t.contains(b));
        }
    }
    assert(component(cells, a) =~= component(cells, b));
}

} // verus!
