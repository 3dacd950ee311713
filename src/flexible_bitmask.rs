use vstd::prelude::*;

use crate::coordinate::{adjacent, component, in_bounds, is_closed_group, FlexibleCoordinate};
use crate::coordinate_set::{lemma_push_contains, CoordinateSet};

verus! {

/// All points of a board `w` wide and `h` high.
pub open spec fn rectangle(w: int, h: int) -> Set<FlexibleCoordinate> {
    Set::new(|c: FlexibleCoordinate| in_bounds(c, w, h))
}

proof fn lemma_column_finite(x: int, h: int)
    ensures
        Set::new(|c: FlexibleCoordinate| c.x == x && c.y < h).finite(),
    decreases h,
{
    if h <= 0 {
        assert(Set::new(|c: FlexibleCoordinate| c.x == x && c.y < h) =~= Set::<
            FlexibleCoordinate,
        >::empty());
    } else {
        lemma_column_finite(x, h - 1);
        if 0 <= x < 65536 && h - 1 < 65536 {
            assert(Set::new(|c: FlexibleCoordinate| c.x == x && c.y < h) =~= Set::new(
                |c: FlexibleCoordinate| c.x == x && c.y < h - 1,
            ).insert(FlexibleCoordinate { x: x as u16, y: (h - 1) as u16 }));
        } else {
            assert(Set::new(|c: FlexibleCoordinate| c.x == x && c.y < h) =~= Set::new(
                |c: FlexibleCoordinate| c.x == x && c.y < h - 1,
            ));
        }
    }
}

/// The points of a bounded board form a finite set.
pub proof fn lemma_rectangle_finite(w: int, h: int)
    ensures
        rectangle(w, h).finite(),
    decreases w,
{
    if w <= 0 {
        assert(rectangle(w, h) =~= Set::<FlexibleCoordinate>::empty());
    } else {
        lemma_rectangle_finite(w - 1, h);
        lemma_column_finite(w - 1, h);
        assert(rectangle(w, h) =~= rectangle(w - 1, h).union(
            Set::new(|c: FlexibleCoordinate| c.x == w - 1 && c.y < h),
        ));
    }
}

/// A grid of bits, one per point of a board of some size.
pub trait FlexibleBitMask: Sized {
    /// Number of columns.
    spec fn width(&self) -> nat;

    /// Number of rows.
    spec fn height(&self) -> nat;

    /// The points whose bit is set.
    spec fn cells(&self) -> Set<FlexibleCoordinate>;

    /// The representation is consistent.
    spec fn wf(&self) -> bool;

    /// Only points of the board can be set.
    proof fn lemma_cells_on_board(&self)
        requires
            self.wf(),
        ensures
            forall|c: FlexibleCoordinate| #[trigger]
                self.cells().contains(c) ==> in_bounds(c, self.width() as int, self.height() as int),
            self.width() <= u16::MAX,
            self.height() <= u16::MAX,
    ;

    /// The size of the board as `(width, height)`.
    fn get_size(&self) -> (r: (u16, u16))
        requires
            self.wf(),
        ensures
            r.0 == self.width(),
            r.1 == self.height(),
    ;

    /// The bit at a point of the board.
    fn get_bit_at(&self, coord: &FlexibleCoordinate) -> (r: bool)
        requires
            self.wf(),
            in_bounds(*coord, self.width() as int, self.height() as int),
        ensures
            r == self.cells().contains(*coord),
    ;

    /// Sets or clears the bit at a point of the board.
    fn set_bit_at(&mut self, coord: &FlexibleCoordinate, val: bool)
        requires
            old(self).wf(),
            in_bounds(*coord, old(self).width() as int, old(self).height() as int),
        ensures
            final(self).wf(),
            final(self).width() == old(self).width(),
            final(self).height() == old(self).height(),
            final(self).cells() == (if val {
                old(self).cells().insert(*coord)
            } else {
                old(self).cells().remove(*coord)
            }),
    ;

    /// The points reachable from `coord` through set bits, by steps to the four neighbours;
    /// `coord` itself always belongs to the result.
    fn flood_fill(&self, coord: FlexibleCoordinate) -> (r: CoordinateSet)
        requires
            self.wf(),
            in_bounds(coord, self.width() as int, self.height() as int),
        ensures
            r@ == component(self.cells(), coord),
    {
        proof {
            self.lemma_cells_on_board();
            lemma_rectangle_finite(self.width() as int, self.height() as int);
        }
        let ghost w = self.width() as int;
        let ghost h = self.height() as int;
        let mut queue: Vec<FlexibleCoordinate> = Vec::new();
        queue.push(coord);
        let mut res = CoordinateSet::empty();
        res.insert(coord);
        let mut head: usize = 0;
        proof {
            assert(queue@.to_set() =~= res@) by {
                assert(queue@[0] == coord);
            }
        }
        while head < queue.len()
            invariant
                self.wf(),
                in_bounds(coord, w, h),
                w == self.width(),
                h == self.height(),
                w <= u16::MAX,
                h <= u16::MAX,
                rectangle(w, h).finite(),
                forall|c: FlexibleCoordinate| #[trigger]
                    self.cells().contains(c) ==> in_bounds(c, w, h),
                head <= queue@.len(),
                queue@.to_set() == res@,
                res@.contains(coord),
                res@.subset_of(rectangle(w, h)),
                forall|c: FlexibleCoordinate| #[trigger]
                    res@.contains(c) ==> c == coord || self.cells().contains(c),
                forall|t: Set<FlexibleCoordinate>|
                    #[trigger] is_closed_group(t, self.cells()) && t.contains(coord)
                        ==> res@.subset_of(t),
                forall|k: int, n: FlexibleCoordinate|
                    0 <= k < head && #[trigger] self.cells().contains(n) && adjacent(
                        #[trigger] queue@[k],
                        n,
                    ) ==> res@.contains(n),
            decreases rectangle(w, h).difference(res@).len(), queue@.len() - head,
        {
            let next = queue[head];
            let ghost old_res = res@;
            let ghost old_queue = queue@;
            proof {
                assert(old_queue.contains(next));
                assert(res@.contains(next));
            }
            let mut added = false;
            let ghost mut witness = next;
            let candidates: [Option<FlexibleCoordinate>; 4] = [
                if next.y + 1 < self.get_size().1 { Some(next.up()) } else { None },
                next.down(),
                if next.x + 1 < self.get_size().0 { Some(next.right()) } else { None },
                next.left(),
            ];
            proof {
                assert forall|j: int| 0 <= j < 4 implies match #[trigger] candidates@[j] {
                    Some(n) => adjacent(next, n),
                    None => true,
                } by {}
            }
            let mut ci: usize = 0;
            while ci < 4
                invariant
                    self.wf(),
                    w == self.width(),
                    h == self.height(),
                    w <= u16::MAX,
                    h <= u16::MAX,
                    rectangle(w, h).finite(),
                    forall|c: FlexibleCoordinate| #[trigger]
                        self.cells().contains(c) ==> in_bounds(c, w, h),
                    ci <= 4,
                    head < queue@.len(),
                    queue@[head as int] == next,
                    old_queue.len() <= queue@.len(),
                    forall|k: int| 0 <= k < old_queue.len() ==> #[trigger] queue@[k] == old_queue[k],
                    queue@.to_set() == res@,
                    old_res.subset_of(res@),
                    added ==> res@.contains(witness) && !old_res.contains(witness),
                    forall|j: int| 0 <= j < 4 ==> match #[trigger] candidates@[j] {
                        Some(n) => adjacent(next, n),
                        None => true,
                    },
                    !added ==> res@ == old_res && queue@ == old_queue,
                    res@.subset_of(rectangle(w, h)),
                    forall|c: FlexibleCoordinate| #[trigger]
                        res@.contains(c) ==> c == coord || self.cells().contains(c),
                    forall|t: Set<FlexibleCoordinate>|
                        #[trigger] is_closed_group(t, self.cells()) && t.contains(coord)
                            ==> res@.subset_of(t),
                    forall|j: int| 0 <= j < ci ==> match #[trigger] candidates@[j] {
                        Some(n) => self.cells().contains(n) ==> res@.contains(n),
                        None => true,
                    },
                decreases 4 - ci,
            {
                if let Some(n) = candidates[ci] {
                    if n.x < self.get_size().0 && n.y < self.get_size().1 && self.get_bit_at(&n)
                        && !res.contains(&n) {
                        let ghost before_q = queue@;
                        queue.push(n);
                        res.insert(n);
                        added = true;
                        proof {
                            witness = n;
                            assert forall|d: FlexibleCoordinate| #[trigger] queue@.contains(d)
                                == (before_q.contains(d) || d == n) by {
                                lemma_push_contains(before_q, n, d);
                            }
                            assert(queue@.to_set() =~= res@);
                            assert forall|t: Set<FlexibleCoordinate>|
                                #[trigger] is_closed_group(t, self.cells()) && t.contains(coord)
                                    implies res@.subset_of(t) by {
                                assert(t.contains(next));
                                assert(adjacent(next, n));
                            }
                        }
                    }
                }
                ci += 1;
            }
            proof {
                if added {
                    let x = witness;
                    assert(rectangle(w, h).difference(res@).subset_of(
                        rectangle(w, h).difference(old_res).remove(x),
                    ));
                    assert(rectangle(w, h).difference(old_res).contains(x));
                    vstd::set_lib::lemma_len_subset(
                        rectangle(w, h).difference(res@),
                        rectangle(w, h).difference(old_res).remove(x),
                    );
                }
                assert forall|k: int, n: FlexibleCoordinate|
                    0 <= k < head + 1 && #[trigger] self.cells().contains(n) && adjacent(
                        #[trigger] queue@[k],
                        n,
                    ) implies res@.contains(n) by {
                    if k < head {
                        assert(queue@[k] == old_queue[k]);
                    } else {
                        assert(queue@[k] == next);
                        if n.x == next.x && n.y == next.y + 1 {
                            assert(candidates@[0] == Some(n));
                        } else if n.x == next.x && n.y + 1 == next.y {
                            assert(candidates@[1] == Some(n));
                        } else if n.y == next.y && n.x == next.x + 1 {
                            assert(candidates@[2] == Some(n));
                        } else {
                            assert(candidates@[3] == Some(n));
                        }
                    }
                }
            }
            head += 1;
        }
        proof {
            assert forall|a: FlexibleCoordinate, b: FlexibleCoordinate|
                #![trigger res@.contains(a), self.cells().contains(b), adjacent(a, b)]
                res@.contains(a) && self.cells().contains(b) && adjacent(a, b) implies res@.contains(b) by {
                assert(queue@.to_set().contains(a));
                let k = choose|k: int| 0 <= k < queue@.len() && queue@[k] == a;
            }
            crate::coordinate::lemma_component_unique(res@, self.cells(), coord);
        }
        res
    }
}

} // verus!

verus! {

/// A bit grid backed by one vector of booleans per row.
#[derive(Debug, Clone, PartialEq, Eq)]
pub struct TestMask {
    width: u16,
    height: u16,
    vals: Vec<Vec<bool>>,
}

impl TestMask {
    /// An all-clear grid of the given `(width, height)`.
    pub fn empty(size: (u16, u16)) -> (r: TestMask)
        ensures
            r.wf(),
            r.width() == size.0,
            r.height() == size.1,
            r.cells() == Set::<FlexibleCoordinate>::empty(),
    {
        let mut vals: Vec<Vec<bool>> = Vec::new();
        let mut y: u16 = 0;
        while y < size.1
            invariant
                y <= size.1,
                vals@.len() == y,
                forall|j: int| 0 <= j < y ==> #[trigger] vals@[j]@ == Seq::new(size.0 as nat, |i: int| false),
            decreases size.1 - y,
        {
            let mut row: Vec<bool> = Vec::new();
            let mut x: u16 = 0;
            while x < size.0
                invariant
                    x <= size.0,
                    row@ == Seq::new(x as nat, |i: int| false),
                decreases size.0 - x,
            {
                row.push(false);
                assert(row@ =~= Seq::new((x + 1) as nat, |i: int| false));
                x += 1;
            }
            vals.push(row);
            y += 1;
        }
        let r = TestMask { width: size.0, height: size.1, vals };
        assert(r.cells() =~= Set::<FlexibleCoordinate>::empty());
        r
    }

    /// The grid whose row `y` is `vals[y]`; every row must be as long as the first.
    pub fn new(vals: Vec<Vec<bool>>) -> (r: TestMask)
        requires
            vals@.len() > 0,
            vals@.len() <= u16::MAX,
            vals@[0]@.len() <= u16::MAX,
            forall|j: int| 0 <= j < vals@.len() ==> #[trigger] vals@[j]@.len() == vals@[0]@.len(),
        ensures
            r.wf(),
            r.width() == vals@[0]@.len(),
            r.height() == vals@.len(),
            forall|c: FlexibleCoordinate| #[trigger]
                r.cells().contains(c) == (in_bounds(c, r.width() as int, r.height() as int)
                    && vals@[c.y as int]@[c.x as int]),
    {
        TestMask { width: vals[0].len() as u16, height: vals.len() as u16, vals }
    }
}

impl FlexibleBitMask for TestMask {
    closed spec fn width(&self) -> nat {
        self.width as nat
    }

    closed spec fn height(&self) -> nat {
        self.height as nat
    }

    closed spec fn cells(&self) -> Set<FlexibleCoordinate> {
        Set::new(
            |c: FlexibleCoordinate|
                in_bounds(c, self.width as int, self.height as int)
                    && self.vals@[c.y as int]@[c.x as int],
        )
    }

    closed spec fn wf(&self) -> bool {
        &&& self.vals@.len() == self.height
        &&& forall|j: int| 0 <= j < self.height ==> #[trigger] self.vals@[j]@.len() == self.width
    }

    proof fn lemma_cells_on_board(&self) {
    }

    fn get_size(&self) -> (r: (u16, u16)) {
        (self.width, self.height)
    }

    fn get_bit_at(&self, coord: &FlexibleCoordinate) -> (r: bool) {
        self.vals[coord.y as usize][coord.x as usize]
    }

    fn set_bit_at(&mut self, coord: &FlexibleCoordinate, val: bool) {
        let ghost before = *self;
        self.vals[coord.y as usize][coord.x as usize] = val;
        proof {
            assert forall|j: int| 0 <= j < self.height implies #[trigger] self.vals@[j]@.len()
                == self.width by {
                assert(before.vals@[j]@.len() == self.width);
            }
            let expected = if val {
                before.cells().insert(*coord)
            } else {
                before.cells().remove(*coord)
            };
            assert forall|c: FlexibleCoordinate| self.cells().contains(c) == expected.contains(c) by {
                if in_bounds(c, self.width as int, self.height as int) {
                    if c.y != coord.y {
                        assert(self.vals@[c.y as int] == before.vals@[c.y as int]);
                    }
                }
            }
            assert(self.cells() =~= expected);
        }
    }
}

} // verus!
