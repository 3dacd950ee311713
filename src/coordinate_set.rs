use vstd::prelude::*;

use crate::coordinate::FlexibleCoordinate;

verus! {

/// The points of `s` together with their neighbours that lie on a board `w` wide and `h`
/// high: one step of growth in the four directions, never below zero nor past the far edges.
pub open spec fn grown(s: Set<FlexibleCoordinate>, w: int, h: int) -> Set<FlexibleCoordinate> {
    Set::new(
        |c: FlexibleCoordinate|
            {
                ||| s.contains(c)
                ||| (c.x < u16::MAX && s.contains(FlexibleCoordinate { x: (c.x + 1) as u16, y: c.y }))
                ||| (0 < c.x < w && s.contains(FlexibleCoordinate { x: (c.x - 1) as u16, y: c.y }))
                ||| (c.y < u16::MAX && s.contains(FlexibleCoordinate { x: c.x, y: (c.y + 1) as u16 }))
                ||| (0 < c.y < h && s.contains(FlexibleCoordinate { x: c.x, y: (c.y - 1) as u16 }))
            },
    )
}

/// A sequence with one more element holds what it held before and that element.
pub proof fn lemma_push_contains<T>(s: Seq<T>, x: T, c: T)
    ensures
        s.push(x).contains(c) == (s.contains(c) || c == x),
{
    if s.push(x).contains(c) && c != x {
        let k = choose|k: int| 0 <= k < s.push(x).len() && s.push(x)[k] == c;
        assert(s[k] == c);
    }
    if s.contains(c) {
        let k = choose|k: int| 0 <= k < s.len() && s[k] == c;
        assert(s.push(x)[k] == c);
    }
    if c == x {
        assert(s.push(x)[s.len() as int] == c);
    }
}

/// An unordered set of points without repeats.
#[derive(Debug)]
pub struct CoordinateSet {
    items: Vec<FlexibleCoordinate>,
}

impl View for CoordinateSet {
    type V = Set<FlexibleCoordinate>;

    closed spec fn view(&self) -> Set<FlexibleCoordinate> {
        self.items@.to_set()
    }
}

impl CoordinateSet {
    /// The empty set.
    pub fn empty() -> (r: CoordinateSet)
        ensures
            r@ == Set::<FlexibleCoordinate>::empty(),
    {
        let r = CoordinateSet { items: Vec::new() };
        assert(r.items@.to_set() =~= Set::<FlexibleCoordinate>::empty());
        r
    }

    /// Whether `coord` is in the set.
    pub fn contains(&self, coord: &FlexibleCoordinate) -> (r: bool)
        ensures
            r == self@.contains(*coord),
    {
        let mut i: usize = 0;
        while i < self.items.len()
            invariant
                i <= self.items@.len(),
                forall|j: int| 0 <= j < i ==> self.items@[j] != *coord,
            decreases self.items@.len() - i,
        {
            if self.items[i] == *coord {
                assert(self.items@.contains(*coord));
                return true;
            }
            i += 1;
        }
        false
    }

    /// Adds `coord`; says whether it was new.
    pub fn insert(&mut self, coord: FlexibleCoordinate) -> (r: bool)
        ensures
            r == !old(self)@.contains(coord),
            final(self)@ == old(self)@.insert(coord),
    {
        if self.contains(&coord) {
            assert(self@.insert(coord) =~= self@);
            return false;
        }
        let ghost before = self.items@;
        self.items.push(coord);
        proof {
            assert(self.items@ == before.push(coord));
            assert forall|c: FlexibleCoordinate| #[trigger] self.items@.contains(c) == (before.contains(c)
                || c == coord) by {
                lemma_push_contains(before, coord, c);
            }
            assert(self.items@.to_set() =~= before.to_set().insert(coord));
        }
        true
    }

    /// Takes `coord` out; says whether it was there.
    pub fn remove(&mut self, coord: &FlexibleCoordinate) -> (r: bool)
        ensures
            r == old(self)@.contains(*coord),
            final(self)@ == old(self)@.remove(*coord),
    {
        let mut kept: Vec<FlexibleCoordinate> = Vec::new();
        let mut found = false;
        let mut i: usize = 0;
        while i < self.items.len()
            invariant
                i <= self.items@.len(),
                forall|c: FlexibleCoordinate|
                    #![trigger kept@.contains(c)]
                    kept@.contains(c) == (self.items@.subrange(0, i as int).contains(c) && c
                        != *coord),
                found == self.items@.subrange(0, i as int).contains(*coord),
            decreases self.items@.len() - i,
        {
            let c = self.items[i];
            proof {
                assert(self.items@.subrange(0, i + 1) == self.items@.subrange(0, i as int).push(c));
                assert forall|d: FlexibleCoordinate|
                    #![trigger self.items@.subrange(0, i + 1).contains(d)]
                    self.items@.subrange(0, i + 1).contains(d) == (self.items@.subrange(
                        0,
                        i as int,
                    ).contains(d) || d == c) by {
                    lemma_push_contains(self.items@.subrange(0, i as int), c, d);
                }
            }
            if c == *coord {
                found = true;
            } else {
                let ghost prev = kept@;
                kept.push(c);
                proof {
                    assert forall|d: FlexibleCoordinate| #[trigger] kept@.contains(d) == (prev.contains(d)
                        || d == c) by {
                        lemma_push_contains(prev, c, d);
                    }
                }
            }
            i += 1;
        }
        proof {
            assert(self.items@.subrange(0, self.items@.len() as int) == self.items@);
            assert(kept@.to_set() =~= self@.remove(*coord));
        }
        self.items = kept;
        found
    }

    /// The set of the points in `coords`.
    pub fn new(coords: Vec<FlexibleCoordinate>) -> (r: CoordinateSet)
        ensures
            r@ == coords@.to_set(),
    {
        let mut r = CoordinateSet::empty();
        let mut i: usize = 0;
        while i < coords.len()
            invariant
                i <= coords@.len(),
                r@ == coords@.subrange(0, i as int).to_set(),
            decreases coords@.len() - i,
        {
            proof {
                assert(coords@.subrange(0, i + 1) == coords@.subrange(0, i as int).push(coords@[i as int]));
                assert forall|d: FlexibleCoordinate|
                    #![trigger coords@.subrange(0, i + 1).contains(d)]
                    coords@.subrange(0, i + 1).contains(d) == (coords@.subrange(0, i as int).contains(d)
                        || d == coords@[i as int]) by {
                    lemma_push_contains(coords@.subrange(0, i as int), coords@[i as int], d);
                }
            }
            r.insert(coords[i]);
            assert(r@ =~= coords@.subrange(0, i + 1).to_set());
            i += 1;
        }
        assert(coords@.subrange(0, coords@.len() as int) == coords@);
        r
    }

    /// The set of the points in `set`.
    pub fn from_set(set: Vec<FlexibleCoordinate>) -> (r: CoordinateSet)
        ensures
            r@ == set@.to_set(),
    {
        CoordinateSet::new(set)
    }

    /// The set of the points given as `(x, y)` pairs.
    pub fn set(coords: &[(u16, u16)]) -> (r: CoordinateSet)
        ensures
            forall|c: FlexibleCoordinate| #[trigger] r@.contains(c) == coords@.contains((c.x, c.y)),
    {
        let mut r = CoordinateSet::empty();
        let mut i: usize = 0;
        while i < coords.len()
            invariant
                i <= coords@.len(),
                forall|c: FlexibleCoordinate| #[trigger] r@.contains(c) == coords@.subrange(0, i as int).contains((c.x, c.y)),
            decreases coords@.len() - i,
        {
            let (x, y) = coords[i];
            proof {
                assert(coords@.subrange(0, i + 1) == coords@.subrange(0, i as int).push(coords@[i as int]));
                assert forall|d: (u16, u16)|
                    #![trigger coords@.subrange(0, i + 1).contains(d)]
                    coords@.subrange(0, i + 1).contains(d) == (coords@.subrange(0, i as int).contains(d)
                        || d == coords@[i as int]) by {
                    lemma_push_contains(coords@.subrange(0, i as int), coords@[i as int], d);
                }
            }
            r.insert(FlexibleCoordinate { x, y });
            i += 1;
        }
        assert(coords@.subrange(0, coords@.len() as int) == coords@);
        r
    }

    /// The points of the set, each once, in no particular order.
    pub fn iter(&self) -> (r: &[FlexibleCoordinate])
        ensures
            r@.to_set() == self@,
    {
        self.items.as_slice()
    }

    /// The points of the set, each once, in no particular order.
    pub fn into_iter(self) -> (r: Vec<FlexibleCoordinate>)
        ensures
            r@.to_set() == self@,
    {
        self.items
    }

    /// Whether the set has no points.
    pub fn is_empty(&self) -> (r: bool)
        ensures
            r == (self@ == Set::<FlexibleCoordinate>::empty()),
    {
        if self.items.len() == 0 {
            assert(self@ =~= Set::<FlexibleCoordinate>::empty());
            true
        } else {
            assert(self@.contains(self.items@[0]));
            false
        }
    }

    /// The number of points in the set.
    pub fn len(&self) -> (r: usize)
        ensures
            r == self@.len(),
            self@.finite(),
    {
        let mut count: usize = 0;
        let mut i: usize = 0;
        proof {
            vstd::seq_lib::seq_to_set_is_finite(self.items@);
            assert(self.items@.subrange(0, 0).to_set() =~= Set::<FlexibleCoordinate>::empty());
        }
        while i < self.items.len()
            invariant
                i <= self.items@.len(),
                count <= i,
                count == self.items@.subrange(0, i as int).to_set().len(),
            decreases self.items@.len() - i,
        {
            let ghost prefix = self.items@.subrange(0, i as int);
            let c = self.items[i];
            let mut seen = false;
            let mut j: usize = 0;
            while j < i
                invariant
                    j <= i,
                    i < self.items@.len(),
                    c == self.items@[i as int],
                    prefix == self.items@.subrange(0, i as int),
                    seen == prefix.subrange(0, j as int).contains(c),
                decreases i - j,
            {
                proof {
                    assert(prefix.subrange(0, j + 1) == prefix.subrange(0, j as int).push(prefix[j as int]));
                    lemma_push_contains(prefix.subrange(0, j as int), prefix[j as int], c);
                }
                if self.items[j] == c {
                    seen = true;
                }
                j += 1;
            }
            proof {
                assert(prefix.subrange(0, i as int) == prefix);
                assert(self.items@.subrange(0, i + 1) == prefix.push(c));
                assert forall|d: FlexibleCoordinate|
                    #![trigger self.items@.subrange(0, i + 1).contains(d)]
                    self.items@.subrange(0, i + 1).contains(d) == (prefix.contains(d) || d == c) by {
                    lemma_push_contains(prefix, c, d);
                }
                vstd::seq_lib::seq_to_set_is_finite(prefix);
                if seen {
                    assert(self.items@.subrange(0, i + 1).to_set() =~= prefix.to_set());
                } else {
                    assert(self.items@.subrange(0, i + 1).to_set() =~= prefix.to_set().insert(c));
                }
            }
            if !seen {
                count += 1;
            }
            i += 1;
        }
        assert(self.items@.subrange(0, self.items@.len() as int) == self.items@);
        count
    }

    /// The points of `self` that are not in `other`.
    pub fn subtract(&self, other: &CoordinateSet) -> (r: CoordinateSet)
        ensures
            r@ == self@.difference(other@),
    {
        let mut r = CoordinateSet::empty();
        let mut i: usize = 0;
        while i < self.items.len()
            invariant
                i <= self.items@.len(),
                r@ == self.items@.subrange(0, i as int).to_set().difference(other@),
            decreases self.items@.len() - i,
        {
            let c = self.items[i];
            proof {
                assert(self.items@.subrange(0, i + 1) == self.items@.subrange(0, i as int).push(c));
                assert forall|d: FlexibleCoordinate|
                    #![trigger self.items@.subrange(0, i + 1).contains(d)]
                    self.items@.subrange(0, i + 1).contains(d) == (self.items@.subrange(0, i as int).contains(d)
                        || d == c) by {
                    lemma_push_contains(self.items@.subrange(0, i as int), c, d);
                }
            }
            if !other.contains(&c) {
                r.insert(c);
            }
            assert(r@ =~= self.items@.subrange(0, i + 1).to_set().difference(other@));
            i += 1;
        }
        assert(self.items@.subrange(0, self.items@.len() as int) == self.items@);
        r
    }

    /// Whether both sets hold the same points.
    pub fn equals(&self, other: &CoordinateSet) -> (r: bool)
        ensures
            r == (self@ == other@),
    {
        let r = self.subtract(other).is_empty() && other.subtract(self).is_empty();
        proof {
            if self@ == other@ {
                assert(self@.difference(other@) =~= Set::<FlexibleCoordinate>::empty());
            }
            if self@.difference(other@) == Set::<FlexibleCoordinate>::empty() && other@.difference(self@)
                == Set::<FlexibleCoordinate>::empty() {
                assert forall|c: FlexibleCoordinate| self@.contains(c) == other@.contains(c) by {
                    if self@.contains(c) && !other@.contains(c) {
                        assert(self@.difference(other@).contains(c));
                    }
                    if other@.contains(c) && !self@.contains(c) {
                        assert(other@.difference(self@).contains(c));
                    }
                }
                assert(self@ =~= other@);
            }
        }
        r
    }

    /// One step of growth: every point together with those of its four neighbours that lie on a
    /// board of the given `(width, height)`.
    pub fn grow(&self, board_size: (u16, u16)) -> (r: CoordinateSet)
        ensures
            r@ == grown(self@, board_size.0 as int, board_size.1 as int),
    {
        let (width, height) = board_size;
        let mut r = CoordinateSet::empty();
        let mut i: usize = 0;
        while i < self.items.len()
            invariant
                i <= self.items@.len(),
                width == board_size.0,
                height == board_size.1,
                r@ == grown(self.items@.subrange(0, i as int).to_set(), width as int, height as int),
            decreases self.items@.len() - i,
        {
            let c = self.items[i];
            let ghost before = r@;
            r.insert(c);
            if c.x > 0 {
                r.insert(FlexibleCoordinate { x: c.x - 1, y: c.y });
            }
            if c.x < u16::MAX && c.x + 1 < width {
                r.insert(FlexibleCoordinate { x: c.x + 1, y: c.y });
            }
            if c.y > 0 {
                r.insert(FlexibleCoordinate { x: c.x, y: c.y - 1 });
            }
            if c.y < u16::MAX && c.y + 1 < height {
                r.insert(FlexibleCoordinate { x: c.x, y: c.y + 1 });
            }
            proof {
                let pre = self.items@.subrange(0, i as int);
                assert(self.items@.subrange(0, i + 1) == pre.push(c));
                assert forall|d: FlexibleCoordinate|
                    #![trigger self.items@.subrange(0, i + 1).contains(d)]
                    self.items@.subrange(0, i + 1).contains(d) == (pre.contains(d) || d == c) by {
                    lemma_push_contains(pre, c, d);
                }
                assert(r@ =~= grown(self.items@.subrange(0, i + 1).to_set(), width as int, height as int));
            }
            i += 1;
        }
        assert(self.items@.subrange(0, self.items@.len() as int) == self.items@);
        r
    }
}

} // verus!
