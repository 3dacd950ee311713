use vstd::prelude::*;

use crate::bits::{
    lemma_and_bit, lemma_not_bit, lemma_or_bit, lemma_shl_bit, lemma_shr_bit,
    lemma_single_bit, lemma_zero_bit, word_bit, FreeLeftShift, FreeRightShift,
};
use crate::coordinate::{in_bounds, Coordinate, FlexibleCoordinate};

verus! {

/// Whether bit `i` of six packed words is set; positions past the last word read as unset.
pub open spec fn arr_bit(a: [u64; 6], i: int) -> bool {
    0 <= i < 384 && word_bit(a@[i / 64], (i % 64) as u64)
}

/// The positions whose bits are set.
pub open spec fn arr_set(a: [u64; 6]) -> Set<int> {
    Set::new(|i: int| arr_bit(a, i))
}

/// The positions of `s` moved up by `n`, dropping those that leave the 384 positions.
pub open spec fn shifted_up(s: Set<int>, n: int) -> Set<int> {
    Set::new(|i: int| n <= i < 384 && s.contains(i - n))
}

/// The positions of `s` moved down by `n`, dropping those that fall below zero.
pub open spec fn shifted_down(s: Set<int>, n: int) -> Set<int> {
    Set::new(|i: int| 0 <= i && i + n < 384 && s.contains(i + n))
}

/// Every one of the 384 representable positions.
pub open spec fn all_positions() -> Set<int> {
    Set::new(|i: int| 0 <= i < 384)
}

/// A set of points of the 19x19 board packed into six 64-bit words; point `i` is bit `i % 64`
/// of word `i / 64`. Only the lowest 361 bits stand for points.
#[derive(Debug, Clone, Copy)]
pub struct BitMask(pub [u64; 6]);

impl View for BitMask {
    type V = Set<int>;

    open spec fn view(&self) -> Set<int> {
        arr_set(self.0)
    }
}

impl PartialEq for BitMask {
    fn eq(&self, other: &BitMask) -> (r: bool) {
        let mut w: usize = 0;
        while w < 6
            invariant
                w <= 6,
                forall|j: int| 0 <= j < w ==> self.0@[j] == other.0@[j],
            decreases 6 - w,
        {
            if self.0[w] != other.0[w] {
                return false;
            }
            w += 1;
        }
        assert(self.0@ =~= other.0@);
        true
    }
}

impl vstd::std_specs::cmp::PartialEqSpecImpl for BitMask {
    open spec fn obeys_eq_spec() -> bool {
        true
    }

    open spec fn eq_spec(&self, other: &BitMask) -> bool {
        self.0@ == other.0@
    }
}

impl Eq for BitMask {
}

proof fn lemma_index_split(i: int)
    requires
        0 <= i < 384,
    ensures
        0 <= i / 64 < 6,
        0 <= i % 64 < 64,
        i == 64 * (i / 64) + i % 64,
{
}

/// Word `w` and bit `k` name position `64 * w + k`.
pub proof fn lemma_index_join(w: int, k: int)
    requires
        0 <= k < 64,
    ensures
        (64 * w + k) / 64 == w,
        (64 * w + k) % 64 == k,
{
    vstd::arithmetic::div_mod::lemma_fundamental_div_mod_converse(64 * w + k, 64, w, k);
}

/// The points `(x, y)` of the 19x19 board whose bit `x * 19 + y` is set in the words `a`.
pub open spec fn packed_cells(a: [u64; 6]) -> Set<FlexibleCoordinate> {
    Set::new(|c: FlexibleCoordinate| in_bounds(c, 19, 19) && arr_bit(a, c.x * 19 + c.y))
}

/// The mask whose set positions are `s`.
pub open spec fn mask_of(s: Set<int>) -> BitMask {
    choose|r: BitMask| r@ == s
}

/// A mask is the one mask with its set positions.
pub proof fn lemma_mask_of_view(m: BitMask)
    ensures
        mask_of(m@) == m,
{
    let c = mask_of(m@);
    assert(c@ == m@);
    assert forall|w: int| 0 <= w < 6 implies c.0@[w] == m.0@[w] by {
        assert forall|k: u64| k < 64 implies word_bit(c.0@[w], k) == word_bit(m.0@[w], k) by {
            lemma_index_join(w, k as int);
            assert(c@.contains(64 * w + k) == m@.contains(64 * w + k));
        }
        crate::bits::lemma_word_ext(c.0@[w], m.0@[w]);
    }
    assert(c.0 =~= m.0);
}

/// A mask never holds more than its 384 positions.
pub proof fn lemma_view_finite(m: BitMask)
    ensures
        m@.finite(),
        m@.len() <= 384,
{
    let range = Set::new(|i: int| 0 <= i < 384);
    assert(range =~= vstd::set_lib::set_int_range(0, 384));
    vstd::set_lib::lemma_int_range(0, 384);
    vstd::set_lib::lemma_len_subset(m@, range);
}


/// The points in the first row of every column (`index % 19 == 0`).
pub open spec fn left_edge() -> Set<int> {
    Set::new(|i: int| 0 <= i < 361 && i % 19 == 0)
}

/// The points in the last row of every column (`index % 19 == 18`).
pub open spec fn right_edge() -> Set<int> {
    Set::new(|i: int| 0 <= i < 361 && i % 19 == 18)
}

/// All 361 points of the board.
pub open spec fn board_points() -> Set<int> {
    Set::new(|i: int| 0 <= i < 361)
}

/// Position `19 * c + r` with `0 <= r < 19` lies in column `c` at row `r`.
pub proof fn lemma_row_join(c: int, r: int)
    requires
        0 <= r < 19,
    ensures
        (19 * c + r) / 19 == c,
        (19 * c + r) % 19 == r,
{
    vstd::arithmetic::div_mod::lemma_fundamental_div_mod_converse(19 * c + r, 19, c, r);
}

/// The words of the mask that holds exactly the points with `index % 19 == 0`.
pub fn lhs() -> (r: [u64; 6])
    ensures
        arr_set(r) == left_edge(),
{
    let mut m = BitMask::init();
    let mut c: usize = 0;
    while c < 19
        invariant
            c <= 19,
            m@ == Set::new(|i: int| 0 <= i < 19 * c && i % 19 == 0),
        decreases 19 - c,
    {
        m = m.with_bit(c * 19);
        proof {
            assert forall|i: int| #[trigger] m@.contains(i) == (0 <= i < 19 * (c + 1) && i % 19
                == 0) by {
                if 19 * c <= i < 19 * (c + 1) {
                    lemma_row_join(c as int, i - 19 * c);
                }
                lemma_row_join(c as int, 0);
            }
            assert(m@ =~= Set::new(|i: int| 0 <= i < 19 * (c + 1) && i % 19 == 0));
        }
        c += 1;
    }
    assert(m@ =~= left_edge());
    m.0
}

/// The words of the mask that holds exactly the points with `index % 19 == 18`.
pub fn rhs() -> (r: [u64; 6])
    ensures
        arr_set(r) == right_edge(),
{
    let mut m = BitMask::init();
    let mut c: usize = 0;
    while c < 19
        invariant
            c <= 19,
            m@ == Set::new(|i: int| 0 <= i < 19 * c && i % 19 == 18),
        decreases 19 - c,
    {
        m = m.with_bit(c * 19 + 18);
        proof {
            assert forall|i: int| #[trigger] m@.contains(i) == (0 <= i < 19 * (c + 1) && i % 19
                == 18) by {
                if 19 * c <= i < 19 * (c + 1) {
                    lemma_row_join(c as int, i - 19 * c);
                }
                lemma_row_join(c as int, 18);
            }
            assert(m@ =~= Set::new(|i: int| 0 <= i < 19 * (c + 1) && i % 19 == 18));
        }
        c += 1;
    }
    assert(m@ =~= right_edge());
    m.0
}

/// The words of the mask that holds all 361 points.
pub fn filled() -> (r: [u64; 6])
    ensures
        arr_set(r) == board_points(),
{
    let mut m = BitMask::init();
    let mut i: usize = 0;
    while i < 361
        invariant
            i <= 361,
            m@ == Set::new(|j: int| 0 <= j < i),
        decreases 361 - i,
    {
        m = m.with_bit(i);
        assert(m@ =~= Set::new(|j: int| 0 <= j < i + 1));
        i += 1;
    }
    assert(m@ =~= board_points());
    m.0
}


/// Whether point `j` is in `s` or is one of the four neighbours of a point of `s`; a neighbour
/// along a column never wraps over to the next column.
pub open spec fn touches(s: Set<int>, j: int) -> bool {
    ||| s.contains(j)
    ||| s.contains(j - 19)
    ||| s.contains(j + 19)
    ||| (j % 19 != 0 && s.contains(j - 1))
    ||| (j % 19 != 18 && s.contains(j + 1))
}

/// One step of growth: the board points outside `borders` that `s` touches.
pub open spec fn grown_once(s: Set<int>, borders: Set<int>) -> Set<int> {
    Set::new(|j: int| 0 <= j < 361 && !borders.contains(j) && touches(s, j))
}

/// A region that one more step of growth does not leave.
pub open spec fn is_closed_region(t: Set<int>, borders: Set<int>) -> bool {
    grown_once(t, borders).subset_of(t)
}

/// The board points outside `borders`.
pub open spec fn open_points(borders: Set<int>) -> Set<int> {
    Set::new(|j: int| 0 <= j < 361 && !borders.contains(j))
}

/// The region that flooding from `initial` without entering `borders` reaches: the board
/// points outside `borders` that lie in every closed region holding `initial`.
pub open spec fn flooded(initial: Set<int>, borders: Set<int>) -> Set<int> {
    Set::new(
        |j: int|
            open_points(borders).contains(j) && forall|t: Set<int>|
                #[trigger] is_closed_region(t, borders) && initial.subset_of(t) ==> t.contains(j),
    )
}

pub proof fn lemma_grown_monotone(a: Set<int>, b: Set<int>, borders: Set<int>)
    requires
        a.subset_of(b),
    ensures
        grown_once(a, borders).subset_of(grown_once(b, borders)),
{
    assert forall|j: int| grown_once(a, borders).contains(j) implies grown_once(b, borders).contains(
        j,
    ) by {
        assert(touches(a, j));
    }
}

proof fn lemma_grown_extends(a: Set<int>, borders: Set<int>)
    requires
        a.subset_of(open_points(borders)),
    ensures
        a.subset_of(grown_once(a, borders)),
        grown_once(a, borders).subset_of(open_points(borders)),
{
    assert forall|j: int| a.contains(j) implies grown_once(a, borders).contains(j) by {
        assert(open_points(borders).contains(j));
        assert(touches(a, j));
    }
}

proof fn lemma_board_points_finite()
    ensures
        board_points().finite(),
        board_points().len() == 361,
{
    assert(board_points() =~= vstd::set_lib::set_int_range(0, 361));
    vstd::set_lib::lemma_int_range(0, 361);
}

/// A finite set that lies inside another of the same size is that set.
proof fn lemma_subset_same_len(a: Set<int>, b: Set<int>)
    requires
        a.subset_of(b),
        b.finite(),
        a.len() == b.len(),
    ensures
        a == b,
{
    if exists|x: int| b.contains(x) && !a.contains(x) {
        let x = choose|x: int| b.contains(x) && !a.contains(x);
        vstd::set_lib::lemma_len_subset(a, b.remove(x));
        assert(false);
    }
    assert(a =~= b);
}

impl BitMask {
    /// Only the 361 points of the board may be set.
    pub open spec fn wf(self) -> bool {
        forall|i: int| #![trigger self@.contains(i)] self@.contains(i) ==> i < 361
    }

    /// The empty mask.
    pub fn init() -> (r: BitMask)
        ensures
            r@ == Set::<int>::empty(),
            r.wf(),
    {
        let r = BitMask([0u64; 6]);
        proof {
            assert forall|i: int| !r@.contains(i) by {
                if 0 <= i < 384 {
                    lemma_index_split(i);
                    lemma_zero_bit((i % 64) as u64);
                }
            }
            assert(r@ =~= Set::<int>::empty());
        }
        r
    }

    /// Bitwise and of two masks.
    pub fn and(self, other: BitMask) -> (r: BitMask)
        ensures
            r@ == self@.intersect(other@),
    {
        let mut out = self.0;
        let mut w: usize = 0;
        while w < 6
            invariant
                w <= 6,
                forall|j: int| 0 <= j < w ==> out@[j] == self.0@[j] & other.0@[j],
                forall|j: int| w <= j < 6 ==> out@[j] == self.0@[j],
            decreases 6 - w,
        {
            out[w] = out[w] & other.0[w];
            w += 1;
        }
        let r = BitMask(out);
        proof {
            assert forall|i: int| r@.contains(i) == (self@.contains(i) && other@.contains(i)) by {
                if 0 <= i < 384 {
                    lemma_index_split(i);
                    lemma_and_bit(self.0@[i / 64], other.0@[i / 64], (i % 64) as u64);
                }
            }
            assert(r@ =~= self@.intersect(other@));
        }
        r
    }

    /// Bitwise or of two masks.
    pub fn or(self, other: BitMask) -> (r: BitMask)
        ensures
            r@ == self@.union(other@),
    {
        let mut out = self.0;
        let mut w: usize = 0;
        while w < 6
            invariant
                w <= 6,
                forall|j: int| 0 <= j < w ==> out@[j] == self.0@[j] | other.0@[j],
                forall|j: int| w <= j < 6 ==> out@[j] == self.0@[j],
            decreases 6 - w,
        {
            out[w] = out[w] | other.0[w];
            w += 1;
        }
        let r = BitMask(out);
        proof {
            assert forall|i: int| r@.contains(i) == (self@.contains(i) || other@.contains(i)) by {
                if 0 <= i < 384 {
                    lemma_index_split(i);
                    lemma_or_bit(self.0@[i / 64], other.0@[i / 64], (i % 64) as u64);
                }
            }
            assert(r@ =~= self@.union(other@));
        }
        r
    }

    /// Bitwise complement over all six words.
    pub fn complement(self) -> (r: BitMask)
        ensures
            r@ == all_positions().difference(self@),
    {
        let mut out = self.0;
        let mut w: usize = 0;
        while w < 6
            invariant
                w <= 6,
                forall|j: int| 0 <= j < w ==> out@[j] == !self.0@[j],
                forall|j: int| w <= j < 6 ==> out@[j] == self.0@[j],
            decreases 6 - w,
        {
            out[w] = !out[w];
            w += 1;
        }
        let r = BitMask(out);
        proof {
            assert forall|i: int| r@.contains(i) == (0 <= i < 384 && !self@.contains(i)) by {
                if 0 <= i < 384 {
                    lemma_index_split(i);
                    lemma_not_bit(self.0@[i / 64], (i % 64) as u64);
                }
            }
            assert(r@ =~= all_positions().difference(self@));
        }
        r
    }

    /// Moves every bit up by `n` positions; bits carried past the last word are lost and
    /// zeros come in from below. A shift by zero is the identity.
    pub fn shift_left(self, n: usize) -> (r: BitMask)
        ensures
            r@ == shifted_up(self@, n as int),
    {
        let steps: usize = n / 64;
        let b: u32 = (n % 64) as u32;
        let mut out = [0u64; 6];
        proof {
            lemma_index_join(steps as int, b as int);
        }
        let mut i: usize = 0;
        while i < 6
            invariant
                i <= 6,
                steps == n / 64,
                b == n % 64,
                forall|j: int| i <= j < 6 ==> out@[j] == 0,
                forall|q: int|
                    0 <= q < 64 * i ==> #[trigger] arr_bit(out, q) == (n <= q && arr_bit(
                        self.0,
                        q - n,
                    )),
            decreases 6 - i,
        {
            let ghost prev = out;
            if i >= steps {
                let hi = self.0[i - steps].free_shl(b);
                let lo = if i > steps {
                    self.0[i - steps - 1].free_shr(64 - b)
                } else {
                    0
                };
                out[i] = hi | lo;
                proof {
                    assert forall|k: u64| k < 64 implies word_bit(out@[i as int], k) == (n <= 64
                        * i + k && arr_bit(self.0, 64 * i + k - n)) by {
                        lemma_or_bit(hi, lo, k);
                        lemma_shl_bit(self.0@[i - steps], b as u64, k);
                        if i > steps && b != 0 {
                            lemma_shr_bit(self.0@[i - steps - 1], (64 - b) as u64, k);
                        } else {
                            assert(lo == 0);
                            lemma_zero_bit(k);
                        }
                        if k >= b {
                            lemma_index_join(i - steps, k - b);
                        } else if i > steps {
                            lemma_index_join(i - steps - 1, k + 64 - b);
                        }
                    }
                }
            } else {
                proof {
                    assert forall|k: u64| k < 64 implies !word_bit(out@[i as int], k) by {
                        lemma_zero_bit(k);
                    }
                }
            }
            proof {
                assert forall|q: int| 0 <= q < 64 * (i + 1) implies #[trigger] arr_bit(out, q) == (
                n <= q && arr_bit(self.0, q - n)) by {
                    lemma_index_split(q);
                    if q < 64 * i {
                        assert(arr_bit(prev, q) == arr_bit(out, q));
                    } else {
                        let k = (q % 64) as u64;
                        lemma_index_join(i as int, k as int);
                        assert(q == 64 * i + k);
                    }
                }
            }
            i += 1;
        }
        let r = BitMask(out);
        assert(r@ =~= shifted_up(self@, n as int));
        r
    }

    /// Moves every bit down by `n` positions; bits moved below position zero are lost and
    /// zeros come in from above. A shift by zero is the identity.
    pub fn shift_right(self, n: usize) -> (r: BitMask)
        ensures
            r@ == shifted_down(self@, n as int),
    {
        let steps: usize = n / 64;
        let b: u32 = (n % 64) as u32;
        let mut out = [0u64; 6];
        proof {
            lemma_index_join(steps as int, b as int);
        }
        let mut i: usize = 0;
        while i < 6
            invariant
                i <= 6,
                steps == n / 64,
                b == n % 64,
                n == 64 * steps + b,
                forall|j: int| i <= j < 6 ==> out@[j] == 0,
                forall|q: int|
                    0 <= q < 64 * i ==> #[trigger] arr_bit(out, q) == (q + n < 384 && arr_bit(
                        self.0,
                        q + n,
                    )),
            decreases 6 - i,
        {
            let ghost prev = out;
            if steps < 6 - i {
                let hi = self.0[i + steps].free_shr(b);
                let lo = if steps < 5 - i {
                    self.0[i + steps + 1].free_shl(64 - b)
                } else {
                    0
                };
                out[i] = hi | lo;
                proof {
                    assert forall|k: u64| k < 64 implies word_bit(out@[i as int], k) == (64 * i + k
                        + n < 384 && arr_bit(self.0, 64 * i + k + n)) by {
                        lemma_or_bit(hi, lo, k);
                        lemma_shr_bit(self.0@[i + steps], b as u64, k);
                        if steps < 5 - i && b != 0 {
                            lemma_shl_bit(self.0@[i + steps + 1], (64 - b) as u64, k);
                        } else {
                            assert(lo == 0);
                            lemma_zero_bit(k);
                        }
                        if k + b < 64 {
                            lemma_index_join(i + steps, k + b);
                        } else {
                            lemma_index_join(i + steps + 1, k + b - 64);
                        }
                    }
                }
            } else {
                proof {
                    assert forall|k: u64| k < 64 implies !word_bit(out@[i as int], k) by {
                        lemma_zero_bit(k);
                    }
                }
            }
            proof {
                assert forall|q: int| 0 <= q < 64 * (i + 1) implies #[trigger] arr_bit(out, q) == (q
                    + n < 384 && arr_bit(self.0, q + n)) by {
                    lemma_index_split(q);
                    if q < 64 * i {
                        assert(arr_bit(prev, q) == arr_bit(out, q));
                    } else {
                        let k = (q % 64) as u64;
                        lemma_index_join(i as int, k as int);
                        assert(q == 64 * i + k);
                    }
                }
            }
            i += 1;
        }
        let r = BitMask(out);
        assert(r@ =~= shifted_down(self@, n as int));
        r
    }

    /// This mask with position `i` set as well.
    pub fn with_bit(self, i: usize) -> (r: BitMask)
        requires
            i < 384,
        ensures
            r@ == self@.insert(i as int),
    {
        let w: usize = i / 64;
        let k: u64 = (i % 64) as u64;
        let mut out = self.0;
        out[w] = out[w] | (1u64 << k);
        let r = BitMask(out);
        proof {
            assert forall|q: int| r@.contains(q) == (self@.contains(q) || q == i) by {
                if 0 <= q < 384 {
                    lemma_index_split(q);
                    lemma_index_split(i as int);
                    if q / 64 == w {
                        lemma_or_bit(self.0@[w as int], 1u64 << k, (q % 64) as u64);
                        lemma_single_bit(k, (q % 64) as u64);
                    }
                }
            }
            assert(r@ =~= self@.insert(i as int));
        }
        r
    }

    /// This mask with position `i` cleared.
    pub fn without_bit(self, i: usize) -> (r: BitMask)
        requires
            i < 384,
        ensures
            r@ == self@.remove(i as int),
    {
        let w: usize = i / 64;
        let k: u64 = (i % 64) as u64;
        let mut out = self.0;
        out[w] = out[w] & !(1u64 << k);
        let r = BitMask(out);
        proof {
            assert forall|q: int| r@.contains(q) == (self@.contains(q) && q != i) by {
                if 0 <= q < 384 {
                    lemma_index_split(q);
                    lemma_index_split(i as int);
                    if q / 64 == w {
                        lemma_and_bit(self.0@[w as int], !(1u64 << k), (q % 64) as u64);
                        lemma_not_bit(1u64 << k, (q % 64) as u64);
                        lemma_single_bit(k, (q % 64) as u64);
                    }
                }
            }
            assert(r@ =~= self@.remove(i as int));
        }
        r
    }

    /// The mask drawn as text, one line per column `x`: `x ` on a set point, `_ ` elsewhere.
    pub fn to_text(&self) -> (r: String)
        ensures
            r@ == crate::display::grid_text(self@, Set::<int>::empty(), ("x "@, "_ "@, "_ "@), 19),
    {
        crate::display::render_grid(self, &BitMask::init(), ("x ", "_ ", "_ "))
    }

    /// Whether position `i` is set.
    pub fn bit_at(&self, i: usize) -> (r: bool)
        requires
            i < 384,
        ensures
            r == self@.contains(i as int),
    {
        ((self.0[i / 64] >> ((i % 64) as u64)) & 1u64) == 1u64
    }

    /// The mask holding the single point `coord`.
    pub fn from_coord(coord: Coordinate) -> (r: BitMask)
        requires
            coord.wf(),
        ensures
            r@ == set![coord.index as int],
            r.wf(),
    {
        let r = BitMask::init().with_bit(coord.index as usize);
        assert(r@ =~= set![coord.index as int]);
        r
    }

    /// Whether the point `coord` is set.
    pub fn is_set(&self, coord: Coordinate) -> (r: bool)
        requires
            coord.wf(),
        ensures
            r == self@.contains(coord.index as int),
    {
        let (word, bit) = coord.to_board();
        ((self.0[word] >> (bit as u64)) & 1u64) == 1u64
    }

    /// Whether no bit at all is set.
    pub fn is_empty(&self) -> (r: bool)
        ensures
            r == (self@ == Set::<int>::empty()),
    {
        let mut i: usize = 0;
        while i < 384
            invariant
                i <= 384,
                forall|j: int| 0 <= j < i ==> !self@.contains(j),
            decreases 384 - i,
        {
            if self.bit_at(i) {
                assert(self@ != Set::<int>::empty());
                return false;
            }
            i += 1;
        }
        assert(self@ =~= Set::<int>::empty());
        true
    }

    /// The number of set bits.
    pub fn count_ones(&self) -> (r: u32)
        ensures
            r == self@.len(),
            self@.finite(),
    {
        proof {
            lemma_view_finite(*self);
        }
        let mut count: u32 = 0;
        let mut i: usize = 0;
        assert(self@.filter(|j: int| j < 0) =~= Set::<int>::empty());
        while i < 384
            invariant
                i <= 384,
                self@.finite(),
                count <= i,
                count == self@.filter(|j: int| j < i).len(),
            decreases 384 - i,
        {
            let ghost before = self@.filter(|j: int| j < i);
            let ghost after = self@.filter(|j: int| j < i + 1);
            if self.bit_at(i) {
                assert(after =~= before.insert(i as int));
                count += 1;
            } else {
                assert(after =~= before);
            }
            i += 1;
        }
        assert(self@.filter(|j: int| j < 384) =~= self@);
        count
    }

    /// One step of growth, given the edge and board masks.
    fn grow_within(
        &self,
        borders: BitMask,
        left: BitMask,
        right: BitMask,
        full: BitMask,
    ) -> (r: BitMask)
        requires
            left@ == left_edge(),
            right@ == right_edge(),
            full@ == board_points(),
        ensures
            r@ == grown_once(self@, borders@),
            r.wf(),
    {
        let up = self.shift_left(19);
        let down = self.shift_right(19);
        let next = self.shift_left(1).and(left.complement());
        let prev = self.shift_right(1).and(right.complement());
        let out = self.or(up).or(down).or(next).or(prev);
        let r = out.and(borders.complement()).and(full);
        assert(r@ =~= grown_once(self@, borders@));
        r
    }

    /// Grows the mask by one step in the four directions at once: every point next to a set
    /// point joins, except across the edges of the board and on `borders`.
    pub fn flood_fill_step(&self, borders: BitMask) -> (r: BitMask)
        ensures
            r@ == grown_once(self@, borders@),
            r.wf(),
    {
        self.grow_within(borders, BitMask(lhs()), BitMask(rhs()), BitMask(filled()))
    }

    /// Grows the mask step by step until it stops changing: the region reachable from the set
    /// points without entering `borders`.
    pub fn flood_fill(&self, borders: BitMask) -> (r: BitMask)
        ensures
            r.wf(),
            r@.subset_of(open_points(borders@)),
            is_closed_region(r@, borders@),
            self@.intersect(open_points(borders@)).subset_of(r@),
            r@ == flooded(self@, borders@),
    {
        let left = BitMask(lhs());
        let right = BitMask(rhs());
        let full = BitMask(filled());
        let mut last = self.grow_within(borders, left, right, full);
        let mut next = last.grow_within(borders, left, right, full);
        proof {
            assert forall|j: int| self@.intersect(open_points(borders@)).contains(j) implies last@.contains(j) by {
                assert(touches(self@, j));
            }
            lemma_grown_extends(last@, borders@);
            assert forall|t: Set<int>|
                #[trigger] is_closed_region(t, borders@) && self@.subset_of(t) implies last@.subset_of(t) && next@.subset_of(t) by {
                lemma_grown_monotone(self@, t, borders@);
                lemma_grown_monotone(last@, t, borders@);
            }
            lemma_board_points_finite();
        }
        while next != last
            invariant
                left@ == left_edge(),
                right@ == right_edge(),
                full@ == board_points(),
                next@ == grown_once(last@, borders@),
                last@.subset_of(open_points(borders@)),
                last@.subset_of(next@),
                next@.subset_of(open_points(borders@)),
                self@.intersect(open_points(borders@)).subset_of(last@),
                grown_once(self@, borders@).subset_of(last@),
                next.wf(),
                forall|t: Set<int>|
                    #[trigger] is_closed_region(t, borders@) && self@.subset_of(t) ==> last@.subset_of(t) && next@.subset_of(t),
            decreases 361 - last@.len(),
        {
            proof {
                lemma_view_finite(next);
                lemma_view_finite(last);
                lemma_board_points_finite();
                vstd::set_lib::lemma_len_subset(last@, next@);
                vstd::set_lib::lemma_len_subset(next@, board_points());
                if last@.len() == next@.len() {
                    lemma_subset_same_len(last@, next@);
                    lemma_mask_of_view(last);
                    lemma_mask_of_view(next);
                }
            }
            last = next;
            next = last.grow_within(borders, left, right, full);
            proof {
                lemma_grown_extends(last@, borders@);
                assert forall|t: Set<int>|
                    #[trigger] is_closed_region(t, borders@) && self@.subset_of(t) implies next@.subset_of(t) by {
                    lemma_grown_monotone(last@, t, borders@);
                }
            }
        }
        proof {
            let region = next@.union(self@);
            assert(is_closed_region(region, borders@)) by {
                assert forall|j: int| grown_once(region, borders@).contains(j) implies region.contains(j) by {
                    if !touches(next@, j) {
                        assert(grown_once(self@, borders@).contains(j));
                    } else {
                        assert(grown_once(next@, borders@).contains(j));
                    }
                }
            }
            assert forall|j: int| next@.contains(j) == flooded(self@, borders@).contains(j) by {
                if flooded(self@, borders@).contains(j) {
                    assert(is_closed_region(region, borders@) && self@.subset_of(region));
                    if self@.contains(j) {
                        assert(self@.intersect(open_points(borders@)).contains(j));
                    }
                }
            }
            assert(next@ =~= flooded(self@, borders@));
        }
        next
    }
}

} // verus!

verus! {

/// `mask << n`: see [`BitMask::shift_left`]: the mask whose set positions that method gives.
impl core::ops::Shl<usize> for BitMask {
    type Output = BitMask;

    fn shl(self, rhs: usize) -> (r: BitMask) {
        let r = self.shift_left(rhs);
        proof {
            lemma_mask_of_view(r);
        }
        r
    }
}

impl vstd::std_specs::ops::ShlSpecImpl<usize> for BitMask {
    open spec fn obeys_shl_spec() -> bool {
        true
    }

    open spec fn shl_req(self, rhs: usize) -> bool {
        true
    }

    open spec fn shl_spec(self, rhs: usize) -> BitMask {
        mask_of(shifted_up(self@, rhs as int))
    }
}

/// `mask >> n`: see [`BitMask::shift_right`]: the mask whose set positions that method gives.
impl core::ops::Shr<usize> for BitMask {
    type Output = BitMask;

    fn shr(self, rhs: usize) -> (r: BitMask) {
        let r = self.shift_right(rhs);
        proof {
            lemma_mask_of_view(r);
        }
        r
    }
}

impl vstd::std_specs::ops::ShrSpecImpl<usize> for BitMask {
    open spec fn obeys_shr_spec() -> bool {
        true
    }

    open spec fn shr_req(self, rhs: usize) -> bool {
        true
    }

    open spec fn shr_spec(self, rhs: usize) -> BitMask {
        mask_of(shifted_down(self@, rhs as int))
    }
}

/// `a & b`: see [`BitMask::and`]: the mask whose set positions that method gives.
impl core::ops::BitAnd<BitMask> for BitMask {
    type Output = BitMask;

    fn bitand(self, rhs: BitMask) -> (r: BitMask) {
        let r = self.and(rhs);
        proof {
            lemma_mask_of_view(r);
        }
        r
    }
}

impl vstd::std_specs::ops::BitAndSpecImpl<BitMask> for BitMask {
    open spec fn obeys_bitand_spec() -> bool {
        true
    }

    open spec fn bitand_req(self, rhs: BitMask) -> bool {
        true
    }

    open spec fn bitand_spec(self, rhs: BitMask) -> BitMask {
        mask_of(self@.intersect(rhs@))
    }
}

/// `a | b`: see [`BitMask::or`]: the mask whose set positions that method gives.
impl core::ops::BitOr<BitMask> for BitMask {
    type Output = BitMask;

    fn bitor(self, rhs: BitMask) -> (r: BitMask) {
        let r = self.or(rhs);
        proof {
            lemma_mask_of_view(r);
        }
        r
    }
}

impl vstd::std_specs::ops::BitOrSpecImpl<BitMask> for BitMask {
    open spec fn obeys_bitor_spec() -> bool {
        true
    }

    open spec fn bitor_req(self, rhs: BitMask) -> bool {
        true
    }

    open spec fn bitor_spec(self, rhs: BitMask) -> BitMask {
        mask_of(self@.union(rhs@))
    }
}

/// `!mask`: see [`BitMask::complement`]: the mask whose set positions that method gives.
impl core::ops::Not for BitMask {
    type Output = BitMask;

    fn not(self) -> (r: BitMask) {
        let r = self.complement();
        proof {
            lemma_mask_of_view(r);
        }
        r
    }
}

impl vstd::std_specs::ops::NotSpecImpl for BitMask {
    open spec fn obeys_not_spec() -> bool {
        true
    }

    open spec fn not_req(self) -> bool {
        true
    }

    open spec fn not_spec(self) -> BitMask {
        mask_of(all_positions().difference(self@))
    }
}

} // verus!
