use vstd::prelude::*;

verus! {

/// Whether bit `k` of the word `w` is set.
pub open spec fn word_bit(w: u64, k: u64) -> bool {
    (w >> k) & 1u64 == 1u64
}

/// Shifting left by 64 or more gives zero instead of overflowing.
pub trait FreeLeftShift: Sized {
    spec fn free_shl_spec(self, rhs: u32) -> Self;

    fn free_shl(self, rhs: u32) -> (r: Self)
        ensures
            r == self.free_shl_spec(rhs),
    ;
}

/// Shifting right by 64 or more gives zero instead of overflowing.
pub trait FreeRightShift: Sized {
    spec fn free_shr_spec(self, rhs: u32) -> Self;

    fn free_shr(self, rhs: u32) -> (r: Self)
        ensures
            r == self.free_shr_spec(rhs),
    ;
}

impl FreeLeftShift for u64 {
    open spec fn free_shl_spec(self, rhs: u32) -> u64 {
        if rhs < 64 {
            self << rhs
        } else {
            0
        }
    }

    fn free_shl(self, rhs: u32) -> (r: u64) {
        if rhs < 64 {
            self << rhs
        } else {
            0
        }
    }
}

impl FreeRightShift for u64 {
    open spec fn free_shr_spec(self, rhs: u32) -> u64 {
        if rhs < 64 {
            self >> rhs
        } else {
            0
        }
    }

    fn free_shr(self, rhs: u32) -> (r: u64) {
        if rhs < 64 {
            self >> rhs
        } else {
            0
        }
    }
}

pub proof fn lemma_and_bit(a: u64, b: u64, k: u64)
    requires
        k < 64,
    ensures
        word_bit(a & b, k) == (word_bit(a, k) && word_bit(b, k)),
{
    assert((((a & b) >> k) & 1u64 == 1u64) == ((a >> k) & 1u64 == 1u64 && (b >> k) & 1u64 == 1u64))
        by (bit_vector)
        requires
            k < 64,
    ;
}

pub proof fn lemma_or_bit(a: u64, b: u64, k: u64)
    requires
        k < 64,
    ensures
        word_bit(a | b, k) == (word_bit(a, k) || word_bit(b, k)),
{
    assert((((a | b) >> k) & 1u64 == 1u64) == ((a >> k) & 1u64 == 1u64 || (b >> k) & 1u64 == 1u64))
        by (bit_vector)
        requires
            k < 64,
    ;
}

pub proof fn lemma_not_bit(a: u64, k: u64)
    requires
        k < 64,
    ensures
        word_bit(!a, k) == !word_bit(a, k),
{
    assert((((!a) >> k) & 1u64 == 1u64) == !((a >> k) & 1u64 == 1u64)) by (bit_vector)
        requires
            k < 64,
    ;
}

pub proof fn lemma_zero_bit(k: u64)
    requires
        k < 64,
    ensures
        !word_bit(0u64, k),
{
    assert(!((0u64 >> k) & 1u64 == 1u64)) by (bit_vector)
        requires
            k < 64,
    ;
}

pub proof fn lemma_max_bit(k: u64)
    requires
        k < 64,
    ensures
        word_bit(0xffff_ffff_ffff_ffffu64, k),
{
    assert((0xffff_ffff_ffff_ffffu64 >> k) & 1u64 == 1u64) by (bit_vector)
        requires
            k < 64,
    ;
}

pub proof fn lemma_single_bit(j: u64, k: u64)
    requires
        j < 64,
        k < 64,
    ensures
        word_bit(1u64 << j, k) == (j == k),
{
    assert((((1u64 << j) >> k) & 1u64 == 1u64) == (j == k)) by (bit_vector)
        requires
            j < 64,
            k < 64,
    ;
}

pub proof fn lemma_shl_bit(x: u64, b: u64, k: u64)
    requires
        b < 64,
        k < 64,
    ensures
        word_bit(x << b, k) == (k >= b && word_bit(x, (k - b) as u64)),
{
    assert((((x << b) >> k) & 1u64 == 1u64) == (k >= b && (x >> ((k - b) as u64)) & 1u64 == 1u64))
        by (bit_vector)
        requires
            b < 64,
            k < 64,
    ;
}

pub proof fn lemma_shr_bit(x: u64, b: u64, k: u64)
    requires
        b < 64,
        k < 64,
    ensures
        word_bit(x >> b, k) == (k + b < 64 && word_bit(x, (k + b) as u64)),
{
    assert((((x >> b) >> k) & 1u64 == 1u64) == (k + b < 64 && (x >> ((k + b) as u64)) & 1u64
        == 1u64)) by (bit_vector)
        requires
            b < 64,
            k < 64,
    ;
}

/// Two words with the same bits from `n` upwards agree once shifted right by `n`.
proof fn lemma_word_ext_from(a: u64, b: u64, n: u64)
    requires
        n <= 64,
        forall|k: u64| k < 64 ==> word_bit(a, k) == word_bit(b, k),
    ensures
        a >> n == b >> n,
    decreases 64 - n,
{
    if n == 64 {
        assert(a >> 64u64 == 0u64 && b >> 64u64 == 0u64) by (bit_vector);
    } else {
        lemma_word_ext_from(a, b, (n + 1) as u64);
        assert(word_bit(a, n) == word_bit(b, n));
        assert(a >> n == b >> n) by (bit_vector)
            requires
                n < 64,
                a >> ((n + 1) as u64) == b >> ((n + 1) as u64),
                ((a >> n) & 1u64 == 1u64) == ((b >> n) & 1u64 == 1u64),
        ;
    }
}

/// Two words with the same bits are the same word.
pub proof fn lemma_word_ext(a: u64, b: u64)
    requires
        forall|k: u64| k < 64 ==> word_bit(a, k) == word_bit(b, k),
    ensures
        a == b,
{
    lemma_word_ext_from(a, b, 0);
    assert(a >> 0u64 == a && b >> 0u64 == b) by (bit_vector);
}

} // verus!
