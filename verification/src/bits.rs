//! Single-word bit sets: the `u64` masks that hold a vertex's neighbours
//! or a vertex's forbidden colours.
use vstd::prelude::*;
use vstd::std_specs::bits::{u64_trailing_zeros, axiom_u64_trailing_zeros};

verus! {

/// Whether position `i` of `m` is set.
pub open spec fn bit(m: u64, i: int) -> bool {
    0 <= i < 64 && (m >> (i as u64)) & 1u64 == 1u64
}

/// The number of set positions of `m` below `i`.
pub open spec fn bits_below(m: u64, i: int) -> nat
    decreases i,
{
    if i <= 0 {
        0
    } else {
        bits_below(m, i - 1) + if bit(m, i - 1) { 1nat } else { 0nat }
    }
}

/// At most `i` positions lie below `i`.
pub proof fn lemma_bits_below_bound(m: u64, i: int)
    requires
        0 <= i,
    ensures
        bits_below(m, i) <= i,
    decreases i,
{
    if i > 0 {
        lemma_bits_below_bound(m, i - 1);
    }
}

/// The zero word has no set position below any bound.
pub proof fn lemma_bits_below_zero(i: int)
    ensures
        bits_below(0u64, i) == 0,
    decreases i,
{
    if i > 0 {
        lemma_bits_below_zero(i - 1);
        lemma_bit_zero(i - 1);
    }
}

/// Setting a clear position `b` adds one to the count of every range that
/// holds `b`.
pub proof fn lemma_bits_below_set(m: u64, b: u64, i: int)
    requires
        b < 64,
        !bit(m, b as int),
    ensures
        bits_below(m | (1u64 << b), i) == bits_below(m, i) + if 0 <= b < i {
            1int
        } else {
            0int
        },
    decreases i,
{
    if i > 0 {
        lemma_bits_below_set(m, b, i - 1);
        lemma_bit_set(m, b, i - 1);
    }
}

/// The number of set positions of `m`.
pub open spec fn popcount(m: u64) -> nat {
    bits_below(m, 64)
}

/// The word with no position set.
pub proof fn lemma_bit_zero(i: int)
    ensures
        !bit(0u64, i),
{
    if 0 <= i < 64 {
        let j = i as u64;
        assert((0u64 >> j) & 1u64 == 0u64) by (bit_vector);
    }
}

/// Setting position `b` of `m` sets that position and keeps every other one.
pub proof fn lemma_bit_set(m: u64, b: u64, i: int)
    requires
        b < 64,
    ensures
        bit(m | (1u64 << b), i) == (bit(m, i) || i == b),
{
    if 0 <= i < 64 {
        let j = i as u64;
        assert(((m | (1u64 << b)) >> j) & 1u64 == 1u64 <==> ((m >> j) & 1u64 == 1u64 || j == b))
            by (bit_vector)
            requires
                b < 64,
                j < 64,
        ;
    }
}

/// Setting a position that is already set leaves the word as it is.
pub proof fn lemma_bit_set_idempotent(m: u64, b: u64)
    requires
        b < 64,
        bit(m, b as int),
    ensures
        m | (1u64 << b) == m,
{
    assert((m >> b) & 1u64 == 1u64 ==> m | (1u64 << b) == m) by (bit_vector)
        requires
            b < 64,
    ;
}

/// Testing position `b` with a mask: `m & (1 << b)` is zero exactly when
/// position `b` of `m` is clear.
pub proof fn lemma_bit_test(m: u64, b: u64)
    requires
        b < 64,
    ensures
        (m & (1u64 << b) == 0u64) == !bit(m, b as int),
{
    assert((m & (1u64 << b) == 0u64) <==> !((m >> b) & 1u64 == 1u64)) by (bit_vector)
        requires
            b < 64,
    ;
}

/// Masking with `!f` clears the positions set in `f` and keeps the others.
pub proof fn lemma_bit_and_not(a: u64, f: u64, i: int)
    ensures
        bit(a & !f, i) == (bit(a, i) && !bit(f, i)),
{
    if 0 <= i < 64 {
        let j = i as u64;
        assert(((a & !f) >> j) & 1u64 == 1u64 <==> ((a >> j) & 1u64 == 1u64 && !((f >> j)
            & 1u64 == 1u64))) by (bit_vector)
            requires
                j < 64,
        ;
    }
}

/// The low-`k` mask `(1 << k) - 1`, for `k < 64`, has exactly the positions below `k` set.
pub proof fn lemma_bit_low_mask(k: u64, i: int)
    requires
        k < 64,
    ensures
        bit(((1u64 << k) - 1u64) as u64, i) == (0 <= i < k),
{
    if 0 <= i < 64 {
        let j = i as u64;
        assert(((((1u64 << k) - 1u64) as u64) >> j) & 1u64 == 1u64 <==> j < k) by (bit_vector)
            requires
                k < 64,
                j < 64,
        ;
    }
}

/// The full word has every position set.
pub proof fn lemma_bit_full(i: int)
    ensures
        bit(0xffff_ffff_ffff_ffffu64, i) == (0 <= i < 64),
{
    if 0 <= i < 64 {
        let j = i as u64;
        assert((0xffff_ffff_ffff_ffffu64 >> j) & 1u64 == 1u64) by (bit_vector)
            requires
                j < 64,
        ;
    }
}

/// A word is zero exactly when no position is set.
pub proof fn lemma_zero_iff_no_bit(m: u64)
    ensures
        (m == 0) == (forall|i: int| !#[trigger] bit(m, i)),
{
    if m == 0 {
        assert forall|i: int| !#[trigger] bit(m, i) by {
            lemma_bit_zero(i);
        }
    } else {
        let t = u64_trailing_zeros(m);
        axiom_u64_trailing_zeros(m);
        assert(bit(m, t as int));
    }
}

/// Two words with the same set positions are equal.
pub proof fn lemma_same_bits_equal(a: u64, b: u64)
    requires
        forall|i: int| 0 <= i < 64 ==> #[trigger] bit(a, i) == bit(b, i),
    ensures
        a == b,
{
    let x = a ^ b;
    assert forall|i: int| !#[trigger] bit(x, i) by {
        if 0 <= i < 64 {
            let j = i as u64;
            assert(((a ^ b) >> j) & 1u64 == 1u64 <==> (((a >> j) & 1u64 == 1u64) != ((b >> j)
                & 1u64 == 1u64))) by (bit_vector)
                requires
                    j < 64,
            ;
            assert(bit(a, i) == bit(b, i));
        }
    }
    lemma_zero_iff_no_bit(x);
    assert(a ^ b == 0u64 ==> a == b) by (bit_vector);
}

/// The lowest set position of a nonzero word: it is set, and clearing it with
/// `m & (m - 1)` keeps every other position.
pub proof fn lemma_lowest_bit(m: u64)
    requires
        m != 0,
    ensures
        u64_trailing_zeros(m) < 64,
        bit(m, u64_trailing_zeros(m) as int),
        (m & ((m - 1u64) as u64)) < m,
        forall|i: int| #[trigger] bit(m, i) ==> u64_trailing_zeros(m) <= i,
        forall|i: int|
            #[trigger] bit(m & ((m - 1u64) as u64), i) == (bit(m, i) && i != u64_trailing_zeros(
                m,
            ) as int),
{
    axiom_u64_trailing_zeros(m);
    let t = u64_trailing_zeros(m) as u64;
    assert(m << ((64 - t) as u64) == 0u64);
    assert((m & ((m - 1u64) as u64)) < m) by (bit_vector)
        requires
            m != 0,
    ;
    assert forall|i: int| #[trigger] bit(m, i) implies t <= i by {
        if i < t {
            let j = i as u64;
            assert((m >> j) & 1u64 == 0u64);
        }
    }
    assert forall|i: int| #[trigger]
        bit(m & ((m - 1u64) as u64), i) == (bit(m, i) && i != t as int) by {
        if 0 <= i < 64 {
            let j = i as u64;
            assert(((m & ((m - 1u64) as u64)) >> j) & 1u64 == 1u64 <==> ((m >> j) & 1u64 == 1u64
                && j != t)) by (bit_vector)
                requires
                    m != 0,
                    t < 64,
                    j < 64,
                    (m >> t) & 1u64 == 1u64,
                    m << ((64 - t) as u64) == 0u64,
            ;
        }
    }
}

/// Counts the set positions of `x`.
pub fn count_ones(x: u64) -> (c: u32)
    ensures
        c == popcount(x),
{
    let mut c: u32 = 0;
    let mut i: u64 = 0;
    while i < 64
        invariant
            i <= 64,
            c == bits_below(x, i as int),
            c <= i,
        decreases 64 - i,
    {
        if (x >> i) & 1 == 1 {
            c = c + 1;
        }
        i = i + 1;
    }
    c
}

} // verus!
