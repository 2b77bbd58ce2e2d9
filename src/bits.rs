//! The bitmap algebra behind the state pairs: one bit per wire, at most 64 wires.
use vstd::prelude::*;

verus! {

/// Bit `i` of `x`.
pub open spec fn bit(x: u64, i: int) -> bool {
    0 <= i < 64 && (x >> (i as u64)) & 1u64 == 1u64
}

/// The mask of the lowest `n` bits.
pub open spec fn low_mask(n: int) -> u64 {
    if n >= 64 { u64::MAX } else { ((1u64 << (n as u64)) - 1u64) as u64 }
}

pub proof fn lemma_bit_or(x: u64, y: u64, i: int)
    requires
        0 <= i < 64,
    ensures
        bit(x | y, i) == (bit(x, i) || bit(y, i)),
{
    let k = i as u64;
    assert(((x | y) >> k) & 1 == 1 <==> ((x >> k) & 1 == 1 || (y >> k) & 1 == 1)) by (bit_vector)
        requires k < 64;
}

pub proof fn lemma_bit_and(x: u64, y: u64, i: int)
    requires
        0 <= i < 64,
    ensures
        bit(x & y, i) == (bit(x, i) && bit(y, i)),
{
    let k = i as u64;
    assert(((x & y) >> k) & 1 == 1 <==> ((x >> k) & 1 == 1 && (y >> k) & 1 == 1)) by (bit_vector)
        requires k < 64;
}

pub proof fn lemma_bit_xor(x: u64, y: u64, i: int)
    requires
        0 <= i < 64,
    ensures
        bit(x ^ y, i) == (bit(x, i) != bit(y, i)),
{
    let k = i as u64;
    assert(((x ^ y) >> k) & 1 == 1 <==> ((x >> k) & 1 == 1) != ((y >> k) & 1 == 1)) by (bit_vector)
        requires k < 64;
}

/// Clearing bits `a` and `b` of `x` keeps every other bit.
pub proof fn lemma_bit_clear2(x: u64, a: u64, b: u64, w: u64)
    requires
        a < 64,
        b < 64,
        w < 64,
    ensures
        bit(x & !(1u64 << a) & !(1u64 << b), w as int) == (bit(x, w as int) && w != a && w != b),
{
    assert((((x & !(1u64 << a) & !(1u64 << b)) >> w) & 1 == 1) == ((x >> w) & 1 == 1 && w != a && w != b))
        by (bit_vector)
        requires a < 64, b < 64, w < 64;
}

pub proof fn lemma_bit_single(j: int, i: int)
    requires
        0 <= i < 64,
        0 <= j < 64,
    ensures
        bit(1u64 << (j as u64), i) == (i == j),
{
    let k = i as u64;
    let l = j as u64;
    assert(((1u64 << l) >> k) & 1 == 1 <==> k == l) by (bit_vector)
        requires k < 64, l < 64;
}

pub proof fn lemma_bit_low_mask(n: int, i: int)
    requires
        0 <= i < 64,
        0 <= n <= 64,
    ensures
        bit(low_mask(n), i) == (i < n),
{
    let k = i as u64;
    if n >= 64 {
        assert((u64::MAX >> k) & 1 == 1) by (bit_vector)
            requires k < 64;
    } else {
        let l = n as u64;
        assert((((1u64 << l) - 1u64) as u64 >> k) & 1 == 1 <==> k < l) by (bit_vector)
            requires k < 64, l < 64;
    }
}

/// Two words are equal when they agree on every bit.
pub proof fn lemma_bits_ext(x: u64, y: u64)
    requires
        forall|i: int| 0 <= i < 64 ==> #[trigger] bit(x, i) == bit(y, i),
    ensures
        x == y,
{
    assert forall|k: u64| k < 64 implies (x >> k) & 1 == (y >> k) & 1 by {
        assert(bit(x, k as int) == bit(y, k as int));
        assert(((x >> k) & 1 == 1 || (x >> k) & 1 == 0) && ((y >> k) & 1 == 1 || (y >> k) & 1 == 0)) by (bit_vector);
    }
    assert(x == y) by (bit_vector)
        requires
            (x >> 0u64) & 1 == (y >> 0u64) & 1,
            (x >> 1u64) & 1 == (y >> 1u64) & 1,
            (x >> 2u64) & 1 == (y >> 2u64) & 1,
            (x >> 3u64) & 1 == (y >> 3u64) & 1,
            (x >> 4u64) & 1 == (y >> 4u64) & 1,
            (x >> 5u64) & 1 == (y >> 5u64) & 1,
            (x >> 6u64) & 1 == (y >> 6u64) & 1,
            (x >> 7u64) & 1 == (y >> 7u64) & 1,
            (x >> 8u64) & 1 == (y >> 8u64) & 1,
            (x >> 9u64) & 1 == (y >> 9u64) & 1,
            (x >> 10u64) & 1 == (y >> 10u64) & 1,
            (x >> 11u64) & 1 == (y >> 11u64) & 1,
            (x >> 12u64) & 1 == (y >> 12u64) & 1,
            (x >> 13u64) & 1 == (y >> 13u64) & 1,
            (x >> 14u64) & 1 == (y >> 14u64) & 1,
            (x >> 15u64) & 1 == (y >> 15u64) & 1,
            (x >> 16u64) & 1 == (y >> 16u64) & 1,
            (x >> 17u64) & 1 == (y >> 17u64) & 1,
            (x >> 18u64) & 1 == (y >> 18u64) & 1,
            (x >> 19u64) & 1 == (y >> 19u64) & 1,
            (x >> 20u64) & 1 == (y >> 20u64) & 1,
            (x >> 21u64) & 1 == (y >> 21u64) & 1,
            (x >> 22u64) & 1 == (y >> 22u64) & 1,
            (x >> 23u64) & 1 == (y >> 23u64) & 1,
            (x >> 24u64) & 1 == (y >> 24u64) & 1,
            (x >> 25u64) & 1 == (y >> 25u64) & 1,
            (x >> 26u64) & 1 == (y >> 26u64) & 1,
            (x >> 27u64) & 1 == (y >> 27u64) & 1,
            (x >> 28u64) & 1 == (y >> 28u64) & 1,
            (x >> 29u64) & 1 == (y >> 29u64) & 1,
            (x >> 30u64) & 1 == (y >> 30u64) & 1,
            (x >> 31u64) & 1 == (y >> 31u64) & 1,
            (x >> 32u64) & 1 == (y >> 32u64) & 1,
            (x >> 33u64) & 1 == (y >> 33u64) & 1,
            (x >> 34u64) & 1 == (y >> 34u64) & 1,
            (x >> 35u64) & 1 == (y >> 35u64) & 1,
            (x >> 36u64) & 1 == (y >> 36u64) & 1,
            (x >> 37u64) & 1 == (y >> 37u64) & 1,
            (x >> 38u64) & 1 == (y >> 38u64) & 1,
            (x >> 39u64) & 1 == (y >> 39u64) & 1,
            (x >> 40u64) & 1 == (y >> 40u64) & 1,
            (x >> 41u64) & 1 == (y >> 41u64) & 1,
            (x >> 42u64) & 1 == (y >> 42u64) & 1,
            (x >> 43u64) & 1 == (y >> 43u64) & 1,
            (x >> 44u64) & 1 == (y >> 44u64) & 1,
            (x >> 45u64) & 1 == (y >> 45u64) & 1,
            (x >> 46u64) & 1 == (y >> 46u64) & 1,
            (x >> 47u64) & 1 == (y >> 47u64) & 1,
            (x >> 48u64) & 1 == (y >> 48u64) & 1,
            (x >> 49u64) & 1 == (y >> 49u64) & 1,
            (x >> 50u64) & 1 == (y >> 50u64) & 1,
            (x >> 51u64) & 1 == (y >> 51u64) & 1,
            (x >> 52u64) & 1 == (y >> 52u64) & 1,
            (x >> 53u64) & 1 == (y >> 53u64) & 1,
            (x >> 54u64) & 1 == (y >> 54u64) & 1,
            (x >> 55u64) & 1 == (y >> 55u64) & 1,
            (x >> 56u64) & 1 == (y >> 56u64) & 1,
            (x >> 57u64) & 1 == (y >> 57u64) & 1,
            (x >> 58u64) & 1 == (y >> 58u64) & 1,
            (x >> 59u64) & 1 == (y >> 59u64) & 1,
            (x >> 60u64) & 1 == (y >> 60u64) & 1,
            (x >> 61u64) & 1 == (y >> 61u64) & 1,
            (x >> 62u64) & 1 == (y >> 62u64) & 1,
            (x >> 63u64) & 1 == (y >> 63u64) & 1,
    ;
}

/// No bit of zero is set.
pub proof fn lemma_bit_zero(i: int)
    requires
        0 <= i < 64,
    ensures
        !bit(0u64, i),
{
    let k = i as u64;
    assert((0u64 >> k) & 1 != 1) by (bit_vector);
}

/// Bit test in executable code.
pub fn test_bit(x: u64, i: usize) -> (r: bool)
    requires
        i < 64,
    ensures
        r == bit(x, i as int),
{
    (x >> (i as u64)) & 1 == 1
}

/// The mask of the lowest `n` bits, `n <= 64`.
pub fn full_mask(n: usize) -> (r: u64)
    requires
        n <= 64,
    ensures
        r == low_mask(n as int),
        forall|i: int| 0 <= i < 64 ==> bit(r, i) == (i < n),
{
    proof {
        assert forall|i: int| 0 <= i < 64 implies bit(low_mask(n as int), i) == (i < n) by {
            lemma_bit_low_mask(n as int, i);
        }
    }
    if n >= 64 {
        u64::MAX
    } else {
        let l = n as u64;
        assert(1u64 << l >= 1) by (bit_vector) requires l < 64;
        (1u64 << l) - 1
    }
}

} // verus!
