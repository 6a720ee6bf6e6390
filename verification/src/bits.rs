//! Facts about single bits of bytes and of sixteen-lane masks.
use vstd::prelude::*;

verus! {

/// Whether bit `k` of the byte `x` is set.
pub open spec fn has_bit(x: u8, k: u8) -> bool {
    x & (1u8 << k) != 0
}

/// Whether lane `i` of the sixteen-lane mask `m` is set.
pub open spec fn lane_bit(m: u16, i: u16) -> bool {
    (m >> i) & 1u16 == 1u16
}

/// The low nibble of a byte.
pub open spec fn low_nibble(c: u8) -> u8 {
    c & 0x0f
}

/// The high nibble of a byte.
pub open spec fn high_nibble(c: u8) -> u8 {
    c >> 4
}

/// The byte whose high nibble is `hi` and whose low nibble is `lo`.
pub open spec fn join_nibbles(hi: u8, lo: u8) -> u8 {
    (hi << 4) | lo
}

/// Both nibbles of a byte are below sixteen, and joining them gives the byte back.
pub proof fn lemma_split_byte(c: u8)
    ensures
        low_nibble(c) < 16,
        high_nibble(c) < 16,
        join_nibbles(high_nibble(c), low_nibble(c)) == c,
{
    assert(c & 0x0f < 16 && c >> 4 < 16 && ((c >> 4) << 4) | (c & 0x0f) == c) by (bit_vector);
}

/// A byte joined from two nibbles splits into those nibbles again.
pub proof fn lemma_join_nibbles(hi: u8, lo: u8)
    requires
        hi < 16,
        lo < 16,
    ensures
        high_nibble(join_nibbles(hi, lo)) == hi,
        low_nibble(join_nibbles(hi, lo)) == lo,
{
    assert(((hi << 4) | lo) >> 4 == hi && ((hi << 4) | lo) & 0x0f == lo) by (bit_vector)
        requires
            hi < 16,
            lo < 16,
    ;
}

/// Setting bit `b` adds exactly that bit.
pub proof fn lemma_set_bit(x: u8, b: u8, k: u8)
    requires
        b < 8,
        k < 8,
    ensures
        has_bit(x | (1u8 << b), k) <==> has_bit(x, k) || k == b,
{
    assert(((x | (1u8 << b)) & (1u8 << k) != 0) <==> (x & (1u8 << k) != 0 || k == b))
        by (bit_vector)
        requires
            b < 8,
            k < 8,
    ;
}

/// The zero byte has no bit set.
pub proof fn lemma_zero_byte(k: u8)
    ensures
        !has_bit(0, k),
{
    assert(0u8 & (1u8 << k) == 0) by (bit_vector);
}

/// Three bytes have a non-zero conjunction exactly when they share a bit.
pub proof fn lemma_shared_bit(x: u8, y: u8, z: u8)
    ensures
        x & y & z != 0 <==> exists|k: u8| k < 8 && has_bit(x, k) && has_bit(y, k) && has_bit(z, k),
{
    let w = x & y & z;
    if w != 0 {
        assert(w & (1u8 << 0u8) != 0 || w & (1u8 << 1u8) != 0 || w & (1u8 << 2u8) != 0 || w & (1u8
            << 3u8) != 0 || w & (1u8 << 4u8) != 0 || w & (1u8 << 5u8) != 0 || w & (1u8 << 6u8) != 0
            || w & (1u8 << 7u8) != 0) by (bit_vector)
            requires
                w != 0,
        ;
        let k: u8 = if has_bit(w, 0) {
            0
        } else if has_bit(w, 1) {
            1
        } else if has_bit(w, 2) {
            2
        } else if has_bit(w, 3) {
            3
        } else if has_bit(w, 4) {
            4
        } else if has_bit(w, 5) {
            5
        } else if has_bit(w, 6) {
            6
        } else {
            7
        };
        lemma_conjunction_bit(x, y, z, k);
        assert(k < 8 && has_bit(x, k) && has_bit(y, k) && has_bit(z, k));
    }
    assert forall|k: u8| k < 8 && has_bit(x, k) && has_bit(y, k) && has_bit(z, k) implies w
        != 0 by {
        lemma_conjunction_bit(x, y, z, k);
        assert(w & (1u8 << k) != 0 ==> w != 0) by (bit_vector);
    }
}

/// A bit of a conjunction of three bytes is set exactly when it is set in each.
pub proof fn lemma_conjunction_bit(x: u8, y: u8, z: u8, k: u8)
    requires
        k < 8,
    ensures
        has_bit(x & y & z, k) <==> has_bit(x, k) && has_bit(y, k) && has_bit(z, k),
{
    assert(((x & y & z) & (1u8 << k) != 0) <==> (x & (1u8 << k) != 0 && y & (1u8 << k) != 0 && z
        & (1u8 << k) != 0)) by (bit_vector)
        requires
            k < 8,
    ;
}

/// The mask of the `n` lowest columns holds exactly the bits below `n`.
pub proof fn lemma_low_columns(n: u32, k: u8)
    requires
        n <= 8,
        k < 8,
    ensures
        (1u32 << n) >= 1,
        (1u32 << n) - 1 <= 255,
        has_bit(((1u32 << n) - 1) as u8, k) <==> k < n,
{
    assert((1u32 << n) >= 1 && (1u32 << n) - 1 <= 255) by (bit_vector)
        requires
            n <= 8,
    ;
    assert(((((1u32 << n) - 1) as u8) & (1u8 << k) != 0) <==> (k as u32) < n) by (bit_vector)
        requires
            n <= 8,
            k < 8,
    ;
}

/// The empty mask has no lane set.
pub proof fn lemma_empty_mask(i: u16)
    ensures
        !lane_bit(0, i),
{
    assert((0u16 >> i) & 1u16 == 0u16) by (bit_vector);
}

/// Setting lane `i` of a mask adds exactly that lane.
pub proof fn lemma_set_lane(m: u16, i: u16, j: u16)
    requires
        i < 16,
        j < 16,
    ensures
        lane_bit(m | (1u16 << i), j) <==> lane_bit(m, j) || j == i,
{
    assert((((m | (1u16 << i)) >> j) & 1u16 == 1u16) <==> ((m >> j) & 1u16 == 1u16 || j == i))
        by (bit_vector)
        requires
            i < 16,
            j < 16,
    ;
}

/// Testing lane `i` by its own one-bit mask is testing the lane.
pub proof fn lemma_test_lane(m: u16, i: u16)
    requires
        i < 16,
    ensures
        m & (1u16 << i) != 0 <==> lane_bit(m, i),
{
    assert((m & (1u16 << i) != 0) <==> ((m >> i) & 1u16 == 1u16)) by (bit_vector)
        requires
            i < 16,
    ;
}

} // verus!
