//! Single-bit access inside a byte, most-significant bit first.
//!
//! Bit index 0 names the most significant bit of the byte, matching the
//! panel's convention that pixel `x` with `x % 8 == 0` lands in the top bit
//! of its byte.

use vstd::prelude::*;

verus! {

/// Whether bit `bit_index` (0 = most significant) of `byte` is set.
pub open spec fn spec_bit(byte: u8, bit_index: u8) -> bool
    recommends
        bit_index < 8,
{
    byte & (0x80u8 >> bit_index) != 0
}

/// The byte with bit `bit_index` forced to `enabled` and every other bit kept.
pub open spec fn spec_set_bit(byte: u8, bit_index: u8, enabled: bool) -> u8
    recommends
        bit_index < 8,
{
    if enabled {
        byte | (0x80u8 >> bit_index)
    } else {
        byte & !(0x80u8 >> bit_index)
    }
}

/// Setting one bit touches no other bit.
pub proof fn lemma_set_bit(byte: u8, bit_index: u8, enabled: bool)
    requires
        bit_index < 8,
    ensures
        spec_bit(spec_set_bit(byte, bit_index, enabled), bit_index) == enabled,
        forall|j: u8|
            j < 8 && j != bit_index ==> spec_bit(spec_set_bit(byte, bit_index, enabled), j)
                == spec_bit(byte, j),
{
    assert forall|j: u8| j < 8 && j != bit_index implies spec_bit(
        spec_set_bit(byte, bit_index, enabled),
        j,
    ) == spec_bit(byte, j) by {
        assert(j < 8 && bit_index < 8 && j != bit_index ==> spec_bit(
            spec_set_bit(byte, bit_index, enabled),
            j,
        ) == spec_bit(byte, j)) by (bit_vector);
    }
    assert(bit_index < 8 ==> spec_bit(spec_set_bit(byte, bit_index, enabled), bit_index)
        == enabled) by (bit_vector);
}

/// Two bytes that agree on all eight bits are equal.
pub proof fn lemma_byte_from_bits(a: u8, b: u8)
    requires
        forall|j: u8| j < 8 ==> spec_bit(a, j) == spec_bit(b, j),
    ensures
        a == b,
{
    assert(spec_bit(a, 0) == spec_bit(b, 0));
    assert(spec_bit(a, 1) == spec_bit(b, 1));
    assert(spec_bit(a, 2) == spec_bit(b, 2));
    assert(spec_bit(a, 3) == spec_bit(b, 3));
    assert(spec_bit(a, 4) == spec_bit(b, 4));
    assert(spec_bit(a, 5) == spec_bit(b, 5));
    assert(spec_bit(a, 6) == spec_bit(b, 6));
    assert(spec_bit(a, 7) == spec_bit(b, 7));
    assert((spec_bit(a, 0) == spec_bit(b, 0) && spec_bit(a, 1) == spec_bit(b, 1) && spec_bit(a, 2)
        == spec_bit(b, 2) && spec_bit(a, 3) == spec_bit(b, 3) && spec_bit(a, 4) == spec_bit(b, 4)
        && spec_bit(a, 5) == spec_bit(b, 5) && spec_bit(a, 6) == spec_bit(b, 6) && spec_bit(a, 7)
        == spec_bit(b, 7)) ==> a == b) by (bit_vector);
}

/// Reads bit `bit_index` (0 = most significant) of `byte`.
pub fn get_bit_at_index(byte: u8, bit_index: u8) -> (r: bool)
    requires
        bit_index < 8,
    ensures
        r == spec_bit(byte, bit_index),
{
    let mask = 0b10000000u8 >> bit_index;
    byte & mask != 0
}

/// Returns `byte` with bit `bit_index` (0 = most significant) forced to
/// `enabled`; every other bit is kept.
pub fn set_bit_at_index(byte: u8, bit_index: u8, enabled: bool) -> (r: u8)
    requires
        bit_index < 8,
    ensures
        r == spec_set_bit(byte, bit_index, enabled),
{
    let mask = 0b10000000u8 >> bit_index;
    if enabled {
        byte | mask
    } else {
        byte & !mask
    }
}

} // verus!
