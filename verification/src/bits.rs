//! Packing of boolean flags into a single wire byte.
use vstd::prelude::*;

verus! {

/// The flag byte whose bit `i` is set exactly when `bits[i]` holds.
pub open spec fn spec_pack_bits(bits: Seq<bool>) -> u8
    recommends
        bits.len() == 8,
{
    (if bits[0] { 1u8 } else { 0u8 }) | (if bits[1] { 2u8 } else { 0u8 }) | (if bits[2] {
        4u8
    } else {
        0u8
    }) | (if bits[3] { 8u8 } else { 0u8 }) | (if bits[4] { 16u8 } else { 0u8 }) | (if bits[5] {
        32u8
    } else {
        0u8
    }) | (if bits[6] { 64u8 } else { 0u8 }) | (if bits[7] { 128u8 } else { 0u8 })
}

/// Bit `i` of `byte` is set.
pub open spec fn bit_set(byte: u8, i: u8) -> bool {
    (byte >> i) & 1u8 == 1u8
}

/// Packs eight flags into one byte, flag `i` going to bit `i`.
pub fn pack_bits(bits: [bool; 8]) -> (byte: u8)
    ensures
        byte == spec_pack_bits(bits@),
        forall|i: u8| i < 8 ==> (#[trigger] bit_set(byte, i) <==> bits@[i as int]),
{
    let mut byte: u8 = 0;
    let mut i: u8 = 0;
    proof { lemma_zero_has_no_bits(); }
    while i < 8
        invariant
            i <= 8,
            forall|j: u8| j < i ==> (#[trigger] bit_set(byte, j) <==> bits@[j as int]),
            forall|j: u8| i <= j < 8 ==> !#[trigger] bit_set(byte, j),
        decreases 8 - i,
    {
        if bits[i as usize] {
            let old_byte = byte;
            byte = byte | (1u8 << i);
            proof { lemma_set_bit(old_byte, i); }
        }
        i = i + 1;
    }
    proof { lemma_pack_unique(byte, bits@); }
    byte
}

proof fn lemma_zero_has_no_bits()
    ensures
        forall|j: u8| j < 8 ==> !#[trigger] bit_set(0u8, j),
{
    assert forall|j: u8| j < 8 implies !#[trigger] bit_set(0u8, j) by {
        assert((0u8 >> j) & 1u8 != 1u8) by (bit_vector);
    }
}

proof fn lemma_set_bit(b: u8, i: u8)
    requires
        i < 8,
    ensures
        forall|j: u8| j < 8 && j != i ==> (#[trigger] bit_set(b | (1u8 << i), j) <==> bit_set(b, j)),
        bit_set(b | (1u8 << i), i),
{
    assert forall|j: u8| j < 8 && j != i implies (#[trigger] bit_set(b | (1u8 << i), j) <==> bit_set(b, j)) by {
        assert((((b | (1u8 << i)) >> j) & 1u8 == 1u8) <==> ((b >> j) & 1u8 == 1u8)) by (bit_vector)
            requires i < 8, j < 8, j != i;
    }
    assert(((b | (1u8 << i)) >> i) & 1u8 == 1u8) by (bit_vector)
        requires i < 8;
}

proof fn lemma_pack_unique(byte: u8, bits: Seq<bool>)
    requires
        bits.len() == 8,
        forall|j: u8| j < 8 ==> (#[trigger] bit_set(byte, j) <==> bits[j as int]),
    ensures
        byte == spec_pack_bits(bits),
{
    let b0 = bits[0]; let b1 = bits[1]; let b2 = bits[2]; let b3 = bits[3];
    let b4 = bits[4]; let b5 = bits[5]; let b6 = bits[6]; let b7 = bits[7];
    assert(bit_set(byte, 0) == b0);
    assert(bit_set(byte, 1) == b1);
    assert(bit_set(byte, 2) == b2);
    assert(bit_set(byte, 3) == b3);
    assert(bit_set(byte, 4) == b4);
    assert(bit_set(byte, 5) == b5);
    assert(bit_set(byte, 6) == b6);
    assert(bit_set(byte, 7) == b7);
    assert(byte == ((if b0 { 1u8 } else { 0u8 }) | (if b1 { 2u8 } else { 0u8 }) | (if b2 { 4u8 } else { 0u8 })
        | (if b3 { 8u8 } else { 0u8 }) | (if b4 { 16u8 } else { 0u8 }) | (if b5 { 32u8 } else { 0u8 })
        | (if b6 { 64u8 } else { 0u8 }) | (if b7 { 128u8 } else { 0u8 }))) by (bit_vector)
        requires
            ((byte >> 0u8) & 1u8 == 1u8) == b0,
            ((byte >> 1u8) & 1u8 == 1u8) == b1,
            ((byte >> 2u8) & 1u8 == 1u8) == b2,
            ((byte >> 3u8) & 1u8 == 1u8) == b3,
            ((byte >> 4u8) & 1u8 == 1u8) == b4,
            ((byte >> 5u8) & 1u8 == 1u8) == b5,
            ((byte >> 6u8) & 1u8 == 1u8) == b6,
            ((byte >> 7u8) & 1u8 == 1u8) == b7;
}

} // verus!
