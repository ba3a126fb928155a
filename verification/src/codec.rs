//! The FAT12 entry codec: cluster-chain links are packed 12 bits each, two
//! entries per three bytes, little-endian and nibble-interleaved.
//!
//! Entry `2k` lives in bytes `3k` and `3k + 1`; entry `2k + 1` lives in bytes
//! `3k + 1` and `3k + 2`. The decoder takes the two bytes that hold an entry,
//! masks the nibble shared with the neighbouring entry, and reassembles the
//! 12-bit value.

use vstd::prelude::*;

verus! {

/// The 12-bit value stored at an even cluster index, given the two bytes
/// that hold it: the low byte whole, plus the low nibble of the next byte.
pub open spec fn decode_even(b0: u8, b1: u8) -> u16 {
    ((((b1 & (0xFFu8 >> 4u8)) as u16) << 8u16) | b0 as u16) & 0x0FFF
}

/// The 12-bit value stored at an odd cluster index, given the two bytes
/// that hold it: the high nibble of the first byte, plus the next byte whole.
pub open spec fn decode_odd(b0: u8, b1: u8) -> u16 {
    ((((b1 as u16) << 8u16) | (b0 & (0xFFu8 << 4u8)) as u16) >> 4u16) & 0x0FFF
}

/// The byte index where cluster `cluster`'s packed entry starts.
pub open spec fn entry_byte_index(cluster: int) -> int {
    cluster * 3 / 2
}

/// The FAT entry for `cluster`, read out of the raw table bytes `fat`.
pub open spec fn fat_entry(fat: Seq<u8>, cluster: int) -> u16
    recommends
        0 <= cluster,
        entry_byte_index(cluster) + 1 < fat.len(),
{
    let i = entry_byte_index(cluster);
    if cluster % 2 == 0 {
        decode_even(fat[i], fat[i + 1])
    } else {
        decode_odd(fat[i], fat[i + 1])
    }
}

/// The first of the three bytes that pack the 12-bit pair `(a, b)`:
/// the low byte of `a`.
pub open spec fn pack0(a: u16) -> u8 {
    (a & 0x00FF) as u8
}

/// The middle of the three bytes that pack the pair `(a, b)`:
/// the high nibble of `a` below, the low nibble of `b` above.
pub open spec fn pack1(a: u16, b: u16) -> u8 {
    (((a >> 8u16) & 0x000F) | ((b & 0x000F) << 4u16)) as u8
}

/// The last of the three bytes that pack the pair `(a, b)`:
/// the high byte of `b`'s upper eight bits.
pub open spec fn pack2(b: u16) -> u8 {
    ((b >> 4u16) & 0x00FF) as u8
}

/// Packing any two 12-bit values into three bytes and decoding them back
/// returns exactly the two values: the codec loses nothing.
pub proof fn lemma_pack_round_trip(a: u16, b: u16)
    requires
        a <= 0x0FFF,
        b <= 0x0FFF,
    ensures
        decode_even(pack0(a), pack1(a, b)) == a,
        decode_odd(pack1(a, b), pack2(b)) == b,
{
    assert(decode_even(pack0(a), pack1(a, b)) == a) by (bit_vector)
        requires
            a <= 0x0FFF,
            b <= 0x0FFF,
    ;
    assert(decode_odd(pack1(a, b), pack2(b)) == b) by (bit_vector)
        requires
            a <= 0x0FFF,
            b <= 0x0FFF,
    ;
}

/// Packing the pair `(a, b)` at bytes `3k .. 3k + 3` of a table makes the
/// entries at cluster indices `2k` and `2k + 1` decode to exactly `a` and `b`.
pub proof fn lemma_fat_pair_round_trip(fat: Seq<u8>, k: int, a: u16, b: u16)
    requires
        a <= 0x0FFF,
        b <= 0x0FFF,
        0 <= k,
        3 * k + 3 <= fat.len(),
        fat[3 * k] == pack0(a),
        fat[3 * k + 1] == pack1(a, b),
        fat[3 * k + 2] == pack2(b),
    ensures
        fat_entry(fat, 2 * k) == a,
        fat_entry(fat, 2 * k + 1) == b,
{
    assert(entry_byte_index(2 * k) == 3 * k);
    assert(entry_byte_index(2 * k + 1) == (6 * k + 3) / 2 == 3 * k + 1);
    lemma_pack_round_trip(a, b);
}

} // verus!
