//! Single-bit helpers on `u32` values.

use vstd::prelude::*;

verus! {

/// The mask with only the highest bit of a `u32` set.
pub const ONLY_HIGH_BIT_SET: u32 = 0x8000_0000;

/// The mask with every bit but the highest of a `u32` set.
pub const ALL_BITS_BUT_HIGHEST_SET: u32 = 0x7fff_ffff;

/// Whether bit `n` (counted from the least significant) of `input` is set;
/// positions outside the word read as unset.
pub open spec fn bit_at(input: u32, n: nat) -> bool {
    n < 32 && (input >> (n as u32)) & 1u32 == 1u32
}

/// Whether bit `n` of `input` is set; `false` for `n >= 32`.
pub fn get_bit_at(input: u32, n: u8) -> (r: bool)
    ensures
        r == bit_at(input, n as nat),
{
    if n < 32 {
        let r = input & (1u32 << n) != 0;
        assert(r == ((input >> (n as u32)) & 1u32 == 1u32)) by (bit_vector)
            requires
                n < 32,
                r == (input & (1u32 << n) != 0),
        ;
        r
    } else {
        false
    }
}

/// Sets bit `n` of `input`, leaving the other bits as they were.
pub fn set_bit_at(input: &mut u32, n: u8)
    requires
        n < 32,
    ensures
        *final(input) == *old(input) | (1u32 << n),
        bit_at(*final(input), n as nat),
        forall|i: nat| i < 32 && i != n ==> bit_at(*final(input), i) == bit_at(*old(input), i),
{
    let v = *input;
    let w = v | (1u32 << n);
    assert(forall|i: u32| #![auto] i < 32 ==> ((w >> i) & 1u32 == 1u32) == (i == n as u32 || (v >> i) & 1u32 == 1u32)) by (bit_vector)
        requires
            n < 32,
            w == v | (1u32 << n),
    ;
    assert forall|i: nat| i < 32 implies bit_at(w, i) == (i == n || bit_at(v, i)) by {
        let j = i as u32;
        assert(((w >> j) & 1u32 == 1u32) == (j == n as u32 || (v >> j) & 1u32 == 1u32));
    }
    *input = w;
}

/// Sets the highest bit of `input`.
pub fn set_high_bit(input: &mut u32)
    ensures
        *final(input) == *old(input) | ONLY_HIGH_BIT_SET,
        *final(input) as int == if *old(input) >= ONLY_HIGH_BIT_SET { *old(input) as int } else { *old(input) + 0x8000_0000 },
{
    let v = *input;
    let w = v | ONLY_HIGH_BIT_SET;
    assert(w == if v >= 0x8000_0000u32 { v } else { (v + 0x8000_0000u32) as u32 }) by (bit_vector)
        requires
            w == v | 0x8000_0000u32,
    ;
    *input = w;
}

/// Clears the highest bit of `input`.
pub fn unset_high_bit(input: &mut u32)
    ensures
        *final(input) == *old(input) & ALL_BITS_BUT_HIGHEST_SET,
        *final(input) as int == *old(input) as int % 0x8000_0000,
{
    let v = *input;
    let w = v & ALL_BITS_BUT_HIGHEST_SET;
    assert(w == v % 0x8000_0000u32) by (bit_vector)
        requires
            w == v & 0x7fff_ffffu32,
    ;
    *input = w;
}

/// Whether the highest bit of `input` is set.
pub fn is_hight_bit_set(input: u32) -> (r: bool)
    ensures
        r == (input >= ONLY_HIGH_BIT_SET),
        r == bit_at(input, 31),
{
    let r = input & ONLY_HIGH_BIT_SET != 0;
    assert(r == (input >= 0x8000_0000u32) && r == ((input >> 31u32) & 1u32 == 1u32)) by (bit_vector)
        requires
            r == (input & 0x8000_0000u32 != 0),
    ;
    r
}

} // verus!
