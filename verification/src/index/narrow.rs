//! The low bits of integers: what is kept when a value is stored in fewer bits.

use vstd::arithmetic::div_mod::lemma_mod_mod;
use vstd::prelude::*;

verus! {

/// The low 8 bits of `x`.
pub open spec fn low8(x: int) -> u8 {
    (x % 0x100) as u8
}

/// The low 16 bits of `x`.
pub open spec fn low16(x: int) -> u16 {
    (x % 0x1_0000) as u16
}

/// The low 32 bits of `x`.
pub open spec fn low32(x: int) -> u32 {
    (x % 0x1_0000_0000) as u32
}

/// Keeps the low 8 bits.
pub fn to_low8(x: u32) -> (low: u8)
    ensures
        low == low8(x as int),
{
    assert(x as u8 == x % 0x100) by (bit_vector);
    #[verifier::truncate]
    (x as u8)
}

/// Keeps the low 16 bits.
pub fn to_low16(x: u32) -> (low: u16)
    ensures
        low == low16(x as int),
{
    assert(x as u16 == x % 0x1_0000) by (bit_vector);
    #[verifier::truncate]
    (x as u16)
}

/// Keeps the low 32 bits.
pub fn to_low32(x: usize) -> (low: u32)
    ensures
        low == low32(x as int),
{
    let wide: u64 = x as u64;
    assert(wide as u32 == wide % 0x1_0000_0000) by (bit_vector);
    #[verifier::truncate]
    (wide as u32)
}

/// Of 32 bits, the low 8 and the low 16 are those of the whole.
pub proof fn lemma_low_of_low32(x: int)
    ensures
        low8(low32(x) as int) == low8(x),
        low16(low32(x) as int) == low16(x),
{
    lemma_mod_mod(x, 0x100, 0x100_0000);
    lemma_mod_mod(x, 0x1_0000, 0x1_0000);
}

/// The low bits of a number differ from it by a multiple of what they can count.
/// A number that they can hold stays as it is.
pub proof fn law_low_bits_are_remainders(x: int)
    ensures
        x == 0x100 * (x / 0x100) + low8(x),
        x == 0x1_0000 * (x / 0x1_0000) + low16(x),
        x == 0x1_0000_0000 * (x / 0x1_0000_0000) + low32(x),
        0 <= x <= u8::MAX ==> low8(x) == x,
        0 <= x <= u16::MAX ==> low16(x) == x,
        0 <= x <= u32::MAX ==> low32(x) == x,
{
}

} // verus!
