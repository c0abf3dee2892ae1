//! Single-bit and bit-range access on machine words.
//!
//! The operations themselves come from the `bit_field` crate; the functions
//! here give each one a contract. Those contracts are believed, not proved:
//! they restate what the crate's integer implementation computes.

use bit_field::BitField;
use vstd::prelude::*;

verus! {

/// Whether bit `bit` of `value` is set; bit 0 is the least significant.
pub open spec fn bit_of_u64(value: u64, bit: usize) -> bool {
    value & (1u64 << (bit as u64)) != 0
}

/// `value` with bit `bit` set to `on`.
pub open spec fn with_bit_u64(value: u64, bit: usize, on: bool) -> u64 {
    if on {
        value | (1u64 << (bit as u64))
    } else {
        value & !(1u64 << (bit as u64))
    }
}

/// The bits `start..end` of `value`, moved down to bit 0.
pub open spec fn bits_of_u64(value: u64, start: usize, end: usize) -> u64 {
    if start == end {
        0
    } else {
        ((value << ((64 - end) as u64)) >> ((64 - end) as u64)) >> (start as u64)
    }
}

/// Whether `field` has no bit set at or above position `width`.
pub open spec fn fits_u64(field: u64, width: usize) -> bool {
    (field << ((64 - width) as u64)) >> ((64 - width) as u64) == field
}

/// `value` with its bits `start..end` replaced by the low bits of `field`.
pub open spec fn with_bits_u64(value: u64, start: usize, end: usize, field: u64) -> u64 {
    if start == end {
        value
    } else {
        (value & !((((!0u64) << ((64 - end) as u64)) >> ((64 - end) as u64)) >> (start as u64)
            << (start as u64))) | (field << (start as u64))
    }
}

/// `BitField::get_bit` on `u64`: tests `value & (1 << bit)`. The crate panics
/// when `bit` is not below 64, which the precondition rules out.
#[verifier::external_body]
pub(crate) fn get_bit_u64(value: u64, bit: usize) -> (r: bool)
    requires
        bit < 64,
    ensures
        r == bit_of_u64(value, bit),
{
    value.get_bit(bit)
}

/// `BitField::set_bit` on `u64`: ors `1 << bit` in, or masks it out. The crate
/// panics when `bit` is not below 64.
#[verifier::external_body]
pub(crate) fn set_bit_u64(value: u64, bit: usize, on: bool) -> (r: u64)
    requires
        bit < 64,
    ensures
        r == with_bit_u64(value, bit, on),
{
    let mut word = value;
    word.set_bit(bit, on);
    word
}

/// `BitField::get_bits` on `u64` with the range `start..end`: shifts the bits
/// above `end` away, then the bits below `start`. The crate panics unless
/// `start < 64`, `end <= 64` and `start <= end`.
#[verifier::external_body]
pub(crate) fn get_bits_u64(value: u64, start: usize, end: usize) -> (r: u64)
    requires
        start < 64,
        end <= 64,
        start <= end,
    ensures
        r == bits_of_u64(value, start, end),
{
    value.get_bits(start..end)
}

/// `BitField::set_bits` on `u64` with the range `start..end`: clears the range
/// and ors `field << start` in. The crate panics on a bad range and when
/// `field` does not fit into `end - start` bits.
#[verifier::external_body]
pub(crate) fn set_bits_u64(value: u64, start: usize, end: usize, field: u64) -> (r: u64)
    requires
        start < 64,
        end <= 64,
        start <= end,
        start == end ==> field == 0,
        start < end ==> fits_u64(field, (end - start) as usize),
    ensures
        r == with_bits_u64(value, start, end, field),
{
    let mut word = value;
    word.set_bits(start..end, field);
    word
}

/// The 16-bit word `value` with bit `bit` set to `on`.
pub open spec fn with_bit_u16(value: u16, bit: usize, on: bool) -> u16 {
    if on {
        value | (1u16 << (bit as u16))
    } else {
        value & !(1u16 << (bit as u16))
    }
}

/// Whether `field` has no bit set at or above position `width`.
pub open spec fn fits_u16(field: u16, width: usize) -> bool {
    (field << ((16 - width) as u16)) >> ((16 - width) as u16) == field
}

/// The 16-bit word `value` with its bits `start..end` replaced by the low
/// bits of `field`.
pub open spec fn with_bits_u16(value: u16, start: usize, end: usize, field: u16) -> u16 {
    if start == end {
        value
    } else {
        (value & !((((!0u16) << ((16 - end) as u16)) >> ((16 - end) as u16)) >> (start as u16)
            << (start as u16))) | (field << (start as u16))
    }
}

/// `BitField::set_bit` on `u16`: ors `1 << bit` in, or masks it out. The
/// crate panics when `bit` is not below 16.
#[verifier::external_body]
pub(crate) fn set_bit_u16(value: u16, bit: usize, on: bool) -> (r: u16)
    requires
        bit < 16,
    ensures
        r == with_bit_u16(value, bit, on),
{
    let mut word = value;
    word.set_bit(bit, on);
    word
}

/// `BitField::set_bits` on `u16` with the range `start..end`: clears the
/// range and ors `field << start` in. The crate panics on a bad range and
/// when `field` does not fit into `end - start` bits.
#[verifier::external_body]
pub(crate) fn set_bits_u16(value: u16, start: usize, end: usize, field: u16) -> (r: u16)
    requires
        start < 16,
        end <= 16,
        start <= end,
        start == end ==> field == 0,
        start < end ==> fits_u16(field, (end - start) as usize),
    ensures
        r == with_bits_u16(value, start, end, field),
{
    let mut word = value;
    word.set_bits(start..end, field);
    word
}

/// Whether bit `bit` of the byte `value` is set.
pub open spec fn bit_of_u8(value: u8, bit: usize) -> bool {
    value & (1u8 << (bit as u8)) != 0
}

/// The byte `value` with bit `bit` set to `on`.
pub open spec fn with_bit_u8(value: u8, bit: usize, on: bool) -> u8 {
    if on {
        value | (1u8 << (bit as u8))
    } else {
        value & !(1u8 << (bit as u8))
    }
}

/// `BitField::get_bit` on `u8`: tests `value & (1 << bit)`. The crate panics
/// when `bit` is not below 8.
#[verifier::external_body]
pub(crate) fn get_bit_u8(value: u8, bit: usize) -> (r: bool)
    requires
        bit < 8,
    ensures
        r == bit_of_u8(value, bit),
{
    value.get_bit(bit)
}

/// `BitField::set_bit` on `u8`: ors `1 << bit` in, or masks it out. The crate
/// panics when `bit` is not below 8.
#[verifier::external_body]
pub(crate) fn set_bit_u8(value: u8, bit: usize, on: bool) -> (r: u8)
    requires
        bit < 8,
    ensures
        r == with_bit_u8(value, bit, on),
{
    let mut byte = value;
    byte.set_bit(bit, on);
    byte
}

/// Setting one bit of a byte changes that bit and no other.
pub proof fn lemma_with_bit_u8(value: u8, bit: usize, on: bool, other: usize)
    requires
        bit < 8,
        other < 8,
    ensures
        bit_of_u8(with_bit_u8(value, bit, on), other) == (if other == bit {
            on
        } else {
            bit_of_u8(value, other)
        }),
{
    let b: u8 = bit as u8;
    let o: u8 = other as u8;
    assert(b < 8 && o < 8 ==> ((value | (1u8 << b)) & (1u8 << o) != 0) == (if o == b {
        true
    } else {
        value & (1u8 << o) != 0
    })) by (bit_vector);
    assert(b < 8 && o < 8 ==> ((value & !(1u8 << b)) & (1u8 << o) != 0) == (if o == b {
        false
    } else {
        value & (1u8 << o) != 0
    })) by (bit_vector);
}

/// Whether `n` is a power of two: it has exactly one bit set.
pub open spec fn power_of_two(n: usize) -> bool {
    n != 0 && n & ((n - 1) as usize) == 0
}

/// Whether `address` is a multiple of the power of two `size`.
pub open spec fn aligned_to(address: usize, size: usize) -> bool {
    address & ((size - 1) as usize) == 0
}

/// The largest power of two that is not above `n`, for `n` of at least 1.
pub open spec fn floor_power_of_two(n: nat) -> nat
    decreases n,
{
    if n <= 1 {
        1
    } else {
        2 * floor_power_of_two(n / 2)
    }
}

/// Twice a power of two is a power of two.
pub proof fn lemma_double_power_of_two(n: usize, twice: usize)
    by (bit_vector)
    requires
        n != 0 && n & ((n - 1) as usize) == 0,
        twice == 2 * n,
    ensures
        twice != 0 && twice & ((twice - 1) as usize) == 0,
{
}

/// `floor_power_of_two(n)` lies in `n/2 < .. <= n`.
pub proof fn lemma_floor_power_of_two_bounds(n: nat)
    requires
        n >= 1,
    ensures
        floor_power_of_two(n) <= n < 2 * floor_power_of_two(n),
        floor_power_of_two(n) >= 1,
    decreases n,
{
    if n > 1 {
        lemma_floor_power_of_two_bounds(n / 2);
    }
}

/// `floor_power_of_two(n)` has exactly one bit set.
pub proof fn lemma_floor_power_of_two_is_power(n: usize)
    requires
        n >= 1,
    ensures
        power_of_two(floor_power_of_two(n as nat) as usize),
        floor_power_of_two(n as nat) <= n,
    decreases n,
{
    lemma_floor_power_of_two_bounds(n as nat);
    if n > 1 {
        lemma_floor_power_of_two_bounds((n / 2) as nat);
        lemma_floor_power_of_two_is_power(n / 2);
        let half: usize = floor_power_of_two((n / 2) as nat) as usize;
        lemma_double_power_of_two(half, (2 * half) as usize);
    } else {
        assert(1usize & ((1usize - 1) as usize) == 0) by (bit_vector);
    }
}

/// The largest power of two that is not above `n`.
pub fn largest_power_of_two(n: usize) -> (r: usize)
    requires
        n >= 1,
    ensures
        r == floor_power_of_two(n as nat),
        power_of_two(r),
        r <= n < 2 * r,
{
    let mut rest: usize = n;
    let mut power: usize = 1;
    proof {
        lemma_floor_power_of_two_bounds(n as nat);
    }
    while rest > 1
        invariant
            rest >= 1,
            power >= 1,
            power * floor_power_of_two(rest as nat) == floor_power_of_two(n as nat),
            floor_power_of_two(n as nat) <= n,
        decreases rest,
    {
        proof {
            lemma_floor_power_of_two_bounds((rest / 2) as nat);
            let inner = floor_power_of_two((rest / 2) as nat);
            assert(power * (2 * inner) == (power * 2) * inner) by (nonlinear_arith);
            assert(power * 2 <= (power * 2) * inner) by (nonlinear_arith)
                requires
                    inner >= 1,
                    power >= 1,
            ;
        }
        rest = rest / 2;
        power = power * 2;
    }
    proof {
        assert(power * 1 == power) by (nonlinear_arith);
        lemma_floor_power_of_two_is_power(n);
    }
    power
}

} // verus!
