//! Single-precision numbers as bit patterns: which are numbers, and how they compare.
//!
//! Scores, similarities and norms travel through the crate as the 32 bits of their IEEE 754
//! representation. Arithmetic on them is done outside; comparing them needs integers only.

use vstd::prelude::*;

verus! {

/// Whether a bit pattern is "not a number".
pub open spec fn nan(bits: u32) -> bool {
    bits > 0xff80_0000 || 0x7f80_0000 < bits < 0x8000_0000
}

/// The integer by which bit patterns are ordered: the magnitude bits, negated for a negative
/// number. Both zeros have the key zero.
pub open spec fn key(bits: u32) -> int {
    if bits < 0x8000_0000 {
        bits as int
    } else {
        0x8000_0000 - bits
    }
}

/// Whether one number is less than another; nothing is less than, or more than, a pattern
/// that is not a number.
pub open spec fn below(a: u32, b: u32) -> bool {
    !nan(a) && !nan(b) && key(a) < key(b)
}

/// Whether one number is less than another or equal to it.
pub open spec fn at_most(a: u32, b: u32) -> bool {
    !nan(a) && !nan(b) && key(a) <= key(b)
}

/// Whether a pattern is one of the two zeros.
pub open spec fn zero(bits: u32) -> bool {
    key(bits) == 0
}

/// Whether a bit pattern is "not a number".
pub fn is_nan(bits: u32) -> (r: bool)
    ensures
        r == nan(bits),
{
    bits > 0xff80_0000 || (0x7f80_0000 < bits && bits < 0x8000_0000)
}

/// The integer by which bit patterns are ordered.
pub fn order_key(bits: u32) -> (r: i64)
    ensures
        r == key(bits),
{
    if bits < 0x8000_0000 {
        bits as i64
    } else {
        0x8000_0000 - (bits as i64)
    }
}

/// Whether one number is less than another.
pub fn less(a: u32, b: u32) -> (r: bool)
    ensures
        r == below(a, b),
{
    !is_nan(a) && !is_nan(b) && order_key(a) < order_key(b)
}

/// Whether a pattern is one of the two zeros.
pub fn is_zero(bits: u32) -> (r: bool)
    ensures
        r == zero(bits),
{
    order_key(bits) == 0
}

/// `below` is a strict order: nothing is below itself, and it can be chained.
pub proof fn law_below_is_a_strict_order(a: u32, b: u32, c: u32)
    ensures
        !below(a, a),
        below(a, b) ==> !below(b, a),
        below(a, b) && below(b, c) ==> below(a, c),
{
}

/// Two numbers neither of which is below the other are the same pattern, or both are zero.
pub proof fn law_incomparable_numbers_are_equal(a: u32, b: u32)
    requires
        !nan(a),
        !nan(b),
        !below(a, b),
        !below(b, a),
    ensures
        a == b || (zero(a) && zero(b)),
{
}

/// Numbers that are not negative are ordered as their bit patterns are, and negative ones the other
/// way round; every negative number but zero is below every other, and a pattern with all
/// exponent bits and some fraction bits is no number.
pub proof fn law_order_of_patterns(a: u32, b: u32, fraction: u32)
    requires
        a <= 0x7f80_0000,
        b <= 0x7f80_0000,
        0 < fraction < 0x0080_0000,
    ensures
        below(a, b) <==> a < b,
        below((a + 0x8000_0000) as u32, (b + 0x8000_0000) as u32) <==> b < a,
        a > 0 ==> below((a + 0x8000_0000) as u32, b),
        !below((fraction + 0x7f80_0000) as u32, b),
        !below(b, (fraction + 0x7f80_0000) as u32),
{
}

} // verus!
