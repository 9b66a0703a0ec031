//! The orders of IEEE 754 numbers, over their 64-bit and 32-bit patterns.

use vstd::prelude::*;

verus! {

/// The pattern of the sign bit.
pub const SIGN: u64 = 0x8000_0000_0000_0000;

/// The patterns of positive and negative infinity.
pub const INFINITY: u64 = 0x7ff0_0000_0000_0000;
pub const NEG_INFINITY: u64 = 0xfff0_0000_0000_0000;

/// The patterns of the largest and the smallest finite number.
pub const MAX_FINITE: u64 = 0x7fef_ffff_ffff_ffff;
pub const MIN_FINITE: u64 = 0xffef_ffff_ffff_ffff;

/// The pattern without its sign.
pub open spec fn magnitude(bits: u64) -> int {
    if bits >= SIGN {
        bits - SIGN
    } else {
        bits as int
    }
}

/// Whether the pattern is not a number.
pub open spec fn is_nan(bits: u64) -> bool {
    magnitude(bits) > INFINITY
}

/// The place of a number on the number line: numbers compare as their ranks do,
/// and both zeros have rank zero.
pub open spec fn rank(bits: u64) -> int {
    if bits >= SIGN {
        -magnitude(bits)
    } else {
        magnitude(bits)
    }
}

/// Whether `a < b` holds of the numbers.
pub open spec fn less(a: u64, b: u64) -> bool {
    !is_nan(a) && !is_nan(b) && rank(a) < rank(b)
}

/// Whether `a <= b` holds of the numbers.
pub open spec fn at_most(a: u64, b: u64) -> bool {
    !is_nan(a) && !is_nan(b) && rank(a) <= rank(b)
}

/// The total order of IEEE 754: negative patterns first, those of greater
/// magnitude before those of smaller, then positive ones the other way round.
pub open spec fn total_at_most(a: u64, b: u64) -> bool {
    if a >= SIGN && b >= SIGN {
        magnitude(a) >= magnitude(b)
    } else if a < SIGN && b < SIGN {
        magnitude(a) <= magnitude(b)
    } else {
        a >= SIGN
    }
}

/// The key of a pattern in the total order.
pub open spec fn sortable(bits: u64) -> u64 {
    if bits >= SIGN {
        (u64::MAX - bits) as u64
    } else {
        (bits + SIGN) as u64
    }
}

/// The pattern of a key.
pub open spec fn unsortable(key: u64) -> u64 {
    if key >= SIGN {
        (key - SIGN) as u64
    } else {
        (u64::MAX - key) as u64
    }
}

/// Keys compare as patterns do in the total order.
pub proof fn lemma_sortable_order(a: u64, b: u64)
    ensures
        sortable(a) <= sortable(b) <==> total_at_most(a, b),
{
}

/// A pattern is found again from its key, and a key from its pattern.
pub proof fn lemma_sortable_round_trip(bits: u64)
    ensures
        unsortable(sortable(bits)) == bits,
        sortable(unsortable(bits)) == bits,
{
}

/// Numbers in the total order are in the order of numbers.
pub proof fn lemma_total_order_is_numeric(a: u64, b: u64)
    requires
        total_at_most(a, b),
    ensures
        rank(a) <= rank(b),
{
}

/// What lies between two numbers in the total order is a number.
pub proof fn lemma_between_numbers(a: u64, v: u64, b: u64)
    requires
        sortable(a) <= sortable(v) <= sortable(b),
        !is_nan(a),
        !is_nan(b),
    ensures
        !is_nan(v),
        rank(a) <= rank(v) <= rank(b),
{
}

/// Whether the pattern is not a number.
pub fn pattern_is_nan(bits: u64) -> (r: bool)
    ensures
        r == is_nan(bits),
{
    if bits >= SIGN {
        bits - SIGN > INFINITY
    } else {
        bits > INFINITY
    }
}

/// The key of a pattern in the total order.
pub fn f64_to_sortable_u64(bits: u64) -> (r: u64)
    ensures
        r == sortable(bits),
{
    if bits >= SIGN {
        u64::MAX - bits
    } else {
        bits + SIGN
    }
}

/// The pattern of a key.
pub fn sortable_u64_to_f64(key: u64) -> (r: u64)
    ensures
        r == unsortable(key),
{
    if key >= SIGN {
        key - SIGN
    } else {
        u64::MAX - key
    }
}

/// The smaller of two patterns in the total order.
pub fn total_min(a: u64, b: u64) -> (r: u64)
    ensures
        r == (if total_at_most(a, b) { a } else { b }),
{
    if f64_to_sortable_u64(a) <= f64_to_sortable_u64(b) {
        a
    } else {
        b
    }
}

/// The larger of two patterns in the total order.
pub fn total_max(a: u64, b: u64) -> (r: u64)
    ensures
        r == (if total_at_most(b, a) { a } else { b }),
{
    if f64_to_sortable_u64(a) >= f64_to_sortable_u64(b) {
        a
    } else {
        b
    }
}

/// Whether `a < b` holds of the numbers.
pub fn is_less(a: u64, b: u64) -> (r: bool)
    ensures
        r == less(a, b),
{
    !pattern_is_nan(a) && !pattern_is_nan(b) && f64_rank(a) < f64_rank(b)
}

/// Whether `a <= b` holds of the numbers.
pub fn is_at_most(a: u64, b: u64) -> (r: bool)
    ensures
        r == at_most(a, b),
{
    !pattern_is_nan(a) && !pattern_is_nan(b) && f64_rank(a) <= f64_rank(b)
}

fn f64_rank(bits: u64) -> (r: i128)
    ensures
        r == rank(bits),
{
    if bits >= SIGN {
        -((bits - SIGN) as i128)
    } else {
        bits as i128
    }
}

/// The smaller of two numbers; of a number and what is none, the number.
pub open spec fn smaller(a: u64, b: u64) -> u64 {
    if is_nan(a) {
        b
    } else if is_nan(b) || rank(a) <= rank(b) {
        a
    } else {
        b
    }
}

/// The smaller of two numbers; of a number and what is none, the number.
pub fn smaller_of(a: u64, b: u64) -> (r: u64)
    ensures
        r == smaller(a, b),
{
    if pattern_is_nan(a) {
        b
    } else if pattern_is_nan(b) || f64_rank(a) <= f64_rank(b) {
        a
    } else {
        b
    }
}

/// The 32-bit pattern of the sign bit.
pub const SIGN_32: u32 = 0x8000_0000;

/// The 32-bit pattern of positive infinity.
pub const INFINITY_32: u32 = 0x7f80_0000;

/// The 32-bit pattern without its sign.
pub open spec fn magnitude_32(bits: u32) -> int {
    if bits >= SIGN_32 {
        bits - SIGN_32
    } else {
        bits as int
    }
}

/// Whether the 32-bit pattern is not a number.
pub open spec fn is_nan_32(bits: u32) -> bool {
    magnitude_32(bits) > INFINITY_32
}

/// The place of a 32-bit number on the number line.
pub open spec fn rank_32(bits: u32) -> int {
    if bits >= SIGN_32 {
        -magnitude_32(bits)
    } else {
        magnitude_32(bits)
    }
}

/// Whether `a <= b` holds of the 32-bit numbers.
pub open spec fn at_most_32(a: u32, b: u32) -> bool {
    !is_nan_32(a) && !is_nan_32(b) && rank_32(a) <= rank_32(b)
}

/// The larger of two 32-bit numbers; of a number and what is none, the number.
pub open spec fn larger_32(a: u32, b: u32) -> u32 {
    if is_nan_32(a) {
        b
    } else if is_nan_32(b) || rank_32(b) <= rank_32(a) {
        a
    } else {
        b
    }
}

fn f32_rank(bits: u32) -> (r: i64)
    ensures
        r == rank_32(bits),
{
    if bits >= SIGN_32 {
        -((bits - SIGN_32) as i64)
    } else {
        bits as i64
    }
}

fn pattern_is_nan_32(bits: u32) -> (r: bool)
    ensures
        r == is_nan_32(bits),
{
    if bits >= SIGN_32 {
        bits - SIGN_32 > INFINITY_32
    } else {
        bits > INFINITY_32
    }
}

/// Whether `a <= b` holds of the 32-bit numbers.
pub fn is_at_most_32(a: u32, b: u32) -> (r: bool)
    ensures
        r == at_most_32(a, b),
{
    !pattern_is_nan_32(a) && !pattern_is_nan_32(b) && f32_rank(a) <= f32_rank(b)
}

/// The larger of two 32-bit numbers; of a number and what is none, the number.
pub fn larger_of_32(a: u32, b: u32) -> (r: u32)
    ensures
        r == larger_32(a, b),
{
    if pattern_is_nan_32(a) {
        b
    } else if pattern_is_nan_32(b) || f32_rank(b) <= f32_rank(a) {
        a
    } else {
        b
    }
}

} // verus!
