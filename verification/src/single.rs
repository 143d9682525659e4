//! Numbers in single precision, as their bits: how they are ordered.
use vstd::prelude::*;

verus! {

/// The place of a number in the order of all numbers. Both zeros have the same.
pub open spec fn rank(bits: u32) -> int {
    if bits < 0x8000_0000 {
        bits as int
    } else {
        0x8000_0000 - bits
    }
}

/// Do the bits stand for no number at all?
pub open spec fn nan(bits: u32) -> bool {
    rank(bits) > 0x7F80_0000 || rank(bits) < -0x7F80_0000
}

/// Do the bits stand for a finite number?
pub open spec fn finite(bits: u32) -> bool {
    -0x7F80_0000 < rank(bits) < 0x7F80_0000
}

/// Is `a` a number no greater than the number `b`? Never so of what is no number.
pub open spec fn at_most(a: u32, b: u32) -> bool {
    !nan(a) && !nan(b) && rank(a) <= rank(b)
}

/// The place of a number in the order of all numbers.
pub fn rank_of(bits: u32) -> (r: i64)
    ensures
        r == rank(bits),
{
    if bits < 0x8000_0000 {
        bits as i64
    } else {
        0x8000_0000 - bits as i64
    }
}

/// Do the bits stand for a finite number?
pub fn is_finite(bits: u32) -> (b: bool)
    ensures
        b == finite(bits),
{
    let r = rank_of(bits);
    -0x7F80_0000 < r && r < 0x7F80_0000
}

/// Do the bits stand for no number at all?
pub fn is_nan(bits: u32) -> (b: bool)
    ensures
        b == nan(bits),
{
    let r = rank_of(bits);
    r > 0x7F80_0000 || r < -0x7F80_0000
}

/// Is `a` a number no greater than the number `b`?
pub fn is_at_most(a: u32, b: u32) -> (c: bool)
    ensures
        c == at_most(a, b),
{
    !is_nan(a) && !is_nan(b) && rank_of(a) <= rank_of(b)
}

/// Turning the sign of a number turns its place in the order, and among numbers without a sign
/// the greater bits come later: so the bits of one number are below those of another exactly as
/// their places are.
pub proof fn bits_are_ordered_by_size(a: u32, b: u32, m: i64, n: i64)
    requires
        call_ensures(rank_of, (a,), m),
        call_ensures(rank_of, (b,), n),
    ensures
        b == a + 0x8000_0000 ==> n == -m,
        a < b < 0x8000_0000 ==> m < n,
        a < 0x8000_0000 ==> m >= 0,
        a == 0 ==> m == 0,
{
}

/// A number is finite where its exponent is not the greatest, and none at all where it is and
/// the fraction is not zero; neither hangs on the sign.
pub proof fn exponent_tells_what_is_a_number(a: u32, is: bool, none: bool)
    requires
        call_ensures(is_finite, (a,), is),
        call_ensures(is_nan, (a,), none),
    ensures
        is <==> a % 0x8000_0000 < 0x7F80_0000,
        none <==> a % 0x8000_0000 > 0x7F80_0000,
{
}

/// What is no number is neither at most nor at least anything; of two numbers one is at most the
/// other, and both are where they are equal, as the two zeros are.
pub proof fn numbers_are_ordered(a: u32, b: u32, c: bool, d: bool)
    requires
        call_ensures(is_at_most, (a, b), c),
        call_ensures(is_at_most, (b, a), d),
    ensures
        a % 0x8000_0000 > 0x7F80_0000 || b % 0x8000_0000 > 0x7F80_0000 ==> !c && !d,
        a % 0x8000_0000 <= 0x7F80_0000 && b % 0x8000_0000 <= 0x7F80_0000 ==> {
            &&& c || d
            &&& c && d <==> a == b || (a % 0x8000_0000 == 0 && b % 0x8000_0000 == 0)
            &&& a <= b < 0x8000_0000 ==> c
            &&& a >= 0x8000_0000 && b < 0x8000_0000 ==> c
            &&& a >= b >= 0x8000_0000 ==> c
        },
{
}

} // verus!
