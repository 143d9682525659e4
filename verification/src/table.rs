//! Numbers in the tables of a font file.
use vstd::prelude::*;

verus! {

/// The byte at `at`; zero past the end.
pub open spec fn byte(t: Seq<u8>, at: int) -> int {
    if 0 <= at < t.len() {
        t[at] as int
    } else {
        0
    }
}

/// The two bytes at `at` as one number, the first byte leading; zero past the end.
pub open spec fn half(t: Seq<u8>, at: int) -> int {
    if 0 <= at && at + 2 <= t.len() {
        t[at] * 0x100 + t[at + 1]
    } else {
        0
    }
}

/// The four bytes at `at` as one number, the first byte leading; zero past the end.
pub open spec fn word(t: Seq<u8>, at: int) -> int {
    if 0 <= at && at + 4 <= t.len() {
        t[at] * 0x1000000 + t[at + 1] * 0x10000 + t[at + 2] * 0x100 + t[at + 3]
    } else {
        0
    }
}

/// Can a 32-bit offset tell where `count` items of `size` bytes end that start at `from`, where
/// there are any?
pub open spec fn reaches(from: int, count: int, size: int) -> bool {
    count == 0 || from + count * size <= u32::MAX
}

/// The byte at `at`.
pub fn read_byte(t: &[u8], at: u64) -> (n: u64)
    ensures
        n == byte(t@, at as int),
        n < 0x100,
{
    if at < t.len() as u64 {
        t[at as usize] as u64
    } else {
        0
    }
}

/// The two bytes at `at` as one number.
pub fn read_half(t: &[u8], at: u64) -> (n: u64)
    requires
        at < 0x1_0000_0000_0000,
    ensures
        n == half(t@, at as int),
        n < 0x1_0000,
{
    if at + 2 <= t.len() as u64 {
        let i: usize = at as usize;
        t[i] as u64 * 0x100 + t[i + 1] as u64
    } else {
        0
    }
}

/// The four bytes at `at` as one number.
pub fn read_word(t: &[u8], at: u64) -> (n: u64)
    requires
        at < 0x1_0000_0000_0000,
    ensures
        n == word(t@, at as int),
        n < 0x1_0000_0000,
{
    if at + 4 <= t.len() as u64 {
        let i: usize = at as usize;
        t[i] as u64 * 0x1000000 + t[i + 1] as u64 * 0x10000 + t[i + 2] as u64 * 0x100
            + t[i + 3] as u64
    } else {
        0
    }
}

/// Can a 32-bit offset tell where the items end?
pub fn does_reach(from: u64, count: u64, size: u64) -> (b: bool)
    requires
        from < 0x1_0000_0000_0000,
        count < 0x1_0000_0000,
        size <= 12,
    ensures
        b == reaches(from as int, count as int, size as int),
{
    assert(0 <= count * size <= 12 * 0x1_0000_0000) by (nonlinear_arith)
        requires
            0 <= count < 0x1_0000_0000,
            0 <= size <= 12,
    ;
    count == 0 || from + count * size <= 0xFFFF_FFFF
}

/// Can the regions of a store of variations at `at` be found, counting offsets from `base`?
pub open spec fn sound_store(t: Seq<u8>, at: int, base: int) -> bool {
    half(t, at) == 1 ==> reaches(base + 2, word(t, at + 2), 1)
}

/// Can the regions of a store of variations be found?
pub fn is_sound_store(t: &[u8], at: u64, base: u64) -> (b: bool)
    requires
        at < 0x2_0000_0000,
        base < 0x2_0000_0000,
    ensures
        b == sound_store(t@, at as int, base as int),
{
    read_half(t, at) != 1 || does_reach(base + 2, read_word(t, at + 2), 1)
}

/// The numbers of a table lead with their first byte: a number of four bytes is made of the two
/// of two bytes in it, and those of single bytes. What would go past the end reads as zero.
pub proof fn first_byte_leads(t: &[u8], at: u64, one: u64, two: u64, four: u64, front: u64, back: u64)
    requires
        at < 0xFFFF_FFFF_FFFF,
        call_ensures(read_byte, (t, at), one),
        call_ensures(read_half, (t, at), two),
        call_ensures(read_half, (t, at), front),
        call_ensures(read_half, (t, (at + 2) as u64), back),
        call_ensures(read_word, (t, at), four),
    ensures
        at < t@.len() ==> one == t@[at as int],
        at + 2 <= t@.len() ==> two == 256 * one + t@[at + 1],
        at + 4 <= t@.len() ==> four == 65536 * front + back,
        at >= t@.len() ==> one == 0,
        at + 2 > t@.len() ==> two == 0,
        at + 4 > t@.len() ==> four == 0,
{
}

/// Items can be told apart by a 32-bit offset where the end of the last can, and no items at all
/// always can.
pub proof fn offsets_tell_what_fits(from: u64, count: u64, size: u64, b: bool)
    requires
        call_ensures(does_reach, (from, count, size), b),
    ensures
        count == 0 ==> b,
        count > 0 ==> (b <==> from + size * count < 0x1_0000_0000),
{
    assert(count * size == size * count) by (nonlinear_arith);
}

} // verus!
