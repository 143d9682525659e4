//! A look over the outlines in a font file: the tables `CFF ` and `CFF2`.
//!
//! Both are made of indices, which are lists of pieces of data, and dictionaries, which are lists
//! of operators, each behind its operands. Where one thing is, another tells in an operand.
use crate::table::{
    byte, does_reach, half, is_sound_store, reaches, read_byte, read_half, read_word, sound_store,
    word,
};
use vstd::prelude::*;

verus! {

/// Bytes in the count of an index of the table `CFF `.
pub const SHORT: u64 = 2;

/// Bytes in the count of an index of the table `CFF2`.
pub const LONG: u64 = 4;

/// The operator that tells where the outlines are.
pub const CHAR_STRINGS: u64 = 17;

/// The operator that tells how long a private dictionary is, and where.
pub const PRIVATE: u64 = 18;

/// The operator that tells where the subroutines of a private dictionary are.
pub const SUBROUTINES: u64 = 19;

/// The operator that tells where the store of variations is.
pub const VARIATION_STORE: u64 = 24;

/// The operator that tells where the dictionaries of the parts of a font are.
pub const FONTS: u64 = 1236;

// --- Indices ---

/// The number in the `size` bytes at `at`, of which there are one to four.
pub open spec fn number(t: Seq<u8>, at: int, size: int) -> int {
    if size == 1 {
        byte(t, at)
    } else if size == 2 {
        half(t, at)
    } else if size == 3 {
        byte(t, at) * 0x10000 + half(t, at + 1)
    } else {
        word(t, at)
    }
}

/// The number of pieces in the index at `at`, whose count has `w` bytes.
pub open spec fn count_of(t: Seq<u8>, at: int, w: int) -> int {
    number(t, at, w)
}

/// Bytes in an offset of the index.
pub open spec fn size_of(t: Seq<u8>, at: int, w: int) -> int {
    byte(t, at + w)
}

/// Has the index a list of offsets?
pub open spec fn listed(t: Seq<u8>, at: int, w: int) -> bool {
    &&& 0 < count_of(t, at, w) < u32::MAX
    &&& 1 <= size_of(t, at, w) <= 4
    &&& reaches(0, count_of(t, at, w) + 1, size_of(t, at, w))
}

/// Offset `j` of the index. The data starts at offset one.
pub open spec fn offset_of(t: Seq<u8>, at: int, w: int, j: int) -> int {
    number(t, at + w + 1 + j * size_of(t, at, w), size_of(t, at, w))
}

/// Where the data of the index starts, behind the offsets.
pub open spec fn data_of(t: Seq<u8>, at: int, w: int) -> int {
    at + w + 1 + (count_of(t, at, w) + 1) * size_of(t, at, w)
}

/// The last offset of the index, which tells how long its data is.
pub open spec fn last_of(t: Seq<u8>, at: int, w: int) -> int {
    offset_of(t, at, w, count_of(t, at, w))
}

/// Can the index be read, counting offsets from `base`?
pub open spec fn sound_index(t: Seq<u8>, at: int, base: int, w: int) -> bool {
    listed(t, at, w) ==> {
        &&& data_of(t, at, w) - base <= u32::MAX
        &&& data_of(t, at, w) <= t.len() ==> reaches(
            data_of(t, at, w) - base - 1,
            last_of(t, at, w),
            1,
        )
    }
}

/// Where the index ends, if what tells it is in the table.
pub open spec fn index_end(t: Seq<u8>, at: int, w: int) -> Option<int> {
    if at + w > t.len() {
        None
    } else if count_of(t, at, w) == 0 || count_of(t, at, w) == u32::MAX {
        Some(at + w)
    } else if !listed(t, at, w) || data_of(t, at, w) > t.len() {
        None
    } else if last_of(t, at, w) == 0 {
        Some(data_of(t, at, w))
    } else {
        Some(data_of(t, at, w) + last_of(t, at, w) - 1)
    }
}

/// Where piece `j` of the index starts and ends, if it is in the table.
pub open spec fn piece(t: Seq<u8>, at: int, w: int, j: int) -> Option<(int, int)> {
    let data = data_of(t, at, w);
    let from = offset_of(t, at, w, j);
    let to = offset_of(t, at, w, j + 1);
    let last = last_of(t, at, w);
    if listed(t, at, w) && 0 < from <= to <= last && data + last - 1 <= t.len() {
        Some((data + from - 1, data + to - 1))
    } else {
        None
    }
}

// --- Dictionaries ---

/// Is the byte an operator, or does it open one?
pub open spec fn operates(b: int) -> bool {
    b <= 27 || b == 31 || b == 255
}

/// Bytes behind the one that opens a fraction: up to the first half byte with all bits set.
pub open spec fn fraction_size(t: Seq<u8>, at: int, to: int) -> nat
    decreases to - at,
{
    if at >= to {
        0
    } else if byte(t, at) / 16 == 15 || byte(t, at) % 16 == 15 {
        1
    } else {
        1 + fraction_size(t, at + 1, to)
    }
}

/// Where the operand at `at` ends.
pub open spec fn operand_end(t: Seq<u8>, at: int, to: int) -> int {
    let b = byte(t, at);
    if b == 28 {
        at + 3
    } else if b == 29 {
        at + 5
    } else if b == 30 {
        at + 1 + fraction_size(t, at + 1, to)
    } else if b <= 246 {
        at + 1
    } else {
        at + 2
    }
}

/// Is the operand at `at` a fraction?
pub open spec fn is_fraction(t: Seq<u8>, at: int) -> bool {
    byte(t, at) == 30
}

/// The whole number that the operand at `at` is.
pub open spec fn whole(t: Seq<u8>, at: int) -> int {
    let b = byte(t, at);
    if b == 28 {
        if half(t, at + 1) < 0x8000 {
            half(t, at + 1)
        } else {
            half(t, at + 1) - 0x1_0000
        }
    } else if b == 29 {
        if word(t, at + 1) < 0x8000_0000 {
            word(t, at + 1)
        } else {
            word(t, at + 1) - 0x1_0000_0000
        }
    } else if b <= 246 {
        b - 139
    } else if b <= 250 {
        (b - 247) * 256 + byte(t, at + 1) + 108
    } else {
        -(b - 251) * 256 - byte(t, at + 1) - 108
    }
}

/// The first operator of a dictionary from `at` to `to`: which it is, where it stands, and where
/// it ends.
pub open spec fn next_operator(t: Seq<u8>, at: int, to: int) -> Option<(int, int, int)>
    decreases to - at,
{
    let b = byte(t, at);
    let next = operand_end(t, at, to);
    if at >= to {
        None
    } else if b == 12 {
        if at + 1 < to {
            Some((1200 + byte(t, at + 1), at, at + 2))
        } else {
            None
        }
    } else if operates(b) {
        Some((b, at, at + 1))
    } else if next < to {
        next_operator(t, next, to)
    } else {
        None
    }
}

/// An operator is found no earlier than it is looked for, and before the end.
pub proof fn operators_lie_ahead(t: Seq<u8>, at: int, to: int)
    ensures
        next_operator(t, at, to) matches Some((op, stands, ends)) ==> at <= stands < ends <= to,
    decreases to - at,
{
    let next = operand_end(t, at, to);
    if at < to && next < to && !operates(byte(t, at)) {
        operators_lie_ahead(t, next, to);
    }
}

/// Is there one operand from `at` to `to`?
pub open spec fn one_operand(t: Seq<u8>, at: int, to: int) -> bool {
    at < to && operand_end(t, at, to) == to
}

/// Are there two operands from `at` to `to`?
pub open spec fn two_operands(t: Seq<u8>, at: int, to: int) -> bool {
    at < to && one_operand(t, operand_end(t, at, to), to)
}

// --- Places ---

/// Can whatever may be at `at` be read?
pub open spec fn sound_anything(t: Seq<u8>, w: int, at: int) -> bool {
    &&& sound_index(t, at, 0, w)
    &&& w == LONG ==> sound_store(t, at, at)
}

/// Whatever place a fraction stands for: can what is there be read?
pub open spec fn sound_everywhere(t: Seq<u8>, w: int) -> bool {
    forall|p: int| 0 <= p < t.len() ==> #[trigger] sound_anything(t, w, p)
}

/// Can the index be read of which the operand at `at` tells where it is, from `start` on?
/// Offsets are counted from its own start where it is `apart`.
pub open spec fn sound_place(t: Seq<u8>, w: int, at: int, start: int, apart: bool) -> bool {
    if is_fraction(t, at) {
        sound_everywhere(t, w)
    } else {
        whole(t, at) >= 0 ==> sound_index(
            t,
            start + whole(t, at),
            if apart {
                start + whole(t, at)
            } else {
                0
            },
            w,
        )
    }
}

/// Can the subroutines be read of which a private dictionary tells that started at `start`? Its
/// operators from `at` to `to` are looked at.
pub open spec fn sound_private(t: Seq<u8>, w: int, start: int, at: int, to: int) -> bool
    decreases to - at,
{
    proof {
        operators_lie_ahead(t, at, to);
    }
    match next_operator(t, at, to) {
        None => true,
        Some((op, stands, ends)) => {
            &&& op == SUBROUTINES && one_operand(t, at, stands) ==> sound_place(
                t,
                w,
                at,
                start,
                true,
            )
            &&& sound_private(t, w, start, ends, to)
        },
    }
}

/// Can the private dictionary be read of which the operands from `at` to `to` tell how long it
/// is, and where?
pub open spec fn sound_range(t: Seq<u8>, w: int, at: int, to: int) -> bool {
    let second = operand_end(t, at, to);
    let (length, start) = (whole(t, at), whole(t, second));
    two_operands(t, at, to) ==> if is_fraction(t, at) || is_fraction(t, second) {
        sound_everywhere(t, w)
    } else {
        0 <= length && 0 <= start && start + length <= t.len() ==> sound_private(
            t,
            w,
            start,
            start,
            start + length,
        )
    }
}

/// Can all be read of which the dictionary of a part of a font tells? Its operators from `at` to
/// `to` are looked at.
pub open spec fn sound_font(t: Seq<u8>, at: int, to: int) -> bool
    decreases to - at,
{
    proof {
        operators_lie_ahead(t, at, to);
    }
    match next_operator(t, at, to) {
        None => true,
        Some((op, stands, ends)) => {
            &&& op == PRIVATE ==> sound_range(t, LONG as int, at, stands)
            &&& sound_font(t, ends, to)
        },
    }
}

/// Can all be read of which dictionary `j` in the index at `at` tells?
pub open spec fn sound_part(t: Seq<u8>, at: int, j: int) -> bool {
    piece(t, at, LONG as int, j) matches Some((from, to)) ==> sound_font(t, from, to)
}

/// Can all be read of which the dictionaries in the index at `at` tell?
pub open spec fn sound_fonts(t: Seq<u8>, at: int) -> bool {
    listed(t, at, LONG as int) && data_of(t, at, LONG as int) <= t.len() ==> forall|j: int|
        0 <= j < count_of(t, at, LONG as int) ==> #[trigger] sound_part(t, at, j)
}

/// Can all be read of which the operator `op` of the first dictionary tells, whose operands go
/// from `at` to `to`?
pub open spec fn sound_operator(t: Seq<u8>, w: int, op: int, at: int, to: int) -> bool {
    if op == CHAR_STRINGS || op == FONTS {
        one_operand(t, at, to) ==> {
            &&& sound_place(t, w, at, 0, false)
            &&& op == FONTS && w == LONG && !is_fraction(t, at) && whole(t, at) >= 0
                ==> sound_fonts(t, whole(t, at))
        }
    } else if op == PRIVATE && w == SHORT {
        sound_range(t, w, at, to)
    } else if op == VARIATION_STORE && w == LONG {
        one_operand(t, at, to) ==> if is_fraction(t, at) {
            sound_everywhere(t, w)
        } else {
            whole(t, at) >= 0 ==> sound_store(t, whole(t, at) + 2, whole(t, at) + 2)
        }
    } else {
        true
    }
}

/// Can all be read of which the first dictionary tells? Its operators from `at` to `to` are
/// looked at.
pub open spec fn sound_top(t: Seq<u8>, w: int, at: int, to: int) -> bool
    decreases to - at,
{
    proof {
        operators_lie_ahead(t, at, to);
    }
    match next_operator(t, at, to) {
        None => true,
        Some((op, stands, ends)) => {
            &&& sound_operator(t, w, op, at, stands)
            &&& sound_top(t, w, ends, to)
        },
    }
}

/// Where the table goes on behind its header of at least `least` bytes.
pub open spec fn behind_header(t: Seq<u8>, least: int) -> int {
    if byte(t, 2) > least {
        byte(t, 2)
    } else {
        least
    }
}

/// Can the indices of the table `CFF ` be read that follow its names, and all of which the first
/// dictionary tells?
pub open spec fn sound_behind_names(t: Seq<u8>, top: int) -> bool {
    let w = SHORT as int;
    &&& top + 2 <= u32::MAX
    &&& sound_index(t, top, 0, w)
    &&& piece(t, top, w, 0) matches Some((from, to)) ==> sound_top(t, w, from, to)
    &&& index_end(t, top, w) matches Some(strings) ==> {
        &&& sound_index(t, strings, 0, w)
        &&& index_end(t, strings, w) matches Some(routines) ==> sound_index(t, routines, 0, w)
    }
}

/// Can the table `CFF ` be read?
pub open spec fn sound_outlines(t: Seq<u8>) -> bool {
    byte(t, 0) == 1 ==> match index_end(t, behind_header(t, 4), SHORT as int) {
        Some(top) => sound_behind_names(t, top),
        None => true,
    }
}

/// Can the table `CFF2` be read?
pub open spec fn sound_varying_outlines(t: Seq<u8>) -> bool {
    let from = behind_header(t, 5);
    let to = from + half(t, 3);
    byte(t, 0) == 2 && to <= t.len() ==> {
        &&& sound_top(t, LONG as int, from, to)
        &&& sound_index(t, to, 0, LONG as int)
    }
}

// --- The look ---

/// The number in the `size` bytes at `at`.
fn read_number(t: &[u8], at: u64, size: u64) -> (n: u64)
    requires
        at < 0x8_0000_0000,
        1 <= size <= 4,
    ensures
        n == number(t@, at as int, size as int),
        n < 0x1_0000_0000,
{
    if size == 1 {
        read_byte(t, at)
    } else if size == 2 {
        read_half(t, at)
    } else if size == 3 {
        read_byte(t, at) * 0x10000 + read_half(t, at + 1)
    } else {
        read_word(t, at)
    }
}

/// What there is to know of an index.
struct Shape {
    count: u64,
    size: u64,
    data: u64,
    last: u64,
}

/// Is `s` the shape of the index at `at`?
spec fn shapes(s: Shape, t: Seq<u8>, at: int, w: int) -> bool {
    &&& s.count == count_of(t, at, w)
    &&& s.size == size_of(t, at, w)
    &&& s.data == data_of(t, at, w)
    &&& s.last == last_of(t, at, w)
    &&& s.count < 0x1_0000_0000
    &&& 1 <= s.size <= 4
    &&& s.data < 0x3_0000_0000
    &&& s.last < 0x1_0000_0000
}

/// The shape of the index at `at`, if it has a list of offsets.
fn shape(t: &[u8], at: u64, w: u64) -> (s: Option<Shape>)
    requires
        at < 0x1_0000_0000,
        w == SHORT || w == LONG,
    ensures
        s is Some == listed(t@, at as int, w as int),
        s matches Some(s) ==> shapes(s, t@, at as int, w as int),
{
    let count: u64 = read_number(t, at, w);
    let size: u64 = read_byte(t, at + w);
    if count == 0 || count == 0xFFFF_FFFF || size < 1 || size > 4 || !does_reach(
        0,
        count + 1,
        size,
    ) {
        return None;
    }
    assert((count + 1) * size == count * size + size) by (nonlinear_arith);
    assert(0 <= count * size) by (nonlinear_arith)
        requires
            0 <= count,
            0 <= size,
    ;
    let data: u64 = at + w + 1 + (count + 1) * size;
    let last: u64 = read_number(t, at + w + 1 + count * size, size);
    Some(Shape { count, size, data, last })
}

/// Can the index at `at` be read?
fn is_sound_index(t: &[u8], at: u64, base: u64, w: u64) -> (b: bool)
    requires
        at < 0x1_0000_0000,
        base <= at,
        w == SHORT || w == LONG,
    ensures
        b == sound_index(t@, at as int, base as int, w as int),
{
    match shape(t, at, w) {
        None => true,
        Some(s) => {
            assert(s.data > at) by {
                assert((s.count + 1) * s.size >= 0) by (nonlinear_arith)
                    requires
                        s.count >= 0,
                        s.size >= 0,
                ;
            }
            s.data - base <= 0xFFFF_FFFF && (s.data > t.len() as u64 || does_reach(
                s.data - base - 1,
                s.last,
                1,
            ))
        },
    }
}

/// Where the index at `at` ends.
fn find_index_end(t: &[u8], at: u64, w: u64) -> (end: Option<u64>)
    requires
        at < 0x1_0000_0000,
        w == SHORT || w == LONG,
    ensures
        match end {
            Some(e) => index_end(t@, at as int, w as int) == Some(e as int) && e < 0x4_0000_0000,
            None => index_end(t@, at as int, w as int) is None,
        },
{
    let count: u64 = read_number(t, at, w);
    if at + w > t.len() as u64 {
        None
    } else if count == 0 || count == 0xFFFF_FFFF {
        Some(at + w)
    } else {
        match shape(t, at, w) {
            Some(s) => if s.data > t.len() as u64 {
                None
            } else if s.last == 0 {
                Some(s.data)
            } else {
                Some(s.data + s.last - 1)
            },
            None => None,
        }
    }
}

/// Where piece `j` of the index at `at` starts and ends.
fn find_piece(t: &[u8], at: u64, w: u64, j: u64) -> (range: Option<(u64, u64)>)
    requires
        t@.len() <= i32::MAX,
        at < 0x1_0000_0000,
        w == SHORT || w == LONG,
        listed(t@, at as int, w as int) ==> j < count_of(t@, at as int, w as int),
    ensures
        match range {
            Some((from, to)) => piece(t@, at as int, w as int, j as int) == Some(
                (from as int, to as int),
            ) && to <= t@.len(),
            None => piece(t@, at as int, w as int, j as int) is None,
        },
{
    let s = match shape(t, at, w) {
        Some(s) => s,
        None => {
            return None;
        },
    };
    let size: u64 = s.size;
    assert(0 <= j * size <= 0x4_0000_0000 && (j + 1) * size == j * size + size) by (nonlinear_arith)
        requires
            0 <= j < 0x1_0000_0000,
            1 <= size <= 4,
    ;
    let place: u64 = at + w + 1 + j * size;
    let from: u64 = read_number(t, place, size);
    let to: u64 = read_number(t, place + size, size);
    if 0 < from && from <= to && to <= s.last && s.data + s.last - 1 <= t.len() as u64 {
        Some((s.data + from - 1, s.data + to - 1))
    } else {
        None
    }
}

/// Where the operand at `at` ends.
fn find_operand_end(t: &[u8], at: u64, to: u64) -> (end: u64)
    requires
        at < to <= i32::MAX,
    ensures
        end == operand_end(t@, at as int, to as int),
        at < end <= to + 5,
{
    let b: u64 = read_byte(t, at);
    if b == 28 {
        at + 3
    } else if b == 29 {
        at + 5
    } else if b == 30 {
        let mut p: u64 = at + 1;
        while p < to
            invariant
                b == 30,
                b == byte(t@, at as int),
                at < p <= to <= i32::MAX,
                at + 1 + fraction_size(t@, at + 1, to as int) == p + fraction_size(
                    t@,
                    p as int,
                    to as int,
                ),
            decreases to - p,
        {
            let f: u64 = read_byte(t, p);
            p += 1;
            if f / 16 == 15 || f % 16 == 15 {
                return p;
            }
        }
        p
    } else if b <= 246 {
        at + 1
    } else {
        at + 2
    }
}

/// The whole number that the operand at `at` is.
fn read_whole(t: &[u8], at: u64) -> (n: i64)
    requires
        at <= i32::MAX,
    ensures
        n == whole(t@, at as int),
        -0x8000_0000 <= n <= 0x7FFF_FFFF,
{
    let b: i64 = read_byte(t, at) as i64;
    if b == 28 {
        let n: i64 = read_half(t, at + 1) as i64;
        if n < 0x8000 {
            n
        } else {
            n - 0x1_0000
        }
    } else if b == 29 {
        let n: i64 = read_word(t, at + 1) as i64;
        if n < 0x8000_0000 {
            n
        } else {
            n - 0x1_0000_0000
        }
    } else if b <= 246 {
        b - 139
    } else if b <= 250 {
        (b - 247) * 256 + read_byte(t, at + 1) as i64 + 108
    } else {
        -(b - 251) * 256 - read_byte(t, at + 1) as i64 - 108
    }
}

/// The first operator of a dictionary.
fn find_operator(t: &[u8], at: u64, to: u64) -> (found: Option<(u64, u64, u64)>)
    requires
        at <= to <= i32::MAX,
    ensures
        match found {
            Some((op, stands, ends)) => next_operator(t@, at as int, to as int) == Some(
                (op as int, stands as int, ends as int),
            ) && at <= stands < ends <= to,
            None => next_operator(t@, at as int, to as int) is None,
        },
{
    let mut p: u64 = at;
    while p < to
        invariant
            at <= p <= to + 5,
            to <= i32::MAX,
            next_operator(t@, at as int, to as int) == next_operator(t@, p as int, to as int),
        decreases to + 5 - p,
    {
        let b: u64 = read_byte(t, p);
        if b == 12 {
            if p + 1 < to {
                return Some((1200 + read_byte(t, p + 1), p, p + 2));
            }
            return None;
        }
        if b <= 27 || b == 31 || b == 255 {
            return Some((b, p, p + 1));
        }
        p = find_operand_end(t, p, to);
    }
    None
}

/// Is there one operand from `at` to `to`?
fn has_one_operand(t: &[u8], at: u64, to: u64) -> (b: bool)
    requires
        to <= i32::MAX,
    ensures
        b == one_operand(t@, at as int, to as int),
{
    at < to && find_operand_end(t, at, to) == to
}

/// Can whatever may be at `at` be read?
fn is_sound_anything(t: &[u8], w: u64, at: u64) -> (b: bool)
    requires
        at <= i32::MAX,
        w == SHORT || w == LONG,
    ensures
        b == sound_anything(t@, w as int, at as int),
{
    is_sound_index(t, at, 0, w) && (w != LONG || is_sound_store(t, at, at))
}

/// Can what is at any place be read?
fn is_sound_everywhere(t: &[u8], w: u64) -> (b: bool)
    requires
        t@.len() <= i32::MAX,
        w == SHORT || w == LONG,
    ensures
        b == sound_everywhere(t@, w as int),
{
    let end: u64 = t.len() as u64;
    let mut p: u64 = 0;
    while p < end
        invariant
            end == t@.len(),
            end <= i32::MAX,
            w == SHORT || w == LONG,
            p <= end,
            forall|q: int| 0 <= q < p ==> #[trigger] sound_anything(t@, w as int, q),
        decreases end - p,
    {
        if !is_sound_anything(t, w, p) {
            assert(!sound_anything(t@, w as int, p as int));
            return false;
        }
        p += 1;
    }
    true
}

/// Can the index be read of which the operand at `at` tells?
fn is_sound_place(t: &[u8], w: u64, at: u64, start: u64, apart: bool) -> (b: bool)
    requires
        t@.len() <= i32::MAX,
        w == SHORT || w == LONG,
        at <= i32::MAX,
        start <= i32::MAX,
    ensures
        b == sound_place(t@, w as int, at as int, start as int, apart),
{
    if read_byte(t, at) == 30 {
        return is_sound_everywhere(t, w);
    }
    let n: i64 = read_whole(t, at);
    if n < 0 {
        return true;
    }
    let place: u64 = start + n as u64;
    is_sound_index(
        t,
        place,
        if apart {
            place
        } else {
            0
        },
        w,
    )
}

/// Can the subroutines be read of which a private dictionary tells?
fn is_sound_private(t: &[u8], w: u64, start: u64, to: u64) -> (b: bool)
    requires
        t@.len() <= i32::MAX,
        w == SHORT || w == LONG,
        start <= to <= i32::MAX,
    ensures
        b == sound_private(t@, w as int, start as int, start as int, to as int),
{
    let mut at: u64 = start;
    loop
        invariant
            t@.len() <= i32::MAX,
            w == SHORT || w == LONG,
            start <= at <= to <= i32::MAX,
            sound_private(t@, w as int, start as int, start as int, to as int) == sound_private(
                t@,
                w as int,
                start as int,
                at as int,
                to as int,
            ),
        decreases to - at,
    {
        match find_operator(t, at, to) {
            None => {
                return true;
            },
            Some((op, stands, ends)) => {
                if op == SUBROUTINES && has_one_operand(t, at, stands) && !is_sound_place(
                    t,
                    w,
                    at,
                    start,
                    true,
                ) {
                    return false;
                }
                at = ends;
            },
        }
    }
}

/// Can the private dictionary be read of which two operands tell?
fn is_sound_range(t: &[u8], w: u64, at: u64, to: u64) -> (b: bool)
    requires
        t@.len() <= i32::MAX,
        w == SHORT || w == LONG,
        to <= i32::MAX,
    ensures
        b == sound_range(t@, w as int, at as int, to as int),
{
    if at >= to {
        return true;
    }
    let second: u64 = find_operand_end(t, at, to);
    if !has_one_operand(t, second, to) {
        return true;
    }
    if read_byte(t, at) == 30 || read_byte(t, second) == 30 {
        return is_sound_everywhere(t, w);
    }
    let length: i64 = read_whole(t, at);
    let start: i64 = read_whole(t, second);
    if length < 0 || start < 0 || start + length > t.len() as i64 {
        return true;
    }
    is_sound_private(t, w, start as u64, (start + length) as u64)
}

/// Can all be read of which the dictionary of a part of a font tells?
fn is_sound_font(t: &[u8], from: u64, to: u64) -> (b: bool)
    requires
        t@.len() <= i32::MAX,
        from <= to <= i32::MAX,
    ensures
        b == sound_font(t@, from as int, to as int),
{
    let mut at: u64 = from;
    loop
        invariant
            t@.len() <= i32::MAX,
            from <= at <= to <= i32::MAX,
            sound_font(t@, from as int, to as int) == sound_font(t@, at as int, to as int),
        decreases to - at,
    {
        match find_operator(t, at, to) {
            None => {
                return true;
            },
            Some((op, stands, ends)) => {
                if op == PRIVATE && !is_sound_range(t, LONG, at, stands) {
                    return false;
                }
                at = ends;
            },
        }
    }
}

/// Can all be read of which the dictionaries in the index at `at` tell?
fn are_sound_fonts(t: &[u8], at: u64) -> (b: bool)
    requires
        t@.len() <= i32::MAX,
        at < 0x1_0000_0000,
    ensures
        b == sound_fonts(t@, at as int),
{
    let s = match shape(t, at, LONG) {
        Some(s) => s,
        None => {
            return true;
        },
    };
    if s.data > t.len() as u64 {
        return true;
    }
    let n: u64 = s.count;
    let mut j: u64 = 0;
    while j < n
        invariant
            t@.len() <= i32::MAX,
            at < 0x1_0000_0000,
            n == count_of(t@, at as int, LONG as int),
            j <= n,
            forall|k: int| 0 <= k < j ==> #[trigger] sound_part(t@, at as int, k),
        decreases n - j,
    {
        if let Some((from, to)) = find_piece(t, at, LONG, j) {
            if !is_sound_font(t, from, to) {
                assert(!sound_part(t@, at as int, j as int));
                return false;
            }
        }
        assert(sound_part(t@, at as int, j as int));
        j += 1;
    }
    true
}

/// Can all be read of which an operator of the first dictionary tells?
fn is_sound_operator(t: &[u8], w: u64, op: u64, at: u64, to: u64) -> (b: bool)
    requires
        t@.len() <= i32::MAX,
        w == SHORT || w == LONG,
        to <= i32::MAX,
    ensures
        b == sound_operator(t@, w as int, op as int, at as int, to as int),
{
    if op == PRIVATE && w == SHORT {
        return is_sound_range(t, w, at, to);
    }
    if !has_one_operand(t, at, to) {
        return true;
    }
    let fraction = read_byte(t, at) == 30;
    let n: i64 = read_whole(t, at);
    if op == CHAR_STRINGS || op == FONTS {
        is_sound_place(t, w, at, 0, false) && (op != FONTS || w != LONG || fraction || n < 0
            || are_sound_fonts(t, n as u64))
    } else if op == VARIATION_STORE && w == LONG {
        if fraction {
            is_sound_everywhere(t, w)
        } else {
            n < 0 || is_sound_store(t, n as u64 + 2, n as u64 + 2)
        }
    } else {
        true
    }
}

/// Can all be read of which the first dictionary tells?
fn is_sound_top(t: &[u8], w: u64, from: u64, to: u64) -> (b: bool)
    requires
        t@.len() <= i32::MAX,
        w == SHORT || w == LONG,
        from <= to <= i32::MAX,
    ensures
        b == sound_top(t@, w as int, from as int, to as int),
{
    let mut at: u64 = from;
    loop
        invariant
            t@.len() <= i32::MAX,
            w == SHORT || w == LONG,
            from <= at <= to <= i32::MAX,
            sound_top(t@, w as int, from as int, to as int) == sound_top(
                t@,
                w as int,
                at as int,
                to as int,
            ),
        decreases to - at,
    {
        match find_operator(t, at, to) {
            None => {
                return true;
            },
            Some((op, stands, ends)) => {
                if !is_sound_operator(t, w, op, at, stands) {
                    return false;
                }
                at = ends;
            },
        }
    }
}

/// Where the table goes on behind its header.
fn find_header_end(t: &[u8], least: u64) -> (end: u64)
    requires
        least < 0x100,
    ensures
        end == behind_header(t@, least as int),
        end < 0x100,
{
    let n: u64 = read_byte(t, 2);
    if n > least {
        n
    } else {
        least
    }
}

/// Can what follows the names of the table `CFF ` be read?
fn is_sound_behind_names(t: &[u8], top: u64) -> (b: bool)
    requires
        t@.len() <= i32::MAX,
        top < 0x4_0000_0000,
    ensures
        b == sound_behind_names(t@, top as int),
{
    if top + 2 > 0xFFFF_FFFF || !is_sound_index(t, top, 0, SHORT) {
        return false;
    }
    if let Some((from, to)) = find_piece(t, top, SHORT, 0) {
        if !is_sound_top(t, SHORT, from, to) {
            return false;
        }
    }
    match find_index_end(t, top, SHORT) {
        None => true,
        Some(strings) => if strings > t.len() as u64 {
            true
        } else {
            is_sound_index(t, strings, 0, SHORT) && match find_index_end(t, strings, SHORT) {
                None => true,
                Some(routines) => routines > t.len() as u64 || is_sound_index(
                    t,
                    routines,
                    0,
                    SHORT,
                ),
            }
        },
    }
}

/// Can the table `CFF ` be read?
pub fn are_sound_outlines(t: &[u8]) -> (b: bool)
    requires
        t@.len() <= i32::MAX,
    ensures
        b == sound_outlines(t@),
{
    if read_byte(t, 0) != 1 {
        return true;
    }
    match find_index_end(t, find_header_end(t, 4), SHORT) {
        Some(top) => is_sound_behind_names(t, top),
        None => true,
    }
}

/// Can the table `CFF2` be read?
pub fn are_sound_varying_outlines(t: &[u8]) -> (b: bool)
    requires
        t@.len() <= i32::MAX,
    ensures
        b == sound_varying_outlines(t@),
{
    let from: u64 = find_header_end(t, 5);
    let to: u64 = from + read_half(t, 3);
    read_byte(t, 0) != 2 || to > t.len() as u64 || (is_sound_top(t, LONG, from, to)
        && is_sound_index(t, to, 0, LONG))
}

} // verus!
