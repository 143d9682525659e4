//! A look over the numbers in a font file.
//!
//! The parser of fonts is picky in one way: in a build with debug assertions it panics where a
//! number in the file leads it past the four gigabytes that a 32-bit offset can tell apart. So a
//! file is looked over before the parser sees it. The look takes in every place where opening a
//! font goes by a 32-bit count, and every 32-bit offset that the parser follows unchecked.
use crate::outline::{
    are_sound_outlines, are_sound_varying_outlines, sound_outlines, sound_varying_outlines,
};
use crate::table::{
    byte, does_reach, half, is_sound_store, reaches, read_byte, read_half, read_word, sound_store,
    word,
};
use vstd::prelude::*;
use vstd::slice::slice_subrange;

verus! {

// --- Tables ---

pub const CMAP: u64 = 0x636D_6170;

pub const KERN: u64 = 0x6B65_726E;

pub const GSUB: u64 = 0x4753_5542;

pub const GPOS: u64 = 0x4750_4F53;

pub const GDEF: u64 = 0x4744_4546;

pub const HVAR: u64 = 0x4856_4152;

pub const VVAR: u64 = 0x5656_4152;

pub const MVAR: u64 = 0x4D56_4152;

pub const SBIX: u64 = 0x7362_6978;

pub const COLR: u64 = 0x434F_4C52;

pub const CFF: u64 = 0x4346_4620;

pub const CFF2: u64 = 0x4346_4632;

/// Can the character map number `j` of the table `cmap` be walked?
pub open spec fn sound_map(t: Seq<u8>, j: int) -> bool {
    let at = word(t, 8 + 8 * j);
    let format = half(t, at);
    if format == 10 {
        reaches(20, word(t, at + 16), 2)
    } else if format == 12 || format == 13 {
        reaches(16, word(t, at + 12), 12)
    } else if format == 14 {
        reaches(10, word(t, at + 6), 11)
    } else {
        true
    }
}

/// Can the parts of Apple's form of the table `kern` be walked, from the one at `at` on?
pub open spec fn sound_chain(t: Seq<u8>, at: int) -> bool
    decreases t.len() - at,
{
    let length = word(t, at);
    if at + 6 > t.len() || byte(t, at + 5) > 3 || length < 8 {
        true
    } else if !reaches(at - 8, length, 1) {
        false
    } else if at + length > t.len() {
        true
    } else {
        sound_chain(t, at + length)
    }
}

/// Can the counts of the table `COLR` be walked? Only its later version has any.
pub open spec fn sound_colours(t: Seq<u8>) -> bool {
    let glyphs = word(t, 14);
    let layers = word(t, 18);
    let clips = word(t, 22);
    let store = word(t, 30);
    half(t, 0) == 1 ==> {
        &&& reaches(glyphs + 4, word(t, glyphs), 6)
        &&& layers != 0 ==> reaches(layers + 4, word(t, layers), 4)
        &&& clips != 0 ==> reaches(5, word(t, clips + 1), 7)
        &&& store != 0 ==> sound_store(t, store, 0)
    }
}

/// Is the table with this tag sound? Of the tables that are not named here none has a 32-bit
/// count that is gone by, or a 32-bit offset that is followed unchecked, when a font is opened.
pub open spec fn sound_table(tag: int, t: Seq<u8>) -> bool {
    if tag == CMAP {
        forall|j: int| 0 <= j < half(t, 2) ==> #[trigger] sound_map(t, j)
    } else if tag == KERN {
        half(t, 0) == 0 || word(t, 4) == 0 || sound_chain(t, 8)
    } else if tag == GSUB || tag == GPOS {
        half(t, 0) == 1 && half(t, 2) >= 1 && word(t, 10) != 0 && half(t, word(t, 10)) == 1
            ==> reaches(8, word(t, word(t, 10) + 4), 8)
    } else if tag == GDEF {
        word(t, 0) == 0x00010003 && word(t, 14) != 0 ==> sound_store(t, word(t, 14), 0)
    } else if tag == HVAR || tag == VVAR {
        word(t, 0) == 0x00010000 ==> sound_store(t, word(t, 4), word(t, 4))
    } else if tag == MVAR {
        word(t, 0) == 0x00010000 && half(t, 10) != 0 ==> sound_store(t, half(t, 10), half(t, 10))
    } else if tag == SBIX {
        half(t, 0) == 1 ==> reaches(8, word(t, 4), 4)
    } else if tag == COLR {
        sound_colours(t)
    } else if tag == CFF {
        sound_outlines(t)
    } else if tag == CFF2 {
        sound_varying_outlines(t)
    } else {
        true
    }
}

/// Can the character maps of the table `cmap` be walked?
fn is_sound_cmap(t: &[u8]) -> (b: bool)
    ensures
        b == sound_table(CMAP as int, t@),
{
    let n: u64 = read_half(t, 2);
    let mut j: u64 = 0;
    while j < n
        invariant
            n == half(t@, 2),
            n < 0x1_0000,
            j <= n,
            forall|k: int| 0 <= k < j ==> #[trigger] sound_map(t@, k),
        decreases n - j,
    {
        let at: u64 = read_word(t, 8 + 8 * j);
        let format: u64 = read_half(t, at);
        let sound = if format == 10 {
            does_reach(20, read_word(t, at + 16), 2)
        } else if format == 12 || format == 13 {
            does_reach(16, read_word(t, at + 12), 12)
        } else if format == 14 {
            does_reach(10, read_word(t, at + 6), 11)
        } else {
            true
        };
        assert(sound == sound_map(t@, j as int));
        if !sound {
            return false;
        }
        j += 1;
    }
    true
}

/// Can the parts of Apple's form of the table `kern` be walked?
fn is_sound_chain(t: &[u8]) -> (b: bool)
    requires
        t@.len() <= i32::MAX,
    ensures
        b == sound_chain(t@, 8),
{
    let end: u64 = t.len() as u64;
    let mut at: u64 = 8;
    loop
        invariant
            end == t@.len(),
            end <= i32::MAX,
            8 <= at <= end || at == 8,
            sound_chain(t@, at as int) == sound_chain(t@, 8),
        decreases end + 8 - at,
    {
        let length: u64 = read_word(t, at);
        if at + 6 > end || read_byte(t, at + 5) > 3 || length < 8 {
            return true;
        }
        if !does_reach(at - 8, length, 1) {
            return false;
        }
        if at + length > end {
            return true;
        }
        at += length;
    }
}

/// Can the counts of the table `COLR` be walked?
fn is_sound_colours(t: &[u8]) -> (b: bool)
    ensures
        b == sound_colours(t@),
{
    if read_half(t, 0) != 1 {
        return true;
    }
    let glyphs: u64 = read_word(t, 14);
    let layers: u64 = read_word(t, 18);
    let clips: u64 = read_word(t, 22);
    let store: u64 = read_word(t, 30);
    does_reach(glyphs + 4, read_word(t, glyphs), 6) && (layers == 0 || does_reach(
        layers + 4,
        read_word(t, layers),
        4,
    )) && (clips == 0 || does_reach(5, read_word(t, clips + 1), 7)) && (store == 0
        || is_sound_store(t, store, 0))
}

/// Is the table with this tag sound?
fn is_sound_table(tag: u64, t: &[u8]) -> (b: bool)
    requires
        t@.len() <= i32::MAX,
    ensures
        b == sound_table(tag as int, t@),
{
    if tag == CMAP {
        is_sound_cmap(t)
    } else if tag == KERN {
        read_half(t, 0) == 0 || read_word(t, 4) == 0 || is_sound_chain(t)
    } else if tag == GSUB || tag == GPOS {
        let at: u64 = read_word(t, 10);
        read_half(t, 0) != 1 || read_half(t, 2) < 1 || at == 0 || read_half(t, at) != 1
            || does_reach(8, read_word(t, at + 4), 8)
    } else if tag == GDEF {
        let at: u64 = read_word(t, 14);
        read_word(t, 0) != 0x00010003 || at == 0 || is_sound_store(t, at, 0)
    } else if tag == HVAR || tag == VVAR {
        let at: u64 = read_word(t, 4);
        read_word(t, 0) != 0x00010000 || is_sound_store(t, at, at)
    } else if tag == MVAR {
        let at: u64 = read_half(t, 10);
        read_word(t, 0) != 0x00010000 || at == 0 || is_sound_store(t, at, at)
    } else if tag == SBIX {
        read_half(t, 0) != 1 || does_reach(8, read_word(t, 4), 4)
    } else if tag == COLR {
        is_sound_colours(t)
    } else if tag == CFF {
        are_sound_outlines(t)
    } else if tag == CFF2 {
        are_sound_varying_outlines(t)
    } else {
        true
    }
}

// --- The file ---

/// Does the font file open as a collection of faces?
pub open spec fn is_collection(data: Seq<u8>) -> bool {
    word(data, 0) == 0x74746366
}

/// Where the first face of a font file starts.
pub open spec fn first_face_at(data: Seq<u8>) -> int {
    if is_collection(data) {
        word(data, 12)
    } else {
        0
    }
}

/// The number of tables that a face at `face` lists.
pub open spec fn table_count(data: Seq<u8>, face: int) -> int {
    half(data, face + 4)
}

/// The tag, the place and the length of table `i` in the list of a face.
pub open spec fn entry(data: Seq<u8>, face: int, i: int) -> (int, int, int) {
    let at = face + 12 + 16 * i;
    (word(data, at), word(data, at + 8), word(data, at + 12))
}

/// Is table `i` in the list of a face sound? A table past the end of the file is not read. Where
/// its end cannot be told by a 32-bit offset, it must not take the place of an earlier one with
/// the same tag: what comes of that is not the same on every machine.
pub open spec fn sound_entry(data: Seq<u8>, face: int, i: int) -> bool {
    let (tag, at, length) = entry(data, face, i);
    if at + length <= data.len() {
        sound_table(tag, data.subrange(at, at + length))
    } else {
        reaches(at, length, 1) || forall|j: int|
            0 <= j < i ==> (#[trigger] entry(data, face, j)).0 != tag
    }
}

/// Are the numbers in a font file sound? A list of tables that is cut short is not read. One
/// with as many tables as a 16-bit count can tell cannot be walked to its end.
pub open spec fn sound(data: Seq<u8>) -> bool {
    let face = first_face_at(data);
    let n = table_count(data, face);
    &&& data.len() <= i32::MAX
    &&& is_collection(data) ==> reaches(12, word(data, 8), 4)
    &&& face + 12 + 16 * n <= data.len() ==> {
        &&& n < u16::MAX
        &&& forall|i: int| 0 <= i < n ==> #[trigger] sound_entry(data, face, i)
    }
}

/// Is there no table with this tag among the first `n` in the list of a face?
fn is_new(data: &[u8], face: u64, n: u64, tag: u64) -> (b: bool)
    requires
        face < 0x1_0000_0000,
        n < 0x1_0000,
    ensures
        b == (forall|j: int|
            0 <= j < n ==> (#[trigger] entry(data@, face as int, j)).0 != tag),
{
    let mut j: u64 = 0;
    while j < n
        invariant
            face < 0x1_0000_0000,
            n < 0x1_0000,
            j <= n,
            forall|k: int| 0 <= k < j ==> (#[trigger] entry(data@, face as int, k)).0 != tag,
        decreases n - j,
    {
        let other: u64 = read_word(data, face + 12 + 16 * j);
        assert(entry(data@, face as int, j as int).0 == other);
        if other == tag {
            return false;
        }
        j += 1;
    }
    true
}

/// Is table `i` in the list of a face sound?
fn is_sound_entry(data: &[u8], face: u64, i: u64) -> (b: bool)
    requires
        data@.len() <= i32::MAX,
        face < 0x1_0000_0000,
        i < 0x1_0000,
    ensures
        b == sound_entry(data@, face as int, i as int),
{
    let place: u64 = face + 12 + 16 * i;
    let tag: u64 = read_word(data, place);
    let at: u64 = read_word(data, place + 8);
    let length: u64 = read_word(data, place + 12);
    if at + length <= data.len() as u64 {
        let t = slice_subrange(data, at as usize, (at + length) as usize);
        is_sound_table(tag, t)
    } else {
        does_reach(at, length, 1) || is_new(data, face, i, tag)
    }
}

/// Are all the tables in the list of a face sound?
fn are_sound_entries(data: &[u8], face: u64, n: u64) -> (b: bool)
    requires
        data@.len() <= i32::MAX,
        face < 0x1_0000_0000,
        n < 0x1_0000,
    ensures
        b == (forall|i: int| 0 <= i < n ==> #[trigger] sound_entry(data@, face as int, i)),
{
    let mut i: u64 = 0;
    while i < n
        invariant
            data@.len() <= i32::MAX,
            face < 0x1_0000_0000,
            n < 0x1_0000,
            i <= n,
            forall|k: int| 0 <= k < i ==> #[trigger] sound_entry(data@, face as int, k),
        decreases n - i,
    {
        if !is_sound_entry(data, face, i) {
            assert(!sound_entry(data@, face as int, i as int));
            return false;
        }
        i += 1;
    }
    true
}

/// Are the numbers in a font file sound?
pub fn is_sound(data: &[u8]) -> (b: bool)
    ensures
        b == sound(data@),
{
    if data.len() as u64 > 0x7FFF_FFFF {
        return false;
    }
    let collection = read_word(data, 0) == 0x74746366;
    if collection && !does_reach(12, read_word(data, 8), 4) {
        return false;
    }
    let face: u64 = if collection {
        read_word(data, 12)
    } else {
        0
    };
    let n: u64 = read_half(data, face + 4);
    if face + 12 + 16 * n > data.len() as u64 {
        return true;
    }
    n != 0xFFFF && are_sound_entries(data, face, n)
}

/// Is this the tag of a table that is looked into?
pub open spec fn looked_into(tag: int) -> bool {
    ||| tag == 0x636D_6170 || tag == 0x6B65_726E
    ||| tag == 0x4753_5542 || tag == 0x4750_4F53 || tag == 0x4744_4546
    ||| tag == 0x4856_4152 || tag == 0x5656_4152 || tag == 0x4D56_4152
    ||| tag == 0x7362_6978 || tag == 0x434F_4C52
    ||| tag == 0x4346_4620 || tag == 0x4346_4632
}

/// Is the list of tables at `face` cut short by the end of the file?
pub open spec fn cut_short(data: Seq<u8>, face: int) -> bool {
    face + 12 + 16 * half(data, face + 4) > data.len()
}

/// A file is passed on unread where there is nothing in it to look into: its list of tables is
/// cut short, or each table in it lies within the file and is none that is looked into. It is
/// turned away where it is larger than two gigabytes, or is a collection of so many faces that
/// they cannot be told apart.
pub proof fn plain_files_are_sound(data: &[u8], b: bool)
    requires
        call_ensures(is_sound, (data,), b),
    ensures
        data@.len() > i32::MAX ==> !b,
        word(data@, 0) == 0x74746366 && word(data@, 8) >= 0x4000_0000 ==> !b,
        data@.len() <= i32::MAX && word(data@, 0) != 0x74746366 && cut_short(data@, 0) ==> b,
        data@.len() <= i32::MAX && word(data@, 0) != 0x74746366 && half(data@, 4) < 0xFFFF && (
        forall|i: int|
            0 <= i < half(data@, 4) ==> {
                let (tag, at, length) = #[trigger] entry(data@, 0, i);
                !looked_into(tag) && at + length <= data@.len()
            }) ==> b,
{
    let d = data@;
    if forall|i: int|
        0 <= i < half(d, 4) ==> {
            let (tag, at, length) = #[trigger] entry(d, 0, i);
            !looked_into(tag) && at + length <= d.len()
        } {
        assert forall|i: int| 0 <= i < half(d, 4) implies #[trigger] sound_entry(d, 0, i) by {
            let (tag, at, length) = entry(d, 0, i);
            assert(!looked_into(tag) && at + length <= d.len());
        }
    }
}

/// A table in the list of a face stands there by its tag, its place and its length, sixteen
/// bytes to each; a file with a table of character maps that claims more groups than can be told
/// apart is turned away.
pub proof fn endless_maps_are_turned_away(data: &[u8], b: bool, i: int, j: int)
    requires
        call_ensures(is_sound, (data,), b),
        word(data@, 0) != 0x74746366,
        !cut_short(data@, 0),
        0 <= i < half(data@, 4),
        word(data@, 12 + 16 * i) == 0x636D_6170,
        word(data@, 12 + 16 * i + 8) + word(data@, 12 + 16 * i + 12) <= data@.len(),
        ({
            let at = word(data@, 12 + 16 * i + 8);
            let t = data@.subrange(at, at + word(data@, 12 + 16 * i + 12));
            let map = word(t, 8 + 8 * j);
            &&& 0 <= j < half(t, 2)
            &&& half(t, map) == 12
            &&& 16 + 12 * word(t, map + 12) > u32::MAX
        }),
    ensures
        !b,
{
    let d = data@;
    let at = word(d, 12 + 16 * i + 8);
    let t = d.subrange(at, at + word(d, 12 + 16 * i + 12));
    assert(entry(d, 0, i) == (word(d, 12 + 16 * i), at, word(d, 12 + 16 * i + 12)));
    assert(!sound_map(t, j)) by {
        let n = word(t, word(t, 8 + 8 * j) + 12);
        assert(n * 12 == 12 * n);
    }
    assert(!sound_entry(d, 0, i));
}

} // verus!
