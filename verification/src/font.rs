//! The hand that the diary writes in.
use crate::sound::{is_sound, sound};
use crate::table::word;
use ab_glyph::{FontRef, InvalidFont};
use vstd::prelude::*;

verus! {

/// A parsed font.
#[verifier::external_type_specification]
#[verifier::external_body]
pub struct ExFontRef<'font>(FontRef<'font>);

/// What `ab_glyph` says of bytes that are no font.
#[verifier::external_type_specification]
#[verifier::external_body]
pub struct ExInvalidFont(InvalidFont);

/// Does `FontRef::try_from_slice` of `ab_glyph` make a font of these bytes?
pub uninterp spec fn font_readable(data: Seq<u8>) -> bool;

/// Do the bytes open as a TrueType or OpenType font, or a collection of them, does?
pub open spec fn opens_as_font(data: Seq<u8>) -> bool {
    ||| word(data, 0) == 0x00010000
    ||| word(data, 0) == 0x74727565
    ||| word(data, 0) == 0x4F54544F
    ||| word(data, 0) == 0x74746366
}

/// `ab_glyph::FontRef::try_from_slice`: the first face of the font in `data`. Whether there is
/// one depends on the bytes alone; bytes that do not open with one of the four tags of a font
/// file are refused. Bytes that are not `sound` are left out: on some of them the call panics in
/// a build with debug assertions.
#[verifier::external_body]
fn first_face<'font>(data: &'font [u8]) -> (face: Result<FontRef<'font>, InvalidFont>)
    requires
        sound(data@),
    ensures
        face is Ok == font_readable(data@),
        face is Ok ==> opens_as_font(data@),
{
    FontRef::try_from_slice(data)
}

/// Why there is no hand to write in.
#[derive(Clone, Copy, Debug, PartialEq, Eq, Structural)]
pub enum FontError {
    /// The bytes are no font.
    Invalid,
}

impl FontError {
    /// What to print.
    pub fn message(&self) -> (s: String)
        ensures
            s@ == "InvalidFont"@,
    {
        "InvalidFont".to_owned()
    }
}

/// Make ready the hand that the bytes of a font file describe.
pub fn open_font<'font>(data: &'font [u8]) -> (font: Result<FontRef<'font>, FontError>)
    requires
        sound(data@),
    ensures
        font is Ok == font_readable(data@),
        font is Ok ==> opens_as_font(data@),
        font is Err ==> font == Err::<FontRef<'font>, FontError>(FontError::Invalid),
{
    match first_face(data) {
        Ok(font) => Ok(font),
        Err(_) => Err(FontError::Invalid),
    }
}

/// Make ready the hand that the bytes of a font file describe, if they can be shown to the
/// parser. Nothing where they are not sound.
pub fn try_font<'font>(data: &'font [u8]) -> (font: Option<Result<FontRef<'font>, FontError>>)
    ensures
        font is Some == sound(data@),
        font matches Some(f) ==> {
            &&& f is Ok == font_readable(data@)
            &&& f is Ok ==> opens_as_font(data@)
            &&& f is Err ==> f == Err::<FontRef<'font>, FontError>(FontError::Invalid)
        },
{
    if is_sound(data) {
        Some(open_font(data))
    } else {
        None
    }
}

/// Do the bytes open with the mark of a font file: the version of TrueType, or one of the words
/// `true`, `OTTO` and `ttcf`?
pub open spec fn bears_a_mark(data: Seq<u8>) -> bool {
    &&& data.len() >= 4
    &&& {
        ||| data.take(4) == seq![0u8, 1, 0, 0]
        ||| data.take(4) == seq![0x74u8, 0x72, 0x75, 0x65]
        ||| data.take(4) == seq![0x4Fu8, 0x54, 0x54, 0x4F]
        ||| data.take(4) == seq![0x74u8, 0x74, 0x63, 0x66]
    }
}

/// Bytes without the mark of a font file never make a hand to write in: they are either not
/// shown to the parser, or found to be no font.
pub proof fn unmarked_bytes_are_no_font<'font>(
    data: &'font [u8],
    font: Option<Result<FontRef<'font>, FontError>>,
)
    requires
        call_ensures(try_font, (data,), font),
        !bears_a_mark(data@),
    ensures
        font is None || font == Some(Err::<FontRef<'font>, FontError>(FontError::Invalid)),
        font is None <==> !sound(data@),
{
    let d = data@;
    if opens_as_font(d) {
        assert(d.len() >= 4);
        let t = d.take(4);
        assert(t[0] == d[0] && t[1] == d[1] && t[2] == d[2] && t[3] == d[3]);
        if word(d, 0) == 0x00010000 {
            assert(t =~= seq![0u8, 1, 0, 0]);
        } else if word(d, 0) == 0x74727565 {
            assert(t =~= seq![0x74u8, 0x72, 0x75, 0x65]);
        } else if word(d, 0) == 0x4F54544F {
            assert(t =~= seq![0x4Fu8, 0x54, 0x54, 0x4F]);
        } else {
            assert(t =~= seq![0x74u8, 0x74, 0x63, 0x66]);
        }
    }
}

} // verus!
