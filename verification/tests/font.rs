use riddle::font::{open_font, try_font, FontError};
use riddle::sound::is_sound;

fn put(bytes: &mut [u8], at: usize, value: &[u8]) {
    bytes[at..at + value.len()].copy_from_slice(value);
}

fn head() -> Vec<u8> {
    let mut t = vec![0u8; 54];
    put(&mut t, 18, &1000u16.to_be_bytes());
    t
}

fn maxp() -> Vec<u8> {
    vec![0, 1, 0, 0, 0, 1]
}

/// A font file made of a list of tables, behind `front`.
fn file(front: &[u8], tag: [u8; 4], tables: &[(&[u8; 4], Vec<u8>)]) -> Vec<u8> {
    let mut bytes = front.to_vec();
    bytes.extend(tag);
    bytes.extend((tables.len() as u16).to_be_bytes());
    bytes.extend([0u8; 6]);
    let mut at = bytes.len() + 16 * tables.len();
    for (name, table) in tables {
        bytes.extend(*name);
        bytes.extend([0u8; 4]);
        bytes.extend((at as u32).to_be_bytes());
        bytes.extend((table.len() as u32).to_be_bytes());
        at += table.len();
    }
    for (_, table) in tables {
        bytes.extend(table);
    }
    bytes
}

/// The least that passes for a font, with some tables more.
fn with(more: &[(&[u8; 4], Vec<u8>)]) -> Vec<u8> {
    let mut tables: Vec<(&[u8; 4], Vec<u8>)> =
        vec![(b"head", head()), (b"hhea", vec![0; 36]), (b"maxp", maxp())];
    tables.extend(more.iter().cloned());
    file(&[], [0, 1, 0, 0], &tables)
}

fn least(tag: [u8; 4]) -> Vec<u8> {
    file(&[], tag, &[(b"head", head()), (b"hhea", vec![0; 36]), (b"maxp", maxp())])
}

/// A table `cmap` with one map of this format, whose count stands at `place`.
fn cmap(format: u16, place: usize, count: u32) -> Vec<u8> {
    let mut t = vec![0, 0, 0, 1, 0, 3, 0, 10, 0, 0, 0, 12];
    let mut map = vec![0u8; 64];
    put(&mut map, 0, &format.to_be_bytes());
    put(&mut map, place, &count.to_be_bytes());
    t.extend(map);
    t
}

/// A store of variations at `at` of a table, whose regions lie at `regions`.
fn store(mut table: Vec<u8>, at: usize, regions: u32) -> Vec<u8> {
    table.resize(at + 64, 0);
    put(&mut table, at, &1u16.to_be_bytes());
    put(&mut table, at + 2, &regions.to_be_bytes());
    table
}

/// Are the bytes kept from the parser?
fn kept_away(bytes: &[u8]) -> bool {
    !is_sound(bytes) && try_font(bytes).is_none()
}

/// Do the bytes give a font?
fn opens(bytes: &[u8]) -> bool {
    is_sound(bytes) && open_font(bytes).is_ok() && matches!(try_font(bytes), Some(Ok(_)))
}

/// Are the bytes shown to the parser, which makes no font of them?
fn invalid(bytes: &[u8]) -> bool {
    is_sound(bytes)
        && open_font(bytes).err() == Some(FontError::Invalid)
        && matches!(try_font(bytes), Some(Err(FontError::Invalid)))
}

#[test]
fn a_font_is_opened() {
    assert!(opens(&least([0, 1, 0, 0])));
    assert!(opens(&least(*b"true")));
    assert!(opens(&least(*b"OTTO")));
}

#[test]
fn the_first_face_of_a_collection_is_opened() {
    let mut front = b"ttcf\0\x01\0\0\0\0\0\x01".to_vec();
    front.extend(16u32.to_be_bytes());
    let tables = [(b"head", head()), (b"hhea", vec![0; 36]), (b"maxp", maxp())];
    assert!(opens(&file(&front, [0, 1, 0, 0], &tables)));
}

#[test]
fn other_bytes_are_invalid() {
    assert!(invalid(b""));
    assert!(invalid(b"\0\x01\0"));
    assert!(invalid(b"not a font at all"));
    assert!(invalid(&least(*b"wOFF")));
    let mut cut = least([0, 1, 0, 0]);
    cut.truncate(70);
    assert!(invalid(&cut));
    assert!(invalid(&least([0, 1, 0, 0])[..30]));
}

#[test]
fn faces_of_a_collection_are_counted() {
    assert!(kept_away(b"ttcf\0\0\0\0\xff\xff\xff\xff"));
    assert!(kept_away(b"ttcf\0\0\0\0\x3f\xff\xff\xfd"));
    assert!(invalid(b"ttcf\0\0\0\0\x3f\xff\xff\xfc"));
}

#[test]
fn a_list_of_tables_is_walked_to_its_end() {
    let mut bytes = least([0, 1, 0, 0]);
    put(&mut bytes, 4, &[0xff, 0xff]);
    assert!(invalid(&bytes));
    bytes.resize(12 + 16 * 0xffff, 0);
    assert!(kept_away(&bytes));
    put(&mut bytes, 4, &[0xff, 0xfe]);
    assert!(opens(&bytes));
}

#[test]
fn no_table_is_put_in_place_of_another_beyond_measure() {
    let mut far = with(&[(b"zzzy", vec![0; 4]), (b"zzzz", vec![0; 4])]);
    put(&mut far, 12 + 16 * 4 + 8, &[0xff; 8]);
    assert!(opens(&far));
    put(&mut far, 12 + 16 * 4, b"zzzy");
    assert!(kept_away(&far));
    put(&mut far, 12 + 16 * 4 + 12, &[0; 4]);
    assert!(opens(&far));
}

#[test]
fn character_maps_are_counted() {
    let most = [(10, 16, 0x7FFF_FFF5u32), (12, 12, 357_913_939), (13, 12, 357_913_939)];
    for (format, place, most) in most.into_iter().chain([(14, 6, 390_451_571)]) {
        assert!(opens(&with(&[(b"cmap", cmap(format, place, 1))])));
        assert!(opens(&with(&[(b"cmap", cmap(format, place, most))])));
        assert!(kept_away(&with(&[(b"cmap", cmap(format, place, most + 1))])));
        assert!(kept_away(&with(&[(b"cmap", cmap(format, place, 0xFFFF_FFFF))])));
    }
    assert!(opens(&with(&[(b"cmap", cmap(4, 12, 0xFFFF_FFFF))])));
}

#[test]
fn variations_are_measured() {
    let mut hvar = vec![0, 1, 0, 0, 0, 0, 0, 20];
    hvar.resize(20, 0);
    let mut mvar = vec![0, 1, 0, 0, 0, 0, 0, 8, 0, 1, 0, 20];
    mvar.resize(20, 0);
    let mut gdef = vec![0, 1, 0, 3, 0, 0, 0, 0, 0, 0, 0, 0, 0, 0, 0, 0, 0, 20];
    gdef.resize(20, 0);
    for (name, table, most) in [
        (b"HVAR", &hvar, 0xFFFF_FFE9u32),
        (b"VVAR", &hvar, 0xFFFF_FFE9),
        (b"MVAR", &mvar, 0xFFFF_FFE9),
        (b"GDEF", &gdef, 0xFFFF_FFFD),
    ] {
        assert!(opens(&with(&[(name, store(table.clone(), 20, 30))])));
        assert!(opens(&with(&[(name, store(table.clone(), 20, most))])));
        assert!(kept_away(&with(&[(name, store(table.clone(), 20, most + 1))])));
        let mut other = store(table.clone(), 20, 0xFFFF_FFFF);
        put(&mut other, 20, &[0, 2]);
        assert!(opens(&with(&[(name, other)])));
    }
}

#[test]
fn variations_of_layout_are_counted() {
    let layout = |count: u32| {
        let mut t = vec![0, 1, 0, 1, 0, 40, 0, 40, 0, 40, 0, 0, 0, 20];
        t.resize(60, 0);
        put(&mut t, 20, &[0, 1, 0, 0]);
        put(&mut t, 24, &count.to_be_bytes());
        t
    };
    for name in [b"GSUB", b"GPOS"] {
        assert!(opens(&with(&[(name, layout(1))])));
        assert!(opens(&with(&[(name, layout(0x1FFF_FFFE))])));
        assert!(kept_away(&with(&[(name, layout(0x1FFF_FFFF))])));
    }
}

#[test]
fn pictures_are_counted() {
    let sbix = |count: u32| {
        let mut t = vec![0, 1, 0, 0];
        t.extend(count.to_be_bytes());
        t
    };
    assert!(opens(&with(&[(b"sbix", sbix(1))])));
    assert!(opens(&with(&[(b"sbix", sbix(0x3FFF_FFFD))])));
    assert!(kept_away(&with(&[(b"sbix", sbix(0x3FFF_FFFE))])));
}

#[test]
fn colours_are_counted() {
    let cpal = vec![0, 0, 0, 0, 0, 0, 0, 0, 0, 0, 0, 12];
    let colr = |version: u8, place: usize, value: u32| {
        let mut t = vec![0u8; 128];
        t[1] = version;
        put(&mut t, 4, &34u32.to_be_bytes());
        put(&mut t, 8, &34u32.to_be_bytes());
        for (at, list) in [(14, 40u32), (18, 50), (22, 60), (30, 70)] {
            put(&mut t, at, &list.to_be_bytes());
        }
        put(&mut t, 70, &[0, 1]);
        put(&mut t, place, &value.to_be_bytes());
        with(&[(b"COLR", t), (b"CPAL", cpal.clone())])
    };
    for (place, most) in [
        (40, 715_827_875u32),
        (50, 1_073_741_810),
        (61, 613_566_755),
        (72, 0xFFFF_FFFD),
    ] {
        assert!(opens(&colr(1, place, 0)));
        assert!(opens(&colr(1, place, most)));
        assert!(kept_away(&colr(1, place, most + 1)));
        assert!(opens(&colr(0, place, 0xFFFF_FFFF)));
    }
}

#[test]
fn kerning_is_walked() {
    let kern = |first: u32, format: u8, second: u32| {
        let mut t = vec![0, 1, 0, 0, 0, 0, 0, 2];
        t.extend(first.to_be_bytes());
        t.extend([0, 2, 0, 0, 0, 0, 0, 0, 0, 0, 0, 0]);
        t.extend(second.to_be_bytes());
        t.extend([0, format, 0, 0]);
        with(&[(b"kern", t)])
    };
    assert!(opens(&with(&[(b"kern", vec![0; 64])])));
    assert!(opens(&kern(16, 2, 8)));
    assert!(opens(&kern(16, 2, 0xFFFF_FFEF)));
    assert!(kept_away(&kern(16, 2, 0xFFFF_FFF0)));
    // Neither a part of an unknown form nor one that ends past the table is gone beyond.
    assert!(opens(&kern(16, 4, 0xFFFF_FFF0)));
    assert!(opens(&kern(0xFFFF_FFFF, 2, 0xFFFF_FFF0)));
}

/// An index of one piece, whose count has `w` bytes and whose data is `last` less one long.
fn index(w: usize, last: u32) -> Vec<u8> {
    let mut t = vec![0u8; w];
    t[w - 1] = 1;
    t.extend([4, 0, 0, 0, 1]);
    t.extend(last.to_be_bytes());
    t
}

/// A table `CFF ` without names, with this first dictionary and parts at some places.
fn cff(dictionary: &[u8], parts: &[(usize, Vec<u8>)]) -> Vec<u8> {
    let mut t = vec![1, 0, 4, 4, 0, 0, 0, 1, 1, 1, 1 + dictionary.len() as u8];
    t.extend(dictionary);
    t.resize(160, 0);
    for (at, part) in parts {
        put(&mut t, *at, part);
    }
    with(&[(b"CFF ", t)])
}

/// A table `CFF2` with this first dictionary and parts at some places.
fn cff2(dictionary: &[u8], parts: &[(usize, Vec<u8>)]) -> Vec<u8> {
    let mut t = vec![2, 0, 5, 0, dictionary.len() as u8];
    t.extend(dictionary);
    t.resize(160, 0);
    for (at, part) in parts {
        put(&mut t, *at, part);
    }
    with(&[(b"CFF2", t)])
}

#[test]
fn names_of_outlines_are_measured() {
    let names = |last: u32| {
        let mut t = vec![1, 0, 4, 4];
        t.extend(index(2, last));
        t.extend([0; 16]);
        with(&[(b"CFF ", t)])
    };
    assert!(opens(&with(&[(b"CFF ", vec![0; 64])])));
    assert!(opens(&names(1)));
    assert!(opens(&names(0xFFFF_FFEF)));
    assert!(kept_away(&names(0xFFFF_FFF0)));
    assert!(kept_away(&names(0xFFFF_FFFF)));
}

#[test]
fn outlines_are_measured_where_they_are() {
    // Glyphs at 60.
    let glyphs = [28, 0, 60, 17];
    assert!(opens(&cff(&glyphs, &[(60, index(2, 2))])));
    assert!(opens(&cff(&glyphs, &[(60, index(2, 0xFFFF_FFB9))])));
    assert!(kept_away(&cff(&glyphs, &[(60, index(2, 0xFFFF_FFBA))])));
    // Nothing tells of what is at 90.
    assert!(opens(&cff(&glyphs, &[(60, index(2, 2)), (90, index(2, 0xFFFF_FFFF))])));
    // Other ways to write 60, 90 and less than nothing.
    let wild = [(60, index(2, 2)), (90, index(2, 0xFFFF_FFFF))];
    assert!(opens(&cff(&[199, 17], &wild)));
    assert!(kept_away(&cff(&[229, 17], &wild)));
    assert!(kept_away(&cff(&[29, 0, 0, 0, 90, 17], &wild)));
    assert!(opens(&cff(&[28, 0xFF, 0xA6, 17], &wild)));
    assert!(kept_away(&cff(&[229, 12, 36], &wild)));
    assert!(opens(&cff(&[229, 12, 37], &wild)));
    assert!(opens(&cff(&[139, 229, 17], &wild)));
    let far = [(110, index(2, 0xFFFF_FFFF))];
    assert!(kept_away(&cff(&[247, 2, 17], &far)));
    assert!(opens(&cff(&[251, 2, 17], &far)));
}

#[test]
fn a_fraction_may_stand_for_any_place() {
    let wild = [(60, index(2, 2)), (90, index(2, 0xFFFF_FFFF))];
    assert!(kept_away(&cff(&[30, 0x60, 0xFF, 17], &wild)));
    assert!(opens(&cff(&[30, 0x60, 0xFF, 17], &wild[..1])));
    // A fraction that tells of no place.
    assert!(opens(&cff(&[30, 0xA0, 0x01, 0xFF, 12, 7, 199, 17], &wild)));
}

#[test]
fn indices_in_a_row_are_measured() {
    // The strings start at 16, behind a dictionary of five bytes.
    let dictionary = [28, 0, 60, 17, 0];
    let glyphs = (60, index(2, 2));
    let strings = |last| cff(&dictionary, &[glyphs.clone(), (16, index(2, last))]);
    assert!(opens(&strings(2)));
    assert!(opens(&strings(0xFFFF_FFE5)));
    assert!(kept_away(&strings(0xFFFF_FFE6)));
    let routines = |last| cff(&dictionary, &[glyphs.clone(), (18, index(2, last))]);
    assert!(opens(&routines(0xFFFF_FFE3)));
    assert!(kept_away(&routines(0xFFFF_FFE4)));
}

#[test]
fn subroutines_are_measured_from_their_start() {
    // Glyphs at 60, and a private dictionary of two bytes at 80. Its routines are ten behind.
    let dictionary = [199, 17, 141, 219, 18];
    let glyphs = (60, vec![0, 1, 1, 1, 2, 14]);
    let routines = |last| {
        cff(&dictionary, &[glyphs.clone(), (80, vec![149, 19]), (90, index(2, last))])
    };
    assert!(opens(&routines(2)));
    assert!(opens(&routines(0xFFFF_FFF5)));
    assert!(kept_away(&routines(0xFFFF_FFF6)));
    let other = [glyphs.clone(), (80, vec![149, 20]), (90, index(2, 0xFFFF_FFFF))];
    assert!(opens(&cff(&dictionary, &other)));
}

#[test]
fn outlines_that_vary_are_measured() {
    assert!(opens(&with(&[(b"CFF2", vec![0; 64])])));
    // The common routines are behind the first dictionary.
    assert!(opens(&cff2(&[], &[(5, index(4, 2))])));
    assert!(opens(&cff2(&[], &[(5, index(4, 0xFFFF_FFEE))])));
    assert!(kept_away(&cff2(&[], &[(5, index(4, 0xFFFF_FFEF))])));
    assert!(opens(&cff2(&[], &[(5, vec![0x3F, 0xFF, 0xFF, 0xF0, 4])])));
    assert!(kept_away(&cff2(&[], &[(5, vec![0x3F, 0xFF, 0xFF, 0xFE, 4])])));
    // Glyphs at 30 and a store at 40, with its length in front.
    let stored = |regions: u32| {
        let mut part = vec![0, 0, 0, 1];
        part.extend(regions.to_be_bytes());
        cff2(&[169, 17, 179, 24], &[(40, part)])
    };
    assert!(opens(&stored(8)));
    assert!(opens(&stored(0xFFFF_FFD3)));
    assert!(kept_away(&stored(0xFFFF_FFD4)));
    // A part at 40, its private dictionary at 60 and its routines at 70.
    let routines = |last| {
        let part = vec![0, 0, 0, 1, 1, 1, 4, 141, 199, 18];
        cff2(&[169, 17, 179, 12, 36], &[(40, part), (60, vec![149, 19]), (70, index(4, last))])
    };
    assert!(opens(&routines(2)));
    assert!(opens(&routines(0xFFFF_FFF3)));
    assert!(kept_away(&routines(0xFFFF_FFF4)));
}

#[test]
fn what_is_no_font_has_a_name() {
    assert_eq!(FontError::Invalid.message(), "InvalidFont");
}
