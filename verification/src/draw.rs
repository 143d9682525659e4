//! The diary's drawing hand. The oracle may answer with a sketch: pen strokes on an abstract
//! canvas of 100 by 100. Here the text of a sketch is taken apart, and here strokes become
//! strokes on the page.
//!
//! The canvas is measured in single precision numbers, which appear as their bits: this module
//! orders and clamps them, but leaves calculating with them to its caller.
use crate::fb::{fitted, greater, minus};
use crate::noise::{hash, mixed};
use crate::reply::seqs;
use crate::single::{finite, is_finite, is_nan, nan, rank, rank_of};
use crate::text::{
    all_space, any_space_parts_words, chars_of, find_char, find_space, first_of, first_space,
    is_space, joined_by, lemma_first_of, lemma_first_space, lemma_trim_start, lower_code, no_space,
    only_case_is_ignored, opens_ci, parts_words, skip_space, spaced, split_on,
    splitting_undoes_joining, strip_prefix_ci, trim, trim_end, trim_start, trimmed,
    trimming_takes_all_outer_space, words,
};
use vstd::prelude::*;

verus! {

/// Strokes on the canvas, from the top left corner.
pub type Sketch = Vec<Vec<(u32, u32)>>;

/// The text of a sketch, taken apart: for each stroke the coordinates of its points.
pub type Draft = Vec<Vec<(String, String)>>;

/// The side of the canvas, 100, in single precision.
pub const CANVAS: u32 = 0x42C8_0000;

/// The greatest finite number in single precision.
pub const GREATEST: u32 = 0x7F7F_FFFF;

/// The least finite number in single precision.
pub const LEAST: u32 = 0xFF7F_FFFF;

/// Least height worth drawing in.
pub const MIN_ROOM: i32 = 220;

/// Bottom of the drawable page.
pub const FLOOR: i32 = 2020;

/// The number of the canvas that is nearest.
pub open spec fn clamped(bits: u32) -> u32 {
    if rank(bits) < 0 {
        0
    } else if rank(bits) > rank(CANVAS) {
        CANVAS
    } else {
        bits
    }
}

/// The number of the canvas that is nearest.
fn clamp(bits: u32) -> (c: u32)
    ensures
        c == clamped(bits),
{
    let r = rank_of(bits);
    if r < 0 {
        0
    } else if r > 0x42C8_0000 {
        CANVAS
    } else {
        bits
    }
}

// --- The text of a sketch ---

/// What may stand between the word `draw` and the first stroke.
pub open spec fn is_lead(c: char) -> bool {
    c == ':' || c == ' ' || c == '\n' || c == '\r' || c == '\t'
}

/// `s` without what may stand before the first stroke.
pub open spec fn skip_lead(s: Seq<char>) -> Seq<char>
    decreases s.len(),
{
    if s.len() > 0 && is_lead(s[0]) {
        skip_lead(s.skip(1))
    } else {
        s
    }
}

/// Those of some words that have a comma, each parted at its first one.
pub open spec fn points_of(ws: Seq<Seq<char>>) -> Seq<(Seq<char>, Seq<char>)>
    decreases ws.len(),
{
    if ws.len() == 0 {
        Seq::empty()
    } else {
        let w = ws[0];
        let n = first_of(w, ',') as int;
        let rest = points_of(ws.skip(1));
        if n < w.len() {
            seq![(w.take(n), w.skip(n + 1))] + rest
        } else {
            rest
        }
    }
}

/// The coordinates of each stroke of a sketch's body: strokes end at semicolons, points at
/// white space.
pub open spec fn strokes_of(body: Seq<char>) -> Seq<Seq<(Seq<char>, Seq<char>)>> {
    split_on(body, ';').map_values(|piece: Seq<char>| points_of(words(piece)))
}

/// The text of a sketch, taken apart; nothing where it is not the text of a sketch.
pub open spec fn drafted(inner: Seq<char>) -> Option<Seq<Seq<(Seq<char>, Seq<char>)>>> {
    let block = trimmed(inner);
    if opens_ci(block, "draw"@) {
        Some(strokes_of(skip_lead(block.skip(4))))
    } else {
        None
    }
}

/// The coordinates of one stroke, found between `lo` and `hi` of `cs`, the characters of `s`.
fn parse_stroke(s: &str, cs: &Vec<char>, lo: usize, hi: usize) -> (points: Vec<(String, String)>)
    requires
        cs@ == s@,
        lo <= hi <= cs@.len(),
    ensures
        points.deep_view() == points_of(words(cs@.subrange(lo as int, hi as int))),
{
    let mut points: Vec<(String, String)> = Vec::new();
    let ghost whole = points_of(words(cs@.subrange(lo as int, hi as int)));
    let mut i: usize = lo;
    assert(points.deep_view() + whole =~= whole);
    loop
        invariant
            cs@ == s@,
            lo <= i <= hi <= cs@.len(),
            whole == points.deep_view() + points_of(words(cs@.subrange(i as int, hi as int))),
        ensures
            whole == points.deep_view(),
        decreases hi - i,
    {
        let ghost rest = cs@.subrange(i as int, hi as int);
        let a = skip_space(cs, i, hi);
        if a == hi {
            proof {
                assert(trim_start(rest).len() == 0);
                assert(words(rest) =~= Seq::empty());
                assert(points_of(words(rest)) =~= Seq::empty());
                assert(whole =~= points.deep_view());
            }
            break;
        }
        let b = find_space(cs, a, hi);
        let c = find_char(cs, a, b, ',');
        proof {
            let t = trim_start(rest);
            let n = first_space(t) as int;
            lemma_trim_start(rest);
            lemma_first_space(t);
            assert(t.take(n) =~= cs@.subrange(a as int, b as int));
            assert(t.skip(n) =~= cs@.subrange(b as int, hi as int));
            let w = cs@.subrange(a as int, b as int);
            let others = words(cs@.subrange(b as int, hi as int));
            assert(words(rest) == seq![w] + others);
            assert(words(rest)[0] == w);
            assert(words(rest).skip(1) =~= others);
            lemma_first_of(w, ',');
            assert(first_of(w, ',') == c - a);
            if c < b {
                assert(w.take(c - a) =~= cs@.subrange(a as int, c as int));
                assert(w.skip(c - a + 1) =~= cs@.subrange(c + 1, b as int));
            }
        }
        if c < b {
            let x = s.substring_char(a, c).to_owned();
            let y = s.substring_char(c + 1, b).to_owned();
            let ghost was = points.deep_view();
            points.push((x, y));
            proof {
                assert(points.deep_view() =~= was.push((x@, y@)));
                let w = cs@.subrange(a as int, b as int);
                let others = points_of(words(cs@.subrange(b as int, hi as int)));
                assert(points_of(words(rest)) == seq![(x@, y@)] + others);
                assert(was + (seq![(x@, y@)] + others) =~= was.push((x@, y@)) + others);
            }
        }
        i = b;
    }
    points
}

/// Take apart the text of a sketch, such as `draw: 0,0 100,100; 50,50`, into the coordinates
/// that are to be read as numbers. Nothing where the text does not open with the word.
pub fn coordinates(inner: &str) -> (draft: Option<Draft>)
    ensures
        draft is Some == drafted(inner@) is Some,
        draft is Some ==> draft->0.deep_view() == drafted(inner@)->0,
{
    let block = trim(inner);
    proof {
        reveal_strlit("draw");
    }
    let s = match strip_prefix_ci(block, "draw") {
        Some(s) => s,
        None => {
            return None;
        },
    };
    let cs = chars_of(s);
    let mut i: usize = 0;
    assert(cs@.subrange(0, cs@.len() as int) =~= s@);
    while i < cs.len() && (cs[i] == ':' || cs[i] == ' ' || cs[i] == '\n' || cs[i] == '\r' || cs[i]
        == '\t')
        invariant
            i <= cs@.len(),
            skip_lead(cs@.subrange(i as int, cs@.len() as int)) == skip_lead(s@),
        decreases cs@.len() - i,
    {
        assert(cs@.subrange(i as int, cs@.len() as int).skip(1) =~= cs@.subrange(
            i + 1,
            cs@.len() as int,
        ));
        i += 1;
    }
    let hi: usize = cs.len();
    let ghost body = cs@.subrange(i as int, hi as int);
    let ghost whole = strokes_of(body);
    assert(body == skip_lead(s@));
    let mut draft: Draft = Vec::new();
    let mut lo: usize = i;
    assert(draft.deep_view() + strokes_of(body) =~= whole);
    loop
        invariant_except_break
            whole == draft.deep_view() + strokes_of(cs@.subrange(lo as int, hi as int)),
        invariant
            cs@ == s@,
            hi == cs@.len(),
            lo <= hi,
        ensures
            whole == draft.deep_view(),
        decreases hi - lo,
    {
        let ghost rest = cs@.subrange(lo as int, hi as int);
        let end = find_char(&cs, lo, hi, ';');
        let stroke = parse_stroke(s, &cs, lo, end);
        let ghost was = draft.deep_view();
        proof {
            lemma_first_of(rest, ';');
        }
        draft.push(stroke);
        assert(draft.deep_view() =~= was.push(stroke.deep_view()));
        if end == hi {
            proof {
                assert(split_on(rest, ';') =~= seq![rest]);
                assert(strokes_of(rest) =~= seq![stroke.deep_view()]);
                assert(was + seq![stroke.deep_view()] =~= was.push(stroke.deep_view()));
            }
            break;
        }
        proof {
            let n = (end - lo) as int;
            assert(rest.take(n) =~= cs@.subrange(lo as int, end as int));
            assert(rest.skip(n + 1) =~= cs@.subrange(end + 1, hi as int));
            let tail = cs@.subrange(end + 1, hi as int);
            assert(strokes_of(rest) =~= seq![stroke.deep_view()] + strokes_of(tail));
            assert(was + (seq![stroke.deep_view()] + strokes_of(tail)) =~= was.push(
                stroke.deep_view(),
            ) + strokes_of(tail));
        }
        lo = end + 1;
    }
    Some(draft)
}

/// The points of a stroke that survive: both coordinates are finite numbers, and are clamped to
/// the canvas.
pub open spec fn kept_points(readings: Seq<(Option<u32>, Option<u32>)>) -> Seq<(u32, u32)>
    decreases readings.len(),
{
    if readings.len() == 0 {
        Seq::empty()
    } else {
        let before = kept_points(readings.drop_last());
        match readings.last() {
            (Some(x), Some(y)) if finite(x) && finite(y) => before.push((clamped(x), clamped(y))),
            _ => before,
        }
    }
}

/// The strokes that survive: those with a point left.
pub open spec fn kept_strokes(readings: Seq<Seq<(Option<u32>, Option<u32>)>>) -> Seq<
    Seq<(u32, u32)>,
>
    decreases readings.len(),
{
    if readings.len() == 0 {
        Seq::empty()
    } else {
        let before = kept_strokes(readings.drop_last());
        let stroke = kept_points(readings.last());
        if stroke.len() > 0 {
            before.push(stroke)
        } else {
            before
        }
    }
}

/// The points of a stroke that survive.
fn keep_points(readings: &Vec<(Option<u32>, Option<u32>)>) -> (points: Vec<(u32, u32)>)
    ensures
        points@ == kept_points(readings@),
{
    let mut points: Vec<(u32, u32)> = Vec::new();
    let mut i: usize = 0;
    assert(readings@.take(0) =~= Seq::empty());
    while i < readings.len()
        invariant
            i <= readings@.len(),
            points@ == kept_points(readings@.take(i as int)),
        decreases readings@.len() - i,
    {
        assert(readings@.take(i + 1).drop_last() =~= readings@.take(i as int));
        match readings[i] {
            (Some(x), Some(y)) => {
                if is_finite(x) && is_finite(y) {
                    points.push((clamp(x), clamp(y)));
                }
            },
            _ => {},
        }
        i += 1;
    }
    assert(readings@.take(readings@.len() as int) =~= readings@);
    points
}

/// Is `sketch` what survives of these readings? Nothing where no stroke does.
pub open spec fn survives(sketch: Option<Sketch>, readings: Seq<Seq<(Option<u32>, Option<u32>)>>) -> bool {
    &&& sketch is Some <==> kept_strokes(readings).len() > 0
    &&& sketch is Some ==> seqs(sketch->0@) == kept_strokes(readings)
}

/// The strokes on the canvas, given how each coordinate reads as a number (nothing for one that
/// does not).
pub fn sketch_of(readings: &Vec<Vec<(Option<u32>, Option<u32>)>>) -> (sketch: Option<Sketch>)
    ensures
        survives(sketch, seqs(readings@)),
{
    let mut sketch: Sketch = Vec::new();
    let ghost all = seqs(readings@);
    let mut i: usize = 0;
    assert(all.take(0) =~= Seq::empty());
    assert(seqs(sketch@) =~= Seq::empty());
    while i < readings.len()
        invariant
            i <= readings@.len(),
            all == seqs(readings@),
            seqs(sketch@) == kept_strokes(all.take(i as int)),
        decreases readings@.len() - i,
    {
        assert(all.take(i + 1).drop_last() =~= all.take(i as int));
        let stroke = keep_points(&readings[i]);
        if stroke.len() > 0 {
            let ghost was = sketch@;
            sketch.push(stroke);
            assert(seqs(sketch@) =~= seqs(was).push(stroke@));
        }
        i += 1;
    }
    assert(all.take(all.len() as int) =~= all);
    assert(seqs(sketch@).len() == sketch@.len());
    if sketch.len() == 0 {
        None
    } else {
        Some(sketch)
    }
}

/// May `read` give `n` for this text?
pub open spec fn reads<R: Fn(&str) -> Option<u32>>(read: R, text: Seq<char>, n: Option<u32>) -> bool {
    exists|t: &str| t@ == text && #[trigger] call_ensures(read, (t,), n)
}

/// May `read` give these readings of the coordinates of one stroke?
pub open spec fn reads_stroke<R: Fn(&str) -> Option<u32>>(
    read: R,
    points: Seq<(Seq<char>, Seq<char>)>,
    readings: Seq<(Option<u32>, Option<u32>)>,
) -> bool {
    &&& readings.len() == points.len()
    &&& forall|j: int|
        0 <= j < points.len() ==> reads(read, points[j].0, (#[trigger] readings[j]).0) && reads(
            read,
            points[j].1,
            readings[j].1,
        )
}

/// May `read` give these readings of the coordinates of a draft?
pub open spec fn reads_draft<R: Fn(&str) -> Option<u32>>(
    read: R,
    draft: Seq<Seq<(Seq<char>, Seq<char>)>>,
    readings: Seq<Seq<(Option<u32>, Option<u32>)>>,
) -> bool {
    &&& readings.len() == draft.len()
    &&& forall|k: int|
        0 <= k < draft.len() ==> reads_stroke(read, draft[k], #[trigger] readings[k])
}

/// Is `sketch` what parsing the text may give? Nothing where the text is not that of a sketch.
pub open spec fn parses<R: Fn(&str) -> Option<u32>>(
    read: R,
    inner: Seq<char>,
    sketch: Option<Sketch>,
) -> bool {
    match drafted(inner) {
        None => sketch is None,
        Some(draft) => exists|readings: Seq<Seq<(Option<u32>, Option<u32>)>>|
            reads_draft(read, draft, readings) && #[trigger] survives(sketch, readings),
    }
}

/// Read the coordinates of one stroke.
fn read_stroke<R: Fn(&str) -> Option<u32>>(points: &Vec<(String, String)>, read: &R) -> (readings: Vec<
    (Option<u32>, Option<u32>),
>)
    requires
        forall|t: &str| call_requires(*read, (t,)),
    ensures
        reads_stroke(*read, points.deep_view(), readings@),
{
    let mut readings: Vec<(Option<u32>, Option<u32>)> = Vec::new();
    let mut j: usize = 0;
    while j < points.len()
        invariant
            forall|t: &str| call_requires(*read, (t,)),
            j <= points@.len(),
            readings@.len() == j,
            forall|i: int|
                0 <= i < j ==> reads(*read, points.deep_view()[i].0, (#[trigger] readings@[i]).0)
                    && reads(*read, points.deep_view()[i].1, readings@[i].1),
        decreases points@.len() - j,
    {
        let xt = points[j].0.as_str();
        let yt = points[j].1.as_str();
        let x = read(xt);
        let y = read(yt);
        readings.push((x, y));
        j += 1;
    }
    readings
}

/// Turn the text of a sketch, such as `draw: 0,0 100,100; 50,50`, into strokes on the canvas.
/// `read` reads a text as a number, in single precision; nothing for a text that is none. A
/// point that is no pair of finite numbers is skipped, the others are clamped to the canvas. A
/// lone point is a dot. Nothing where nothing drawable survives.
pub fn parse<R: Fn(&str) -> Option<u32>>(inner: &str, read: R) -> (sketch: Option<Sketch>)
    requires
        forall|t: &str| call_requires(read, (t,)),
    ensures
        parses(read, inner@, sketch),
{
    let draft = match coordinates(inner) {
        Some(draft) => draft,
        None => {
            return None;
        },
    };
    let mut readings: Vec<Vec<(Option<u32>, Option<u32>)>> = Vec::new();
    let mut k: usize = 0;
    while k < draft.len()
        invariant
            forall|t: &str| call_requires(read, (t,)),
            k <= draft@.len(),
            readings@.len() == k,
            forall|i: int|
                0 <= i < k ==> reads_stroke(
                    read,
                    draft.deep_view()[i],
                    (#[trigger] readings@[i])@,
                ),
        decreases draft@.len() - k,
    {
        readings.push(read_stroke(&draft[k], &read));
        k += 1;
    }
    let sketch = sketch_of(&readings);
    assert(reads_draft(read, drafted(inner@)->0, seqs(readings@)));
    sketch
}

/// Is the point on the canvas?
pub open spec fn on_canvas(p: (u32, u32)) -> bool {
    0 <= rank(p.0) <= rank(CANVAS) && 0 <= rank(p.1) <= rank(CANVAS)
}

/// A sketch has no empty stroke, and no point off the canvas.
pub proof fn sketch_is_drawable(readings: Seq<Seq<(Option<u32>, Option<u32>)>>, i: int, j: int)
    requires
        0 <= i < kept_strokes(readings).len(),
    ensures
        kept_strokes(readings)[i].len() > 0,
        0 <= j < kept_strokes(readings)[i].len() ==> on_canvas(kept_strokes(readings)[i][j]),
    decreases readings.len(),
{
    let before = kept_strokes(readings.drop_last());
    if i < before.len() {
        sketch_is_drawable(readings.drop_last(), i, j);
        assert(kept_strokes(readings)[i] == before[i]);
    } else {
        assert(kept_strokes(readings)[i] == kept_points(readings.last()));
        if 0 <= j < kept_points(readings.last()).len() {
            lemma_points_on_canvas(readings.last(), j);
        }
    }
}

proof fn lemma_points_on_canvas(readings: Seq<(Option<u32>, Option<u32>)>, j: int)
    requires
        0 <= j < kept_points(readings).len(),
    ensures
        on_canvas(kept_points(readings)[j]),
    decreases readings.len(),
{
    let before = kept_points(readings.drop_last());
    if j < before.len() {
        lemma_points_on_canvas(readings.drop_last(), j);
    }
}

/// The case of the opening word does not matter: two texts that differ only there are taken
/// apart alike.
pub proof fn any_case_draws(a: Seq<char>, b: Seq<char>)
    requires
        opens_ci(trimmed(a), "draw"@),
        opens_ci(trimmed(b), "draw"@),
        trimmed(a).skip(4) == trimmed(b).skip(4),
    ensures
        drafted(a) == drafted(b),
{
}

/// A point, written down.
pub open spec fn written_point(p: (Seq<char>, Seq<char>)) -> Seq<char> {
    p.0.push(',') + p.1
}

/// A stroke, written down: its points, with a space between any two.
pub open spec fn written_stroke(points: Seq<(Seq<char>, Seq<char>)>) -> Seq<char>
    decreases points.len(),
{
    if points.len() == 0 {
        Seq::empty()
    } else if points.len() == 1 {
        written_point(points[0])
    } else {
        written_point(points[0]) + (seq![' '] + written_stroke(points.skip(1)))
    }
}

/// Strokes, written down: with a semicolon and a space between any two.
pub open spec fn written_strokes(strokes: Seq<Seq<(Seq<char>, Seq<char>)>>) -> Seq<char>
    decreases strokes.len(),
{
    if strokes.len() == 0 {
        Seq::empty()
    } else if strokes.len() == 1 {
        written_stroke(strokes[0])
    } else {
        written_stroke(strokes[0]) + (seq![';'] + (seq![' '] + written_strokes(strokes.skip(1))))
    }
}

/// A sketch, written down.
pub open spec fn written(strokes: Seq<Seq<(Seq<char>, Seq<char>)>>) -> Seq<char> {
    "draw: "@ + written_strokes(strokes)
}

/// Does the text hold neither white space nor a semicolon?
pub open spec fn unbroken(t: Seq<char>) -> bool {
    forall|i: int| 0 <= i < t.len() ==> !is_space(#[trigger] t[i]) && t[i] != ';'
}

/// Can the point be told from its neighbours once it is written down?
pub open spec fn writable(p: (Seq<char>, Seq<char>)) -> bool {
    &&& unbroken(p.0)
    &&& unbroken(p.1)
    &&& forall|i: int| 0 <= i < p.0.len() ==> #[trigger] p.0[i] != ','
}

/// Can the stroke be told from its neighbours once it is written down?
pub open spec fn writable_stroke(points: Seq<(Seq<char>, Seq<char>)>) -> bool {
    &&& points.len() > 0
    &&& forall|j: int| 0 <= j < points.len() ==> writable(#[trigger] points[j])
}

/// Can the strokes be told from one another, and from the opening word, once they are written
/// down?
pub open spec fn writable_strokes(strokes: Seq<Seq<(Seq<char>, Seq<char>)>>) -> bool {
    &&& strokes.len() > 0
    &&& forall|k: int| 0 <= k < strokes.len() ==> writable_stroke(#[trigger] strokes[k])
    &&& !(strokes[0][0].0.len() > 0 && strokes[0][0].0[0] == ':')
}

proof fn lemma_first_space_of(w: Seq<char>, rest: Seq<char>)
    requires
        forall|i: int| 0 <= i < w.len() ==> !is_space(#[trigger] w[i]),
        rest.len() == 0 || is_space(rest[0]),
    ensures
        first_space(w + rest) == w.len(),
    decreases w.len(),
{
    if w.len() == 0 {
        assert(w + rest =~= rest);
    } else {
        assert((w + rest)[0] == w[0]);
        assert((w + rest).skip(1) =~= w.skip(1) + rest);
        lemma_first_space_of(w.skip(1), rest);
    }
}

proof fn lemma_first_of_in(w: Seq<char>, rest: Seq<char>, c: char)
    requires
        forall|i: int| 0 <= i < w.len() ==> #[trigger] w[i] != c,
        rest.len() == 0 || rest[0] == c,
    ensures
        first_of(w + rest, c) == w.len(),
    decreases w.len(),
{
    if w.len() == 0 {
        assert(w + rest =~= rest);
    } else {
        assert((w + rest)[0] == w[0]);
        assert((w + rest).skip(1) =~= w.skip(1) + rest);
        lemma_first_of_in(w.skip(1), rest, c);
    }
}

/// A written point has neither white space nor a semicolon, and is parted again at its comma.
proof fn lemma_written_point(p: (Seq<char>, Seq<char>))
    requires
        writable(p),
    ensures
        written_point(p).len() > 0,
        unbroken(written_point(p)),
        first_of(written_point(p), ',') == p.0.len(),
        written_point(p).take(p.0.len() as int) == p.0,
        written_point(p).skip(p.0.len() as int + 1) == p.1,
{
    let w = written_point(p);
    assert forall|i: int| 0 <= i < w.len() implies !is_space(#[trigger] w[i]) && w[i] != ';' by {
        if i < p.0.len() {
            assert(w[i] == p.0[i]);
        } else if i > p.0.len() {
            assert(w[i] == p.1[i - p.0.len() - 1]);
        }
    }
    assert(w =~= p.0 + (seq![','] + p.1));
    lemma_first_of_in(p.0, seq![','] + p.1, ',');
    assert(w.take(p.0.len() as int) =~= p.0);
    assert(w.skip(p.0.len() as int + 1) =~= p.1);
}

/// A written stroke starts and ends without white space, and holds no semicolon.
proof fn lemma_written_stroke(points: Seq<(Seq<char>, Seq<char>)>)
    requires
        writable_stroke(points),
    ensures
        written_stroke(points).len() > 0,
        written_stroke(points)[0] == written_point(points[0])[0],
        !is_space(written_stroke(points)[0]),
        !is_space(written_stroke(points).last()),
        forall|i: int|
            0 <= i < written_stroke(points).len() ==> #[trigger] written_stroke(points)[i] != ';',
    decreases points.len(),
{
    let s = written_stroke(points);
    let w = written_point(points[0]);
    lemma_written_point(points[0]);
    assert(!is_space(w[0]));
    if points.len() == 1 {
        assert(!is_space(w[w.len() - 1]));
    } else {
        let rest = points.skip(1);
        assert forall|j: int| 0 <= j < rest.len() implies writable(#[trigger] rest[j]) by {
            assert(rest[j] == points[j + 1]);
        }
        lemma_written_stroke(rest);
        let t = written_stroke(rest);
        assert(s.last() == t.last());
        assert forall|i: int| 0 <= i < s.len() implies #[trigger] s[i] != ';' by {
            if i < w.len() {
                assert(s[i] == w[i]);
            } else if i > w.len() {
                assert(s[i] == t[i - w.len() - 1]);
            }
        }
    }
}

/// White space in front of a text does not change its words.
proof fn lemma_words_after_space(s: Seq<char>)
    ensures
        words(seq![' '] + s) == words(s),
{
    let t = seq![' '] + s;
    assert(t[0] == ' ');
    assert(t.skip(1) =~= s);
    assert(trim_start(t) == trim_start(s));
}

/// The words of a written stroke, parted at their commas, are its points.
proof fn lemma_points_read_back(points: Seq<(Seq<char>, Seq<char>)>)
    requires
        writable_stroke(points),
    ensures
        points_of(words(written_stroke(points))) == points,
    decreases points.len(),
{
    let s = written_stroke(points);
    let w = written_point(points[0]);
    let rest = points.skip(1);
    lemma_written_point(points[0]);
    lemma_written_stroke(points);
    assert(trim_start(s) == s);
    if points.len() == 1 {
        lemma_first_space_of(w, Seq::empty());
        assert(w + Seq::<char>::empty() =~= w);
        assert(s.take(w.len() as int) =~= w);
        assert(s.skip(w.len() as int) =~= Seq::empty());
        assert(words(Seq::<char>::empty()) =~= Seq::empty());
        assert(words(s) =~= seq![w]);
        assert(seq![w].skip(1) =~= Seq::empty());
        assert(points_of(Seq::<Seq<char>>::empty()) =~= Seq::empty());
        assert(points_of(seq![w]) =~= seq![points[0]]);
        assert(points =~= seq![points[0]]);
    } else {
        let tail = seq![' '] + written_stroke(rest);
        assert forall|j: int| 0 <= j < rest.len() implies writable(#[trigger] rest[j]) by {
            assert(rest[j] == points[j + 1]);
        }
        lemma_points_read_back(rest);
        assert(tail[0] == ' ');
        lemma_first_space_of(w, tail);
        assert(s == w + tail);
        assert(s.take(w.len() as int) =~= w);
        assert(s.skip(w.len() as int) =~= tail);
        lemma_words_after_space(written_stroke(rest));
        let others = words(written_stroke(rest));
        assert(words(s) == seq![w] + others);
        assert(words(s)[0] == w);
        assert(words(s).skip(1) =~= others);
        assert(points_of(words(s)) =~= seq![points[0]] + rest);
        assert(points =~= seq![points[0]] + rest);
    }
}

/// Written strokes, parted at their semicolons, are the strokes.
proof fn lemma_strokes_read_back(pre: Seq<char>, strokes: Seq<Seq<(Seq<char>, Seq<char>)>>)
    requires
        pre == Seq::<char>::empty() || pre == seq![' '],
        strokes.len() > 0,
        forall|k: int| 0 <= k < strokes.len() ==> writable_stroke(#[trigger] strokes[k]),
    ensures
        strokes_of(pre + written_strokes(strokes)) == strokes,
    decreases strokes.len(),
{
    let body = pre + written_strokes(strokes);
    let first = written_stroke(strokes[0]);
    let piece = pre + first;
    let rest = strokes.skip(1);
    lemma_written_stroke(strokes[0]);
    lemma_points_read_back(strokes[0]);
    if pre.len() == 0 {
        assert(piece =~= first);
    } else {
        lemma_words_after_space(first);
    }
    assert(points_of(words(piece)) == strokes[0]);
    assert forall|i: int| 0 <= i < piece.len() implies #[trigger] piece[i] != ';' by {
        if i >= pre.len() {
            assert(piece[i] == first[i - pre.len()]);
        }
    }
    if strokes.len() == 1 {
        assert(body == piece);
        lemma_first_of_in(piece, Seq::empty(), ';');
        assert(piece + Seq::<char>::empty() =~= piece);
        assert(split_on(body, ';') =~= seq![body]);
        assert(strokes_of(body) =~= strokes);
    } else {
        let tail = seq![' '] + written_strokes(rest);
        assert(body =~= piece + (seq![';'] + tail));
        lemma_first_of_in(piece, seq![';'] + tail, ';');
        assert(body.take(piece.len() as int) =~= piece);
        assert(body.skip(piece.len() as int + 1) =~= tail);
        assert forall|k: int| 0 <= k < rest.len() implies writable_stroke(#[trigger] rest[k]) by {
            assert(rest[k] == strokes[k + 1]);
        }
        lemma_strokes_read_back(seq![' '], rest);
        assert(split_on(body, ';') == seq![piece] + split_on(tail, ';'));
        assert(strokes_of(body) =~= seq![strokes[0]] + strokes_of(tail));
        assert(strokes =~= seq![strokes[0]] + rest);
    }
}

/// A written sketch opens and ends without white space.
proof fn lemma_written_strokes(strokes: Seq<Seq<(Seq<char>, Seq<char>)>>)
    requires
        strokes.len() > 0,
        forall|k: int| 0 <= k < strokes.len() ==> writable_stroke(#[trigger] strokes[k]),
    ensures
        written_strokes(strokes).len() > 0,
        written_strokes(strokes)[0] == written_point(strokes[0][0])[0],
        !is_space(written_strokes(strokes)[0]),
        !is_space(written_strokes(strokes).last()),
    decreases strokes.len(),
{
    lemma_written_stroke(strokes[0]);
    if strokes.len() > 1 {
        let rest = strokes.skip(1);
        assert forall|k: int| 0 <= k < rest.len() implies writable_stroke(#[trigger] rest[k]) by {
            assert(rest[k] == strokes[k + 1]);
        }
        lemma_written_strokes(rest);
        assert(written_strokes(strokes).last() == written_strokes(rest).last());
    }
}

/// What was written down is read back: the coordinates of a sketch that was written as `draw: `,
/// strokes parted by `; ` and points by a space, are taken apart again as they were, none lost,
/// merged or moved.
pub proof fn written_coordinates_are_read_back(strokes: Seq<Seq<(Seq<char>, Seq<char>)>>)
    requires
        writable_strokes(strokes),
    ensures
        drafted(written(strokes)) == Some(strokes),
{
    let body = written_strokes(strokes);
    let text = written(strokes);
    let p = strokes[0][0];
    reveal_strlit("draw: ");
    reveal_strlit("draw");
    lemma_written_strokes(strokes);
    assert(writable_stroke(strokes[0]) && writable(p));
    lemma_written_point(p);
    assert(text[0] == 'd');
    assert(trim_start(text) == text);
    assert(text.last() == body.last());
    assert(trim_end(text) == text);
    assert(opens_ci(text, "draw"@));
    let led = text.skip(4);
    assert(led[0] == ':' && led[1] == ' ');
    assert(led.skip(1)[0] == ' ');
    assert(led.skip(1).skip(1) =~= body);
    assert(!is_lead(body[0])) by {
        assert(body[0] == written_point(p)[0]);
        if p.0.len() > 0 {
            assert(written_point(p)[0] == p.0[0]);
        } else {
            assert(written_point(p)[0] == ',');
        }
    }
    reveal_with_fuel(skip_lead, 4);
    assert(skip_lead(led) == body);
    assert(Seq::<char>::empty() + body =~= body);
    lemma_strokes_read_back(Seq::empty(), strokes);
}

/// Does `read` read `text` as the number `n`, and as nothing else?
pub open spec fn reads_only<R: Fn(&str) -> Option<u32>>(read: R, text: Seq<char>, n: u32) -> bool {
    forall|t: &str, m: Option<u32>|
        t@ == text && #[trigger] call_ensures(read, (t,), m) ==> m == Some(n)
}

/// Is each of these texts read as the coordinate of the sketch that it stands for?
pub open spec fn stands_for<R: Fn(&str) -> Option<u32>>(
    read: R,
    texts: Seq<Seq<(Seq<char>, Seq<char>)>>,
    sketch: Seq<Seq<(u32, u32)>>,
) -> bool {
    &&& texts.len() == sketch.len()
    &&& forall|k: int| 0 <= k < sketch.len() ==> (#[trigger] texts[k]).len() == sketch[k].len()
    &&& forall|k: int, j: int|
        #![trigger texts[k][j]]
        0 <= k < sketch.len() && 0 <= j < sketch[k].len() ==> {
            &&& reads_only(read, texts[k][j].0, sketch[k][j].0)
            &&& reads_only(read, texts[k][j].1, sketch[k][j].1)
        }
}

/// Parsing gives back the sketch that was written: where each text reads as the coordinate that
/// it stands for, the result has the same strokes and the same points in the same order.
pub proof fn written_sketch_is_read_back<R: Fn(&str) -> Option<u32>>(
    read: R,
    texts: Seq<Seq<(Seq<char>, Seq<char>)>>,
    sketch: Seq<Seq<(u32, u32)>>,
    parsed: Option<Sketch>,
)
    requires
        writable_strokes(texts),
        stands_for(read, texts, sketch),
        forall|k: int, j: int|
            0 <= k < sketch.len() && 0 <= j < sketch[k].len() ==> on_canvas(
                #[trigger] sketch[k][j],
            ),
        parses(read, written(texts), parsed),
    ensures
        parsed is Some,
        seqs(parsed->0@) == sketch,
{
    written_coordinates_are_read_back(texts);
    let readings = choose|readings: Seq<Seq<(Option<u32>, Option<u32>)>>|
        reads_draft(read, texts, readings) && #[trigger] survives(parsed, readings);
    assert forall|k: int| 0 <= k < sketch.len() implies kept_points(#[trigger] readings[k])
        == sketch[k] by {
        assert(reads_stroke(read, texts[k], readings[k]));
        assert forall|j: int| 0 <= j < sketch[k].len() implies #[trigger] readings[k][j] == (
            Some(sketch[k][j].0),
            Some(sketch[k][j].1),
        ) && on_canvas(sketch[k][j]) by {
            assert(reads_only(read, texts[k][j].0, sketch[k][j].0));
            assert(reads(read, texts[k][j].0, readings[k][j].0));
            assert(reads(read, texts[k][j].1, readings[k][j].1));
        }
        lemma_kept_points(readings[k], sketch[k]);
    }
    assert forall|k: int| 0 <= k < sketch.len() implies (#[trigger] sketch[k]).len() > 0 by {
        assert(writable_stroke(texts[k]));
    }
    lemma_kept_strokes(readings, sketch);
}

proof fn lemma_kept_points(readings: Seq<(Option<u32>, Option<u32>)>, points: Seq<(u32, u32)>)
    requires
        readings.len() == points.len(),
        forall|j: int|
            0 <= j < points.len() ==> #[trigger] readings[j] == (
                Some(points[j].0),
                Some(points[j].1),
            ) && on_canvas(points[j]),
    ensures
        kept_points(readings) == points,
    decreases points.len(),
{
    if points.len() > 0 {
        lemma_kept_points(readings.drop_last(), points.drop_last());
        assert(readings.last() == readings[points.len() - 1]);
        assert(points =~= points.drop_last().push(points.last()));
    } else {
        assert(points =~= Seq::empty());
    }
}

proof fn lemma_kept_strokes(
    readings: Seq<Seq<(Option<u32>, Option<u32>)>>,
    sketch: Seq<Seq<(u32, u32)>>,
)
    requires
        readings.len() == sketch.len(),
        forall|k: int| 0 <= k < sketch.len() ==> kept_points(#[trigger] readings[k]) == sketch[k],
        forall|k: int| 0 <= k < sketch.len() ==> (#[trigger] sketch[k]).len() > 0,
    ensures
        kept_strokes(readings) == sketch,
    decreases sketch.len(),
{
    if sketch.len() > 0 {
        lemma_kept_strokes(readings.drop_last(), sketch.drop_last());
        assert(readings.last() == readings[sketch.len() - 1]);
        assert(sketch =~= sketch.drop_last().push(sketch.last()));
    } else {
        assert(sketch =~= Seq::empty());
    }
}

// --- Strokes on the page ---

/// The smallest box of the canvas round a sketch.
#[derive(Clone, Copy, Debug, PartialEq, Eq, Structural)]
pub struct Bounds {
    pub x0: u32,
    pub y0: u32,
    pub x1: u32,
    pub y1: u32,
}

/// The lesser of two numbers; a `b` that is none does not count.
pub open spec fn lesser_of(a: u32, b: u32) -> u32 {
    if !nan(b) && rank(b) < rank(a) {
        b
    } else {
        a
    }
}

/// The greater of two numbers; a `b` that is none does not count.
pub open spec fn greater_of(a: u32, b: u32) -> u32 {
    if !nan(b) && rank(b) > rank(a) {
        b
    } else {
        a
    }
}

/// The bounds of nothing.
pub open spec fn no_bounds() -> Bounds {
    Bounds { x0: GREATEST, y0: GREATEST, x1: LEAST, y1: LEAST }
}

/// Bounds once they have taken in the points of a stroke.
pub open spec fn with_points(b: Bounds, s: Seq<(u32, u32)>) -> Bounds
    decreases s.len(),
{
    if s.len() == 0 {
        b
    } else {
        let c = with_points(b, s.drop_last());
        Bounds {
            x0: lesser_of(c.x0, s.last().0),
            y0: lesser_of(c.y0, s.last().1),
            x1: greater_of(c.x1, s.last().0),
            y1: greater_of(c.y1, s.last().1),
        }
    }
}

/// The bounds of some strokes.
pub open spec fn bounds_of(strokes: Seq<Seq<(u32, u32)>>) -> Bounds
    decreases strokes.len(),
{
    if strokes.len() == 0 {
        no_bounds()
    } else {
        with_points(bounds_of(strokes.drop_last()), strokes.last())
    }
}

/// Does the point, as far as its coordinates are numbers, lie within the bounds?
pub open spec fn within_bounds(b: Bounds, p: (u32, u32)) -> bool {
    &&& finite(p.0) ==> rank(b.x0) <= rank(p.0) <= rank(b.x1)
    &&& finite(p.1) ==> rank(b.y0) <= rank(p.1) <= rank(b.y1)
}

proof fn lemma_with_points(b: Bounds, s: Seq<(u32, u32)>)
    ensures
        forall|p: (u32, u32)|
            within_bounds(b, p) || s.contains(p) ==> #[trigger] within_bounds(with_points(b, s), p),
    decreases s.len(),
{
    if s.len() > 0 {
        let rest = s.drop_last();
        lemma_with_points(b, rest);
        assert forall|p: (u32, u32)| within_bounds(b, p) || s.contains(p) implies #[trigger] within_bounds(
            with_points(b, s),
            p,
        ) by {
            if s.contains(p) {
                let j = choose|j: int| 0 <= j < s.len() && s[j] == p;
                if j < rest.len() {
                    assert(rest[j] == p);
                    assert(within_bounds(with_points(b, rest), p));
                }
            } else {
                assert(within_bounds(with_points(b, rest), p));
            }
        }
    }
}

/// The bounds of a sketch hold every point of it.
pub proof fn bounds_hold_the_sketch(strokes: Seq<Seq<(u32, u32)>>, i: int, j: int)
    requires
        0 <= i < strokes.len(),
        0 <= j < strokes[i].len(),
    ensures
        within_bounds(bounds_of(strokes), strokes[i][j]),
    decreases strokes.len(),
{
    let rest = strokes.drop_last();
    let p = strokes[i][j];
    lemma_with_points(bounds_of(rest), strokes.last());
    if i < rest.len() {
        bounds_hold_the_sketch(rest, i, j);
        assert(within_bounds(bounds_of(rest), p));
    } else {
        assert(strokes.last()[j] == p);
    }
}

/// Is there anything to draw?
pub open spec fn has_points(sketch: Seq<Seq<(u32, u32)>>) -> bool {
    rank(bounds_of(sketch).x0) <= rank(bounds_of(sketch).x1)
}

/// Is there room to draw below `y_top`?
pub open spec fn has_room(y_top: int) -> bool {
    FLOOR - y_top >= MIN_ROOM
}

/// The lesser of two numbers.
fn pick_lesser(a: u32, b: u32) -> (c: u32)
    ensures
        c == lesser_of(a, b),
{
    if !is_nan(b) && rank_of(b) < rank_of(a) {
        b
    } else {
        a
    }
}

/// The greater of two numbers.
fn pick_greater(a: u32, b: u32) -> (c: u32)
    ensures
        c == greater_of(a, b),
{
    if !is_nan(b) && rank_of(b) > rank_of(a) {
        b
    } else {
        a
    }
}

/// The bounds of a sketch.
pub fn bounds(sketch: &Sketch) -> (b: Bounds)
    ensures
        b == bounds_of(seqs(sketch@)),
{
    let mut b = Bounds { x0: GREATEST, y0: GREATEST, x1: LEAST, y1: LEAST };
    let ghost all = seqs(sketch@);
    let mut i: usize = 0;
    assert(all.take(0) =~= Seq::empty());
    while i < sketch.len()
        invariant
            i <= sketch@.len(),
            all == seqs(sketch@),
            b == bounds_of(all.take(i as int)),
        decreases sketch@.len() - i,
    {
        let stroke = &sketch[i];
        let ghost start = b;
        let mut j: usize = 0;
        assert(stroke@.take(0) =~= Seq::empty());
        while j < stroke.len()
            invariant
                j <= stroke@.len(),
                b == with_points(start, stroke@.take(j as int)),
            decreases stroke@.len() - j,
        {
            assert(stroke@.take(j + 1).drop_last() =~= stroke@.take(j as int));
            let (x, y) = stroke[j];
            b = Bounds {
                x0: pick_lesser(b.x0, x),
                y0: pick_lesser(b.y0, y),
                x1: pick_greater(b.x1, x),
                y1: pick_greater(b.y1, y),
            };
            j += 1;
        }
        assert(stroke@.take(stroke@.len() as int) =~= stroke@);
        assert(all.take(i + 1).drop_last() =~= all.take(i as int));
        i += 1;
    }
    assert(all.take(all.len() as int) =~= all);
    b
}

/// The unsteadiness of the hand in one stroke.
pub struct Hand {
    /// Where the slow wobble starts, in hundredths of a radian.
    pub phase: u32,
    /// How far off each point lands, to the right and down, in hundredths of a pixel above
    /// one and a half to the left and up.
    pub jitter: Vec<(u32, u32)>,
}

/// The unsteadiness at point `i` of a stroke with this seed.
pub open spec fn jitter_at(seed: u32, i: int) -> (u32, u32) {
    (mixed(seed, (0xDD + i * 2) as u32) % 300, mixed(seed, (0xDD + i * 2 + 1) as u32) % 300)
}

/// Is `h` the unsteadiness in stroke `k`, of `n` points, of the sketch with this seed?
pub open spec fn hand_of(h: Hand, seed: u32, k: int, n: nat) -> bool {
    let own = mixed(seed, k as u32);
    &&& h.phase == own % 628
    &&& h.jitter@ == Seq::new(n, |i: int| jitter_at(own, i))
}

/// What a sketch is fitted into.
#[derive(Clone, Copy, Debug, PartialEq, Eq, Structural)]
pub struct Fit {
    /// The smallest box of the canvas round it.
    pub bounds: Bounds,
    /// Where its top comes to lie on the page.
    pub y_top: i32,
    /// Height of the page below that.
    pub room: i32,
}

/// What a sketch with its top at `y_top` is fitted into.
pub open spec fn fit_of(sketch: Seq<Seq<(u32, u32)>>, y_top: i32) -> Fit {
    Fit { bounds: bounds_of(sketch), y_top, room: fitted(FLOOR - y_top) }
}

/// The unsteadiness of the hand in stroke `k`, of `n` points, of the sketch with this seed.
pub fn hand(seed: u32, k: u32, n: usize) -> (h: Hand)
    requires
        0xDD + n * 2 <= u32::MAX,
    ensures
        hand_of(h, seed, k as int, n as nat),
{
    let own: u32 = hash(seed, k);
    let mut jitter: Vec<(u32, u32)> = Vec::new();
    let mut i: u32 = 0;
    while (i as usize) < n
        invariant
            0xDD + n * 2 <= u32::MAX,
            own == mixed(seed, k),
            i <= n,
            jitter@ == Seq::new(i as nat, |i: int| jitter_at(own, i)),
        decreases n - i,
    {
        jitter.push((hash(own, 0xDD + i * 2) % 300, hash(own, 0xDD + i * 2 + 1) % 300));
        i += 1;
    }
    Hand { phase: own % 628, jitter }
}

/// What a sketch with its top at `y_top` is fitted into. Nothing when there is nothing to draw
/// or the page has no room.
pub fn fit(sketch: &Sketch, y_top: i32) -> (f: Option<Fit>)
    ensures
        f == if has_points(seqs(sketch@)) && has_room(y_top as int) {
            Some(fit_of(seqs(sketch@), y_top))
        } else {
            None
        },
{
    let b = bounds(sketch);
    let room = minus(FLOOR, y_top);
    if rank_of(b.x0) > rank_of(b.x1) || room < MIN_ROOM {
        None
    } else {
        Some(Fit { bounds: b, y_top, room })
    }
}

/// A run of points without repeats: no point follows itself.
pub open spec fn without_repeats(s: Seq<(i32, i32)>) -> Seq<(i32, i32)>
    decreases s.len(),
{
    if s.len() == 0 {
        s
    } else {
        let before = without_repeats(s.drop_last());
        if before.len() > 0 && before.last() == s.last() {
            before
        } else {
            before.push(s.last())
        }
    }
}

/// The steps of the pen along some pixels: it stands still nowhere.
pub fn pen_steps(raw: &Vec<(i32, i32)>) -> (out: Vec<(i32, i32)>)
    ensures
        out@ == without_repeats(raw@),
{
    let mut out: Vec<(i32, i32)> = Vec::new();
    let mut i: usize = 0;
    assert(raw@.take(0) =~= Seq::empty());
    assert(out@ =~= Seq::empty());
    while i < raw.len()
        invariant
            i <= raw@.len(),
            out@ == without_repeats(raw@.take(i as int)),
        decreases raw@.len() - i,
    {
        assert(raw@.take(i + 1).drop_last() =~= raw@.take(i as int));
        let (x, y) = raw[i];
        let n: usize = out.len();
        if n == 0 || out[n - 1].0 != x || out[n - 1].1 != y {
            out.push((x, y));
        }
        i += 1;
    }
    assert(raw@.take(raw@.len() as int) =~= raw@);
    out
}

/// The pen stands still nowhere, and skips no place that it was to come to.
pub proof fn pen_keeps_moving(s: Seq<(i32, i32)>)
    ensures
        forall|i: int|
            0 < i < without_repeats(s).len() ==> without_repeats(s)[i - 1] != #[trigger] without_repeats(s)[i],
        forall|p: (i32, i32)| s.contains(p) <==> #[trigger] without_repeats(s).contains(p),
        s.len() > 0 ==> without_repeats(s).len() > 0 && without_repeats(s)[0] == s[0]
            && without_repeats(s).last() == s.last(),
    decreases s.len(),
{
    if s.len() > 0 {
        let rest = s.drop_last();
        let was = without_repeats(rest);
        let out = without_repeats(s);
        pen_keeps_moving(rest);
        assert forall|p: (i32, i32)| s.contains(p) <==> #[trigger] out.contains(p) by {
            assert(s =~= rest.push(s.last()));
            if s.contains(p) {
                let i = choose|i: int| 0 <= i < s.len() && s[i] == p;
                if i < rest.len() {
                    assert(rest[i] == p);
                    assert(was.contains(p));
                    let k = choose|k: int| 0 <= k < was.len() && was[k] == p;
                    assert(out[k] == p);
                } else {
                    assert(out[out.len() - 1] == p);
                }
            }
            if out.contains(p) {
                let k = choose|k: int| 0 <= k < out.len() && out[k] == p;
                if k < was.len() {
                    assert(was[k] == p);
                    assert(was.contains(p));
                    let i = choose|i: int| 0 <= i < rest.len() && rest[i] == p;
                    assert(s[i] == p);
                } else {
                    assert(s[s.len() - 1] == p);
                }
            }
        }
    }
}

/// The strokes that leave ink.
pub open spec fn inked_strokes(strokes: Seq<Seq<(i32, i32)>>) -> Seq<Seq<(i32, i32)>>
    decreases strokes.len(),
{
    if strokes.len() == 0 {
        Seq::empty()
    } else {
        let before = inked_strokes(strokes.drop_last());
        if strokes.last().len() > 0 {
            before.push(strokes.last())
        } else {
            before
        }
    }
}

/// The lower of `y` and the lowest point of a stroke.
pub open spec fn depth_of_stroke(y: i32, s: Seq<(i32, i32)>) -> i32
    decreases s.len(),
{
    if s.len() == 0 {
        y
    } else {
        let above = depth_of_stroke(y, s.drop_last());
        if above >= s.last().1 {
            above
        } else {
            s.last().1
        }
    }
}

/// The lower of `y` and the lowest point of some strokes.
pub open spec fn depth_of(y: i32, strokes: Seq<Seq<(i32, i32)>>) -> i32
    decreases strokes.len(),
{
    if strokes.len() == 0 {
        y
    } else {
        depth_of_stroke(depth_of(y, strokes.drop_last()), strokes.last())
    }
}

proof fn lemma_depth_of_stroke(y: i32, s: Seq<(i32, i32)>)
    ensures
        depth_of_stroke(y, s) >= y,
        forall|j: int| 0 <= j < s.len() ==> (#[trigger] s[j]).1 <= depth_of_stroke(y, s),
    decreases s.len(),
{
    if s.len() > 0 {
        let rest = s.drop_last();
        lemma_depth_of_stroke(y, rest);
        assert forall|j: int| 0 <= j < s.len() implies (#[trigger] s[j]).1 <= depth_of_stroke(y, s) by {
            if j < rest.len() {
                assert(rest[j] == s[j]);
            }
        }
    }
}

/// Prose goes on below all of a drawing: its bottom edge is no higher than its top or any of
/// its points.
pub proof fn bottom_is_lowest(y_top: i32, strokes: Seq<Seq<(i32, i32)>>)
    ensures
        depth_of(y_top, strokes) >= y_top,
        forall|i: int, j: int|
            0 <= i < strokes.len() && 0 <= j < strokes[i].len() ==> (#[trigger] strokes[i][j]).1
                <= depth_of(y_top, strokes),
    decreases strokes.len(),
{
    if strokes.len() > 0 {
        let rest = strokes.drop_last();
        bottom_is_lowest(y_top, rest);
        lemma_depth_of_stroke(depth_of(y_top, rest), strokes.last());
        assert forall|i: int, j: int|
            0 <= i < strokes.len() && 0 <= j < strokes[i].len() implies (#[trigger] strokes[i][j]).1
            <= depth_of(y_top, strokes) by {
            if i < rest.len() {
                assert(rest[i][j] == strokes[i][j]);
            } else {
                assert(strokes.last()[j] == strokes[i][j]);
            }
        }
    }
}

/// Is `placed` those of the strokes below `y_top` that leave ink, and the bottom edge of it?
/// Nothing where none does.
pub open spec fn laid_out(
    placed: Option<(Vec<Vec<(i32, i32)>>, i32)>,
    strokes: Seq<Seq<(i32, i32)>>,
    y_top: i32,
) -> bool {
    &&& placed is Some <==> inked_strokes(strokes).len() > 0
    &&& placed matches Some((inked, bottom)) ==> {
        &&& seqs(inked@) == inked_strokes(strokes)
        &&& bottom == depth_of(y_top, inked_strokes(strokes))
    }
}

/// Those of the strokes below `y_top` that leave ink, and the bottom edge of it. Nothing where
/// none does.
pub fn lay_out(strokes: Vec<Vec<(i32, i32)>>, y_top: i32) -> (placed: Option<
    (Vec<Vec<(i32, i32)>>, i32),
>)
    ensures
        laid_out(placed, seqs(strokes@), y_top),
{
    let mut out: Vec<Vec<(i32, i32)>> = Vec::new();
    let mut bottom: i32 = y_top;
    let ghost kept = strokes@;
    let ghost all = seqs(kept);
    assert(all.take(0) =~= Seq::empty());
    assert(seqs(out@) =~= Seq::empty());
    for stroke in it: strokes
        invariant
            it.seq() == kept,
            all == seqs(kept),
            seqs(out@) == inked_strokes(all.take(it.index() as int)),
            bottom == depth_of(y_top, seqs(out@)),
    {
        let ghost start = bottom;
        let mut j: usize = 0;
        assert(stroke@.take(0) =~= Seq::empty());
        while j < stroke.len()
            invariant
                j <= stroke@.len(),
                bottom == depth_of_stroke(start, stroke@.take(j as int)),
            decreases stroke@.len() - j,
        {
            assert(stroke@.take(j + 1).drop_last() =~= stroke@.take(j as int));
            bottom = greater(bottom, stroke[j].1);
            j += 1;
        }
        assert(stroke@.take(stroke@.len() as int) =~= stroke@);
        proof {
            let k = it.index() as int;
            assert(all.take(k + 1).drop_last() =~= all.take(k));
            assert(all.take(k + 1).last() == stroke@);
        }
        if stroke.len() > 0 {
            let ghost was = out@;
            out.push(stroke);
            assert(seqs(out@) =~= seqs(was).push(stroke@));
            assert(seqs(out@).drop_last() =~= seqs(was));
        }
    }
    assert(all.take(all.len() as int) =~= all);
    assert(seqs(out@).len() == out@.len());
    if out.len() == 0 {
        None
    } else {
        Some((out, bottom))
    }
}

/// The way of the hand from one point of a stroke to the next.
#[derive(Clone, Copy, Debug, PartialEq, Eq)]
pub struct Leg {
    /// The points, on the canvas.
    pub from: (u32, u32),
    pub to: (u32, u32),
    /// How far off they land.
    pub from_jitter: (u32, u32),
    pub to_jitter: (u32, u32),
    /// Where the slow wobble starts, in hundredths of a radian.
    pub phase: u32,
    /// The length of the stroke up to here, in single precision.
    pub along: u32,
}

/// How far a leg goes.
#[derive(Clone, Copy, Debug, PartialEq, Eq, Structural)]
pub struct Stretch {
    /// Steps that it is walked in.
    pub steps: u32,
    /// The length of the stroke up to its end, in single precision.
    pub along: u32,
}

/// The length of a stroke up to leg `k`.
pub open spec fn along_before(legs: Seq<Stretch>, k: int) -> u32 {
    if k <= 0 {
        0
    } else {
        legs[k - 1].along
    }
}

/// Leg `k` of a stroke, when this much of it has been walked.
pub open spec fn leg_of(stroke: Seq<(u32, u32)>, hand: Hand, k: int, along: u32) -> Leg {
    Leg {
        from: stroke[k],
        to: stroke[k + 1],
        from_jitter: hand.jitter@[k],
        to_jitter: hand.jitter@[k + 1],
        phase: hand.phase,
        along,
    }
}

/// May `measure` give these lengths for the legs of a stroke?
pub open spec fn measured<M: Fn(Leg, Fit) -> Stretch>(
    measure: M,
    stroke: Seq<(u32, u32)>,
    fit: Fit,
    hand: Hand,
    legs: Seq<Stretch>,
) -> bool {
    forall|k: int|
        0 <= k < legs.len() ==> call_ensures(
            measure,
            (leg_of(stroke, hand, k, along_before(legs, k)), fit),
            #[trigger] legs[k],
        )
}

/// May `mark` give these pixels for one leg, walked in so many steps? There is one at its start
/// and one at the end of each step.
pub open spec fn marked_leg<K: Fn(Leg, Fit, u32, u32) -> (i32, i32)>(
    mark: K,
    leg: Leg,
    fit: Fit,
    steps: u32,
    marks: Seq<(i32, i32)>,
) -> bool {
    &&& marks.len() == steps + 1
    &&& forall|i: int|
        0 <= i < marks.len() ==> call_ensures(
            mark,
            (leg, fit, i as u32, steps),
            #[trigger] marks[i],
        )
}

/// May `mark` give these pixels for the legs of a stroke, which go this far?
pub open spec fn marked<K: Fn(Leg, Fit, u32, u32) -> (i32, i32)>(
    mark: K,
    stroke: Seq<(u32, u32)>,
    fit: Fit,
    hand: Hand,
    legs: Seq<Stretch>,
    marks: Seq<Seq<(i32, i32)>>,
) -> bool {
    &&& marks.len() == legs.len()
    &&& forall|k: int|
        0 <= k < marks.len() ==> marked_leg(
            mark,
            leg_of(stroke, hand, k, along_before(legs, k)),
            fit,
            legs[k].steps,
            #[trigger] marks[k],
        )
}

/// May the hand walk the legs of a stroke in these steps of the pen?
pub open spec fn walked<
    M: Fn(Leg, Fit) -> Stretch,
    K: Fn(Leg, Fit, u32, u32) -> (i32, i32),
>(
    measure: M,
    mark: K,
    stroke: Seq<(u32, u32)>,
    fit: Fit,
    hand: Hand,
    legs: Seq<Stretch>,
    marks: Seq<Seq<(i32, i32)>>,
    steps: Seq<(i32, i32)>,
) -> bool {
    &&& legs.len() == stroke.len() - 1
    &&& measured(measure, stroke, fit, hand, legs)
    &&& marked(mark, stroke, fit, hand, legs, marks)
    &&& steps == without_repeats(marks.flatten())
}

/// May the hand follow one stroke in these steps of the pen? A stroke without points has none. A
/// dot has one, where `dot` puts it; the wobble between points has no part in it. Any other is
/// walked leg by leg, each as far as `measure` says and by way of the pixels that `mark` gives.
pub open spec fn wobbles<
    D: Fn((u32, u32), (u32, u32), Fit) -> (i32, i32),
    M: Fn(Leg, Fit) -> Stretch,
    K: Fn(Leg, Fit, u32, u32) -> (i32, i32),
>(
    dot: D,
    measure: M,
    mark: K,
    stroke: Seq<(u32, u32)>,
    fit: Fit,
    hand: Hand,
    steps: Seq<(i32, i32)>,
) -> bool {
    if stroke.len() == 0 {
        steps.len() == 0
    } else if stroke.len() == 1 {
        &&& steps.len() == 1
        &&& call_ensures(dot, (stroke[0], hand.jitter@[0], fit), steps[0])
    } else {
        exists|legs: Seq<Stretch>, marks: Seq<Seq<(i32, i32)>>| #[trigger]
            walked(measure, mark, stroke, fit, hand, legs, marks, steps)
    }
}

/// Walk one leg: the pixels at its start and at the end of each step go behind `raw`.
fn walk<K: Fn(Leg, Fit, u32, u32) -> (i32, i32)>(
    leg: Leg,
    fit: Fit,
    steps: u32,
    mark: &K,
    raw: &mut Vec<(i32, i32)>,
)
    requires
        forall|l: Leg, f: Fit, i: u32, n: u32| call_requires(*mark, (l, f, i, n)),
    ensures
        final(raw)@.len() >= old(raw)@.len(),
        final(raw)@.take(old(raw)@.len() as int) == old(raw)@,
        marked_leg(*mark, leg, fit, steps, final(raw)@.skip(old(raw)@.len() as int)),
{
    let ghost was = raw@;
    let mut marks: Vec<(i32, i32)> = Vec::new();
    let mut i: u64 = 0;
    while i <= steps as u64
        invariant
            forall|l: Leg, f: Fit, i: u32, n: u32| call_requires(*mark, (l, f, i, n)),
            i <= steps + 1,
            marks@.len() == i,
            forall|j: int|
                0 <= j < i ==> call_ensures(
                    *mark,
                    (leg, fit, j as u32, steps),
                    #[trigger] marks@[j],
                ),
        decreases steps + 1 - i,
    {
        marks.push(mark(leg, fit, i as u32, steps));
        i += 1;
    }
    let ghost more = marks@;
    raw.append(&mut marks);
    assert(raw@.take(was.len() as int) =~= was);
    assert(raw@.skip(was.len() as int) =~= more);
}

/// What has been walked of a stroke, and one leg more.
proof fn lemma_leg_is_added<
    M: Fn(Leg, Fit) -> Stretch,
    K: Fn(Leg, Fit, u32, u32) -> (i32, i32),
>(
    measure: M,
    mark: K,
    stroke: Seq<(u32, u32)>,
    fit: Fit,
    hand: Hand,
    legs: Seq<Stretch>,
    marks: Seq<Seq<(i32, i32)>>,
    stretch: Stretch,
    more: Seq<(i32, i32)>,
)
    requires
        measured(measure, stroke, fit, hand, legs),
        marked(mark, stroke, fit, hand, legs, marks),
        ({
            let leg = leg_of(stroke, hand, legs.len() as int, along_before(legs, legs.len() as int));
            &&& call_ensures(measure, (leg, fit), stretch)
            &&& marked_leg(mark, leg, fit, stretch.steps, more)
        }),
    ensures
        measured(measure, stroke, fit, hand, legs.push(stretch)),
        marked(mark, stroke, fit, hand, legs.push(stretch), marks.push(more)),
        marks.push(more).flatten() == marks.flatten() + more,
{
    let longer = legs.push(stretch);
    let k = legs.len() as int;
    assert(forall|j: int| 0 <= j <= k ==> along_before(longer, j) == along_before(legs, j));
    assert forall|j: int| 0 <= j < longer.len() implies call_ensures(
        measure,
        (leg_of(stroke, hand, j, along_before(longer, j)), fit),
        #[trigger] longer[j],
    ) by {
        if j < k {
            assert(longer[j] == legs[j]);
        }
    }
    assert forall|j: int| 0 <= j < marks.push(more).len() implies marked_leg(
        mark,
        leg_of(stroke, hand, j, along_before(longer, j)),
        fit,
        longer[j].steps,
        #[trigger] marks.push(more)[j],
    ) by {
        if j < k {
            assert(marks.push(more)[j] == marks[j]);
        }
    }
    marks.lemma_flatten_push(more);
}

/// Follow one stroke with the unsteady hand, in steps of the pen. `dot` tells where a lone point
/// lands. Of a longer stroke, `measure` tells how far a leg goes and `mark` to which pixel the
/// hand has come after some of its steps; the pen takes a step wherever that changes.
#[verifier::spinoff_prover]
#[verifier::rlimit(60)]
pub fn wobble_stroke<
    D: Fn((u32, u32), (u32, u32), Fit) -> (i32, i32),
    M: Fn(Leg, Fit) -> Stretch,
    K: Fn(Leg, Fit, u32, u32) -> (i32, i32),
>(
    stroke: &Vec<(u32, u32)>,
    fit: Fit,
    hand: &Hand,
    dot: &D,
    measure: &M,
    mark: &K,
) -> (steps: Vec<(i32, i32)>)
    requires
        hand.jitter@.len() == stroke@.len(),
        forall|p: (u32, u32), j: (u32, u32), f: Fit| call_requires(*dot, (p, j, f)),
        forall|l: Leg, f: Fit| call_requires(*measure, (l, f)),
        forall|l: Leg, f: Fit, i: u32, n: u32| call_requires(*mark, (l, f, i, n)),
    ensures
        wobbles(*dot, *measure, *mark, stroke@, fit, *hand, steps@),
        steps@.len() == 0 <==> stroke@.len() == 0,
{
    if stroke.len() == 0 {
        return Vec::new();
    }
    if stroke.len() == 1 {
        let mut steps: Vec<(i32, i32)> = Vec::new();
        steps.push(dot(stroke[0], hand.jitter[0], fit));
        return steps;
    }
    let mut raw: Vec<(i32, i32)> = Vec::new();
    let mut along: u32 = 0;
    let ghost mut legs: Seq<Stretch> = Seq::empty();
    let ghost mut marks: Seq<Seq<(i32, i32)>> = Seq::empty();
    let mut k: usize = 0;
    assert(raw@ =~= marks.flatten());
    while k < stroke.len() - 1
        invariant
            hand.jitter@.len() == stroke@.len(),
            stroke@.len() >= 2,
            forall|l: Leg, f: Fit| call_requires(*measure, (l, f)),
            forall|l: Leg, f: Fit, i: u32, n: u32| call_requires(*mark, (l, f, i, n)),
            k <= stroke@.len() - 1,
            legs.len() == k,
            along == along_before(legs, k as int),
            measured(*measure, stroke@, fit, *hand, legs),
            marked(*mark, stroke@, fit, *hand, legs, marks),
            raw@ == marks.flatten(),
            k > 0 ==> raw@.len() > 0,
        decreases stroke@.len() - k,
    {
        let leg = Leg {
            from: stroke[k],
            to: stroke[k + 1],
            from_jitter: hand.jitter[k],
            to_jitter: hand.jitter[k + 1],
            phase: hand.phase,
            along,
        };
        let stretch = measure(leg, fit);
        let ghost was = raw@;
        walk(leg, fit, stretch.steps, mark, &mut raw);
        proof {
            let more = raw@.skip(was.len() as int);
            lemma_leg_is_added(*measure, *mark, stroke@, fit, *hand, legs, marks, stretch, more);
            assert(raw@ =~= was + more);
            legs = legs.push(stretch);
            marks = marks.push(more);
        }
        along = stretch.along;
        k += 1;
    }
    let steps = pen_steps(&raw);
    proof {
        assert(walked(*measure, *mark, stroke@, fit, *hand, legs, marks, steps@));
        pen_keeps_moving(raw@);
    }
    steps
}

/// Do `dot`, `measure` and `mark` each give the same whenever they are asked the same?
pub open spec fn repeatable<
    D: Fn((u32, u32), (u32, u32), Fit) -> (i32, i32),
    M: Fn(Leg, Fit) -> Stretch,
    K: Fn(Leg, Fit, u32, u32) -> (i32, i32),
>(dot: D, measure: M, mark: K) -> bool {
    &&& forall|p: (u32, u32), j: (u32, u32), f: Fit, u: (i32, i32), v: (i32, i32)| #[trigger]
        call_ensures(dot, (p, j, f), u) && #[trigger] call_ensures(dot, (p, j, f), v) ==> u == v
    &&& forall|l: Leg, f: Fit, u: Stretch, v: Stretch| #[trigger]
        call_ensures(measure, (l, f), u) && #[trigger] call_ensures(measure, (l, f), v) ==> u == v
    &&& forall|l: Leg, f: Fit, i: u32, n: u32, u: (i32, i32), v: (i32, i32)| #[trigger]
        call_ensures(mark, (l, f, i, n), u) && #[trigger] call_ensures(mark, (l, f, i, n), v)
            ==> u == v
}

/// The legs of a stroke have the same lengths whenever they are measured.
proof fn lemma_measured<M: Fn(Leg, Fit) -> Stretch>(
    measure: M,
    stroke: Seq<(u32, u32)>,
    fit: Fit,
    hand: Hand,
    other: Hand,
    a: Seq<Stretch>,
    b: Seq<Stretch>,
    k: int,
)
    requires
        forall|l: Leg, f: Fit, u: Stretch, v: Stretch| #[trigger]
            call_ensures(measure, (l, f), u) && #[trigger] call_ensures(measure, (l, f), v) ==> u
                == v,
        hand.phase == other.phase,
        hand.jitter@ == other.jitter@,
        measured(measure, stroke, fit, hand, a),
        measured(measure, stroke, fit, other, b),
        0 <= k < a.len(),
        a.len() == b.len(),
    ensures
        along_before(a, k) == along_before(b, k),
        a[k] == b[k],
    decreases k,
{
    if k > 0 {
        lemma_measured(measure, stroke, fit, hand, other, a, b, k - 1);
    }
    assert(call_ensures(measure, (leg_of(stroke, hand, k, along_before(a, k)), fit), a[k]));
    assert(call_ensures(measure, (leg_of(stroke, other, k, along_before(b, k)), fit), b[k]));
}

/// One stroke wobbles the same whenever it is followed with the same hand; and a dot, or a
/// stroke without points, does so whatever the phase of the wobble.
pub proof fn wobble_is_repeatable<
    D: Fn((u32, u32), (u32, u32), Fit) -> (i32, i32),
    M: Fn(Leg, Fit) -> Stretch,
    K: Fn(Leg, Fit, u32, u32) -> (i32, i32),
>(
    dot: D,
    measure: M,
    mark: K,
    stroke: Seq<(u32, u32)>,
    fit: Fit,
    hand: Hand,
    other: Hand,
    a: Seq<(i32, i32)>,
    b: Seq<(i32, i32)>,
)
    requires
        repeatable(dot, measure, mark),
        hand.jitter@ == other.jitter@,
        hand.phase == other.phase || stroke.len() <= 1,
        wobbles(dot, measure, mark, stroke, fit, hand, a),
        wobbles(dot, measure, mark, stroke, fit, other, b),
    ensures
        a == b,
{
    if stroke.len() <= 1 {
        assert(a =~= b);
    } else {
        let (la, ma) = choose|legs: Seq<Stretch>, marks: Seq<Seq<(i32, i32)>>| #[trigger]
            walked(measure, mark, stroke, fit, hand, legs, marks, a);
        let (lb, mb) = choose|legs: Seq<Stretch>, marks: Seq<Seq<(i32, i32)>>| #[trigger]
            walked(measure, mark, stroke, fit, other, legs, marks, b);
        assert forall|k: int| 0 <= k < ma.len() implies ma[k] == mb[k] by {
            lemma_measured(measure, stroke, fit, hand, other, la, lb, k);
            let leg = leg_of(stroke, hand, k, along_before(la, k));
            assert(marked_leg(mark, leg, fit, la[k].steps, ma[k]));
            assert(marked_leg(mark, leg, fit, la[k].steps, mb[k]));
            assert forall|i: int| 0 <= i < ma[k].len() implies ma[k][i] == mb[k][i] by {
                assert(call_ensures(mark, (leg, fit, i as u32, la[k].steps), ma[k][i]));
                assert(call_ensures(mark, (leg, fit, i as u32, la[k].steps), mb[k][i]));
            }
            assert(ma[k] =~= mb[k]);
        }
        assert(ma =~= mb);
    }
}

/// A stroke leaves ink exactly where it has a point.
pub proof fn points_leave_ink<
    D: Fn((u32, u32), (u32, u32), Fit) -> (i32, i32),
    M: Fn(Leg, Fit) -> Stretch,
    K: Fn(Leg, Fit, u32, u32) -> (i32, i32),
>(
    dot: D,
    measure: M,
    mark: K,
    stroke: Seq<(u32, u32)>,
    fit: Fit,
    hand: Hand,
    steps: Seq<(i32, i32)>,
)
    requires
        wobbles(dot, measure, mark, stroke, fit, hand, steps),
    ensures
        steps.len() > 0 <==> stroke.len() > 0,
        stroke.len() == 1 ==> steps.len() == 1,
{
    if stroke.len() > 1 {
        let (legs, marks) = choose|legs: Seq<Stretch>, marks: Seq<Seq<(i32, i32)>>| #[trigger]
            walked(measure, mark, stroke, fit, hand, legs, marks, steps);
        assert(marks[0].len() > 0);
        assert(marks.flatten().len() > 0);
        pen_keeps_moving(marks.flatten());
    }
}

/// May the hand follow stroke `k` of a sketch in these steps of the pen?
pub open spec fn draws_stroke<
    D: Fn((u32, u32), (u32, u32), Fit) -> (i32, i32),
    M: Fn(Leg, Fit) -> Stretch,
    K: Fn(Leg, Fit, u32, u32) -> (i32, i32),
>(
    dot: D,
    measure: M,
    mark: K,
    sketch: Seq<Seq<(u32, u32)>>,
    y_top: i32,
    seed: u32,
    k: int,
    steps: Seq<(i32, i32)>,
) -> bool {
    exists|h: Hand|
        hand_of(h, seed, k, sketch[k].len()) && #[trigger] wobbles(
            dot,
            measure,
            mark,
            sketch[k],
            fit_of(sketch, y_top),
            h,
            steps,
        )
}

/// May the hand follow the strokes of a sketch in these steps of the pen?
pub open spec fn draws<
    D: Fn((u32, u32), (u32, u32), Fit) -> (i32, i32),
    M: Fn(Leg, Fit) -> Stretch,
    K: Fn(Leg, Fit, u32, u32) -> (i32, i32),
>(
    dot: D,
    measure: M,
    mark: K,
    sketch: Seq<Seq<(u32, u32)>>,
    y_top: i32,
    seed: u32,
    strokes: Seq<Seq<(i32, i32)>>,
) -> bool {
    &&& strokes.len() == sketch.len()
    &&& forall|k: int|
        0 <= k < sketch.len() ==> draws_stroke(
            dot,
            measure,
            mark,
            sketch,
            y_top,
            seed,
            k,
            #[trigger] strokes[k],
        )
}

/// Is `placed` what putting a sketch on the page may give?
pub open spec fn places<
    D: Fn((u32, u32), (u32, u32), Fit) -> (i32, i32),
    M: Fn(Leg, Fit) -> Stretch,
    K: Fn(Leg, Fit, u32, u32) -> (i32, i32),
>(
    dot: D,
    measure: M,
    mark: K,
    sketch: Seq<Seq<(u32, u32)>>,
    y_top: i32,
    seed: u32,
    placed: Option<(Vec<Vec<(i32, i32)>>, i32)>,
) -> bool {
    if has_points(sketch) && has_room(y_top as int) {
        exists|strokes: Seq<Seq<(i32, i32)>>|
            draws(dot, measure, mark, sketch, y_top, seed, strokes) && #[trigger] laid_out(
                placed,
                strokes,
                y_top,
            )
    } else {
        placed is None
    }
}

/// Put a sketch on the page with its top at `y_top`, following each stroke with the unsteady
/// hand: `dot`, `measure` and `mark` tell where it comes, fitted to the page. Gives the strokes
/// and the bottom edge of the ink, where prose may go on; nothing when there is nothing to draw
/// or the page has no room.
pub fn place<
    D: Fn((u32, u32), (u32, u32), Fit) -> (i32, i32),
    M: Fn(Leg, Fit) -> Stretch,
    K: Fn(Leg, Fit, u32, u32) -> (i32, i32),
>(
    sketch: &Sketch,
    y_top: i32,
    seed: u32,
    dot: D,
    measure: M,
    mark: K,
) -> (placed: Option<(Vec<Vec<(i32, i32)>>, i32)>)
    requires
        forall|k: int|
            0 <= k < sketch@.len() ==> 0xDD + (#[trigger] sketch@[k])@.len() * 2 <= u32::MAX,
        forall|p: (u32, u32), j: (u32, u32), f: Fit| call_requires(dot, (p, j, f)),
        forall|l: Leg, f: Fit| call_requires(measure, (l, f)),
        forall|l: Leg, f: Fit, i: u32, n: u32| call_requires(mark, (l, f, i, n)),
    ensures
        places(dot, measure, mark, seqs(sketch@), y_top, seed, placed),
        placed is Some <==> has_points(seqs(sketch@)) && has_room(y_top as int),
{
    let f = match fit(sketch, y_top) {
        Some(f) => f,
        None => {
            return None;
        },
    };
    let ghost all = seqs(sketch@);
    let mut strokes: Vec<Vec<(i32, i32)>> = Vec::new();
    let mut k: usize = 0;
    while k < sketch.len()
        invariant
            forall|k: int|
                0 <= k < sketch@.len() ==> 0xDD + (#[trigger] sketch@[k])@.len() * 2 <= u32::MAX,
            forall|p: (u32, u32), j: (u32, u32), f: Fit| call_requires(dot, (p, j, f)),
            forall|l: Leg, f: Fit| call_requires(measure, (l, f)),
            forall|l: Leg, f: Fit, i: u32, n: u32| call_requires(mark, (l, f, i, n)),
            all == seqs(sketch@),
            f == fit_of(all, y_top),
            k <= sketch@.len(),
            strokes@.len() == k,
            forall|i: int|
                0 <= i < k ==> draws_stroke(
                    dot,
                    measure,
                    mark,
                    all,
                    y_top,
                    seed,
                    i,
                    (#[trigger] strokes@[i])@,
                ),
        decreases sketch@.len() - k,
    {
        let h = hand(seed, k as u32, sketch[k].len());
        let steps = wobble_stroke(&sketch[k], f, &h, &dot, &measure, &mark);
        assert(all[k as int] == sketch@[k as int]@);
        assert(draws_stroke(dot, measure, mark, all, y_top, seed, k as int, steps@));
        strokes.push(steps);
        k += 1;
    }
    let ghost drawn = seqs(strokes@);
    assert(draws(dot, measure, mark, all, y_top, seed, drawn));
    let placed = lay_out(strokes, y_top);
    proof {
        points_are_drawn(dot, measure, mark, all, y_top, seed, placed);
    }
    placed
}

proof fn lemma_bounds_of_nothing(sketch: Seq<Seq<(u32, u32)>>)
    requires
        forall|k: int| 0 <= k < sketch.len() ==> (#[trigger] sketch[k]).len() == 0,
    ensures
        bounds_of(sketch) == no_bounds(),
    decreases sketch.len(),
{
    if sketch.len() > 0 {
        let rest = sketch.drop_last();
        assert(forall|k: int| 0 <= k < rest.len() ==> rest[k] == sketch[k]);
        lemma_bounds_of_nothing(rest);
        assert(sketch[sketch.len() - 1].len() == 0);
    }
}

proof fn lemma_ink_is_kept(strokes: Seq<Seq<(i32, i32)>>, k: int)
    requires
        0 <= k < strokes.len(),
        strokes[k].len() > 0,
    ensures
        inked_strokes(strokes).len() > 0,
    decreases strokes.len(),
{
    if k < strokes.len() - 1 {
        assert(strokes.drop_last()[k] == strokes[k]);
        lemma_ink_is_kept(strokes.drop_last(), k);
    }
}

/// A sketch comes onto the page exactly where it has points and the page has room.
pub proof fn points_are_drawn<
    D: Fn((u32, u32), (u32, u32), Fit) -> (i32, i32),
    M: Fn(Leg, Fit) -> Stretch,
    K: Fn(Leg, Fit, u32, u32) -> (i32, i32),
>(
    dot: D,
    measure: M,
    mark: K,
    sketch: Seq<Seq<(u32, u32)>>,
    y_top: i32,
    seed: u32,
    placed: Option<(Vec<Vec<(i32, i32)>>, i32)>,
)
    requires
        places(dot, measure, mark, sketch, y_top, seed, placed),
    ensures
        placed is Some <==> has_points(sketch) && has_room(y_top as int),
{
    if has_points(sketch) && has_room(y_top as int) {
        let strokes = choose|strokes: Seq<Seq<(i32, i32)>>|
            draws(dot, measure, mark, sketch, y_top, seed, strokes) && #[trigger] laid_out(
                placed,
                strokes,
                y_top,
            );
        if forall|k: int| 0 <= k < sketch.len() ==> (#[trigger] sketch[k]).len() == 0 {
            lemma_bounds_of_nothing(sketch);
        }
        let k = choose|k: int| 0 <= k < sketch.len() && (#[trigger] sketch[k]).len() != 0;
        let steps = strokes[k];
        let h = choose|h: Hand|
            hand_of(h, seed, k, sketch[k].len()) && #[trigger] wobbles(
                dot,
                measure,
                mark,
                sketch[k],
                fit_of(sketch, y_top),
                h,
                steps,
            );
        points_leave_ink(dot, measure, mark, sketch[k], fit_of(sketch, y_top), h, steps);
        lemma_ink_is_kept(strokes, k);
    }
}

/// A sketch that was read from a text always comes onto a page that has room.
pub proof fn what_is_read_is_drawn<
    R: Fn(&str) -> Option<u32>,
    D: Fn((u32, u32), (u32, u32), Fit) -> (i32, i32),
    M: Fn(Leg, Fit) -> Stretch,
    K: Fn(Leg, Fit, u32, u32) -> (i32, i32),
>(
    read: R,
    inner: Seq<char>,
    sketch: Sketch,
    dot: D,
    measure: M,
    mark: K,
    y_top: i32,
    seed: u32,
    placed: Option<(Vec<Vec<(i32, i32)>>, i32)>,
)
    requires
        parses(read, inner, Some(sketch)),
        places(dot, measure, mark, seqs(sketch@), y_top, seed, placed),
        has_room(y_top as int),
    ensures
        placed is Some,
{
    let readings = choose|readings: Seq<Seq<(Option<u32>, Option<u32>)>>|
        reads_draft(read, drafted(inner)->0, readings) && #[trigger] survives(
            Some(sketch),
            readings,
        );
    sketch_is_drawable(readings, 0, 0);
    bounds_hold_the_sketch(kept_strokes(readings), 0, 0);
    points_are_drawn(dot, measure, mark, seqs(sketch@), y_top, seed, placed);
}

/// Have two drawings the same strokes and the same bottom edge, or is neither there?
pub open spec fn same_ink(
    a: Option<(Vec<Vec<(i32, i32)>>, i32)>,
    b: Option<(Vec<Vec<(i32, i32)>>, i32)>,
) -> bool {
    match (a, b) {
        (Some((strokes, bottom)), Some((other_strokes, other_bottom))) => {
            &&& seqs(strokes@) == seqs(other_strokes@)
            &&& bottom == other_bottom
        },
        (None, None) => true,
        _ => false,
    }
}

/// The same sketch, put at the same height with the same seed, leaves the same ink and the same
/// bottom edge.
pub proof fn placing_is_repeatable<
    D: Fn((u32, u32), (u32, u32), Fit) -> (i32, i32),
    M: Fn(Leg, Fit) -> Stretch,
    K: Fn(Leg, Fit, u32, u32) -> (i32, i32),
>(
    dot: D,
    measure: M,
    mark: K,
    sketch: Seq<Seq<(u32, u32)>>,
    y_top: i32,
    seed: u32,
    a: Option<(Vec<Vec<(i32, i32)>>, i32)>,
    b: Option<(Vec<Vec<(i32, i32)>>, i32)>,
)
    requires
        repeatable(dot, measure, mark),
        places(dot, measure, mark, sketch, y_top, seed, a),
        places(dot, measure, mark, sketch, y_top, seed, b),
    ensures
        same_ink(a, b),
{
    if has_points(sketch) && has_room(y_top as int) {
        let s = choose|s: Seq<Seq<(i32, i32)>>|
            draws(dot, measure, mark, sketch, y_top, seed, s) && #[trigger] laid_out(a, s, y_top);
        let t = choose|t: Seq<Seq<(i32, i32)>>|
            draws(dot, measure, mark, sketch, y_top, seed, t) && #[trigger] laid_out(b, t, y_top);
        let fit = fit_of(sketch, y_top);
        assert forall|k: int| 0 <= k < s.len() implies s[k] == t[k] by {
            assert(draws_stroke(dot, measure, mark, sketch, y_top, seed, k, s[k]));
            assert(draws_stroke(dot, measure, mark, sketch, y_top, seed, k, t[k]));
            let h = choose|h: Hand|
                hand_of(h, seed, k, sketch[k].len()) && #[trigger] wobbles(
                    dot,
                    measure,
                    mark,
                    sketch[k],
                    fit,
                    h,
                    s[k],
                );
            let i = choose|i: Hand|
                hand_of(i, seed, k, sketch[k].len()) && #[trigger] wobbles(
                    dot,
                    measure,
                    mark,
                    sketch[k],
                    fit,
                    i,
                    t[k],
                );
            wobble_is_repeatable(dot, measure, mark, sketch[k], fit, h, i, s[k], t[k]);
        }
        assert(s =~= t);
    }
}

/// One point's share in the seed of a sketch.
pub open spec fn seeded(h: u32, cell: (u32, u32)) -> u32 {
    mixed(h, cell.0 ^ (cell.1 << 8))
}

/// The seed after the points of a stroke.
pub open spec fn seed_with(h: u32, s: Seq<(u32, u32)>) -> u32
    decreases s.len(),
{
    if s.len() == 0 {
        h
    } else {
        seeded(seed_with(h, s.drop_last()), s.last())
    }
}

/// The seed of a sketch.
pub open spec fn seed_of(strokes: Seq<Seq<(u32, u32)>>) -> u32
    decreases strokes.len(),
{
    if strokes.len() == 0 {
        0x51D2
    } else {
        seed_with(seed_of(strokes.drop_last()), strokes.last())
    }
}

/// The seed of a sketch. For each point, `cells` holds the whole parts of seven times its x and
/// thirteen times its y.
pub fn seed_from(cells: &Vec<Vec<(u32, u32)>>) -> (seed: u32)
    ensures
        seed == seed_of(seqs(cells@)),
{
    let mut h: u32 = 0x51D2;
    let ghost all = seqs(cells@);
    let mut i: usize = 0;
    assert(all.take(0) =~= Seq::empty());
    while i < cells.len()
        invariant
            i <= cells@.len(),
            all == seqs(cells@),
            h == seed_of(all.take(i as int)),
        decreases cells@.len() - i,
    {
        let stroke = &cells[i];
        let ghost start = h;
        let mut j: usize = 0;
        assert(stroke@.take(0) =~= Seq::empty());
        while j < stroke.len()
            invariant
                j <= stroke@.len(),
                h == seed_with(start, stroke@.take(j as int)),
            decreases stroke@.len() - j,
        {
            assert(stroke@.take(j + 1).drop_last() =~= stroke@.take(j as int));
            let (x, y) = stroke[j];
            h = hash(h, x ^ (y << 8));
            j += 1;
        }
        assert(stroke@.take(stroke@.len() as int) =~= stroke@);
        assert(all.take(i + 1).drop_last() =~= all.take(i as int));
        i += 1;
    }
    assert(all.take(all.len() as int) =~= all);
    h
}

/// May `cell` give these cells for the points of one stroke?
pub open spec fn cells_stroke<C: Fn(u32, u32) -> (u32, u32)>(
    cell: C,
    points: Seq<(u32, u32)>,
    cells: Seq<(u32, u32)>,
) -> bool {
    &&& cells.len() == points.len()
    &&& forall|j: int|
        0 <= j < points.len() ==> call_ensures(
            cell,
            (points[j].0, points[j].1),
            #[trigger] cells[j],
        )
}

/// May `cell` give these cells for the points of a sketch?
pub open spec fn cells_sketch<C: Fn(u32, u32) -> (u32, u32)>(
    cell: C,
    sketch: Seq<Seq<(u32, u32)>>,
    cells: Seq<Seq<(u32, u32)>>,
) -> bool {
    &&& cells.len() == sketch.len()
    &&& forall|k: int| 0 <= k < sketch.len() ==> cells_stroke(cell, sketch[k], #[trigger] cells[k])
}

/// A deterministic seed for a sketch: the same drawing always wobbles the same. `cell` gives
/// the whole parts of seven times the x and thirteen times the y of a point.
pub fn sketch_seed<C: Fn(u32, u32) -> (u32, u32)>(sketch: &Sketch, cell: C) -> (seed: u32)
    requires
        forall|x: u32, y: u32| call_requires(cell, (x, y)),
    ensures
        exists|cells: Seq<Seq<(u32, u32)>>|
            cells_sketch(cell, seqs(sketch@), cells) && seed == #[trigger] seed_of(cells),
{
    let mut all: Vec<Vec<(u32, u32)>> = Vec::new();
    let mut k: usize = 0;
    while k < sketch.len()
        invariant
            forall|x: u32, y: u32| call_requires(cell, (x, y)),
            k <= sketch@.len(),
            all@.len() == k,
            forall|i: int|
                0 <= i < k ==> cells_stroke(cell, sketch@[i]@, (#[trigger] all@[i])@),
        decreases sketch@.len() - k,
    {
        let stroke = &sketch[k];
        let mut cells: Vec<(u32, u32)> = Vec::new();
        let mut j: usize = 0;
        while j < stroke.len()
            invariant
                forall|x: u32, y: u32| call_requires(cell, (x, y)),
                j <= stroke@.len(),
                cells@.len() == j,
                forall|i: int|
                    0 <= i < j ==> call_ensures(
                        cell,
                        (stroke@[i].0, stroke@[i].1),
                        #[trigger] cells@[i],
                    ),
            decreases stroke@.len() - j,
        {
            let (x, y) = stroke[j];
            cells.push(cell(x, y));
            j += 1;
        }
        all.push(cells);
        k += 1;
    }
    assert(cells_sketch(cell, seqs(sketch@), seqs(all@)));
    seed_from(&all)
}

/// The same drawing always has the same seed, where `cell` gives the same cell for the same
/// point.
pub proof fn seed_is_repeatable<C: Fn(u32, u32) -> (u32, u32)>(
    cell: C,
    sketch: Seq<Seq<(u32, u32)>>,
    a: Seq<Seq<(u32, u32)>>,
    b: Seq<Seq<(u32, u32)>>,
)
    requires
        cells_sketch(cell, sketch, a),
        cells_sketch(cell, sketch, b),
        forall|x: u32, y: u32, u: (u32, u32), v: (u32, u32)| #[trigger]
            call_ensures(cell, (x, y), u) && #[trigger] call_ensures(cell, (x, y), v) ==> u == v,
    ensures
        seed_of(a) == seed_of(b),
{
    assert forall|k: int| 0 <= k < a.len() implies a[k] == b[k] by {
        assert(cells_stroke(cell, sketch[k], a[k]));
        assert(cells_stroke(cell, sketch[k], b[k]));
        assert forall|j: int| 0 <= j < a[k].len() implies a[k][j] == b[k][j] by {
            assert(call_ensures(cell, (sketch[k][j].0, sketch[k][j].1), a[k][j]));
            assert(call_ensures(cell, (sketch[k][j].0, sketch[k][j].1), b[k][j]));
        }
        assert(a[k] =~= b[k]);
    }
    assert(a =~= b);
}

// --- Reading a sketch in any spacing ---

/// A stroke, written down with these gaps before, between and behind its points.
pub open spec fn spaced_stroke(
    points: Seq<(Seq<char>, Seq<char>)>,
    gaps: Seq<Seq<char>>,
) -> Seq<char> {
    spaced(points.map_values(|p: (Seq<char>, Seq<char>)| p.0 + (seq![','] + p.1)), gaps)
}

/// Strokes, written down with semicolons between them and these gaps round their points.
pub open spec fn spaced_strokes(
    strokes: Seq<Seq<(Seq<char>, Seq<char>)>>,
    gaps: Seq<Seq<Seq<char>>>,
) -> Seq<char> {
    joined_by(
        Seq::new(strokes.len(), |k: int| spaced_stroke(strokes[k], gaps[k])),
        ';',
    )
}

/// Do the gaps part the points of each stroke, with none in front of the first point of all and
/// none behind the last?
pub open spec fn parts_strokes(
    gaps: Seq<Seq<Seq<char>>>,
    strokes: Seq<Seq<(Seq<char>, Seq<char>)>>,
) -> bool {
    &&& gaps.len() == strokes.len()
    &&& forall|k: int|
        0 <= k < strokes.len() ==> parts_words(#[trigger] gaps[k], strokes[k].len())
    &&& gaps[0][0].len() == 0
    &&& gaps.last().last().len() == 0
}

proof fn lemma_points_of_written(points: Seq<(Seq<char>, Seq<char>)>)
    requires
        forall|j: int| 0 <= j < points.len() ==> writable(#[trigger] points[j]),
    ensures
        points_of(
            points.map_values(|p: (Seq<char>, Seq<char>)| p.0 + (seq![','] + p.1)),
        ) == points,
    decreases points.len(),
{
    let ws = points.map_values(|p: (Seq<char>, Seq<char>)| p.0 + (seq![','] + p.1));
    if points.len() > 0 {
        let p = points[0];
        let rest = points.skip(1);
        assert forall|j: int| 0 <= j < rest.len() implies writable(#[trigger] rest[j]) by {
            assert(rest[j] == points[j + 1]);
        }
        lemma_points_of_written(rest);
        lemma_written_point(p);
        assert(ws[0] =~= written_point(p));
        assert(ws.skip(1) =~= rest.map_values(
            |p: (Seq<char>, Seq<char>)| p.0 + (seq![','] + p.1),
        ));
        assert(points =~= seq![p] + rest);
    } else {
        assert(points =~= Seq::empty());
    }
}

proof fn lemma_spaced_stroke(points: Seq<(Seq<char>, Seq<char>)>, gaps: Seq<Seq<char>>)
    requires
        forall|j: int| 0 <= j < points.len() ==> writable(#[trigger] points[j]),
        parts_words(gaps, points.len()),
    ensures
        points_of(words(spaced_stroke(points, gaps))) == points,
        forall|i: int|
            0 <= i < spaced_stroke(points, gaps).len() ==> #[trigger] spaced_stroke(points, gaps)[i]
                != ';',
{
    let ws = points.map_values(|p: (Seq<char>, Seq<char>)| p.0 + (seq![','] + p.1));
    assert forall|j: int| 0 <= j < ws.len() implies (#[trigger] ws[j]).len() > 0 && no_space(ws[j])
        && unbroken(ws[j]) by {
        assert(writable(points[j]));
        lemma_written_point(points[j]);
        assert(ws[j] =~= written_point(points[j]));
    }
    any_space_parts_words(ws, gaps);
    lemma_points_of_written(points);
    lemma_spaced_unbroken(ws, gaps);
}

proof fn lemma_spaced_unbroken(ws: Seq<Seq<char>>, gaps: Seq<Seq<char>>)
    requires
        gaps.len() == ws.len() + 1,
        forall|i: int| 0 <= i < gaps.len() ==> all_space(#[trigger] gaps[i]),
        forall|j: int| 0 <= j < ws.len() ==> unbroken(#[trigger] ws[j]),
    ensures
        forall|i: int| 0 <= i < spaced(ws, gaps).len() ==> #[trigger] spaced(ws, gaps)[i] != ';',
    decreases ws.len(),
{
    let text = spaced(ws, gaps);
    let g = gaps[0];
    assert(all_space(g));
    if ws.len() > 0 {
        let w = ws[0];
        let others = ws.skip(1);
        let more = gaps.skip(1);
        assert(unbroken(w));
        assert forall|i: int| 0 <= i < more.len() implies all_space(#[trigger] more[i]) by {
            assert(more[i] == gaps[i + 1]);
        }
        assert forall|j: int| 0 <= j < others.len() implies unbroken(#[trigger] others[j]) by {
            assert(others[j] == ws[j + 1]);
        }
        lemma_spaced_unbroken(others, more);
        let rest = spaced(others, more);
        assert forall|i: int| 0 <= i < text.len() implies #[trigger] text[i] != ';' by {
            if i < g.len() {
                assert(text[i] == g[i]);
            } else if i < g.len() + w.len() {
                assert(text[i] == w[i - g.len()]);
            } else {
                assert(text[i] == rest[i - g.len() - w.len()]);
            }
        }
    } else {
        assert forall|i: int| 0 <= i < text.len() implies #[trigger] text[i] != ';' by {
            assert(text[i] == g[i]);
        }
    }
}

proof fn lemma_spaced_ends(ws: Seq<Seq<char>>, gaps: Seq<Seq<char>>)
    requires
        ws.len() > 0,
        gaps.len() == ws.len() + 1,
        forall|j: int| 0 <= j < ws.len() ==> (#[trigger] ws[j]).len() > 0,
    ensures
        spaced(ws, gaps).len() > 0,
        gaps[0].len() == 0 ==> spaced(ws, gaps)[0] == ws[0][0],
        gaps.last().len() == 0 ==> spaced(ws, gaps).last() == ws.last().last(),
    decreases ws.len(),
{
    let others = ws.skip(1);
    let more = gaps.skip(1);
    let text = spaced(ws, gaps);
    let rest = spaced(others, more);
    assert(ws[0].len() > 0);
    if others.len() > 0 {
        assert forall|j: int| 0 <= j < others.len() implies (#[trigger] others[j]).len() > 0 by {
            assert(others[j] == ws[j + 1]);
        }
        lemma_spaced_ends(others, more);
        assert(text.last() == rest.last());
        assert(others.last() == ws.last());
        assert(more.last() == gaps.last());
    } else {
        assert(rest == gaps.last());
        if gaps.last().len() == 0 {
            assert(text.last() == ws[0].last());
        }
    }
    if gaps[0].len() == 0 {
        assert(text[0] == ws[0][0]);
    }
}

proof fn lemma_joined_ends(pieces: Seq<Seq<char>>, c: char)
    requires
        pieces.len() > 0,
        pieces[0].len() > 0,
        pieces.last().len() > 0,
    ensures
        joined_by(pieces, c).len() > 0,
        joined_by(pieces, c)[0] == pieces[0][0],
        joined_by(pieces, c).last() == pieces.last().last(),
    decreases pieces.len(),
{
    if pieces.len() > 1 {
        let others = pieces.skip(1);
        let tail = joined_by(others, c);
        assert(others.last() == pieces.last());
        if others.len() > 1 {
            lemma_joined_tail(others, c);
        }
        assert(tail.len() > 0 && tail.last() == pieces.last().last());
        assert(joined_by(pieces, c).last() == tail.last());
    }
}

proof fn lemma_joined_tail(pieces: Seq<Seq<char>>, c: char)
    requires
        pieces.len() > 0,
        pieces.last().len() > 0,
    ensures
        joined_by(pieces, c).len() > 0,
        joined_by(pieces, c).last() == pieces.last().last(),
    decreases pieces.len(),
{
    if pieces.len() > 1 {
        let others = pieces.skip(1);
        assert(others.last() == pieces.last());
        lemma_joined_tail(others, c);
        assert(joined_by(pieces, c).last() == joined_by(others, c).last());
    }
}

proof fn lemma_skip_lead(lead: Seq<char>, body: Seq<char>)
    requires
        forall|i: int| 0 <= i < lead.len() ==> is_lead(#[trigger] lead[i]),
        body.len() > 0 && !is_lead(body[0]),
    ensures
        skip_lead(lead + body) == body,
    decreases lead.len(),
{
    if lead.len() == 0 {
        assert(lead + body =~= body);
    } else {
        let rest = lead.skip(1);
        assert((lead + body)[0] == lead[0]);
        assert((lead + body).skip(1) =~= rest + body);
        assert forall|i: int| 0 <= i < rest.len() implies is_lead(#[trigger] rest[i]) by {
            assert(rest[i] == lead[i + 1]);
        }
        lemma_skip_lead(rest, body);
    }
}

/// May the character stand between the word that opens a sketch and its first point?
pub open spec fn leads_in(c: char) -> bool {
    c == ':' || c == ' ' || c == '\n' || c == '\r' || c == '\t'
}

/// Is this the word that opens a sketch, in whatever case?
pub open spec fn says_draw(w: Seq<char>) -> bool {
    &&& w.len() == 4
    &&& w[0] == 'd' || w[0] == 'D'
    &&& w[1] == 'r' || w[1] == 'R'
    &&& w[2] == 'a' || w[2] == 'A'
    &&& w[3] == 'w' || w[3] == 'W'
}

/// A sketch is taken apart alike however it is spaced: any white space round the text, any run
/// of colons and blanks behind the opening word, any white space between two points, and any
/// round the semicolons that end the strokes, or none there.
pub proof fn any_spacing_draws_the_same(
    before: Seq<char>,
    word: Seq<char>,
    lead: Seq<char>,
    strokes: Seq<Seq<(Seq<char>, Seq<char>)>>,
    gaps: Seq<Seq<Seq<char>>>,
    after: Seq<char>,
)
    requires
        all_space(before),
        all_space(after),
        says_draw(word),
        forall|i: int| 0 <= i < lead.len() ==> leads_in(#[trigger] lead[i]),
        writable_strokes(strokes),
        parts_strokes(gaps, strokes),
    ensures
        drafted(before + (word + lead + spaced_strokes(strokes, gaps)) + after) == Some(strokes),
{
    let pieces = Seq::new(strokes.len(), |k: int| spaced_stroke(strokes[k], gaps[k]));
    let body = spaced_strokes(strokes, gaps);
    let block = word + lead + body;
    let n = strokes.len() as int;
    reveal_strlit("draw");
    assert forall|k: int| 0 <= k < n implies points_of(words(#[trigger] pieces[k])) == strokes[k]
        && (forall|i: int| 0 <= i < pieces[k].len() ==> #[trigger] pieces[k][i] != ';') by {
        assert(writable_stroke(strokes[k]));
        assert(parts_words(gaps[k], strokes[k].len()));
        lemma_spaced_stroke(strokes[k], gaps[k]);
    }
    splitting_undoes_joining(pieces, ';');
    assert(strokes_of(body) =~= strokes) by {
        assert forall|k: int| 0 <= k < n implies strokes_of(body)[k] == strokes[k] by {
            assert(split_on(body, ';')[k] == pieces[k]);
        }
    }
    let p = strokes[0][0];
    let q = strokes.last().last();
    assert(writable_stroke(strokes[0]) && writable_stroke(strokes[n - 1]));
    assert(writable(p));
    assert(writable(strokes[n - 1][strokes[n - 1].len() - 1]));
    lemma_written_point(p);
    lemma_written_point(q);
    lemma_first_piece(strokes[0], gaps[0]);
    lemma_first_piece(strokes[n - 1], gaps[n - 1]);
    assert(pieces[0] == spaced_stroke(strokes[0], gaps[0]));
    assert(pieces.last() == spaced_stroke(strokes[n - 1], gaps[n - 1]));
    lemma_joined_ends(pieces, ';');
    assert(body[0] == written_point(p)[0]);
    assert(body.last() == written_point(q).last());
    assert(!is_space(body[0])) by {
        assert(unbroken(written_point(p)));
    }
    assert(!is_space(body.last())) by {
        assert(unbroken(written_point(q)));
        assert(written_point(q).last() == written_point(q)[written_point(q).len() - 1]);
    }
    assert(!is_lead(body[0])) by {
        if p.0.len() > 0 {
            assert(written_point(p)[0] == p.0[0]);
        } else {
            assert(written_point(p)[0] == ',');
        }
    }
    assert(block[0] == word[0]);
    assert(block.last() == body.last());
    trimming_takes_all_outer_space(before, block, after);
    assert(before + block + after =~= before + (word + lead + body) + after);
    assert(opens_ci(block, "draw"@)) by {
        assert forall|i: int|
            #![trigger block[i]]
            0 <= i < 4 implies lower_code(block[i]) == lower_code("draw"@[i]) by {
            assert(block[i] == word[i]);
        }
    }
    assert forall|i: int| 0 <= i < lead.len() implies is_lead(#[trigger] lead[i]) by {
        assert(leads_in(lead[i]));
    }
    assert(block.skip(4) =~= lead + body);
    lemma_skip_lead(lead, body);
}

proof fn lemma_first_piece(points: Seq<(Seq<char>, Seq<char>)>, gaps: Seq<Seq<char>>)
    requires
        writable_stroke(points),
        parts_words(gaps, points.len()),
    ensures
        spaced_stroke(points, gaps).len() > 0,
        gaps[0].len() == 0 ==> spaced_stroke(points, gaps)[0] == written_point(points[0])[0],
        gaps.last().len() == 0 ==> spaced_stroke(points, gaps).last() == written_point(
            points.last(),
        ).last(),
{
    let ws = points.map_values(|p: (Seq<char>, Seq<char>)| p.0 + (seq![','] + p.1));
    assert forall|j: int| 0 <= j < ws.len() implies (#[trigger] ws[j]).len() > 0 by {
        assert(ws[j] =~= written_point(points[j]));
    }
    assert(ws[0] =~= written_point(points[0]));
    assert(ws.last() =~= written_point(points.last()));
    lemma_spaced_ends(ws, gaps);
}

/// Only a text that opens with the word, in whatever case, is that of a sketch.
pub proof fn only_the_word_opens_a_sketch(inner: Seq<char>)
    ensures
        drafted(inner) is Some <==> trimmed(inner).len() >= 4 && says_draw(trimmed(inner).take(4)),
{
    reveal_strlit("draw");
    let block = trimmed(inner);
    if block.len() >= 4 {
        let w = block.take(4);
        assert(w[0] == block[0] && w[1] == block[1] && w[2] == block[2] && w[3] == block[3]);
        if says_draw(w) {
            assert forall|i: int|
                #![trigger block[i]]
                0 <= i < 4 implies lower_code(block[i]) == lower_code("draw"@[i]) by {
                assert(block[i] == w[i]);
            }
        }
        if opens_ci(block, "draw"@) {
            only_case_is_ignored(block[0], 'd');
            only_case_is_ignored(block[1], 'r');
            only_case_is_ignored(block[2], 'a');
            only_case_is_ignored(block[3], 'w');
        }
    }
}

/// A word without a comma is no point and is passed over; one with a comma is parted at the
/// first. What a word comes to does not hang on the others.
pub proof fn junk_among_points_is_passed_over(a: Seq<Seq<char>>, w: Seq<char>, b: Seq<Seq<char>>)
    ensures
        (forall|i: int| 0 <= i < w.len() ==> #[trigger] w[i] != ',') ==> points_of(a + seq![w] + b)
            == points_of(a) + points_of(b),
        forall|i: int|
            0 <= i < w.len() && w[i] == ',' && (forall|k: int| 0 <= k < i ==> #[trigger] w[k] != ',')
                ==> points_of(a + seq![w] + b) == points_of(a) + seq![
                (#[trigger] w.take(i), w.skip(i + 1)),
            ] + points_of(b),
{
    lemma_points_add(a, seq![w] + b);
    lemma_points_add(seq![w], b);
    assert(a + seq![w] + b =~= a + (seq![w] + b));
    lemma_first_of(w, ',');
    assert(seq![w].skip(1) =~= Seq::empty());
    assert(points_of(Seq::<Seq<char>>::empty()) =~= Seq::empty());
    let n = first_of(w, ',') as int;
    if n >= w.len() {
        assert(points_of(seq![w]) =~= Seq::empty());
        assert(points_of(a) + (Seq::<(Seq<char>, Seq<char>)>::empty() + points_of(b)) =~= points_of(
            a,
        ) + points_of(b));
        assert forall|i: int|
            0 <= i < w.len() && w[i] == ',' && (forall|k: int|
                0 <= k < i ==> #[trigger] w[k] != ',') implies points_of(a + seq![w] + b)
            == points_of(a) + seq![(#[trigger] w.take(i), w.skip(i + 1))] + points_of(b) by {
            assert(w[i] != ',');
        }
    } else {
        assert(w[n] == ',');
        assert(points_of(seq![w]) =~= seq![(w.take(n), w.skip(n + 1))]);
        assert(points_of(a) + (seq![(w.take(n), w.skip(n + 1))] + points_of(b)) =~= points_of(a)
            + seq![(w.take(n), w.skip(n + 1))] + points_of(b));
        assert forall|i: int|
            0 <= i < w.len() && w[i] == ',' && (forall|k: int|
                0 <= k < i ==> #[trigger] w[k] != ',') implies points_of(a + seq![w] + b)
            == points_of(a) + seq![(#[trigger] w.take(i), w.skip(i + 1))] + points_of(b) by {
            if n < i {
                assert(w[n] != ',');
            }
            assert(i == n);
        }
    }
}

proof fn lemma_points_add(a: Seq<Seq<char>>, b: Seq<Seq<char>>)
    ensures
        points_of(a + b) == points_of(a) + points_of(b),
    decreases a.len(),
{
    if a.len() == 0 {
        assert(a + b =~= b);
        assert(points_of(a) + points_of(b) =~= points_of(b));
    } else {
        assert((a + b)[0] == a[0]);
        assert((a + b).skip(1) =~= a.skip(1) + b);
        lemma_points_add(a.skip(1), b);
        assert(points_of(a + b) =~= points_of(a) + points_of(b));
    }
}

/// Parsing reads what a text was taken apart into: where each coordinate reads as a number of
/// the canvas, the sketch has those points, in the same strokes and the same order. With the law
/// on spacing, this holds of a sketch that is spaced in any way.
pub proof fn sketch_is_read_in_any_spacing<R: Fn(&str) -> Option<u32>>(
    read: R,
    inner: Seq<char>,
    texts: Seq<Seq<(Seq<char>, Seq<char>)>>,
    sketch: Seq<Seq<(u32, u32)>>,
    parsed: Option<Sketch>,
)
    requires
        drafted(inner) == Some(texts),
        stands_for(read, texts, sketch),
        sketch.len() > 0,
        forall|k: int| 0 <= k < sketch.len() ==> (#[trigger] sketch[k]).len() > 0,
        forall|k: int, j: int|
            0 <= k < sketch.len() && 0 <= j < sketch[k].len() ==> on_canvas(
                #[trigger] sketch[k][j],
            ),
        parses(read, inner, parsed),
    ensures
        parsed is Some,
        seqs(parsed->0@) == sketch,
{
    let readings = choose|readings: Seq<Seq<(Option<u32>, Option<u32>)>>|
        reads_draft(read, texts, readings) && #[trigger] survives(parsed, readings);
    assert forall|k: int| 0 <= k < sketch.len() implies kept_points(#[trigger] readings[k])
        == sketch[k] by {
        assert(reads_stroke(read, texts[k], readings[k]));
        assert forall|j: int| 0 <= j < sketch[k].len() implies #[trigger] readings[k][j] == (
            Some(sketch[k][j].0),
            Some(sketch[k][j].1),
        ) && on_canvas(sketch[k][j]) by {
            assert(reads_only(read, texts[k][j].0, sketch[k][j].0));
            assert(reads(read, texts[k][j].0, readings[k][j].0));
            assert(reads(read, texts[k][j].1, readings[k][j].1));
        }
        lemma_kept_points(readings[k], sketch[k]);
    }
    lemma_kept_strokes(readings, sketch);
}

/// Is `c` the number of the canvas nearest to `n`?
pub open spec fn nearest_on_canvas(n: u32, c: u32) -> bool {
    &&& 0 <= rank(c) <= 0x42C8_0000
    &&& 0 <= rank(n) <= 0x42C8_0000 ==> c == n
    &&& rank(n) < 0 ==> rank(c) == 0
    &&& rank(n) > 0x42C8_0000 ==> rank(c) == 0x42C8_0000
}

/// A point stays if both its coordinates are finite numbers, moved no further than onto the
/// canvas; any other is passed over. What becomes of a point does not hang on the others.
pub proof fn bad_points_are_passed_over(
    a: Seq<(Option<u32>, Option<u32>)>,
    p: (Option<u32>, Option<u32>),
    b: Seq<(Option<u32>, Option<u32>)>,
)
    ensures
        ({
            let kept = kept_points(a + seq![p] + b);
            let n = kept_points(a).len() as int;
            match p {
                (Some(x), Some(y)) if finite(x) && finite(y) => {
                    &&& kept == kept_points(a) + seq![kept[n]] + kept_points(b)
                    &&& nearest_on_canvas(x, kept[n].0)
                    &&& nearest_on_canvas(y, kept[n].1)
                },
                _ => kept == kept_points(a) + kept_points(b),
            }
        }),
{
    lemma_kept_add(a + seq![p], b);
    lemma_kept_add(a, seq![p]);
    assert(seq![p].drop_last() =~= Seq::empty());
    assert(kept_points(Seq::<(Option<u32>, Option<u32>)>::empty()) =~= Seq::empty());
    let one = kept_points(seq![p]);
    let kept = kept_points(a + seq![p] + b);
    let n = kept_points(a).len() as int;
    assert(kept == kept_points(a) + one + kept_points(b));
    match p {
        (Some(x), Some(y)) if finite(x) && finite(y) => {
            assert(one =~= seq![(clamped(x), clamped(y))]);
            assert(kept[n] == one[0]);
            assert(one =~= seq![kept[n]]);
        },
        _ => {
            assert(one =~= Seq::empty());
            assert(kept_points(a) + one =~= kept_points(a));
        },
    }
}

proof fn lemma_kept_add(
    a: Seq<(Option<u32>, Option<u32>)>,
    b: Seq<(Option<u32>, Option<u32>)>,
)
    ensures
        kept_points(a + b) == kept_points(a) + kept_points(b),
    decreases b.len(),
{
    if b.len() == 0 {
        assert(a + b =~= a);
        assert(kept_points(a) + kept_points(b) =~= kept_points(a));
    } else {
        assert((a + b).drop_last() =~= a + b.drop_last());
        assert((a + b).last() == b.last());
        lemma_kept_add(a, b.drop_last());
        assert(kept_points(a + b) =~= kept_points(a) + kept_points(b));
    }
}

/// A stroke with a point left stays, as one stroke and in its place; one without is passed over.
pub proof fn empty_strokes_are_passed_over(
    a: Seq<Seq<(Option<u32>, Option<u32>)>>,
    stroke: Seq<(Option<u32>, Option<u32>)>,
    b: Seq<Seq<(Option<u32>, Option<u32>)>>,
)
    ensures
        kept_points(stroke).len() > 0 ==> kept_strokes(a + seq![stroke] + b) == kept_strokes(a)
            + seq![kept_points(stroke)] + kept_strokes(b),
        kept_points(stroke).len() == 0 ==> kept_strokes(a + seq![stroke] + b) == kept_strokes(a)
            + kept_strokes(b),
{
    lemma_kept_strokes_add(a + seq![stroke], b);
    lemma_kept_strokes_add(a, seq![stroke]);
    assert(seq![stroke].drop_last() =~= Seq::empty());
    assert(kept_strokes(Seq::<Seq<(Option<u32>, Option<u32>)>>::empty()) =~= Seq::empty());
    if kept_points(stroke).len() > 0 {
        assert(kept_strokes(seq![stroke]) =~= seq![kept_points(stroke)]);
    } else {
        assert(kept_strokes(a) + kept_strokes(seq![stroke]) =~= kept_strokes(a));
    }
}

proof fn lemma_kept_strokes_add(
    a: Seq<Seq<(Option<u32>, Option<u32>)>>,
    b: Seq<Seq<(Option<u32>, Option<u32>)>>,
)
    ensures
        kept_strokes(a + b) == kept_strokes(a) + kept_strokes(b),
    decreases b.len(),
{
    if b.len() == 0 {
        assert(a + b =~= a);
        assert(kept_strokes(a) + kept_strokes(b) =~= kept_strokes(a));
    } else {
        assert((a + b).drop_last() =~= a + b.drop_last());
        assert((a + b).last() == b.last());
        lemma_kept_strokes_add(a, b.drop_last());
        assert(kept_strokes(a + b) =~= kept_strokes(a) + kept_strokes(b));
    }
}

// --- Where a sketch comes to lie ---

/// Are the coordinates of every point numbers?
pub open spec fn all_finite(strokes: Seq<Seq<(u32, u32)>>) -> bool {
    forall|i: int, j: int|
        0 <= i < strokes.len() && 0 <= j < strokes[i].len() ==> finite((#[trigger] strokes[i][j]).0)
            && finite(strokes[i][j].1)
}

/// Is this the x of some point?
pub open spec fn has_x(strokes: Seq<Seq<(u32, u32)>>, x: u32) -> bool {
    exists|i: int, j: int|
        0 <= i < strokes.len() && 0 <= j < strokes[i].len() && (#[trigger] strokes[i][j]).0 == x
}

/// Is this the y of some point?
pub open spec fn has_y(strokes: Seq<Seq<(u32, u32)>>, y: u32) -> bool {
    exists|i: int, j: int|
        0 <= i < strokes.len() && 0 <= j < strokes[i].len() && (#[trigger] strokes[i][j]).1 == y
}

/// Is the edge either the one given or that of a point of the stroke?
spec fn from_stroke(b: Bounds, c: Bounds, s: Seq<(u32, u32)>) -> bool {
    &&& c.x0 == b.x0 || exists|j: int| 0 <= j < s.len() && (#[trigger] s[j]).0 == c.x0
    &&& c.x1 == b.x1 || exists|j: int| 0 <= j < s.len() && (#[trigger] s[j]).0 == c.x1
    &&& c.y0 == b.y0 || exists|j: int| 0 <= j < s.len() && (#[trigger] s[j]).1 == c.y0
    &&& c.y1 == b.y1 || exists|j: int| 0 <= j < s.len() && (#[trigger] s[j]).1 == c.y1
}

proof fn lemma_edges_of_stroke(b: Bounds, s: Seq<(u32, u32)>)
    ensures
        from_stroke(b, with_points(b, s), s),
    decreases s.len(),
{
    if s.len() > 0 {
        let rest = s.drop_last();
        lemma_edges_of_stroke(b, rest);
        let was = with_points(b, rest);
        let c = with_points(b, s);
        let n = s.len() - 1;
        assert(s[n] == s.last());
        if was.x0 != b.x0 {
            let j = choose|j: int| 0 <= j < rest.len() && (#[trigger] rest[j]).0 == was.x0;
            assert(s[j].0 == was.x0);
        }
        if was.x1 != b.x1 {
            let j = choose|j: int| 0 <= j < rest.len() && (#[trigger] rest[j]).0 == was.x1;
            assert(s[j].0 == was.x1);
        }
        if was.y0 != b.y0 {
            let j = choose|j: int| 0 <= j < rest.len() && (#[trigger] rest[j]).1 == was.y0;
            assert(s[j].1 == was.y0);
        }
        if was.y1 != b.y1 {
            let j = choose|j: int| 0 <= j < rest.len() && (#[trigger] rest[j]).1 == was.y1;
            assert(s[j].1 == was.y1);
        }
    }
}

proof fn lemma_edges(strokes: Seq<Seq<(u32, u32)>>)
    ensures
        bounds_of(strokes).x0 == 0x7F7F_FFFF || has_x(strokes, bounds_of(strokes).x0),
        bounds_of(strokes).x1 == 0xFF7F_FFFF || has_x(strokes, bounds_of(strokes).x1),
        bounds_of(strokes).y0 == 0x7F7F_FFFF || has_y(strokes, bounds_of(strokes).y0),
        bounds_of(strokes).y1 == 0xFF7F_FFFF || has_y(strokes, bounds_of(strokes).y1),
    decreases strokes.len(),
{
    if strokes.len() > 0 {
        let rest = strokes.drop_last();
        let s = strokes.last();
        let n = strokes.len() - 1;
        lemma_edges(rest);
        let was = bounds_of(rest);
        let c = bounds_of(strokes);
        lemma_edges_of_stroke(was, s);
        assert(strokes[n] == s);
        assert forall|x: u32| has_x(rest, x) implies #[trigger] has_x(strokes, x) by {
            let (i, j) = choose|i: int, j: int|
                0 <= i < rest.len() && 0 <= j < rest[i].len() && (#[trigger] rest[i][j]).0 == x;
            assert(strokes[i][j].0 == x);
        }
        assert forall|y: u32| has_y(rest, y) implies #[trigger] has_y(strokes, y) by {
            let (i, j) = choose|i: int, j: int|
                0 <= i < rest.len() && 0 <= j < rest[i].len() && (#[trigger] rest[i][j]).1 == y;
            assert(strokes[i][j].1 == y);
        }
        if c.x0 != was.x0 {
            let j = choose|j: int| 0 <= j < s.len() && (#[trigger] s[j]).0 == c.x0;
            assert(strokes[n][j].0 == c.x0);
        }
        if c.x1 != was.x1 {
            let j = choose|j: int| 0 <= j < s.len() && (#[trigger] s[j]).0 == c.x1;
            assert(strokes[n][j].0 == c.x1);
        }
        if c.y0 != was.y0 {
            let j = choose|j: int| 0 <= j < s.len() && (#[trigger] s[j]).1 == c.y0;
            assert(strokes[n][j].1 == c.y0);
        }
        if c.y1 != was.y1 {
            let j = choose|j: int| 0 <= j < s.len() && (#[trigger] s[j]).1 == c.y1;
            assert(strokes[n][j].1 == c.y1);
        }
    }
}

/// Do the bounds fit the strokes exactly? On each axis they hold every point, and touch some
/// point on either side.
pub open spec fn hugs(b: Bounds, strokes: Seq<Seq<(u32, u32)>>) -> bool {
    &&& has_x(strokes, b.x0)
    &&& has_x(strokes, b.x1)
    &&& has_y(strokes, b.y0)
    &&& has_y(strokes, b.y1)
    &&& forall|i: int, j: int|
        0 <= i < strokes.len() && 0 <= j < strokes[i].len() ==> {
            &&& rank(b.x0) <= rank((#[trigger] strokes[i][j]).0) <= rank(b.x1)
            &&& rank(b.y0) <= rank(strokes[i][j].1) <= rank(b.y1)
        }
}

/// The bounds of a sketch are tight: each edge goes through a point, on its own axis, and no
/// point lies outside.
pub proof fn bounds_are_tight(strokes: Seq<Seq<(u32, u32)>>, i: int, j: int)
    requires
        all_finite(strokes),
        0 <= i < strokes.len(),
        0 <= j < strokes[i].len(),
    ensures
        hugs(bounds_of(strokes), strokes),
{
    let b = bounds_of(strokes);
    lemma_edges(strokes);
    assert forall|i: int, j: int| 0 <= i < strokes.len() && 0 <= j < strokes[i].len() implies {
        &&& rank(b.x0) <= rank((#[trigger] strokes[i][j]).0) <= rank(b.x1)
        &&& rank(b.y0) <= rank(strokes[i][j].1) <= rank(b.y1)
    } by {
        bounds_hold_the_sketch(strokes, i, j);
    }
    let p = strokes[i][j];
    assert(finite(p.0) && finite(p.1));
    if b.x0 == 0x7F7F_FFFF {
        assert(p.0 == b.x0);
    }
    if b.x1 == 0xFF7F_FFFF {
        assert(p.0 == b.x1);
    }
    if b.y0 == 0x7F7F_FFFF {
        assert(p.1 == b.y0);
    }
    if b.y1 == 0xFF7F_FFFF {
        assert(p.1 == b.y1);
    }
}

/// A sketch with a point is fitted between its own edges and into what the page has below the
/// top, if that is at least 220 high; one without, or a page with less, takes nothing.
pub proof fn sketch_is_fitted_to_the_page(sketch: Sketch, y_top: i32, f: Option<Fit>)
    requires
        call_ensures(fit, (&sketch, y_top), f),
        all_finite(seqs(sketch@)),
    ensures
        f is Some <==> 2020 - y_top >= 220 && exists|i: int, j: int|
            0 <= i < sketch@.len() && 0 <= j < sketch@[i]@.len() && #[trigger] point_at(sketch, i, j),
        f matches Some(fit) ==> {
            &&& hugs(fit.bounds, seqs(sketch@))
            &&& fit.y_top == y_top
            &&& y_top >= 2020 - i32::MAX ==> fit.room + y_top == 2020
        },
{
    let all = seqs(sketch@);
    if has_points(all) {
        lemma_edges(all);
        let b = bounds_of(all);
        assert(has_x(all, b.x0) || has_x(all, b.x1));
        let x = if has_x(all, b.x0) {
            b.x0
        } else {
            b.x1
        };
        let (i, j) = choose|i: int, j: int|
            0 <= i < all.len() && 0 <= j < all[i].len() && (#[trigger] all[i][j]).0 == x;
        assert(all[i] == sketch@[i]@);
        assert(point_at(sketch, i, j));
        bounds_are_tight(all, i, j);
    }
    assert forall|i: int, j: int|
        0 <= i < sketch@.len() && 0 <= j < sketch@[i]@.len() && #[trigger] point_at(
            sketch,
            i,
            j,
        ) implies has_points(all) by {
        assert(all[i] == sketch@[i]@);
        bounds_are_tight(all, i, j);
        assert(rank(bounds_of(all).x0) <= rank(all[i][j].0) <= rank(bounds_of(all).x1));
    }
}

/// Does the sketch have such a point?
pub open spec fn point_at(sketch: Sketch, i: int, j: int) -> bool {
    0 <= i < sketch@.len() && 0 <= j < sketch@[i]@.len()
}

/// The unsteadiness of a hand is drawn from a stream of its own for each stroke, two numbers for
/// each point: within six and a quarter radians for the wobble, and within one and a half pixels
/// either way for the points.
pub proof fn hand_shakes_within_bounds(seed: u32, k: u32, n: usize, h: Hand, i: int)
    requires
        call_ensures(hand, (seed, k, n), h),
        0xDD + n * 2 <= u32::MAX,
        0 <= i < n,
    ensures
        h.phase < 628,
        h.phase == mixed(seed, k) % 628,
        h.jitter@.len() == n,
        h.jitter@[i].0 < 300 && h.jitter@[i].1 < 300,
        h.jitter@[i].0 == mixed(mixed(seed, k), (0xDD + 2 * i) as u32) % 300,
        h.jitter@[i].1 == mixed(mixed(seed, k), (0xDE + 2 * i) as u32) % 300,
{
}

/// Pixels of which none follows itself are taken as they are.
pub proof fn moving_pen_is_followed(s: Seq<(i32, i32)>)
    requires
        forall|i: int, j: int| 0 <= i && j == i + 1 && j < s.len() ==> #[trigger] s[i] != #[trigger] s[j],
    ensures
        without_repeats(s) == s,
    decreases s.len(),
{
    if s.len() > 0 {
        let rest = s.drop_last();
        assert forall|i: int, j: int|
            0 <= i && j == i + 1 && j < rest.len() implies #[trigger] rest[i] != #[trigger] rest[j] by {
            assert(rest[i] == s[i] && rest[j] == s[j]);
        }
        moving_pen_is_followed(rest);
        if rest.len() > 0 {
            assert(s[s.len() - 2] != s[s.len() - 1]);
        }
        assert(rest.push(s.last()) =~= s);
    }
}

/// A pixel that follows itself counts once.
pub proof fn resting_pen_counts_once(a: Seq<(i32, i32)>, p: (i32, i32), b: Seq<(i32, i32)>)
    ensures
        without_repeats(a.push(p).push(p) + b) == without_repeats(a.push(p) + b),
    decreases b.len(),
{
    let long = a.push(p).push(p) + b;
    let short = a.push(p) + b;
    if b.len() == 0 {
        assert(long =~= a.push(p).push(p));
        assert(short =~= a.push(p));
        assert(long.drop_last() =~= short);
        pen_keeps_moving(short);
    } else {
        let rest = b.drop_last();
        assert(long.drop_last() =~= a.push(p).push(p) + rest);
        assert(short.drop_last() =~= a.push(p) + rest);
        assert(long.last() == b.last() && short.last() == b.last());
        resting_pen_counts_once(a, p, rest);
    }
}

/// A stroke that leaves ink is laid out as it is, in its place among the others; one that leaves
/// none is left out.
pub proof fn inkless_strokes_are_left_out(
    a: Seq<Seq<(i32, i32)>>,
    s: Seq<(i32, i32)>,
    b: Seq<Seq<(i32, i32)>>,
)
    ensures
        s.len() > 0 ==> inked_strokes(a + seq![s] + b) == inked_strokes(a) + seq![s]
            + inked_strokes(b),
        s.len() == 0 ==> inked_strokes(a + seq![s] + b) == inked_strokes(a) + inked_strokes(b),
        inked_strokes(Seq::empty()).len() == 0,
{
    lemma_inked_add(a + seq![s], b);
    lemma_inked_add(a, seq![s]);
    assert(seq![s].drop_last() =~= Seq::empty());
    assert(inked_strokes(Seq::<Seq<(i32, i32)>>::empty()) =~= Seq::empty());
    if s.len() > 0 {
        assert(inked_strokes(seq![s]) =~= seq![s]);
    } else {
        assert(inked_strokes(seq![s]) =~= Seq::empty());
        assert(inked_strokes(a) + inked_strokes(seq![s]) =~= inked_strokes(a));
    }
}

proof fn lemma_inked_add(a: Seq<Seq<(i32, i32)>>, b: Seq<Seq<(i32, i32)>>)
    ensures
        inked_strokes(a + b) == inked_strokes(a) + inked_strokes(b),
    decreases b.len(),
{
    if b.len() == 0 {
        assert(a + b =~= a);
        assert(inked_strokes(a) + inked_strokes(b) =~= inked_strokes(a));
    } else {
        assert((a + b).drop_last() =~= a + b.drop_last());
        assert((a + b).last() == b.last());
        lemma_inked_add(a, b.drop_last());
        assert(inked_strokes(a + b) =~= inked_strokes(a) + inked_strokes(b));
    }
}

/// Does the stroke come down to `y`?
pub open spec fn comes_to(s: Seq<(i32, i32)>, y: i32) -> bool {
    exists|j: int| 0 <= j < s.len() && (#[trigger] s[j]).1 == y
}

/// The bottom edge that a sketch is laid out with is its top edge or goes through a point of it,
/// and no point lies below.
pub proof fn bottom_goes_through_the_lowest_point(
    placed: Option<(Vec<Vec<(i32, i32)>>, i32)>,
    strokes: Seq<Seq<(i32, i32)>>,
    y_top: i32,
)
    requires
        laid_out(placed, strokes, y_top),
    ensures
        placed matches Some((inked, bottom)) ==> {
            &&& bottom >= y_top
            &&& forall|i: int, j: int|
                0 <= i < inked@.len() && 0 <= j < inked@[i]@.len() ==> (#[trigger] inked@[i]@[j]).1
                    <= bottom
            &&& bottom == y_top || exists|i: int|
                0 <= i < inked@.len() && comes_to(#[trigger] inked@[i]@, bottom)
        },
{
    if let Some((inked, bottom)) = placed {
        let all = seqs(inked@);
        bottom_is_lowest(y_top, all);
        lemma_depth_is_reached(y_top, all);
        assert forall|i: int, j: int|
            0 <= i < inked@.len() && 0 <= j < inked@[i]@.len() implies (#[trigger] inked@[i]@[j]).1
            <= bottom by {
            assert(all[i][j] == inked@[i]@[j]);
        }
        if bottom != y_top {
            let i = choose|i: int| 0 <= i < all.len() && comes_to(#[trigger] all[i], bottom);
            assert(comes_to(inked@[i]@, bottom));
        }
    }
}

proof fn lemma_stroke_depth_is_reached(y: i32, s: Seq<(i32, i32)>)
    ensures
        depth_of_stroke(y, s) == y || comes_to(s, depth_of_stroke(y, s)),
    decreases s.len(),
{
    if s.len() > 0 {
        let rest = s.drop_last();
        lemma_stroke_depth_is_reached(y, rest);
        let was = depth_of_stroke(y, rest);
        assert(s[s.len() - 1] == s.last());
        if comes_to(rest, was) {
            let j = choose|j: int| 0 <= j < rest.len() && (#[trigger] rest[j]).1 == was;
            assert(s[j].1 == was);
        }
    }
}

proof fn lemma_depth_is_reached(y: i32, strokes: Seq<Seq<(i32, i32)>>)
    ensures
        depth_of(y, strokes) == y || exists|i: int|
            0 <= i < strokes.len() && comes_to(#[trigger] strokes[i], depth_of(y, strokes)),
    decreases strokes.len(),
{
    if strokes.len() > 0 {
        let rest = strokes.drop_last();
        let was = depth_of(y, rest);
        lemma_depth_is_reached(y, rest);
        lemma_stroke_depth_is_reached(was, strokes.last());
        assert(strokes[strokes.len() - 1] == strokes.last());
        if depth_of(y, strokes) == was && was != y {
            let i = choose|i: int| 0 <= i < rest.len() && comes_to(#[trigger] rest[i], was);
            assert(strokes[i] == rest[i]);
        }
    }
}

/// The seed of a sketch takes in point after point, whichever strokes they belong to, from one
/// and the same start.
pub proof fn seed_takes_in_point_after_point(strokes: Seq<Seq<(u32, u32)>>)
    ensures
        seed_of(strokes) == strokes.flatten().fold_left(
            0x51D2u32,
            |h: u32, cell: (u32, u32)| mixed(h, cell.0 ^ (cell.1 << 8)),
        ),
    decreases strokes.len(),
{
    if strokes.len() > 0 {
        let rest = strokes.drop_last();
        seed_takes_in_point_after_point(rest);
        lemma_seed_of_stroke(seed_of(rest), strokes.last());
        rest.lemma_flatten_push(strokes.last());
        assert(rest.push(strokes.last()) =~= strokes);
        lemma_fold_left_add(rest.flatten(), strokes.last(), 0x51D2u32);
    } else {
        assert(strokes.flatten().len() == 0);
    }
}

proof fn lemma_seed_of_stroke(h: u32, s: Seq<(u32, u32)>)
    ensures
        seed_with(h, s) == s.fold_left(
            h,
            |h: u32, cell: (u32, u32)| mixed(h, cell.0 ^ (cell.1 << 8)),
        ),
    decreases s.len(),
{
    if s.len() > 0 {
        lemma_seed_of_stroke(h, s.drop_last());
    }
}

proof fn lemma_fold_left_add(a: Seq<(u32, u32)>, b: Seq<(u32, u32)>, h: u32)
    ensures
        ({
            let f = |h: u32, cell: (u32, u32)| mixed(h, cell.0 ^ (cell.1 << 8));
            (a + b).fold_left(h, f) == b.fold_left(a.fold_left(h, f), f)
        }),
    decreases b.len(),
{
    if b.len() == 0 {
        assert(a + b =~= a);
    } else {
        assert((a + b).drop_last() =~= a + b.drop_last());
        lemma_fold_left_add(a, b.drop_last(), h);
    }
}

// --- The way of the hand ---

/// Is the pixel one that `mark` may give for step `i` of leg `k`?
pub open spec fn comes_by<K: Fn(Leg, Fit, u32, u32) -> (i32, i32)>(
    mark: K,
    legs: Seq<Leg>,
    ends: Seq<Stretch>,
    fit: Fit,
    k: int,
    i: int,
    q: (i32, i32),
) -> bool {
    &&& 0 <= k < legs.len()
    &&& 0 <= i <= ends[k].steps
    &&& call_ensures(mark, (legs[k], fit, i as u32, ends[k].steps), q)
}

/// Does the pen come by a pixel that `mark` may give for step `i` of leg `k`?
pub open spec fn passes<K: Fn(Leg, Fit, u32, u32) -> (i32, i32)>(
    mark: K,
    legs: Seq<Leg>,
    ends: Seq<Stretch>,
    fit: Fit,
    k: int,
    i: int,
    steps: Seq<(i32, i32)>,
) -> bool {
    exists|q: (i32, i32)|
        steps.contains(q) && #[trigger] comes_by(mark, legs, ends, fit, k, i, q)
}

/// Is the pixel one that `mark` may give for some step of some leg?
pub open spec fn lies_on_a_leg<K: Fn(Leg, Fit, u32, u32) -> (i32, i32)>(
    mark: K,
    legs: Seq<Leg>,
    ends: Seq<Stretch>,
    fit: Fit,
    q: (i32, i32),
) -> bool {
    exists|k: int, i: int| #[trigger] comes_by(mark, legs, ends, fit, k, i, q)
}

/// Are these the ways from each point of a stroke to the next, and what `measure` may give for
/// them? The length of the stroke is carried from each to the next.
pub open spec fn joins_points<M: Fn(Leg, Fit) -> Stretch>(
    measure: M,
    stroke: Seq<(u32, u32)>,
    fit: Fit,
    hand: Hand,
    legs: Seq<Leg>,
    ends: Seq<Stretch>,
) -> bool {
    &&& legs.len() + 1 == stroke.len()
    &&& ends.len() == legs.len()
    &&& legs[0].along == 0
    &&& forall|k: int|
        0 <= k < legs.len() ==> {
            &&& (#[trigger] legs[k]).from == stroke[k]
            &&& legs[k].to == stroke[k + 1]
            &&& legs[k].from_jitter == hand.jitter@[k]
            &&& legs[k].to_jitter == hand.jitter@[k + 1]
            &&& legs[k].phase == hand.phase
            &&& call_ensures(measure, (legs[k], fit), ends[k])
            &&& k > 0 ==> legs[k].along == ends[k - 1].along
        }
}

/// Does the pen start at the start of the first leg, end at the end of the last, and come by
/// each step of each leg and nothing else?
pub open spec fn follows<K: Fn(Leg, Fit, u32, u32) -> (i32, i32)>(
    mark: K,
    fit: Fit,
    legs: Seq<Leg>,
    ends: Seq<Stretch>,
    steps: Seq<(i32, i32)>,
) -> bool {
    &&& steps.len() > 0
    &&& comes_by(mark, legs, ends, fit, 0, 0, steps[0])
    &&& comes_by(
        mark,
        legs,
        ends,
        fit,
        legs.len() - 1,
        ends[legs.len() - 1].steps as int,
        steps.last(),
    )
    &&& forall|m: int|
        0 <= m < steps.len() ==> lies_on_a_leg(mark, legs, ends, fit, #[trigger] steps[m])
    &&& forall|k: int, i: int|
        0 <= k < legs.len() && 0 <= i <= ends[k].steps ==> #[trigger] passes(
            mark,
            legs,
            ends,
            fit,
            k,
            i,
            steps,
        )
}

proof fn lemma_flat(parts: Seq<Seq<(i32, i32)>>)
    requires
        forall|k: int| 0 <= k < parts.len() ==> (#[trigger] parts[k]).len() > 0,
    ensures
        parts.len() > 0 ==> parts.flatten().len() > 0 && parts.flatten()[0] == parts[0][0]
            && parts.flatten().last() == parts.last().last(),
        forall|q: (i32, i32)| #[trigger]
            parts.flatten().contains(q) ==> exists|k: int|
                0 <= k < parts.len() && #[trigger] parts[k].contains(q),
        forall|k: int, q: (i32, i32)|
            0 <= k < parts.len() && #[trigger] parts[k].contains(q) ==> parts.flatten().contains(q),
    decreases parts.len(),
{
    if parts.len() > 0 {
        let rest = parts.drop_last();
        let last = parts.last();
        assert forall|k: int| 0 <= k < rest.len() implies (#[trigger] rest[k]).len() > 0 by {
            assert(rest[k] == parts[k]);
        }
        lemma_flat(rest);
        rest.lemma_flatten_push(last);
        assert(rest.push(last) =~= parts);
        let all = parts.flatten();
        let was = rest.flatten();
        assert(all == was + last);
        assert(parts[parts.len() - 1] == last);
        if rest.len() > 0 {
            assert(rest[0] == parts[0]);
        } else {
            assert(was.len() == 0);
            assert(all[0] == last[0]);
        }
        assert(all.last() == last.last());
        assert forall|q: (i32, i32)| #[trigger] all.contains(q) implies exists|k: int|
            0 <= k < parts.len() && #[trigger] parts[k].contains(q) by {
            let i = choose|i: int| 0 <= i < all.len() && all[i] == q;
            if i < was.len() {
                assert(was[i] == q);
                assert(was.contains(q));
                let k = choose|k: int| 0 <= k < rest.len() && #[trigger] rest[k].contains(q);
                assert(parts[k].contains(q));
            } else {
                assert(last[i - was.len()] == q);
                assert(parts[parts.len() - 1].contains(q));
            }
        }
        assert forall|k: int, q: (i32, i32)|
            0 <= k < parts.len() && #[trigger] parts[k].contains(q) implies all.contains(q) by {
            if k < rest.len() {
                assert(rest[k].contains(q));
                let i = choose|i: int| 0 <= i < was.len() && was[i] == q;
                assert(all[i] == q);
            } else {
                let i = choose|i: int| 0 <= i < last.len() && last[i] == q;
                assert(all[was.len() + i] == q);
            }
        }
    }
}

/// The ways from each point of a stroke to the next, when they end so.
spec fn legs_of(stroke: Seq<(u32, u32)>, hand: Hand, ends: Seq<Stretch>) -> Seq<Leg> {
    Seq::new(ends.len(), |k: int| leg_of(stroke, hand, k, along_before(ends, k)))
}

proof fn lemma_joins<M: Fn(Leg, Fit) -> Stretch>(
    measure: M,
    stroke: Seq<(u32, u32)>,
    fit: Fit,
    hand: Hand,
    ends: Seq<Stretch>,
)
    requires
        stroke.len() >= 2,
        ends.len() == stroke.len() - 1,
        measured(measure, stroke, fit, hand, ends),
    ensures
        joins_points(measure, stroke, fit, hand, legs_of(stroke, hand, ends), ends),
{
    let legs = legs_of(stroke, hand, ends);
    assert forall|k: int| 0 <= k < legs.len() implies call_ensures(
        measure,
        (#[trigger] legs[k], fit),
        ends[k],
    ) by {
        assert(legs[k] == leg_of(stroke, hand, k, along_before(ends, k)));
    }
}

proof fn lemma_marks_come_by<K: Fn(Leg, Fit, u32, u32) -> (i32, i32)>(
    mark: K,
    fit: Fit,
    legs: Seq<Leg>,
    ends: Seq<Stretch>,
    marks: Seq<Seq<(i32, i32)>>,
)
    requires
        ends.len() == legs.len(),
        marks.len() == legs.len(),
        forall|k: int|
            0 <= k < marks.len() ==> marked_leg(
                mark,
                legs[k],
                fit,
                ends[k].steps,
                #[trigger] marks[k],
            ),
    ensures
        forall|k: int| 0 <= k < marks.len() ==> (#[trigger] marks[k]).len() == ends[k].steps + 1,
        forall|k: int, i: int|
            0 <= k < legs.len() && 0 <= i <= ends[k].steps ==> #[trigger] comes_by(
                mark,
                legs,
                ends,
                fit,
                k,
                i,
                marks[k][i],
            ),
{
    assert forall|k: int| 0 <= k < marks.len() implies (#[trigger] marks[k]).len() == ends[k].steps
        + 1 by {
        assert(marked_leg(mark, legs[k], fit, ends[k].steps, marks[k]));
    }
    assert forall|k: int, i: int|
        0 <= k < legs.len() && 0 <= i <= ends[k].steps implies #[trigger] comes_by(
        mark,
        legs,
        ends,
        fit,
        k,
        i,
        marks[k][i],
    ) by {
        assert(marked_leg(mark, legs[k], fit, ends[k].steps, marks[k]));
    }
}

proof fn lemma_all_passed<K: Fn(Leg, Fit, u32, u32) -> (i32, i32)>(
    mark: K,
    fit: Fit,
    legs: Seq<Leg>,
    ends: Seq<Stretch>,
    marks: Seq<Seq<(i32, i32)>>,
    steps: Seq<(i32, i32)>,
)
    requires
        ends.len() == legs.len(),
        marks.len() == legs.len(),
        forall|k: int|
            0 <= k < marks.len() ==> marked_leg(
                mark,
                legs[k],
                fit,
                ends[k].steps,
                #[trigger] marks[k],
            ),
        steps == without_repeats(marks.flatten()),
    ensures
        forall|k: int, i: int|
            0 <= k < legs.len() && 0 <= i <= ends[k].steps ==> #[trigger] passes(
                mark,
                legs,
                ends,
                fit,
                k,
                i,
                steps,
            ),
{
    lemma_marks_come_by(mark, fit, legs, ends, marks);
    lemma_flat(marks);
    pen_keeps_moving(marks.flatten());
    assert forall|k: int, i: int|
        0 <= k < legs.len() && 0 <= i <= ends[k].steps implies #[trigger] passes(
        mark,
        legs,
        ends,
        fit,
        k,
        i,
        steps,
    ) by {
        let q = marks[k][i];
        assert(marks[k].contains(q));
        assert(marks.flatten().contains(q));
        assert(steps.contains(q));
        assert(comes_by(mark, legs, ends, fit, k, i, marks[k][i]));
    }
}

proof fn lemma_follows<K: Fn(Leg, Fit, u32, u32) -> (i32, i32)>(
    mark: K,
    fit: Fit,
    legs: Seq<Leg>,
    ends: Seq<Stretch>,
    marks: Seq<Seq<(i32, i32)>>,
    steps: Seq<(i32, i32)>,
)
    requires
        legs.len() > 0,
        ends.len() == legs.len(),
        marks.len() == legs.len(),
        forall|k: int|
            0 <= k < marks.len() ==> marked_leg(
                mark,
                legs[k],
                fit,
                ends[k].steps,
                #[trigger] marks[k],
            ),
        steps == without_repeats(marks.flatten()),
    ensures
        follows(mark, fit, legs, ends, steps),
{
    let n = legs.len() as int;
    let all = marks.flatten();
    let z = ends[n - 1].steps as int;
    lemma_marks_come_by(mark, fit, legs, ends, marks);
    lemma_flat(marks);
    pen_keeps_moving(all);
    assert(marks[0].len() == ends[0].steps + 1);
    assert(marks[n - 1].len() == z + 1);
    assert(steps[0] == marks[0][0]);
    assert(comes_by(mark, legs, ends, fit, 0, 0, marks[0][0]));
    assert(marks.last() == marks[n - 1]);
    assert(marks[n - 1].last() == marks[n - 1][z]);
    assert(steps.last() == marks[n - 1][z]);
    assert(comes_by(mark, legs, ends, fit, n - 1, z, marks[n - 1][z]));
    assert forall|m: int| 0 <= m < steps.len() implies lies_on_a_leg(
        mark,
        legs,
        ends,
        fit,
        #[trigger] steps[m],
    ) by {
        let q = steps[m];
        assert(steps.contains(q));
        assert(all.contains(q));
        let k = choose|k: int| 0 <= k < marks.len() && #[trigger] marks[k].contains(q);
        let i = choose|i: int| 0 <= i < marks[k].len() && marks[k][i] == q;
        assert(comes_by(mark, legs, ends, fit, k, i, marks[k][i]));
    }
    lemma_all_passed(mark, fit, legs, ends, marks, steps);
}

/// A stroke is walked from point to point, in order and from its first to its last, without a
/// gap: each leg starts where the one before it ended, on the canvas and in length.
pub proof fn stroke_is_walked_from_point_to_point<
    D: Fn((u32, u32), (u32, u32), Fit) -> (i32, i32),
    M: Fn(Leg, Fit) -> Stretch,
    K: Fn(Leg, Fit, u32, u32) -> (i32, i32),
>(
    dot: D,
    measure: M,
    mark: K,
    stroke: Seq<(u32, u32)>,
    fit: Fit,
    hand: Hand,
    steps: Seq<(i32, i32)>,
)
    requires
        wobbles(dot, measure, mark, stroke, fit, hand, steps),
        stroke.len() >= 2,
    ensures
        exists|legs: Seq<Leg>, ends: Seq<Stretch>| #[trigger]
            joins_points(measure, stroke, fit, hand, legs, ends) && follows(
                mark,
                fit,
                legs,
                ends,
                steps,
            ),
{
    let (ends, marks) = choose|legs: Seq<Stretch>, marks: Seq<Seq<(i32, i32)>>| #[trigger]
        walked(measure, mark, stroke, fit, hand, legs, marks, steps);
    let legs = legs_of(stroke, hand, ends);
    lemma_joins(measure, stroke, fit, hand, ends);
    assert forall|k: int| 0 <= k < marks.len() implies marked_leg(
        mark,
        legs[k],
        fit,
        ends[k].steps,
        #[trigger] marks[k],
    ) by {
        assert(legs[k] == leg_of(stroke, hand, k, along_before(ends, k)));
    }
    lemma_follows(mark, fit, legs, ends, marks, steps);
}

/// Is the unsteadiness that of stroke `k`, of `n` points?
pub open spec fn shakes(h: Hand, seed: u32, k: int, n: nat) -> bool {
    &&& h.phase == mixed(seed, k as u32) % 628
    &&& h.jitter@.len() == n
    &&& forall|i: int|
        0 <= i < n ==> (#[trigger] h.jitter@[i]).0 == mixed(
            mixed(seed, k as u32),
            (0xDD + 2 * i) as u32,
        ) % 300 && h.jitter@[i].1 == mixed(mixed(seed, k as u32), (0xDE + 2 * i) as u32) % 300
}

/// Is the stroke followed in these steps: a dot to where `dot` puts it, any other from point to
/// point?
pub open spec fn traces<
    D: Fn((u32, u32), (u32, u32), Fit) -> (i32, i32),
    M: Fn(Leg, Fit) -> Stretch,
    K: Fn(Leg, Fit, u32, u32) -> (i32, i32),
>(
    dot: D,
    measure: M,
    mark: K,
    stroke: Seq<(u32, u32)>,
    f: Fit,
    h: Hand,
    steps: Seq<(i32, i32)>,
) -> bool {
    if stroke.len() == 1 {
        steps.len() == 1 && call_ensures(dot, (stroke[0], h.jitter@[0], f), steps[0])
    } else {
        exists|legs: Seq<Leg>, ends: Seq<Stretch>| #[trigger]
            joins_points(measure, stroke, f, h, legs, ends) && follows(mark, f, legs, ends, steps)
    }
}

/// Is the stroke followed by a hand whose unsteadiness is that of stroke `k`, fitted between the
/// edges of the sketch and the bottom of the page?
pub open spec fn drawn_below<
    D: Fn((u32, u32), (u32, u32), Fit) -> (i32, i32),
    M: Fn(Leg, Fit) -> Stretch,
    K: Fn(Leg, Fit, u32, u32) -> (i32, i32),
>(
    dot: D,
    measure: M,
    mark: K,
    sketch: Seq<Seq<(u32, u32)>>,
    y_top: i32,
    seed: u32,
    k: int,
    steps: Seq<(i32, i32)>,
    f: Fit,
    h: Hand,
) -> bool {
    &&& hugs(f.bounds, sketch)
    &&& f.y_top == y_top
    &&& y_top >= 2020 - i32::MAX ==> f.room + y_top == 2020
    &&& shakes(h, seed, k, sketch[k].len())
    &&& traces(dot, measure, mark, sketch[k], f, h, steps)
}

proof fn lemma_all_inked(strokes: Seq<Seq<(i32, i32)>>)
    requires
        forall|k: int| 0 <= k < strokes.len() ==> (#[trigger] strokes[k]).len() > 0,
    ensures
        inked_strokes(strokes) == strokes,
    decreases strokes.len(),
{
    if strokes.len() > 0 {
        let rest = strokes.drop_last();
        assert forall|k: int| 0 <= k < rest.len() implies (#[trigger] rest[k]).len() > 0 by {
            assert(rest[k] == strokes[k]);
        }
        lemma_all_inked(rest);
        assert(strokes[strokes.len() - 1].len() > 0);
        assert(rest.push(strokes.last()) =~= strokes);
    }
}

proof fn lemma_traces<
    D: Fn((u32, u32), (u32, u32), Fit) -> (i32, i32),
    M: Fn(Leg, Fit) -> Stretch,
    K: Fn(Leg, Fit, u32, u32) -> (i32, i32),
>(
    dot: D,
    measure: M,
    mark: K,
    stroke: Seq<(u32, u32)>,
    f: Fit,
    h: Hand,
    steps: Seq<(i32, i32)>,
)
    requires
        wobbles(dot, measure, mark, stroke, f, h, steps),
        stroke.len() > 0,
    ensures
        steps.len() > 0,
        traces(dot, measure, mark, stroke, f, h, steps),
{
    points_leave_ink(dot, measure, mark, stroke, f, h, steps);
    if stroke.len() >= 2 {
        stroke_is_walked_from_point_to_point(dot, measure, mark, stroke, f, h, steps);
    }
}

proof fn lemma_shakes(h: Hand, seed: u32, k: int, n: nat)
    requires
        hand_of(h, seed, k, n),
    ensures
        shakes(h, seed, k, n),
{
}

proof fn lemma_drawn_stroke<
    D: Fn((u32, u32), (u32, u32), Fit) -> (i32, i32),
    M: Fn(Leg, Fit) -> Stretch,
    K: Fn(Leg, Fit, u32, u32) -> (i32, i32),
>(
    dot: D,
    measure: M,
    mark: K,
    sketch: Seq<Seq<(u32, u32)>>,
    y_top: i32,
    seed: u32,
    k: int,
    steps: Seq<(i32, i32)>,
)
    requires
        draws_stroke(dot, measure, mark, sketch, y_top, seed, k, steps),
        hugs(bounds_of(sketch), sketch),
        sketch[k].len() > 0,
    ensures
        steps.len() > 0,
        exists|f: Fit, h: Hand| #[trigger]
            drawn_below(dot, measure, mark, sketch, y_top, seed, k, steps, f, h),
{
    let f = fit_of(sketch, y_top);
    let h = choose|h: Hand|
        hand_of(h, seed, k, sketch[k].len()) && #[trigger] wobbles(
            dot,
            measure,
            mark,
            sketch[k],
            f,
            h,
            steps,
        );
    lemma_traces(dot, measure, mark, sketch[k], f, h, steps);
    lemma_shakes(h, seed, k, sketch[k].len());
    assert(drawn_below(dot, measure, mark, sketch, y_top, seed, k, steps, f, h));
}

/// Where the page has room, every stroke of a sketch is drawn, in order, each by its own hand
/// and all fitted alike: between the edges of the whole sketch and below the same top.
pub proof fn strokes_are_drawn_in_order<
    D: Fn((u32, u32), (u32, u32), Fit) -> (i32, i32),
    M: Fn(Leg, Fit) -> Stretch,
    K: Fn(Leg, Fit, u32, u32) -> (i32, i32),
>(
    dot: D,
    measure: M,
    mark: K,
    sketch: Seq<Seq<(u32, u32)>>,
    y_top: i32,
    seed: u32,
    placed: Option<(Vec<Vec<(i32, i32)>>, i32)>,
    k: int,
)
    requires
        places(dot, measure, mark, sketch, y_top, seed, placed),
        all_finite(sketch),
        forall|k: int| 0 <= k < sketch.len() ==> (#[trigger] sketch[k]).len() > 0,
        2020 - y_top >= 220,
        0 <= k < sketch.len(),
    ensures
        placed is Some,
        placed matches Some((inked, bottom)) ==> {
            &&& inked@.len() == sketch.len()
            &&& exists|f: Fit, h: Hand| #[trigger]
                drawn_below(dot, measure, mark, sketch, y_top, seed, k, inked@[k]@, f, h)
        },
{
    assert(sketch[k].len() > 0);
    bounds_are_tight(sketch, k, 0);
    assert(rank(bounds_of(sketch).x0) <= rank(sketch[k][0].0) <= rank(bounds_of(sketch).x1));
    let strokes = choose|strokes: Seq<Seq<(i32, i32)>>|
        draws(dot, measure, mark, sketch, y_top, seed, strokes) && #[trigger] laid_out(
            placed,
            strokes,
            y_top,
        );
    assert forall|k: int| 0 <= k < strokes.len() implies (#[trigger] strokes[k]).len() > 0 by {
        assert(sketch[k].len() > 0);
        lemma_drawn_stroke(dot, measure, mark, sketch, y_top, seed, k, strokes[k]);
    }
    lemma_all_inked(strokes);
    let (inked, bottom) = placed->0;
    assert(seqs(inked@).len() == inked@.len());
    assert(seqs(inked@)[k] == inked@[k]@);
    lemma_drawn_stroke(dot, measure, mark, sketch, y_top, seed, k, strokes[k]);
}

/// What the bounds of a sketch are asked for is what they are: tight round its points.
pub proof fn bounds_hug_the_sketch(sketch: Sketch, b: Bounds, i: int, j: int)
    requires
        call_ensures(bounds, (&sketch,), b),
        all_finite(seqs(sketch@)),
        point_at(sketch, i, j),
    ensures
        hugs(b, seqs(sketch@)),
{
    assert(seqs(sketch@)[i] == sketch@[i]@);
    bounds_are_tight(seqs(sketch@), i, j);
}

/// A sketch that is spaced in any way is read as it was written, wherever its coordinates read
/// as numbers of the canvas.
pub proof fn spaced_sketch_is_read<R: Fn(&str) -> Option<u32>>(
    read: R,
    inner: &str,
    before: Seq<char>,
    word: Seq<char>,
    lead: Seq<char>,
    texts: Seq<Seq<(Seq<char>, Seq<char>)>>,
    gaps: Seq<Seq<Seq<char>>>,
    after: Seq<char>,
    sketch: Seq<Seq<(u32, u32)>>,
    parsed: Option<Sketch>,
)
    requires
        call_ensures(parse::<R>, (inner, read), parsed),
        inner@ == before + (word + lead + spaced_strokes(texts, gaps)) + after,
        all_space(before),
        all_space(after),
        says_draw(word),
        forall|i: int| 0 <= i < lead.len() ==> leads_in(#[trigger] lead[i]),
        writable_strokes(texts),
        parts_strokes(gaps, texts),
        stands_for(read, texts, sketch),
        forall|k: int, j: int|
            0 <= k < sketch.len() && 0 <= j < sketch[k].len() ==> on_canvas(
                #[trigger] sketch[k][j],
            ),
    ensures
        parsed is Some,
        seqs(parsed->0@) == sketch,
{
    any_spacing_draws_the_same(before, word, lead, texts, gaps, after);
    assert forall|k: int| 0 <= k < sketch.len() implies (#[trigger] sketch[k]).len() > 0 by {
        assert(writable_stroke(texts[k]));
    }
    sketch_is_read_in_any_spacing(read, inner@, texts, sketch, parsed);
}

/// A text that does not open with the word is no sketch, and one of which nothing drawable is
/// left gives none either.
pub proof fn prose_is_no_sketch<R: Fn(&str) -> Option<u32>>(
    read: R,
    inner: &str,
    parsed: Option<Sketch>,
)
    requires
        call_ensures(parse::<R>, (inner, read), parsed),
        !(trimmed(inner@).len() >= 4 && says_draw(trimmed(inner@).take(4))),
    ensures
        parsed is None,
{
    only_the_word_opens_a_sketch(inner@);
}

/// What a sketch is placed as answers to the sketch stroke by stroke, as the law on its strokes
/// says; where the page has no room or the sketch no point, there is nothing.
pub proof fn sketch_is_placed_stroke_by_stroke<
    D: Fn((u32, u32), (u32, u32), Fit) -> (i32, i32),
    M: Fn(Leg, Fit) -> Stretch,
    K: Fn(Leg, Fit, u32, u32) -> (i32, i32),
>(
    sketch: Sketch,
    y_top: i32,
    seed: u32,
    dot: D,
    measure: M,
    mark: K,
    placed: Option<(Vec<Vec<(i32, i32)>>, i32)>,
    k: int,
)
    requires
        call_ensures(place::<D, M, K>, (&sketch, y_top, seed, dot, measure, mark), placed),
        all_finite(seqs(sketch@)),
        forall|k: int| 0 <= k < sketch@.len() ==> (#[trigger] sketch@[k])@.len() > 0,
        0 <= k < sketch@.len(),
    ensures
        placed is Some <==> 2020 - y_top >= 220,
        placed matches Some((inked, bottom)) ==> {
            &&& inked@.len() == sketch@.len()
            &&& exists|f: Fit, h: Hand| #[trigger]
                drawn_below(dot, measure, mark, seqs(sketch@), y_top, seed, k, inked@[k]@, f, h)
            &&& bottom >= y_top
        },
{
    let all = seqs(sketch@);
    assert forall|k: int| 0 <= k < all.len() implies (#[trigger] all[k]).len() > 0 by {
        assert(all[k] == sketch@[k]@);
        assert(sketch@[k]@.len() > 0);
    }
    if 2020 - y_top >= 220 {
        strokes_are_drawn_in_order(dot, measure, mark, all, y_top, seed, placed, k);
        let strokes = choose|strokes: Seq<Seq<(i32, i32)>>|
            draws(dot, measure, mark, all, y_top, seed, strokes) && #[trigger] laid_out(
                placed,
                strokes,
                y_top,
            );
        bottom_is_lowest(y_top, inked_strokes(strokes));
    }
}

/// Are these what `cell` may give for the points of the sketch, one after the other?
pub open spec fn cell_by_cell<C: Fn(u32, u32) -> (u32, u32)>(
    cell: C,
    sketch: Sketch,
    cells: Seq<Seq<(u32, u32)>>,
) -> bool {
    &&& cells.len() == sketch@.len()
    &&& forall|k: int|
        0 <= k < cells.len() ==> (#[trigger] cells[k]).len() == sketch@[k]@.len()
    &&& forall|k: int, i: int|
        0 <= k < cells.len() && 0 <= i < cells[k].len() ==> call_ensures(
            cell,
            (sketch@[k]@[i].0, sketch@[k]@[i].1),
            #[trigger] cells[k][i],
        )
}

/// The seed of a sketch hangs on the cell of every point, in order.
pub proof fn every_point_counts_for_the_seed<C: Fn(u32, u32) -> (u32, u32)>(
    sketch: Sketch,
    cell: C,
    seed: u32,
)
    requires
        call_ensures(sketch_seed::<C>, (&sketch, cell), seed),
    ensures
        exists|cells: Seq<Seq<(u32, u32)>>| #[trigger]
            cell_by_cell(cell, sketch, cells) && seed == cells.flatten().fold_left(
                0x51D2u32,
                |h: u32, cell: (u32, u32)| mixed(h, cell.0 ^ (cell.1 << 8)),
            ),
{
    let cells = choose|cells: Seq<Seq<(u32, u32)>>|
        cells_sketch(cell, seqs(sketch@), cells) && seed == #[trigger] seed_of(cells);
    seed_takes_in_point_after_point(cells);
    assert forall|k: int| 0 <= k < cells.len() implies (#[trigger] cells[k]).len()
        == sketch@[k]@.len() && cells_stroke(cell, sketch@[k]@, cells[k]) by {
        assert(seqs(sketch@)[k] == sketch@[k]@);
    }
    assert(cell_by_cell(cell, sketch, cells));
}

/// A sketch is laid out where any stroke of it leaves ink, and only there.
pub proof fn only_ink_is_laid_out(
    strokes: Vec<Vec<(i32, i32)>>,
    y_top: i32,
    placed: Option<(Vec<Vec<(i32, i32)>>, i32)>,
)
    requires
        call_ensures(lay_out, (strokes, y_top), placed),
    ensures
        placed is Some <==> exists|k: int|
            0 <= k < strokes@.len() && (#[trigger] strokes@[k])@.len() > 0,
        placed matches Some((inked, bottom)) ==> forall|k: int|
            0 <= k < inked@.len() ==> (#[trigger] inked@[k])@.len() > 0,
{
    let all = seqs(strokes@);
    lemma_inked_have_points(all);
    if exists|k: int| 0 <= k < strokes@.len() && (#[trigger] strokes@[k])@.len() > 0 {
        let k = choose|k: int| 0 <= k < strokes@.len() && (#[trigger] strokes@[k])@.len() > 0;
        assert(all[k] == strokes@[k]@);
        lemma_ink_is_kept(all, k);
    }
    if inked_strokes(all).len() > 0 {
        let k = choose|k: int| 0 <= k < all.len() && (#[trigger] all[k]).len() > 0;
        assert(strokes@[k]@.len() > 0);
    }
    if let Some((inked, bottom)) = placed {
        assert forall|k: int| 0 <= k < inked@.len() implies (#[trigger] inked@[k])@.len() > 0 by {
            assert(seqs(inked@)[k] == inked@[k]@);
        }
    }
}

proof fn lemma_inked_have_points(strokes: Seq<Seq<(i32, i32)>>)
    ensures
        forall|k: int|
            0 <= k < inked_strokes(strokes).len() ==> (#[trigger] inked_strokes(strokes)[k]).len()
                > 0,
        inked_strokes(strokes).len() > 0 ==> exists|k: int|
            0 <= k < strokes.len() && (#[trigger] strokes[k]).len() > 0,
    decreases strokes.len(),
{
    if strokes.len() > 0 {
        let rest = strokes.drop_last();
        lemma_inked_have_points(rest);
        assert(strokes[strokes.len() - 1] == strokes.last());
        if inked_strokes(rest).len() > 0 {
            let k = choose|k: int| 0 <= k < rest.len() && (#[trigger] rest[k]).len() > 0;
            assert(strokes[k].len() > 0);
        }
    }
}

} // verus!
