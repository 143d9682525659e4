//! Writing plans: strokes laid out on the page, and how far the hand has come in them.
use crate::fb::{grown_is_least, lesser, plus, Action, BBox, Shade};
use vstd::prelude::*;

verus! {

/// One movement of the hand: the ink it leaves, and the square of page that it touches.
pub struct Dab {
    pub action: Action,
    pub x: i32,
    pub y: i32,
    pub margin: i32,
}

/// A point of a planned stroke, and how the hand inks it.
pub trait Inked: Sized {
    /// The movement that brings the hand to place `j` of stroke `s`.
    spec fn dab(s: Seq<Self>, j: int) -> Dab;

    /// The movement that brings the hand to place `j` of stroke `s`.
    fn dab_at(s: &Vec<Self>, j: usize) -> (d: Dab)
        requires
            j < s@.len(),
        ensures
            d == Self::dab(s@, j as int),
    ;
}

/// Half the width of the writing hand's line.
pub const HAND: i32 = 2;

/// A point of fresh writing. The first point of a stroke is a blot, each later one a line from
/// the point before.
impl Inked for (i32, i32) {
    open spec fn dab(s: Seq<(i32, i32)>, j: int) -> Dab {
        Dab {
            action: if j == 0 {
                Action::Stamp { x: s[j].0, y: s[j].1, r: HAND, shade: Shade::Black }
            } else {
                Action::Brush {
                    x0: s[j - 1].0,
                    y0: s[j - 1].1,
                    x1: s[j].0,
                    y1: s[j].1,
                    r: HAND,
                    shade: Shade::Black,
                }
            },
            x: s[j].0,
            y: s[j].1,
            margin: 4,
        }
    }

    fn dab_at(s: &Vec<(i32, i32)>, j: usize) -> (d: Dab) {
        let (x, y) = s[j];
        let action = if j > 0 {
            let (px, py) = s[j - 1];
            Action::Brush { x0: px, y0: py, x1: x, y1: y, r: HAND, shade: Shade::Black }
        } else {
            Action::Stamp { x, y, r: HAND, shade: Shade::Black }
        };
        Dab { action, x, y, margin: 4 }
    }
}

/// A point of a remembered page, with the radius that the pen had there. The line to it is no
/// more than one wider than the point before.
impl Inked for (i32, i32, i32) {
    open spec fn dab(s: Seq<(i32, i32, i32)>, j: int) -> Dab {
        Dab {
            action: if j == 0 {
                Action::Stamp { x: s[j].0, y: s[j].1, r: s[j].2, shade: Shade::Faded }
            } else {
                Action::Brush {
                    x0: s[j - 1].0,
                    y0: s[j - 1].1,
                    x1: s[j].0,
                    y1: s[j].1,
                    r: if s[j].2 <= s[j - 1].2 + 1 { s[j].2 } else { (s[j - 1].2 + 1) as i32 },
                    shade: Shade::Faded,
                }
            },
            x: s[j].0,
            y: s[j].1,
            margin: crate::fb::fitted(s[j].2 + 2),
        }
    }

    fn dab_at(s: &Vec<(i32, i32, i32)>, j: usize) -> (d: Dab) {
        let (x, y, r) = s[j];
        let action = if j > 0 {
            let (px, py, pr) = s[j - 1];
            Action::Brush { x0: px, y0: py, x1: x, y1: y, r: lesser(r, plus(pr, 1)), shade: Shade::Faded }
        } else {
            Action::Stamp { x, y, r, shade: Shade::Faded }
        };
        Dab { action, x, y, margin: plus(r, 2) }
    }
}

/// The movements that ink one stroke.
pub open spec fn stroke_dabs<T: Inked>(s: Seq<T>) -> Seq<Dab> {
    Seq::new(s.len(), |j: int| T::dab(s, j))
}

/// The movements that ink the first `i` strokes.
pub open spec fn dabs_to<T: Inked>(strokes: Seq<Vec<T>>, i: int) -> Seq<Dab>
    decreases i,
{
    if i <= 0 {
        Seq::empty()
    } else {
        dabs_to(strokes, i - 1) + stroke_dabs(strokes[i - 1]@)
    }
}

/// All the movements of a plan.
pub open spec fn all_dabs<T: Inked>(strokes: Seq<Vec<T>>) -> Seq<Dab> {
    dabs_to(strokes, strokes.len() as int)
}

/// The movements made once the hand has come to place `j` of stroke `i`.
pub open spec fn dabs_made<T: Inked>(strokes: Seq<Vec<T>>, i: int, j: int) -> Seq<Dab> {
    if i < strokes.len() {
        dabs_to(strokes, i) + stroke_dabs(strokes[i]@).take(j)
    } else {
        dabs_to(strokes, i)
    }
}

/// Is `i`, `j` a place that the hand can be at?
pub open spec fn place_ok<T: Inked>(strokes: Seq<Vec<T>>, i: int, j: int) -> bool {
    &&& 0 <= i <= strokes.len()
    &&& 0 <= j
    &&& i < strokes.len() ==> j <= strokes[i]@.len()
    &&& i == strokes.len() ==> j == 0
}

/// What a run of movements leaves on the page.
pub open spec fn actions_of(dabs: Seq<Dab>) -> Seq<Action> {
    dabs.map_values(|d: Dab| d.action)
}

/// The part of the page that a run of movements touches.
pub open spec fn touched(dabs: Seq<Dab>) -> BBox
    decreases dabs.len(),
{
    if dabs.len() == 0 {
        BBox::nothing()
    } else {
        touched(dabs.drop_last()).grown(dabs.last().x, dabs.last().y, dabs.last().margin)
    }
}

/// The end of one stroke is the start of the next.
proof fn lemma_next_stroke<T: Inked>(strokes: Seq<Vec<T>>, i: int)
    requires
        0 <= i < strokes.len(),
    ensures
        dabs_made(strokes, i, strokes[i]@.len() as int) == dabs_made(strokes, i + 1, 0),
{
    let d = stroke_dabs(strokes[i]@);
    assert(d.take(strokes[i]@.len() as int) =~= d);
    if i + 1 < strokes.len() {
        assert(stroke_dabs(strokes[i + 1]@).take(0) =~= Seq::empty());
        assert(dabs_made(strokes, i + 1, 0) =~= dabs_to(strokes, i + 1));
    }
}

/// One place further is one movement more.
proof fn lemma_next_point<T: Inked>(strokes: Seq<Vec<T>>, i: int, j: int)
    requires
        0 <= i < strokes.len(),
        0 <= j < strokes[i]@.len(),
    ensures
        dabs_made(strokes, i, j + 1) == dabs_made(strokes, i, j).push(T::dab(strokes[i]@, j)),
{
    let d = stroke_dabs(strokes[i]@);
    assert(d.take(j + 1) =~= d.take(j).push(T::dab(strokes[i]@, j)));
    assert(dabs_made(strokes, i, j + 1) =~= dabs_made(strokes, i, j).push(
        T::dab(strokes[i]@, j),
    ));
}

/// The first strokes' movements open those of all.
proof fn lemma_dabs_to_opens<T: Inked>(strokes: Seq<Vec<T>>, i: int, n: int)
    requires
        0 <= i <= n <= strokes.len(),
    ensures
        dabs_to(strokes, i).len() <= dabs_to(strokes, n).len(),
        dabs_to(strokes, n).take(dabs_to(strokes, i).len() as int) == dabs_to(strokes, i),
    decreases n - i,
{
    if i < n {
        lemma_dabs_to_opens(strokes, i, n - 1);
        let k = dabs_to(strokes, i).len() as int;
        assert(dabs_to(strokes, n).take(k) =~= dabs_to(strokes, n - 1).take(k));
    } else {
        assert(dabs_to(strokes, n).take(dabs_to(strokes, n).len() as int) =~= dabs_to(strokes, n));
    }
}

/// What the hand has made is always the opening part of the whole plan.
pub proof fn made_opens_plan<T: Inked>(strokes: Seq<Vec<T>>, i: int, j: int)
    requires
        place_ok(strokes, i, j),
    ensures
        dabs_made(strokes, i, j).len() <= all_dabs(strokes).len(),
        all_dabs(strokes).take(dabs_made(strokes, i, j).len() as int) == dabs_made(strokes, i, j),
{
    let n = strokes.len() as int;
    if i < n {
        lemma_dabs_to_opens(strokes, i + 1, n);
        let m = dabs_made(strokes, i, j);
        let k = dabs_to(strokes, i + 1).len() as int;
        assert(m =~= dabs_to(strokes, i + 1).take(m.len() as int));
        assert(all_dabs(strokes).take(m.len() as int) =~= all_dabs(strokes).take(k).take(
            m.len() as int,
        ));
    } else {
        lemma_dabs_to_opens(strokes, n, n);
    }
}

/// The shade of ink that an action leaves, if it is a blot or a line.
pub open spec fn shade_of(a: Action) -> Option<Shade> {
    match a {
        Action::Stamp { shade, .. } => Some(shade),
        Action::Brush { shade, .. } => Some(shade),
        _ => None,
    }
}

/// What holds of the movement to every place of every stroke holds of all movements of a plan.
proof fn lemma_all_shaded<T: Inked>(strokes: Seq<Vec<T>>, i: int, shade: Shade)
    requires
        0 <= i <= strokes.len(),
        forall|s: Seq<T>, j: int| shade_of((#[trigger] T::dab(s, j)).action) == Some(shade),
    ensures
        forall|k: int|
            0 <= k < dabs_to(strokes, i).len() ==> shade_of(
                (#[trigger] dabs_to(strokes, i)[k]).action,
            ) == Some(shade),
    decreases i,
{
    if i > 0 {
        lemma_all_shaded(strokes, i - 1, shade);
    }
}

/// A reply is written in fresh ink throughout.
pub proof fn replies_are_black(strokes: Seq<Vec<(i32, i32)>>, k: int)
    requires
        0 <= k < all_dabs(strokes).len(),
    ensures
        shade_of(all_dabs(strokes)[k].action) == Some(Shade::Black),
{
    lemma_all_shaded(strokes, strokes.len() as int, Shade::Black);
}

/// A remembered page is written in faded ink throughout.
pub proof fn memories_are_faded(strokes: Seq<Vec<(i32, i32, i32)>>, k: int)
    requires
        0 <= k < all_dabs(strokes).len(),
    ensures
        shade_of(all_dabs(strokes)[k].action) == Some(Shade::Faded),
{
    lemma_all_shaded(strokes, strokes.len() as int, Shade::Faded);
}

/// All that the hand inks is shown: the box that a run of movements touches holds the point
/// that each of them came to.
pub proof fn touched_covers(dabs: Seq<Dab>, i: int)
    requires
        0 <= i < dabs.len(),
        dabs[i].margin >= 0,
    ensures
        touched(dabs).holds(dabs[i].x as int, dabs[i].y as int),
    decreases dabs.len(),
{
    if i < dabs.len() - 1 {
        touched_covers(dabs.drop_last(), i);
    }
}

/// Move the hand on by up to `budget` points. Gives what it leaves on the page and the box that
/// it touches.
pub fn draw_some<T: Inked>(
    strokes: &Vec<Vec<T>>,
    stroke_i: &mut usize,
    point_i: &mut usize,
    budget: u32,
) -> (out: (Vec<Action>, BBox))
    requires
        place_ok(strokes@, *old(stroke_i) as int, *old(point_i) as int),
        budget > 0,
    ensures
        place_ok(strokes@, *final(stroke_i) as int, *final(point_i) as int),
        ({
            let all = all_dabs(strokes@);
            let from = dabs_made(strokes@, *old(stroke_i) as int, *old(point_i) as int).len();
            let to = dabs_made(strokes@, *final(stroke_i) as int, *final(point_i) as int).len();
            let left = all.len() - from;
            &&& to == from + if left < budget { left } else { budget as int }
            &&& out.0@ == actions_of(all.subrange(from as int, to as int))
            &&& out.1 == touched(all.subrange(from as int, to as int))
            &&& *final(stroke_i) == strokes@.len() <==> left < budget
        }),
{
    let mut acts: Vec<Action> = Vec::new();
    let mut dirty = BBox::empty();
    let mut left: u32 = budget;
    let ghost from = dabs_made(strokes@, *stroke_i as int, *point_i as int);
    let ghost mut fresh: Seq<Dab> = Seq::empty();
    proof {
        assert(from + fresh =~= from);
        assert(acts@ =~= actions_of(fresh));
    }
    while left > 0 && *stroke_i < strokes.len()
        invariant
            place_ok(strokes@, *stroke_i as int, *point_i as int),
            left <= budget,
            fresh.len() == budget - left,
            dabs_made(strokes@, *stroke_i as int, *point_i as int) == from + fresh,
            acts@ == actions_of(fresh),
            dirty == touched(fresh),
            left == 0 && budget > 0 ==> *stroke_i < strokes@.len(),
        decreases strokes@.len() - *stroke_i, left,
    {
        let stroke = &strokes[*stroke_i];
        if *point_i >= stroke.len() {
            proof {
                lemma_next_stroke(strokes@, *stroke_i as int);
            }
            *stroke_i = *stroke_i + 1;
            *point_i = 0;
        } else {
            let d = T::dab_at(stroke, *point_i);
            proof {
                lemma_next_point(strokes@, *stroke_i as int, *point_i as int);
                let was = fresh;
                fresh = fresh.push(d);
                assert(fresh.drop_last() =~= was);
                assert(actions_of(fresh) =~= actions_of(was).push(d.action));
                assert((from + was).push(d) =~= from + fresh);
            }
            acts.push(d.action);
            dirty.add(d.x, d.y, d.margin);
            *point_i = *point_i + 1;
            left -= 1;
        }
    }
    proof {
        let made = dabs_made(strokes@, *stroke_i as int, *point_i as int);
        made_opens_plan(strokes@, *stroke_i as int, *point_i as int);
        assert(all_dabs(strokes@).subrange(from.len() as int, made.len() as int) =~= fresh) by {
            assert(made.subrange(from.len() as int, made.len() as int) =~= fresh);
            assert(all_dabs(strokes@).take(made.len() as int).subrange(
                from.len() as int,
                made.len() as int,
            ) =~= all_dabs(strokes@).subrange(from.len() as int, made.len() as int));
        }
        if *stroke_i == strokes@.len() {
            assert(made == all_dabs(strokes@));
        }
    }
    (acts, dirty)
}

/// The number of points in the first `i` strokes.
pub open spec fn points_to<T>(strokes: Seq<Vec<T>>, i: int) -> int
    decreases i,
{
    if i <= 0 {
        0
    } else {
        points_to(strokes, i - 1) + strokes[i - 1]@.len()
    }
}

proof fn lemma_dabs_counted<T: Inked>(strokes: Seq<Vec<T>>, i: int)
    requires
        0 <= i <= strokes.len(),
    ensures
        dabs_to(strokes, i).len() == points_to(strokes, i),
    decreases i,
{
    if i > 0 {
        lemma_dabs_counted(strokes, i - 1);
    }
}

/// The hand makes one movement for each point, in the order of the strokes and of the points in
/// them: none is left out, and none comes twice.
pub proof fn each_point_has_its_movement<T: Inked>(strokes: Seq<Vec<T>>, i: int, j: int)
    requires
        0 <= i < strokes.len(),
        0 <= j < strokes[i]@.len(),
    ensures
        all_dabs(strokes).len() == points_to(strokes, strokes.len() as int),
        0 <= points_to(strokes, i) + j < all_dabs(strokes).len(),
        all_dabs(strokes)[points_to(strokes, i) + j] == T::dab(strokes[i]@, j),
{
    let n = strokes.len() as int;
    lemma_dabs_counted(strokes, i);
    lemma_dabs_counted(strokes, i + 1);
    lemma_dabs_counted(strokes, n);
    lemma_dabs_to_opens(strokes, i + 1, n);
    let k = dabs_to(strokes, i).len() + j;
    assert(all_dabs(strokes)[k] == all_dabs(strokes).take(dabs_to(strokes, i + 1).len() as int)[k]);
    assert(dabs_to(strokes, i + 1)[k] == stroke_dabs(strokes[i]@)[j]);
}

/// A hand at place `j` of stroke `i` has made as many movements as there are points before it;
/// the whole plan has as many as it has points.
pub proof fn movements_are_counted<T: Inked>(strokes: Seq<Vec<T>>, i: int, j: int)
    requires
        place_ok(strokes, i, j),
    ensures
        dabs_made(strokes, i, j).len() == points_to(strokes, i) + j,
        all_dabs(strokes).len() == points_to(strokes, strokes.len() as int),
{
    lemma_dabs_counted(strokes, i);
    lemma_dabs_counted(strokes, strokes.len() as int);
}

/// Is `a` the ink that brings the writing hand to place `j` of a stroke: a blot on its first
/// point, and from then on a line from the point before?
pub open spec fn writes_point(a: Action, s: Seq<(i32, i32)>, j: int) -> bool {
    match a {
        Action::Stamp { x, y, r, shade } => j == 0 && (x, y) == s[j] && r == 2 && shade
            == Shade::Black,
        Action::Brush { x0, y0, x1, y1, r, shade } => j > 0 && (x0, y0) == s[j - 1] && (x1, y1)
            == s[j] && r == 2 && shade == Shade::Black,
        _ => false,
    }
}

/// Is `a` the ink that brings back place `j` of a remembered stroke? It is as wide as the pen was
/// there, but a line is no more than one wider than the point that it comes from.
pub open spec fn redraws_point(a: Action, s: Seq<(i32, i32, i32)>, j: int) -> bool {
    match a {
        Action::Stamp { x, y, r, shade } => j == 0 && (x, y, r) == s[j] && shade == Shade::Faded,
        Action::Brush { x0, y0, x1, y1, r, shade } => {
            &&& j > 0
            &&& x0 == s[j - 1].0 && y0 == s[j - 1].1
            &&& x1 == s[j].0 && y1 == s[j].1
            &&& r <= s[j].2 && r <= s[j - 1].2 + 1
            &&& r == s[j].2 || r == s[j - 1].2 + 1
            &&& shade == Shade::Faded
        },
        _ => false,
    }
}

/// Each point of a reply is written where it was planned, joined to the one before it, and shown
/// with room for the width of the line.
pub proof fn reply_is_written_as_planned(strokes: Seq<Vec<(i32, i32)>>, i: int, j: int)
    requires
        0 <= i < strokes.len(),
        0 <= j < strokes[i]@.len(),
    ensures
        ({
            let d = all_dabs(strokes)[points_to(strokes, i) + j];
            &&& writes_point(d.action, strokes[i]@, j)
            &&& (d.x, d.y) == strokes[i]@[j]
            &&& d.margin == 4
        }),
{
    each_point_has_its_movement(strokes, i, j);
}

/// Each point of a remembered page is redrawn where it was, joined to the one before it, and
/// shown with room for its own width.
pub proof fn memory_is_redrawn_as_it_was(strokes: Seq<Vec<(i32, i32, i32)>>, i: int, j: int)
    requires
        0 <= i < strokes.len(),
        0 <= j < strokes[i]@.len(),
        strokes[i]@[j].2 < i32::MAX - 2,
    ensures
        ({
            let d = all_dabs(strokes)[points_to(strokes, i) + j];
            &&& redraws_point(d.action, strokes[i]@, j)
            &&& d.x == strokes[i]@[j].0 && d.y == strokes[i]@[j].1
            &&& d.margin == strokes[i]@[j].2 + 2
        }),
{
    each_point_has_its_movement(strokes, i, j);
}

/// No more is shown than was touched: any box that holds the square round each movement holds
/// all that is shown.
pub proof fn touched_is_least(dabs: Seq<Dab>, c: BBox)
    requires
        forall|i: int|
            0 <= i < dabs.len() ==> c.spans_square(
                (#[trigger] dabs[i]).x as int,
                dabs[i].y as int,
                dabs[i].margin as int,
            ),
    ensures
        c.spans(touched(dabs)),
    decreases dabs.len(),
{
    if dabs.len() > 0 {
        let rest = dabs.drop_last();
        assert forall|i: int| 0 <= i < rest.len() implies c.spans_square(
            (#[trigger] rest[i]).x as int,
            rest[i].y as int,
            rest[i].margin as int,
        ) by {
            assert(rest[i] == dabs[i]);
        }
        touched_is_least(rest, c);
        assert(dabs.last() == dabs[dabs.len() - 1]);
        grown_is_least(touched(rest), dabs.last().x, dabs.last().y, dabs.last().margin, c);
    }
}

/// All that a movement touches is shown: the box holds the whole square round it.
pub proof fn whole_dab_is_touched(dabs: Seq<Dab>, i: int, px: int, py: int)
    requires
        0 <= i < dabs.len(),
        i32::MIN <= px <= i32::MAX,
        i32::MIN <= py <= i32::MAX,
        dabs[i].x - dabs[i].margin <= px <= dabs[i].x + dabs[i].margin,
        dabs[i].y - dabs[i].margin <= py <= dabs[i].y + dabs[i].margin,
    ensures
        touched(dabs).holds(px, py),
    decreases dabs.len(),
{
    if i < dabs.len() - 1 {
        assert(dabs.drop_last()[i] == dabs[i]);
        whole_dab_is_touched(dabs.drop_last(), i, px, py);
    }
}

} // verus!
