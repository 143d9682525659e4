//! Laying out what the diary writes: its replies, and the pages that it remembers.
//!
//! A line of text comes here already traced: as strokes relative to its own top left corner.
use crate::fb::{fitted, greater, grown_is_least, lesser, plus, BBox, SCREEN_H, SCREEN_W};
use crate::plan::{all_dabs, dabs_made, dabs_to, place_ok, stroke_dabs, Inked};
use vstd::prelude::*;

verus! {

/// Height of one written line.
pub const LINE_H: i32 = 120;

/// A reply that starts a page never starts above this.
pub const HIGHEST: i32 = 60;

/// Top of the date that heads a remembered page.
pub const DATE_TOP: i32 = 64;

/// A line of text, traced into pen strokes.
pub struct TracedLine {
    /// Width of the line in pixels.
    pub width: i32,
    /// Strokes, relative to the line's top left corner.
    pub strokes: Vec<Vec<(i32, i32)>>,
}

/// A reply on its way onto the page.
pub struct WritePlan {
    pub strokes: Vec<Vec<(i32, i32)>>,
    pub stroke_i: usize,
    pub point_i: usize,
    pub region: BBox,
    /// Where the first line of the next chunk starts.
    pub next_y: i32,
}

/// A remembered page on its way back onto the paper: strokes with the radii that they had.
pub struct ConjurePlan {
    pub strokes: Vec<Vec<(i32, i32, i32)>>,
    pub stroke_i: usize,
    pub point_i: usize,
    pub region: BBox,
}

impl WritePlan {
    /// The hand is at a place of the plan.
    pub open spec fn wf(self) -> bool {
        place_ok(self.strokes@, self.stroke_i as int, self.point_i as int)
    }
}

impl ConjurePlan {
    /// The hand is at a place of the plan.
    pub open spec fn wf(self) -> bool {
        place_ok(self.strokes@, self.stroke_i as int, self.point_i as int)
    }
}

/// The source of the lines' unsteadiness after `k` draws.
pub open spec fn sway_seed(k: nat) -> u32
    decreases k,
{
    if k == 0 {
        0x1234
    } else {
        sway_seed((k - 1) as nat).wrapping_mul(1664525).wrapping_add(1013904223)
    }
}

/// How far line `k` lies below where it should, between three above and three below.
pub open spec fn sway(k: nat) -> int {
    (sway_seed(k + 1) >> 16) % 7 - 3
}

/// The left edge of a line of this width that is centred on the page.
pub open spec fn centred(width: int) -> int {
    if width <= SCREEN_W {
        (SCREEN_W - width) / 2
    } else {
        -((width - SCREEN_W) / 2)
    }
}

/// The top of a reply of `n` lines.
pub open spec fn reply_top(n: nat, y_start: Option<i32>) -> int {
    match y_start {
        Some(y) => y as int,
        None => {
            let third = (SCREEN_H - LINE_H * n) / 3;
            if third >= HIGHEST {
                third
            } else {
                HIGHEST as int
            }
        },
    }
}

/// The top of line `k` under `top`.
pub open spec fn line_top(top: int, k: nat) -> i32 {
    fitted(top + LINE_H * k)
}

/// A stroke moved right by `left`, down by `top` and then by `sway`.
pub open spec fn laid_stroke(s: Seq<(i32, i32)>, left: int, top: int, sway: int) -> Seq<
    (i32, i32),
> {
    s.map_values(|p: (i32, i32)| (fitted(left + p.0), fitted(fitted(top + p.1) + sway)))
}

/// The strokes of line `k` on the page.
pub open spec fn laid_line(line: TracedLine, top: int, k: nat) -> Seq<Seq<(i32, i32)>> {
    line.strokes@.map_values(
        |s: Vec<(i32, i32)>|
            laid_stroke(s@, centred(line.width as int), line_top(top, k) as int, sway(k)),
    )
}

/// The strokes of the first `k` lines on the page.
pub open spec fn laid_lines(lines: Seq<TracedLine>, top: int, k: nat) -> Seq<Seq<(i32, i32)>>
    decreases k,
{
    if k == 0 {
        Seq::empty()
    } else {
        laid_lines(lines, top, (k - 1) as nat) + laid_line(lines[k - 1], top, (k - 1) as nat)
    }
}

/// A box once it has taken in each point of a stroke with a margin.
pub open spec fn with_stroke(b: BBox, s: Seq<(i32, i32)>, margin: i32) -> BBox
    decreases s.len(),
{
    if s.len() == 0 {
        b
    } else {
        with_stroke(b, s.drop_last(), margin).grown(s.last().0, s.last().1, margin)
    }
}

/// A box once it has taken in each point of some strokes with a margin.
pub open spec fn with_strokes(b: BBox, strokes: Seq<Seq<(i32, i32)>>, margin: i32) -> BBox
    decreases strokes.len(),
{
    if strokes.len() == 0 {
        b
    } else {
        with_stroke(with_strokes(b, strokes.drop_last(), margin), strokes.last(), margin)
    }
}

/// The strokes as sequences.
pub open spec fn seqs<T>(strokes: Seq<Vec<T>>) -> Seq<Seq<T>> {
    strokes.map_values(|s: Vec<T>| s@)
}

/// Is `plan` these strokes, with the hand still at the start?
pub open spec fn fresh_reply(plan: WritePlan, lines: Seq<TracedLine>, y_start: Option<i32>) -> bool {
    let top = reply_top(lines.len(), y_start);
    &&& seqs(plan.strokes@) == laid_lines(lines, top, lines.len())
    &&& plan.stroke_i == 0
    &&& plan.point_i == 0
    &&& plan.region == with_strokes(BBox::nothing(), seqs(plan.strokes@), 5)
    &&& plan.next_y == line_top(top, lines.len())
}

/// No line sways by more than three pixels.
pub proof fn sway_is_slight(k: nat)
    ensures
        -3 <= sway(k) <= 3,
{
}

/// A line that fits has as much page to its left as to its right, but for a pixel.
pub proof fn lines_are_centred(width: int)
    requires
        0 <= width <= SCREEN_W,
    ensures
        0 <= (SCREEN_W - width - centred(width)) - centred(width) <= 1,
{
}

/// The left edge of a line of this width that is centred on the page.
fn centre(width: i32) -> (x: i32)
    ensures
        x == centred(width as int),
{
    let w: i64 = width as i64;
    let page: i64 = SCREEN_W as i64;
    if w <= page {
        let half: i64 = (page - w) / 2;
        half as i32
    } else {
        let half: i64 = (w - page) / 2;
        (0 - half) as i32
    }
}

/// A stroke moved onto the page, its points taken into `region` with a margin.
fn lay_stroke(
    s: &Vec<(i32, i32)>,
    left: i32,
    top: i32,
    sway: i32,
    margin: i32,
    region: &mut BBox,
) -> (out: Vec<(i32, i32)>)
    ensures
        out@ == laid_stroke(s@, left as int, top as int, sway as int),
        *final(region) == with_stroke(*old(region), out@, margin),
{
    let mut out: Vec<(i32, i32)> = Vec::new();
    let mut i: usize = 0;
    while i < s.len()
        invariant
            i <= s@.len(),
            out@ == laid_stroke(s@, left as int, top as int, sway as int).take(i as int),
            *region == with_stroke(*old(region), out@, margin),
        decreases s@.len() - i,
    {
        let (sx, sy) = s[i];
        let x: i32 = plus(left, sx);
        let y: i32 = plus(plus(top, sy), sway);
        let ghost was = out@;
        out.push((x, y));
        region.add(x, y, margin);
        proof {
            assert(out@.drop_last() =~= was);
        }
        i += 1;
    }
    out
}

/// Lay out the lines of a reply. `y_start` continues a reply below its previous chunk; without
/// it the reply is placed on an empty page.
pub fn plan_reply(lines: &Vec<TracedLine>, y_start: Option<i32>) -> (plan: WritePlan)
    ensures
        fresh_reply(plan, lines@, y_start),
        plan.wf(),
{
    let mut y: i32 = match y_start {
        Some(y) => y,
        None => if lines.len() >= 17 {
            HIGHEST
        } else {
            greater((SCREEN_H as i32 - LINE_H * lines.len() as i32) / 3, HIGHEST)
        },
    };
    let ghost top = reply_top(lines@.len(), y_start);
    assert(y == top);
    let mut strokes: Vec<Vec<(i32, i32)>> = Vec::new();
    let mut region = BBox::empty();
    let mut seed: u32 = 0x1234;
    let mut k: usize = 0;
    while k < lines.len()
        invariant
            k <= lines@.len(),
            i32::MIN <= top <= i32::MAX,
            y == line_top(top, k as nat),
            seed == sway_seed(k as nat),
            seqs(strokes@) == laid_lines(lines@, top, k as nat),
            region == with_strokes(BBox::nothing(), seqs(strokes@), 5),
        decreases lines@.len() - k,
    {
        let line = &lines[k];
        let x0 = centre(line.width);
        seed = seed.wrapping_mul(1664525).wrapping_add(1013904223);
        let sway_k: i32 = ((seed >> 16) % 7) as i32 - 3;
        let ghost before = seqs(strokes@);
        let ghost whole = laid_line(lines@[k as int], top, k as nat);
        let mut j: usize = 0;
        assert(before + whole.take(0) =~= before);
        while j < line.strokes.len()
            invariant
                j <= line.strokes@.len(),
                k < lines@.len(),
                *line == lines@[k as int],
                x0 == centred(line.width as int),
                y == line_top(top, k as nat),
                sway_k == sway(k as nat),
                whole == laid_line(lines@[k as int], top, k as nat),
                seqs(strokes@) == before + whole.take(j as int),
                region == with_strokes(BBox::nothing(), seqs(strokes@), 5),
            decreases line.strokes@.len() - j,
        {
            let mapped = lay_stroke(&line.strokes[j], x0, y, sway_k, 5, &mut region);
            let ghost was = strokes@;
            proof {
                assert(mapped@ == whole[j as int]);
                assert(whole.take(j + 1) =~= whole.take(j as int).push(mapped@));
            }
            strokes.push(mapped);
            proof {
                assert(seqs(strokes@) =~= seqs(was).push(mapped@));
                assert(seqs(strokes@).drop_last() =~= seqs(was));
                assert(seqs(strokes@) =~= before + whole.take(j + 1));
            }
            j += 1;
        }
        proof {
            assert(whole.take(line.strokes@.len() as int) =~= whole);
        }
        y = plus(y, LINE_H);
        k += 1;
    }
    WritePlan { strokes, stroke_i: 0, point_i: 0, region, next_y: y }
}

/// What appending the lines `more` makes of a plan. Its region takes in both corners of what
/// the addition covers: where none of its strokes has a point, the corners lie at the ends of
/// the plane.
pub open spec fn appended(old_plan: WritePlan, new_plan: WritePlan, more: Seq<TracedLine>) -> bool {
    let added = laid_lines(more, old_plan.next_y as int, more.len());
    let cover = with_strokes(BBox::nothing(), added, 5);
    if added.len() == 0 {
        new_plan == old_plan
    } else {
        &&& new_plan.strokes@.len() == old_plan.strokes@.len() + added.len()
        &&& new_plan.strokes@.take(old_plan.strokes@.len() as int) == old_plan.strokes@
        &&& seqs(new_plan.strokes@.skip(old_plan.strokes@.len() as int)) == added
        &&& new_plan.stroke_i == old_plan.stroke_i
        &&& new_plan.point_i == old_plan.point_i
        &&& new_plan.region == old_plan.region.grown(cover.x0, cover.y0, 0).grown(
            cover.x1,
            cover.y1,
            0,
        )
        &&& new_plan.next_y == line_top(old_plan.next_y as int, more.len())
    }
}

/// Splice a further chunk into a reply that is being written. A chunk that leaves no ink
/// changes nothing, not even where the next one starts.
pub fn append_reply(plan: &mut WritePlan, more: &Vec<TracedLine>)
    requires
        old(plan).wf(),
    ensures
        final(plan).wf(),
        appended(*old(plan), *final(plan), more@),
{
    let mut cont = plan_reply(more, Some(plan.next_y));
    if cont.strokes.len() == 0 {
        return;
    }
    let ghost was = plan.strokes@;
    let ghost extra = cont.strokes@;
    plan.region.add(cont.region.x0, cont.region.y0, 0);
    plan.region.add(cont.region.x1, cont.region.y1, 0);
    plan.strokes.append(&mut cont.strokes);
    plan.next_y = cont.next_y;
    proof {
        assert(plan.strokes@.take(was.len() as int) =~= was);
        assert(plan.strokes@.skip(was.len() as int) =~= extra);
        if plan.stroke_i < was.len() {
            assert(plan.strokes@[plan.stroke_i as int] == was[plan.stroke_i as int]);
        }
    }
}

/// Strokes added behind a plan change none of the movements made so far, nor any that were
/// still to come: the whole is the old plan followed by the addition.
pub proof fn appending_keeps_plan<T: Inked>(a: Seq<Vec<T>>, b: Seq<Vec<T>>, i: int, j: int)
    requires
        place_ok(a, i, j),
    ensures
        place_ok(a + b, i, j),
        dabs_made(a + b, i, j) == dabs_made(a, i, j),
        all_dabs(a + b) == all_dabs(a) + all_dabs(b),
{
    lemma_dabs_front(a, b, i);
    lemma_dabs_back(a, b, b.len() as int);
    if i < a.len() {
        assert((a + b)[i] == a[i]);
    } else if b.len() > 0 {
        assert(stroke_dabs((a + b)[i]@).take(0) =~= Seq::empty());
        assert(dabs_made(a + b, i, j) =~= dabs_to(a + b, i));
    }
}

proof fn lemma_dabs_front<T: Inked>(a: Seq<Vec<T>>, b: Seq<Vec<T>>, i: int)
    requires
        0 <= i <= a.len(),
    ensures
        dabs_to(a + b, i) == dabs_to(a, i),
    decreases i,
{
    if i > 0 {
        lemma_dabs_front(a, b, i - 1);
        assert((a + b)[i - 1] == a[i - 1]);
    }
}

proof fn lemma_dabs_back<T: Inked>(a: Seq<Vec<T>>, b: Seq<Vec<T>>, n: int)
    requires
        0 <= n <= b.len(),
    ensures
        dabs_to(a + b, a.len() + n) == dabs_to(a, a.len() as int) + dabs_to(b, n),
    decreases n,
{
    if n > 0 {
        lemma_dabs_back(a, b, n - 1);
        assert((a + b)[a.len() + n - 1] == b[n - 1]);
        assert(dabs_to(a + b, a.len() + n) =~= dabs_to(a, a.len() as int) + dabs_to(b, n));
    } else {
        lemma_dabs_front(a, b, a.len() as int);
        assert(dabs_to(a, a.len() as int) + dabs_to(b, 0) =~= dabs_to(a, a.len() as int));
    }
}

/// A box that takes in a stroke keeps what it held, and gains every point of the stroke.
pub proof fn stroke_is_covered(b: BBox, s: Seq<(i32, i32)>, margin: i32, x: int, y: int)
    requires
        margin >= 0,
        b.holds(x, y) || exists|j: int| 0 <= j < s.len() && #[trigger] s[j] == (x as i32, y as i32),
        i32::MIN <= x <= i32::MAX,
        i32::MIN <= y <= i32::MAX,
    ensures
        with_stroke(b, s, margin).holds(x, y),
    decreases s.len(),
{
    if s.len() > 0 {
        let rest = s.drop_last();
        if b.holds(x, y) {
            stroke_is_covered(b, rest, margin, x, y);
        } else {
            let j = choose|j: int| 0 <= j < s.len() && #[trigger] s[j] == (x as i32, y as i32);
            if j < rest.len() {
                assert(rest[j] == s[j]);
                stroke_is_covered(b, rest, margin, x, y);
            }
        }
    }
}

proof fn lemma_strokes_are_covered(
    b: BBox,
    strokes: Seq<Seq<(i32, i32)>>,
    margin: i32,
    i: int,
    j: int,
)
    requires
        margin >= 0,
        0 <= i < strokes.len(),
        0 <= j < strokes[i].len(),
    ensures
        with_strokes(b, strokes, margin).holds(strokes[i][j].0 as int, strokes[i][j].1 as int),
    decreases strokes.len(),
{
    let rest = strokes.drop_last();
    let (x, y) = strokes[i][j];
    if i < rest.len() {
        lemma_strokes_are_covered(b, rest, margin, i, j);
    }
    stroke_is_covered(
        with_strokes(b, rest, margin),
        strokes.last(),
        margin,
        x as int,
        y as int,
    );
}

/// A reply lies within its region: dissolving the one takes the whole of the other.
pub proof fn reply_lies_in_its_region(
    plan: WritePlan,
    lines: Seq<TracedLine>,
    y_start: Option<i32>,
    i: int,
    j: int,
)
    requires
        fresh_reply(plan, lines, y_start),
        0 <= i < plan.strokes@.len(),
        0 <= j < plan.strokes@[i]@.len(),
    ensures
        plan.region.holds(plan.strokes@[i]@[j].0 as int, plan.strokes@[i]@[j].1 as int),
{
    lemma_strokes_are_covered(BBox::nothing(), seqs(plan.strokes@), 5, i, j);
}

/// A reply that lies within its region still does once a chunk has been appended.
pub proof fn appended_reply_lies_in_its_region(
    plan: WritePlan,
    plan2: WritePlan,
    more: Seq<TracedLine>,
    i: int,
    j: int,
)
    requires
        appended(plan, plan2, more),
        forall|i: int, j: int|
            0 <= i < plan.strokes@.len() && 0 <= j < plan.strokes@[i]@.len()
                ==> plan.region.holds(
                (#[trigger] plan.strokes@[i]@[j]).0 as int,
                plan.strokes@[i]@[j].1 as int,
            ),
        0 <= i < plan2.strokes@.len(),
        0 <= j < plan2.strokes@[i]@.len(),
    ensures
        plan2.region.holds(plan2.strokes@[i]@[j].0 as int, plan2.strokes@[i]@[j].1 as int),
{
    let n = plan.strokes@.len() as int;
    let added = laid_lines(more, plan.next_y as int, more.len());
    if added.len() > 0 {
        if i < n {
            assert(plan2.strokes@[i] == plan2.strokes@.take(n)[i]);
            assert(plan2.strokes@[i]@[j] == plan.strokes@[i]@[j]);
        } else {
            assert(seqs(plan2.strokes@.skip(n))[i - n] == plan2.strokes@[i]@);
            lemma_strokes_are_covered(BBox::nothing(), added, 5, i - n, j);
        }
    } else {
        assert(plan2.strokes@[i]@[j] == plan.strokes@[i]@[j]);
    }
}

/// A stroke whose points all have radius `r`.
pub open spec fn with_radius(s: Seq<(i32, i32)>, r: i32) -> Seq<(i32, i32, i32)> {
    s.map_values(|p: (i32, i32)| (p.0, p.1, r))
}

/// A box once it has taken in a stroke's points, each with its radius and two more.
pub open spec fn with_inked(b: BBox, s: Seq<(i32, i32, i32)>) -> BBox
    decreases s.len(),
{
    if s.len() == 0 {
        b
    } else {
        with_inked(b, s.drop_last()).grown(s.last().0, s.last().1, fitted(s.last().2 + 2))
    }
}

/// A box once it has taken in the points of some strokes, each with its radius and two more.
pub open spec fn with_all_inked(b: BBox, strokes: Seq<Seq<(i32, i32, i32)>>) -> BBox
    decreases strokes.len(),
{
    if strokes.len() == 0 {
        b
    } else {
        with_inked(with_all_inked(b, strokes.drop_last()), strokes.last())
    }
}

/// The lower of `y` and the lowest point of a stroke.
pub open spec fn lowest_in(y: i32, s: Seq<(i32, i32, i32)>) -> i32
    decreases s.len(),
{
    if s.len() == 0 {
        y
    } else {
        let up = lowest_in(y, s.drop_last());
        if up >= s.last().1 {
            up
        } else {
            s.last().1
        }
    }
}

/// The lower of `y` and the lowest point of some strokes.
pub open spec fn lowest(y: i32, strokes: Seq<Seq<(i32, i32, i32)>>) -> i32
    decreases strokes.len(),
{
    if strokes.len() == 0 {
        y
    } else {
        lowest_in(lowest(y, strokes.drop_last()), strokes.last())
    }
}

/// The date's strokes at the head of a remembered page.
pub open spec fn laid_date(date: TracedLine) -> Seq<Seq<(i32, i32, i32)>> {
    date.strokes@.map_values(
        |s: Vec<(i32, i32)>|
            with_radius(laid_stroke(s@, centred(date.width as int), DATE_TOP as int, 0), 1),
    )
}

/// Where the old reply starts when the ink above it reaches down to `ink_bottom`.
pub open spec fn old_reply_top(ink_bottom: int) -> int {
    if ink_bottom + 130 <= SCREEN_H - 400 {
        ink_bottom + 130
    } else {
        SCREEN_H - 400
    }
}

/// The old reply's strokes on a remembered page.
pub open spec fn laid_old_reply(reply: Option<Vec<TracedLine>>, top: int) -> Seq<
    Seq<(i32, i32, i32)>,
> {
    match reply {
        None => Seq::empty(),
        Some(lines) => laid_lines(lines@, top, lines@.len()).map_values(
            |s: Seq<(i32, i32)>| with_radius(s, 2),
        ),
    }
}

/// The strokes of a remembered page: the date, the writer's own strokes as they were penned,
/// and the old reply below them.
pub open spec fn remembered(
    date: TracedLine,
    own: Seq<Seq<(i32, i32, i32)>>,
    reply: Option<Vec<TracedLine>>,
) -> Seq<Seq<(i32, i32, i32)>> {
    let above = laid_date(date) + own;
    above + laid_old_reply(reply, old_reply_top(lowest(DATE_TOP, above) as int))
}

proof fn lemma_inked_is_covered(b: BBox, s: Seq<(i32, i32, i32)>, x: int, y: int)
    requires
        b.holds(x, y) || exists|j: int|
            0 <= j < s.len() && (#[trigger] s[j]).0 == x && s[j].1 == y && s[j].2 >= 0,
    ensures
        with_inked(b, s).holds(x, y),
    decreases s.len(),
{
    if s.len() > 0 {
        let rest = s.drop_last();
        if b.holds(x, y) {
            lemma_inked_is_covered(b, rest, x, y);
        } else {
            let j = choose|j: int|
                0 <= j < s.len() && (#[trigger] s[j]).0 == x && s[j].1 == y && s[j].2 >= 0;
            if j < rest.len() {
                assert(rest[j] == s[j]);
                lemma_inked_is_covered(b, rest, x, y);
            }
        }
    }
}

/// A remembered page lies within its region.
pub proof fn memory_lies_in_its_region(strokes: Seq<Seq<(i32, i32, i32)>>, i: int, j: int)
    requires
        0 <= i < strokes.len(),
        0 <= j < strokes[i].len(),
        strokes[i][j].2 >= 0,
    ensures
        with_all_inked(BBox::nothing(), strokes).holds(
            strokes[i][j].0 as int,
            strokes[i][j].1 as int,
        ),
    decreases strokes.len(),
{
    let rest = strokes.drop_last();
    let (x, y, r) = strokes[i][j];
    if i < rest.len() {
        memory_lies_in_its_region(rest, i, j);
    }
    lemma_inked_is_covered(
        with_all_inked(BBox::nothing(), rest),
        strokes.last(),
        x as int,
        y as int,
    );
}

/// The writer's own strokes stand on a remembered page exactly as they were penned, between the
/// date and the old reply.
pub proof fn own_strokes_are_exact(
    date: TracedLine,
    own: Seq<Seq<(i32, i32, i32)>>,
    reply: Option<Vec<TracedLine>>,
)
    ensures
        remembered(date, own, reply).subrange(
            laid_date(date).len() as int,
            (laid_date(date).len() + own.len()) as int,
        ) == own,
{
}

/// Give each point of a stroke the same radius.
fn give_radius(s: &Vec<(i32, i32)>, r: i32) -> (out: Vec<(i32, i32, i32)>)
    ensures
        out@ == with_radius(s@, r),
{
    let mut out: Vec<(i32, i32, i32)> = Vec::new();
    let mut i: usize = 0;
    while i < s.len()
        invariant
            i <= s@.len(),
            out@ == with_radius(s@, r).take(i as int),
        decreases s@.len() - i,
    {
        let (x, y) = s[i];
        out.push((x, y, r));
        i += 1;
    }
    out
}

/// Add one stroke to a remembered page, and take it into the page's box and depth.
fn add_inked(
    all: &mut Vec<Vec<(i32, i32, i32)>>,
    region: &mut BBox,
    bottom: &mut i32,
    stroke: Vec<(i32, i32, i32)>,
)
    requires
        *old(region) == with_all_inked(BBox::nothing(), seqs(old(all)@)),
        *old(bottom) == lowest(DATE_TOP, seqs(old(all)@)),
    ensures
        seqs(final(all)@) == seqs(old(all)@).push(stroke@),
        *final(region) == with_all_inked(BBox::nothing(), seqs(final(all)@)),
        *final(bottom) == lowest(DATE_TOP, seqs(final(all)@)),
{
    let mut i: usize = 0;
    assert(stroke@.take(0) =~= Seq::empty());
    while i < stroke.len()
        invariant
            i <= stroke@.len(),
            *region == with_inked(*old(region), stroke@.take(i as int)),
            *bottom == lowest_in(*old(bottom), stroke@.take(i as int)),
        decreases stroke@.len() - i,
    {
        let (x, y, r) = stroke[i];
        region.add(x, y, plus(r, 2));
        *bottom = greater(*bottom, y);
        proof {
            assert(stroke@.take(i + 1).drop_last() =~= stroke@.take(i as int));
        }
        i += 1;
    }
    assert(stroke@.take(stroke@.len() as int) =~= stroke@);
    all.push(stroke);
    proof {
        assert(seqs(all@) =~= seqs(old(all)@).push(stroke@));
        assert(seqs(all@).drop_last() =~= seqs(old(all)@));
    }
}

/// Plan the rewriting of a remembered page: the date in a small hand at its head, the writer's
/// own strokes exactly as they were penned, and the old reply beneath.
pub fn conjure(
    date: &TracedLine,
    own: Vec<Vec<(i32, i32, i32)>>,
    reply: &Option<Vec<TracedLine>>,
) -> (plan: ConjurePlan)
    ensures
        seqs(plan.strokes@) == remembered(*date, seqs(own@), *reply),
        plan.stroke_i == 0,
        plan.point_i == 0,
        plan.region == with_all_inked(BBox::nothing(), seqs(plan.strokes@)),
        plan.wf(),
{
    let mut all: Vec<Vec<(i32, i32, i32)>> = Vec::new();
    let mut region = BBox::empty();
    let mut bottom: i32 = DATE_TOP;
    let x0 = centre(date.width);
    let ghost head = laid_date(*date);
    let mut i: usize = 0;
    assert(seqs(all@) =~= head.take(0));
    while i < date.strokes.len()
        invariant
            i <= date.strokes@.len(),
            x0 == centred(date.width as int),
            head == laid_date(*date),
            seqs(all@) == head.take(i as int),
            region == with_all_inked(BBox::nothing(), seqs(all@)),
            bottom == lowest(DATE_TOP, seqs(all@)),
        decreases date.strokes@.len() - i,
    {
        let mut unused = BBox::empty();
        let flat = lay_stroke(&date.strokes[i], x0, DATE_TOP, 0, 0, &mut unused);
        let mapped = give_radius(&flat, 1);
        proof {
            assert(head.take(i + 1) =~= head.take(i as int).push(mapped@));
        }
        add_inked(&mut all, &mut region, &mut bottom, mapped);
        i += 1;
    }
    assert(head.take(head.len() as int) =~= head);
    let ghost pen = seqs(own@);
    let ghost kept = own@;
    assert(head + pen.take(0) =~= head);
    for stroke in it: own
        invariant
            it.seq() == kept,
            pen == seqs(kept),
            seqs(all@) == head + pen.take(it.index() as int),
            region == with_all_inked(BBox::nothing(), seqs(all@)),
            bottom == lowest(DATE_TOP, seqs(all@)),
    {
        proof {
            let k = it.index() as int;
            assert(pen.take(k + 1) =~= pen.take(k).push(stroke@));
            assert((head + pen.take(k)).push(stroke@) =~= head + pen.take(k + 1));
        }
        add_inked(&mut all, &mut region, &mut bottom, stroke);
    }
    let ghost above = head + pen;
    assert(pen.take(pen.len() as int) =~= pen);
    assert(seqs(all@) =~= above);
    assert(above + Seq::<Seq<(i32, i32, i32)>>::empty() =~= above);
    match reply {
        None => {},
        Some(lines) => {
            let y: i32 = lesser(plus(bottom, 130), SCREEN_H as i32 - 400);
            let plan = plan_reply(lines, Some(y));
            let ghost tail = laid_old_reply(*reply, y as int);
            let mut k: usize = 0;
            assert(above + tail.take(0) =~= above);
            while k < plan.strokes.len()
                invariant
                    k <= plan.strokes@.len(),
                    *reply == Some(*lines),
                    tail == laid_old_reply(*reply, y as int),
                    seqs(plan.strokes@) == laid_lines(lines@, y as int, lines@.len()),
                    seqs(all@) == above + tail.take(k as int),
                    region == with_all_inked(BBox::nothing(), seqs(all@)),
                    bottom == lowest(DATE_TOP, seqs(all@)),
                decreases plan.strokes@.len() - k,
            {
                let mapped = give_radius(&plan.strokes[k], 2);
                proof {
                    assert(seqs(plan.strokes@)[k as int] == plan.strokes@[k as int]@);
                    assert(tail.take(k + 1) =~= tail.take(k as int).push(mapped@));
                    assert((above + tail.take(k as int)).push(mapped@) =~= above + tail.take(
                        k + 1,
                    ));
                }
                add_inked(&mut all, &mut region, &mut bottom, mapped);
                k += 1;
            }
            assert(seqs(plan.strokes@).len() == plan.strokes@.len());
            assert(tail.take(tail.len() as int) =~= tail);
        },
    }
    ConjurePlan { strokes: all, stroke_i: 0, point_i: 0, region }
}

// --- Where lines come to lie ---

/// The number of strokes in the first `k` lines.
pub open spec fn strokes_in(lines: Seq<TracedLine>, k: int) -> int
    decreases k,
{
    if k <= 0 {
        0
    } else {
        strokes_in(lines, k - 1) + lines[k - 1].strokes@.len()
    }
}

/// Is `q` the point `p` moved right by `left` and down by `top`? Nothing is said of a point that
/// ends up where an `i32` does not reach.
pub open spec fn moved(p: (i32, i32), q: (i32, i32), left: int, top: int) -> bool {
    &&& i32::MIN <= left + p.0 <= i32::MAX ==> q.0 == left + p.0
    &&& i32::MIN + 3 <= top + p.1 <= i32::MAX - 3 ==> q.1 == top + p.1
}

/// Do the strokes of the line stand among `strokes`, from stroke `from` on, each moved as a whole
/// right by `left` and down by `top`?
pub open spec fn stands_in(
    line: TracedLine,
    strokes: Seq<Seq<(i32, i32)>>,
    from: int,
    left: int,
    top: int,
) -> bool {
    &&& 0 <= from && from + line.strokes@.len() <= strokes.len()
    &&& forall|m: int|
        0 <= m < line.strokes@.len() ==> strokes[from + m].len() == (
        #[trigger] line.strokes@[m])@.len()
    &&& forall|m: int, j: int|
        0 <= m < line.strokes@.len() && 0 <= j < line.strokes@[m]@.len() ==> moved(
            #[trigger] line.strokes@[m]@[j],
            strokes[from + m][j],
            left,
            top,
        )
}

/// Does the line stand among `strokes`, from stroke `from` on, in the middle of the page but for
/// half a pixel, and with its top at `at` but for three?
pub open spec fn lies_at(
    line: TracedLine,
    strokes: Seq<Seq<(i32, i32)>>,
    from: int,
    at: int,
) -> bool {
    exists|left: int, top: int|
        #[trigger] stands_in(line, strokes, from, left, top) && -1 <= 2 * left + line.width - 1620
            <= 1 && -3 <= top - at <= 3
}

proof fn lemma_laid_lines(lines: Seq<TracedLine>, top: int, n: nat, k: nat)
    requires
        k < n <= lines.len(),
        i32::MIN <= top,
        top + 120 * n <= i32::MAX,
    ensures
        laid_lines(lines, top, n).len() == strokes_in(lines, n as int),
        lies_at(lines[k as int], laid_lines(lines, top, n), strokes_in(lines, k as int), top + 120 * k),
    decreases n,
{
    let all = laid_lines(lines, top, n);
    let before = laid_lines(lines, top, (n - 1) as nat);
    let line = lines[k as int];
    let from = strokes_in(lines, k as int);
    lemma_laid_count(lines, top, (n - 1) as nat);
    if k < n - 1 {
        lemma_laid_lines(lines, top, (n - 1) as nat, k);
        let (left, down) = choose|left: int, down: int|
            #[trigger] stands_in(line, before, from, left, down) && -1 <= 2 * left + line.width
                - 1620 <= 1 && -3 <= down - (top + 120 * k) <= 3;
        lemma_stands_in_longer(line, before, all, from, left, down);
    } else {
        sway_is_slight(k);
        let left = centred(line.width as int);
        let down = top + 120 * k + sway(k);
        let own = laid_line(line, top, k);
        assert(from == before.len());
        assert forall|m: int| 0 <= m < line.strokes@.len() implies all[from + m].len() == (
        #[trigger] line.strokes@[m])@.len() by {
            assert(all[from + m] == own[m]);
        }
        assert forall|m: int, j: int|
            0 <= m < line.strokes@.len() && 0 <= j < line.strokes@[m]@.len() implies moved(
            #[trigger] line.strokes@[m]@[j],
            all[from + m][j],
            left,
            down,
        ) by {
            assert(all[from + m] == own[m]);
        }
        assert(stands_in(line, all, from, left, down));
    }
}

proof fn lemma_laid_count(lines: Seq<TracedLine>, top: int, n: nat)
    requires
        n <= lines.len(),
    ensures
        laid_lines(lines, top, n).len() == strokes_in(lines, n as int),
    decreases n,
{
    if n > 0 {
        lemma_laid_count(lines, top, (n - 1) as nat);
    }
}

/// A line stands among more strokes where it stood among their first ones.
proof fn lemma_stands_in_longer(
    line: TracedLine,
    strokes: Seq<Seq<(i32, i32)>>,
    longer: Seq<Seq<(i32, i32)>>,
    from: int,
    left: int,
    top: int,
)
    requires
        stands_in(line, strokes, from, left, top),
        strokes.len() <= longer.len(),
        forall|i: int| 0 <= i < strokes.len() ==> longer[i] == #[trigger] strokes[i],
    ensures
        stands_in(line, longer, from, left, top),
{
    assert forall|m: int| 0 <= m < line.strokes@.len() implies longer[from + m].len() == (
    #[trigger] line.strokes@[m])@.len() by {
        assert(longer[from + m] == strokes[from + m]);
    }
    assert forall|m: int, j: int|
        0 <= m < line.strokes@.len() && 0 <= j < line.strokes@[m]@.len() implies moved(
        #[trigger] line.strokes@[m]@[j],
        longer[from + m][j],
        left,
        top,
    ) by {
        assert(longer[from + m] == strokes[from + m]);
    }
}

/// A line lies among more strokes where it lay among their first ones.
proof fn lemma_lies_in_longer(
    line: TracedLine,
    strokes: Seq<Seq<(i32, i32)>>,
    longer: Seq<Seq<(i32, i32)>>,
    from: int,
    at: int,
)
    requires
        lies_at(line, strokes, from, at),
        strokes.len() <= longer.len(),
        forall|i: int| 0 <= i < strokes.len() ==> longer[i] == #[trigger] strokes[i],
    ensures
        lies_at(line, longer, from, at),
{
    let (left, top) = choose|left: int, top: int|
        #[trigger] stands_in(line, strokes, from, left, top) && -1 <= 2 * left + line.width - 1620
            <= 1 && -3 <= top - at <= 3;
    lemma_stands_in_longer(line, strokes, longer, from, left, top);
}

/// A line stands as well among strokes behind others, further back.
proof fn lemma_stands_behind(
    line: TracedLine,
    front: Seq<Seq<(i32, i32)>>,
    strokes: Seq<Seq<(i32, i32)>>,
    from: int,
    at: int,
)
    requires
        lies_at(line, strokes, from, at),
    ensures
        lies_at(line, front + strokes, front.len() + from, at),
{
    let (left, top) = choose|left: int, top: int|
        #[trigger] stands_in(line, strokes, from, left, top) && -1 <= 2 * left + line.width - 1620
            <= 1 && -3 <= top - at <= 3;
    let all = front + strokes;
    let k = front.len() + from;
    assert forall|m: int| 0 <= m < line.strokes@.len() implies all[k + m].len() == (
    #[trigger] line.strokes@[m])@.len() by {
        assert(all[k + m] == strokes[from + m]);
    }
    assert forall|m: int, j: int|
        0 <= m < line.strokes@.len() && 0 <= j < line.strokes@[m]@.len() implies moved(
        #[trigger] line.strokes@[m]@[j],
        all[k + m][j],
        left,
        top,
    ) by {
        assert(all[k + m] == strokes[from + m]);
    }
    assert(stands_in(line, all, k, left, top));
}

/// The lines of a reply are laid out in order, each stroke whole, each line in the middle of the
/// page and 120 pixels below the one before but for a slight sway. The next chunk starts 120
/// pixels below the last line. A reply that continues another starts where it is told.
pub proof fn lines_lie_one_below_another(
    plan: WritePlan,
    lines: Seq<TracedLine>,
    y_start: Option<i32>,
    k: int,
)
    requires
        fresh_reply(plan, lines, y_start),
        0 <= k < lines.len(),
        y_start matches Some(y) ==> y + 120 * lines.len() <= i32::MAX,
        120 * lines.len() <= i32::MAX - 2160,
    ensures
        plan.strokes@.len() == strokes_in(lines, lines.len() as int),
        lies_at(
            lines[k],
            seqs(plan.strokes@),
            strokes_in(lines, k),
            plan.next_y - 120 * (lines.len() - k),
        ),
        y_start matches Some(y) ==> plan.next_y == y + 120 * lines.len(),
        plan.stroke_i == 0 && plan.point_i == 0,
{
    let top = reply_top(lines.len(), y_start);
    lemma_laid_lines(lines, top, lines.len(), k as nat);
    assert(seqs(plan.strokes@).len() == plan.strokes@.len());
}

/// A reply that starts a page has a third of the free height above it, but never starts within
/// 60 pixels of the upper edge.
pub proof fn first_reply_starts_in_the_upper_third(plan: WritePlan, lines: Seq<TracedLine>)
    requires
        fresh_reply(plan, lines, None),
        120 * lines.len() <= i32::MAX - 2160,
    ensures
        ({
            let top = plan.next_y - 120 * lines.len();
            let free = 2160 - 120 * lines.len();
            &&& top >= 60
            &&& free >= 180 ==> 3 * top <= free < 3 * top + 3
            &&& free < 180 ==> top == 60
        }),
{
}

/// A chunk is laid out below all that was there: the strokes so far and the place of the hand in
/// them stay, the chunk's lines follow from where the last chunk left off, and the next chunk
/// starts 120 pixels below the last line. A chunk without strokes changes nothing.
pub proof fn chunk_lies_below(plan: WritePlan, plan2: WritePlan, more: Seq<TracedLine>, k: int)
    requires
        appended(plan, plan2, more),
        0 <= k < more.len(),
        plan.next_y + 120 * more.len() <= i32::MAX,
    ensures
        strokes_in(more, more.len() as int) == 0 ==> plan2 == plan,
        strokes_in(more, more.len() as int) > 0 ==> {
            &&& plan2.strokes@.len() == plan.strokes@.len() + strokes_in(more, more.len() as int)
            &&& forall|i: int|
                0 <= i < plan.strokes@.len() ==> plan2.strokes@[i] == #[trigger] plan.strokes@[i]
            &&& plan2.stroke_i == plan.stroke_i && plan2.point_i == plan.point_i
            &&& lies_at(
                more[k],
                seqs(plan2.strokes@),
                plan.strokes@.len() + strokes_in(more, k),
                plan.next_y + 120 * k,
            )
            &&& plan2.next_y == plan.next_y + 120 * more.len()
        },
{
    let n = plan.strokes@.len() as int;
    let top = plan.next_y as int;
    let added = laid_lines(more, top, more.len());
    lemma_laid_lines(more, top, more.len(), k as nat);
    if added.len() > 0 {
        assert forall|i: int| 0 <= i < n implies plan2.strokes@[i] == #[trigger] plan.strokes@[i] by {
            assert(plan2.strokes@.take(n)[i] == plan.strokes@[i]);
        }
        let front = seqs(plan.strokes@);
        assert(seqs(plan2.strokes@) =~= front + added) by {
            assert forall|i: int| 0 <= i < plan2.strokes@.len() implies seqs(plan2.strokes@)[i] == (
            front + added)[i] by {
                if i >= n {
                    assert(seqs(plan2.strokes@.skip(n))[i - n] == plan2.strokes@[i]@);
                }
            }
        }
        lemma_stands_behind(more[k], front, added, strokes_in(more, k), top + 120 * k);
    }
}

/// No chunk is written over another: each line of a later chunk lies at least a line's height
/// below each line of an earlier one.
pub proof fn later_chunks_lie_below_earlier(
    plan: WritePlan,
    plan2: WritePlan,
    plan3: WritePlan,
    a: Seq<TracedLine>,
    b: Seq<TracedLine>,
    i: int,
    k: int,
)
    requires
        appended(plan, plan2, a),
        appended(plan2, plan3, b),
        strokes_in(a, a.len() as int) > 0,
        strokes_in(b, b.len() as int) > 0,
        0 <= i < a.len(),
        0 <= k < b.len(),
        plan.next_y + 120 * (a.len() + b.len()) <= i32::MAX,
    ensures
        exists|above: int, below: int|
            #[trigger] lies_at(
                a[i],
                seqs(plan3.strokes@),
                plan.strokes@.len() + strokes_in(a, i),
                above,
            ) && #[trigger] lies_at(
                b[k],
                seqs(plan3.strokes@),
                plan2.strokes@.len() + strokes_in(b, k),
                below,
            ) && below >= above + 120,
{
    chunk_lies_below(plan, plan2, a, i);
    chunk_lies_below(plan2, plan3, b, k);
    let above = plan.next_y + 120 * i;
    let below = plan2.next_y + 120 * k;
    assert forall|m: int| 0 <= m < seqs(plan2.strokes@).len() implies seqs(plan3.strokes@)[m]
        == #[trigger] seqs(plan2.strokes@)[m] by {
        assert(plan3.strokes@[m] == plan2.strokes@[m]);
    }
    lemma_lies_in_longer(
        a[i],
        seqs(plan2.strokes@),
        seqs(plan3.strokes@),
        plan.strokes@.len() + strokes_in(a, i),
        above,
    );
    assert(below >= above + 120);
}

/// The first chunk is not written over either: each line of what is appended lies at least a
/// line's height below each line of the reply that was planned.
pub proof fn chunk_lies_below_the_first(
    plan: WritePlan,
    plan2: WritePlan,
    lines: Seq<TracedLine>,
    y: i32,
    more: Seq<TracedLine>,
    i: int,
    k: int,
)
    requires
        fresh_reply(plan, lines, Some(y)),
        appended(plan, plan2, more),
        strokes_in(more, more.len() as int) > 0,
        0 <= i < lines.len(),
        0 <= k < more.len(),
        y + 120 * (lines.len() + more.len()) <= i32::MAX,
        120 * lines.len() <= i32::MAX - 2160,
    ensures
        exists|above: int, below: int|
            #[trigger] lies_at(lines[i], seqs(plan2.strokes@), strokes_in(lines, i), above)
                && #[trigger] lies_at(
                more[k],
                seqs(plan2.strokes@),
                plan.strokes@.len() + strokes_in(more, k),
                below,
            ) && below >= above + 120,
{
    lines_lie_one_below_another(plan, lines, Some(y), i);
    chunk_lies_below(plan, plan2, more, k);
    let above = plan.next_y - 120 * (lines.len() - i);
    let below = plan.next_y + 120 * k;
    assert forall|m: int| 0 <= m < seqs(plan.strokes@).len() implies seqs(plan2.strokes@)[m]
        == #[trigger] seqs(plan.strokes@)[m] by {
        assert(plan2.strokes@[m] == plan.strokes@[m]);
    }
    lemma_lies_in_longer(
        lines[i],
        seqs(plan.strokes@),
        seqs(plan2.strokes@),
        strokes_in(lines, i),
        above,
    );
    assert(below >= above + 120);
}

// --- Where a remembered page comes to lie ---

/// The ink above an old reply is lower than none of its points, nor than the head of the page,
/// and as low as one of them.
pub proof fn depth_is_that_of_the_lowest_point(y: i32, strokes: Seq<Seq<(i32, i32, i32)>>)
    ensures
        lowest(y, strokes) >= y,
        forall|i: int, j: int|
            0 <= i < strokes.len() && 0 <= j < strokes[i].len() ==> (#[trigger] strokes[i][j]).1
                <= lowest(y, strokes),
        lowest(y, strokes) == y || exists|i: int, j: int|
            0 <= i < strokes.len() && 0 <= j < strokes[i].len() && (#[trigger] strokes[i][j]).1
                == lowest(y, strokes),
    decreases strokes.len(),
{
    if strokes.len() > 0 {
        let rest = strokes.drop_last();
        let up = lowest(y, rest);
        depth_is_that_of_the_lowest_point(y, rest);
        lemma_lowest_in(up, strokes.last());
        assert forall|i: int, j: int|
            0 <= i < strokes.len() && 0 <= j < strokes[i].len() implies (#[trigger] strokes[i][j]).1
            <= lowest(y, strokes) by {
            if i < rest.len() {
                assert(rest[i][j] == strokes[i][j]);
            } else {
                assert(strokes.last()[j] == strokes[i][j]);
            }
        }
        let low = lowest(y, strokes);
        if low != y {
            if low == up {
                let (i, j) = choose|i: int, j: int|
                    0 <= i < rest.len() && 0 <= j < rest[i].len() && (#[trigger] rest[i][j]).1
                        == up;
                assert(strokes[i][j].1 == low);
            } else {
                let j = choose|j: int|
                    0 <= j < strokes.last().len() && (#[trigger] strokes.last()[j]).1 == low;
                assert(strokes[strokes.len() - 1][j].1 == low);
            }
        }
    }
}

proof fn lemma_lowest_in(y: i32, s: Seq<(i32, i32, i32)>)
    ensures
        lowest_in(y, s) >= y,
        forall|j: int| 0 <= j < s.len() ==> (#[trigger] s[j]).1 <= lowest_in(y, s),
        lowest_in(y, s) == y || exists|j: int|
            0 <= j < s.len() && (#[trigger] s[j]).1 == lowest_in(y, s),
    decreases s.len(),
{
    if s.len() > 0 {
        let rest = s.drop_last();
        lemma_lowest_in(y, rest);
        assert forall|j: int| 0 <= j < s.len() implies (#[trigger] s[j]).1 <= lowest_in(y, s) by {
            if j < rest.len() {
                assert(rest[j] == s[j]);
            }
        }
        if lowest_in(y, s) != y {
            if lowest_in(y, s) == lowest_in(y, rest) {
                let j = choose|j: int|
                    0 <= j < rest.len() && (#[trigger] rest[j]).1 == lowest_in(y, rest);
                assert(s[j].1 == lowest_in(y, s));
            } else {
                assert(s[s.len() - 1].1 == lowest_in(y, s));
            }
        }
    }
}

/// The strokes of a remembered page without their widths.
pub open spec fn bare(strokes: Seq<Seq<(i32, i32, i32)>>) -> Seq<Seq<(i32, i32)>> {
    strokes.map_values(
        |s: Seq<(i32, i32, i32)>| s.map_values(|p: (i32, i32, i32)| (p.0, p.1)),
    )
}

/// Does a reply that starts at `at` leave 130 pixels to the lowest point above it, or, where the
/// page has no such room, start at 1760?
pub open spec fn clears(above: Seq<Seq<(i32, i32, i32)>>, at: int) -> bool {
    &&& at <= 1760
    &&& at == 1760 || forall|i: int, j: int|
        0 <= i < above.len() && 0 <= j < above[i].len() ==> at >= (#[trigger] above[i][j]).1 + 130
    &&& at == 64 + 130 || exists|i: int, j: int|
        0 <= i < above.len() && 0 <= j < above[i].len() && at <= (#[trigger] above[i][j]).1 + 130
}

/// The old reply on a remembered page lies below all of the date and of the writer's ink, 130
/// pixels below the lowest point where the page has room. Its lines follow one another, whole, in
/// the middle of the page and 120 pixels apart.
pub proof fn old_reply_lies_below_all_ink(
    date: TracedLine,
    own: Seq<Seq<(i32, i32, i32)>>,
    lines: Vec<TracedLine>,
)
    requires
        120 * lines@.len() <= i32::MAX - 2160,
    ensures
        ({
            let page = remembered(date, own, Some(lines));
            let n = date.strokes@.len() + own.len();
            &&& page.len() == n + strokes_in(lines@, lines@.len() as int)
            &&& exists|at: int|
                #[trigger] clears(page.take(n as int), at) && forall|k: int|
                    0 <= k < lines@.len() ==> lies_at(
                        #[trigger] lines@[k],
                        bare(page),
                        n + strokes_in(lines@, k),
                        at + 120 * k,
                    )
            &&& forall|i: int, j: int|
                n <= i < page.len() && 0 <= j < page[i].len() ==> (#[trigger] page[i][j]).2 == 2
        }),
{
    let above = laid_date(date) + own;
    let n = above.len() as int;
    let page = remembered(date, own, Some(lines));
    let low = lowest(DATE_TOP, above);
    let at = old_reply_top(low as int);
    let laid = laid_lines(lines@, at, lines@.len());
    let tail = laid_old_reply(Some(lines), at);
    depth_is_that_of_the_lowest_point(DATE_TOP, above);
    lemma_laid_count(lines@, at, lines@.len());
    assert(page.take(n) =~= above);
    assert(clears(above, at)) by {
        if at != 64 + 130 {
            let (i, j) = choose|i: int, j: int|
                0 <= i < above.len() && 0 <= j < above[i].len() && (#[trigger] above[i][j]).1
                    == low;
            assert(at <= above[i][j].1 + 130);
        }
    }
    assert(bare(page) =~= bare(above) + laid) by {
        assert forall|i: int| 0 <= i < page.len() implies bare(page)[i] == (bare(above) + laid)[i] by {
            if i >= n {
                assert(page[i] == tail[i - n]);
                assert(bare(page)[i] =~= laid[i - n]);
            }
        }
    }
    assert forall|k: int| 0 <= k < lines@.len() implies lies_at(
        #[trigger] lines@[k],
        bare(page),
        n + strokes_in(lines@, k),
        at + 120 * k,
    ) by {
        lemma_laid_lines(lines@, at, lines@.len(), k as nat);
        lemma_stands_behind(lines@[k], bare(above), laid, strokes_in(lines@, k), at + 120 * k);
    }
    assert forall|i: int, j: int| n <= i < page.len() && 0 <= j < page[i].len() implies (
    #[trigger] page[i][j]).2 == 2 by {
        assert(page[i] == tail[i - n]);
    }
}

/// The date heads a remembered page, in the middle and 64 pixels down, in a hand of width one.
/// The writer's own strokes follow it, exactly as they were penned.
pub proof fn date_heads_the_page(
    date: TracedLine,
    own: Seq<Seq<(i32, i32, i32)>>,
    reply: Option<Vec<TracedLine>>,
)
    ensures
        ({
            let page = remembered(date, own, reply);
            let n = date.strokes@.len() as int;
            &&& n + own.len() <= page.len()
            &&& exists|left: int|
                #[trigger] stands_in(date, bare(page), 0, left, 64) && -1 <= 2 * left + date.width
                    - 1620 <= 1
            &&& forall|i: int, j: int|
                0 <= i < n && 0 <= j < page[i].len() ==> (#[trigger] page[i][j]).2 == 1
            &&& forall|i: int| 0 <= i < own.len() ==> page[n + i] == #[trigger] own[i]
            &&& reply is None ==> page.len() == n + own.len()
        }),
{
    let page = remembered(date, own, reply);
    let head = laid_date(date);
    let left = centred(date.width as int);
    assert forall|m: int| 0 <= m < date.strokes@.len() implies bare(page)[0 + m].len() == (
    #[trigger] date.strokes@[m])@.len() by {
        assert(page[m] == head[m]);
    }
    assert forall|m: int, j: int|
        0 <= m < date.strokes@.len() && 0 <= j < date.strokes@[m]@.len() implies moved(
        #[trigger] date.strokes@[m]@[j],
        bare(page)[0 + m][j],
        left,
        64,
    ) by {
        assert(page[m] == head[m]);
    }
    assert(stands_in(date, bare(page), 0, left, 64));
    assert forall|i: int, j: int| 0 <= i < head.len() && 0 <= j < page[i].len() implies (
    #[trigger] page[i][j]).2 == 1 by {
        assert(page[i] == head[i]);
    }
}

// --- Regions ---

pub proof fn lemma_with_stroke_least(b: BBox, s: Seq<(i32, i32)>, margin: i32, c: BBox)
    requires
        c.spans(b),
        forall|j: int|
            0 <= j < s.len() ==> c.spans_square(
                (#[trigger] s[j]).0 as int,
                s[j].1 as int,
                margin as int,
            ),
    ensures
        c.spans(with_stroke(b, s, margin)),
    decreases s.len(),
{
    if s.len() > 0 {
        let rest = s.drop_last();
        assert forall|j: int| 0 <= j < rest.len() implies c.spans_square(
            (#[trigger] rest[j]).0 as int,
            rest[j].1 as int,
            margin as int,
        ) by {
            assert(rest[j] == s[j]);
        }
        lemma_with_stroke_least(b, rest, margin, c);
        assert(s.last() == s[s.len() - 1]);
        grown_is_least(with_stroke(b, rest, margin), s.last().0, s.last().1, margin, c);
    }
}

proof fn lemma_with_strokes_least(b: BBox, strokes: Seq<Seq<(i32, i32)>>, margin: i32, c: BBox)
    requires
        c.spans(b),
        forall|i: int, j: int|
            0 <= i < strokes.len() && 0 <= j < strokes[i].len() ==> c.spans_square(
                (#[trigger] strokes[i][j]).0 as int,
                strokes[i][j].1 as int,
                margin as int,
            ),
    ensures
        c.spans(with_strokes(b, strokes, margin)),
    decreases strokes.len(),
{
    if strokes.len() > 0 {
        let rest = strokes.drop_last();
        assert forall|i: int, j: int|
            0 <= i < rest.len() && 0 <= j < rest[i].len() implies c.spans_square(
            (#[trigger] rest[i][j]).0 as int,
            rest[i][j].1 as int,
            margin as int,
        ) by {
            assert(rest[i][j] == strokes[i][j]);
        }
        lemma_with_strokes_least(b, rest, margin, c);
        assert forall|j: int| 0 <= j < strokes.last().len() implies c.spans_square(
            (#[trigger] strokes.last()[j]).0 as int,
            strokes.last()[j].1 as int,
            margin as int,
        ) by {
            assert(strokes.last()[j] == strokes[strokes.len() - 1][j]);
        }
        lemma_with_stroke_least(with_strokes(b, rest, margin), strokes.last(), margin, c);
    }
}

/// The region of a reply is no larger than it must be: any box that holds five pixels round each
/// of its points holds the region.
pub proof fn reply_region_is_least(
    plan: WritePlan,
    lines: Seq<TracedLine>,
    y_start: Option<i32>,
    c: BBox,
)
    requires
        fresh_reply(plan, lines, y_start),
        forall|i: int, j: int|
            0 <= i < plan.strokes@.len() && 0 <= j < plan.strokes@[i]@.len() ==> c.spans_square(
                (#[trigger] plan.strokes@[i]@[j]).0 as int,
                plan.strokes@[i]@[j].1 as int,
                5,
            ),
    ensures
        c.spans(plan.region),
{
    let all = seqs(plan.strokes@);
    assert forall|i: int, j: int|
        0 <= i < all.len() && 0 <= j < all[i].len() implies c.spans_square(
        (#[trigger] all[i][j]).0 as int,
        all[i][j].1 as int,
        5,
    ) by {
        assert(all[i][j] == plan.strokes@[i]@[j]);
    }
    lemma_with_strokes_least(BBox::nothing(), all, 5, c);
}

proof fn lemma_stroke_squares(b: BBox, s: Seq<(i32, i32)>, margin: i32, px: int, py: int)
    requires
        i32::MIN <= px <= i32::MAX,
        i32::MIN <= py <= i32::MAX,
        b.holds(px, py) || exists|j: int|
            0 <= j < s.len() && (#[trigger] s[j]).0 - margin <= px <= s[j].0 + margin && s[j].1
                - margin <= py <= s[j].1 + margin,
    ensures
        with_stroke(b, s, margin).holds(px, py),
    decreases s.len(),
{
    if s.len() > 0 {
        let rest = s.drop_last();
        if b.holds(px, py) {
            lemma_stroke_squares(b, rest, margin, px, py);
        } else {
            let j = choose|j: int|
                0 <= j < s.len() && (#[trigger] s[j]).0 - margin <= px <= s[j].0 + margin && s[j].1
                    - margin <= py <= s[j].1 + margin;
            if j < rest.len() {
                assert(rest[j] == s[j]);
                lemma_stroke_squares(b, rest, margin, px, py);
            }
        }
    }
}

proof fn lemma_strokes_squares(
    b: BBox,
    strokes: Seq<Seq<(i32, i32)>>,
    margin: i32,
    i: int,
    j: int,
    px: int,
    py: int,
)
    requires
        i32::MIN <= px <= i32::MAX,
        i32::MIN <= py <= i32::MAX,
        0 <= i < strokes.len(),
        0 <= j < strokes[i].len(),
        strokes[i][j].0 - margin <= px <= strokes[i][j].0 + margin,
        strokes[i][j].1 - margin <= py <= strokes[i][j].1 + margin,
    ensures
        with_strokes(b, strokes, margin).holds(px, py),
    decreases strokes.len(),
{
    let rest = strokes.drop_last();
    if i < rest.len() {
        assert(rest[i][j] == strokes[i][j]);
        lemma_strokes_squares(b, rest, margin, i, j, px, py);
    } else {
        assert(strokes.last()[j] == strokes[i][j]);
    }
    lemma_stroke_squares(with_strokes(b, rest, margin), strokes.last(), margin, px, py);
}

/// The whole width of a reply's line lies within its region: five pixels round each point.
pub proof fn reply_region_leaves_a_margin(
    plan: WritePlan,
    lines: Seq<TracedLine>,
    y_start: Option<i32>,
    i: int,
    j: int,
    px: int,
    py: int,
)
    requires
        fresh_reply(plan, lines, y_start),
        0 <= i < plan.strokes@.len(),
        0 <= j < plan.strokes@[i]@.len(),
        i32::MIN <= px <= i32::MAX,
        i32::MIN <= py <= i32::MAX,
        plan.strokes@[i]@[j].0 - 5 <= px <= plan.strokes@[i]@[j].0 + 5,
        plan.strokes@[i]@[j].1 - 5 <= py <= plan.strokes@[i]@[j].1 + 5,
    ensures
        plan.region.holds(px, py),
{
    lemma_strokes_squares(BBox::nothing(), seqs(plan.strokes@), 5, i, j, px, py);
}

/// Appending a chunk takes into the region five pixels round each of its points, keeps all that
/// was in it, and, where the chunk has any point, takes in no more than that.
pub proof fn appended_region_is_least(
    plan: WritePlan,
    plan2: WritePlan,
    more: Seq<TracedLine>,
    i: int,
    j: int,
    c: BBox,
)
    requires
        appended(plan, plan2, more),
        plan.strokes@.len() <= i < plan2.strokes@.len(),
        0 <= j < plan2.strokes@[i]@.len(),
    ensures
        plan2.region.spans(plan.region),
        forall|px: int, py: int|
            i32::MIN <= px <= i32::MAX && i32::MIN <= py <= i32::MAX && plan2.strokes@[i]@[j].0 - 5
                <= px <= plan2.strokes@[i]@[j].0 + 5 && plan2.strokes@[i]@[j].1 - 5 <= py
                <= plan2.strokes@[i]@[j].1 + 5 ==> #[trigger] plan2.region.holds(px, py),
        c.spans(plan.region) && (forall|a: int, b: int|
            plan.strokes@.len() <= a < plan2.strokes@.len() && 0 <= b < plan2.strokes@[a]@.len()
                ==> c.spans_square(
                (#[trigger] plan2.strokes@[a]@[b]).0 as int,
                plan2.strokes@[a]@[b].1 as int,
                5,
            )) ==> c.spans(plan2.region),
{
    let n = plan.strokes@.len() as int;
    let added = laid_lines(more, plan.next_y as int, more.len());
    let cover = with_strokes(BBox::nothing(), added, 5);
    let behind = seqs(plan2.strokes@.skip(n));
    assert(added.len() > 0);
    assert(behind[i - n] == plan2.strokes@[i]@);
    let (x, y) = plan2.strokes@[i]@[j];
    lemma_strokes_squares(BBox::nothing(), added, 5, i - n, j, x as int, y as int);
    assert forall|px: int, py: int|
        i32::MIN <= px <= i32::MAX && i32::MIN <= py <= i32::MAX && x - 5 <= px <= x + 5 && y - 5
            <= py <= y + 5 implies #[trigger] plan2.region.holds(px, py) by {
        lemma_strokes_squares(BBox::nothing(), added, 5, i - n, j, px, py);
    }
    if c.spans(plan.region) && (forall|a: int, b: int|
        plan.strokes@.len() <= a < plan2.strokes@.len() && 0 <= b < plan2.strokes@[a]@.len()
            ==> c.spans_square(
            (#[trigger] plan2.strokes@[a]@[b]).0 as int,
            plan2.strokes@[a]@[b].1 as int,
            5,
        )) {
        assert forall|a: int, b: int|
            0 <= a < added.len() && 0 <= b < added[a].len() implies c.spans_square(
            (#[trigger] added[a][b]).0 as int,
            added[a][b].1 as int,
            5,
        ) by {
            assert(behind[a] == plan2.strokes@[a + n]@);
            assert(added[a][b] == plan2.strokes@[a + n]@[b]);
        }
        lemma_with_strokes_least(BBox::nothing(), added, 5, c);
    }
}

proof fn lemma_inked_least(b: BBox, s: Seq<(i32, i32, i32)>, c: BBox)
    requires
        c.spans(b),
        forall|j: int|
            0 <= j < s.len() ==> c.spans_square(
                (#[trigger] s[j]).0 as int,
                s[j].1 as int,
                s[j].2 + 2,
            ),
    ensures
        c.spans(with_inked(b, s)),
    decreases s.len(),
{
    if s.len() > 0 {
        let rest = s.drop_last();
        assert forall|j: int| 0 <= j < rest.len() implies c.spans_square(
            (#[trigger] rest[j]).0 as int,
            rest[j].1 as int,
            rest[j].2 + 2,
        ) by {
            assert(rest[j] == s[j]);
        }
        lemma_inked_least(b, rest, c);
        assert(s.last() == s[s.len() - 1]);
    }
}

/// The region of a remembered page is no larger than it must be: any box that holds each point
/// with its width and two pixels more holds the region.
pub proof fn memory_region_is_least(strokes: Seq<Seq<(i32, i32, i32)>>, c: BBox)
    requires
        forall|i: int, j: int|
            0 <= i < strokes.len() && 0 <= j < strokes[i].len() ==> c.spans_square(
                (#[trigger] strokes[i][j]).0 as int,
                strokes[i][j].1 as int,
                strokes[i][j].2 + 2,
            ),
    ensures
        c.spans(with_all_inked(BBox::nothing(), strokes)),
    decreases strokes.len(),
{
    if strokes.len() > 0 {
        let rest = strokes.drop_last();
        assert forall|i: int, j: int|
            0 <= i < rest.len() && 0 <= j < rest[i].len() implies c.spans_square(
            (#[trigger] rest[i][j]).0 as int,
            rest[i][j].1 as int,
            rest[i][j].2 + 2,
        ) by {
            assert(rest[i][j] == strokes[i][j]);
        }
        memory_region_is_least(rest, c);
        assert forall|j: int| 0 <= j < strokes.last().len() implies c.spans_square(
            (#[trigger] strokes.last()[j]).0 as int,
            strokes.last()[j].1 as int,
            strokes.last()[j].2 + 2,
        ) by {
            assert(strokes.last()[j] == strokes[strokes.len() - 1][j]);
        }
        lemma_inked_least(with_all_inked(BBox::nothing(), rest), strokes.last(), c);
    }
}

proof fn lemma_inked_squares(b: BBox, s: Seq<(i32, i32, i32)>, px: int, py: int)
    requires
        i32::MIN <= px <= i32::MAX,
        i32::MIN <= py <= i32::MAX,
        b.holds(px, py) || exists|j: int|
            0 <= j < s.len() && (#[trigger] s[j]).2 < i32::MAX - 2 && s[j].0 - s[j].2 - 2 <= px
                <= s[j].0 + s[j].2 + 2 && s[j].1 - s[j].2 - 2 <= py <= s[j].1 + s[j].2 + 2,
    ensures
        with_inked(b, s).holds(px, py),
    decreases s.len(),
{
    if s.len() > 0 {
        let rest = s.drop_last();
        if b.holds(px, py) {
            lemma_inked_squares(b, rest, px, py);
        } else {
            let j = choose|j: int|
                0 <= j < s.len() && (#[trigger] s[j]).2 < i32::MAX - 2 && s[j].0 - s[j].2 - 2 <= px
                    <= s[j].0 + s[j].2 + 2 && s[j].1 - s[j].2 - 2 <= py <= s[j].1 + s[j].2 + 2;
            if j < rest.len() {
                assert(rest[j] == s[j]);
                lemma_inked_squares(b, rest, px, py);
            }
        }
    }
}

/// The whole width of a remembered page's ink lies within its region, with two pixels to spare.
pub proof fn memory_region_leaves_a_margin(
    strokes: Seq<Seq<(i32, i32, i32)>>,
    i: int,
    j: int,
    px: int,
    py: int,
)
    requires
        0 <= i < strokes.len(),
        0 <= j < strokes[i].len(),
        strokes[i][j].2 < i32::MAX - 2,
        i32::MIN <= px <= i32::MAX,
        i32::MIN <= py <= i32::MAX,
        strokes[i][j].0 - strokes[i][j].2 - 2 <= px <= strokes[i][j].0 + strokes[i][j].2 + 2,
        strokes[i][j].1 - strokes[i][j].2 - 2 <= py <= strokes[i][j].1 + strokes[i][j].2 + 2,
    ensures
        with_all_inked(BBox::nothing(), strokes).holds(px, py),
    decreases strokes.len(),
{
    let rest = strokes.drop_last();
    if i < rest.len() {
        assert(rest[i][j] == strokes[i][j]);
        memory_region_leaves_a_margin(rest, i, j, px, py);
    } else {
        assert(strokes.last()[j] == strokes[i][j]);
    }
    lemma_inked_squares(with_all_inked(BBox::nothing(), rest), strokes.last(), px, py);
}

/// A reply is planned line below line, with the hand at its start.
pub proof fn planned_reply_is_fresh(lines: Vec<TracedLine>, y_start: Option<i32>, plan: WritePlan)
    requires
        call_ensures(plan_reply, (&lines, y_start), plan),
    ensures
        fresh_reply(plan, lines@, y_start),
        plan.stroke_i == 0 && plan.point_i == 0,
{
}

/// Appending a chunk leaves the hand where it is and all strokes so far as they are, and no
/// chunk moves the place of the next one up.
pub proof fn chunk_is_appended(plan: &mut WritePlan, more: Vec<TracedLine>, k: int)
    requires
        call_ensures(append_reply, (plan, &more), ()),
        0 <= k < old(plan).strokes@.len(),
    ensures
        appended(*old(plan), *final(plan), more@),
        final(plan).strokes@.len() >= old(plan).strokes@.len(),
        final(plan).strokes@[k] == old(plan).strokes@[k],
        final(plan).stroke_i == old(plan).stroke_i,
        final(plan).point_i == old(plan).point_i,
        old(plan).next_y + 120 * more@.len() <= i32::MAX ==> {
            ||| final(plan).next_y == old(plan).next_y + 120 * more@.len()
            ||| *final(plan) == *old(plan)
        },
{
    let n = old(plan).strokes@.len() as int;
    let added = laid_lines(more@, old(plan).next_y as int, more@.len());
    if added.len() > 0 {
        assert(final(plan).strokes@.take(n)[k] == final(plan).strokes@[k]);
    }
}

/// A remembered page is planned with the hand at its start: the date, the writer's own strokes,
/// and below them the old reply, where there is one.
pub proof fn conjured_page_is_whole(
    date: TracedLine,
    own: Vec<Vec<(i32, i32, i32)>>,
    reply: Option<Vec<TracedLine>>,
    plan: ConjurePlan,
    k: int,
)
    requires
        call_ensures(conjure, (&date, own, &reply), plan),
        0 <= k < own@.len(),
    ensures
        plan.stroke_i == 0 && plan.point_i == 0,
        seqs(plan.strokes@) == remembered(date, seqs(own@), reply),
        plan.region == with_all_inked(BBox::nothing(), seqs(plan.strokes@)),
        plan.strokes@.len() >= date.strokes@.len() + own@.len(),
        reply is None ==> plan.strokes@.len() == date.strokes@.len() + own@.len(),
        plan.strokes@[date.strokes@.len() + k]@ == own@[k]@,
{
    let all = seqs(plan.strokes@);
    let n = date.strokes@.len() as int;
    assert(all.len() == plan.strokes@.len());
    assert(laid_date(date).len() == n);
    assert(seqs(own@).len() == own@.len());
    assert(all[n + k] == seqs(own@)[k]);
    assert(all[n + k] == plan.strokes@[n + k]@);
}

/// A line that is too wide hangs over the page on either side by as much, but for a pixel.
pub proof fn wide_lines_hang_over_evenly(width: int)
    requires
        width > 1620,
    ensures
        centred(width) <= 0,
        0 <= (width - 1620) + 2 * centred(width) <= 1,
{
}

/// Is this the run of numbers that the lines' unsteadiness is drawn from?
pub open spec fn sway_run(seeds: Seq<u32>) -> bool {
    &&& seeds.len() > 0 && seeds[0] == 0x1234
    &&& forall|i: int, j: int|
        #![trigger seeds[i], seeds[j]]
        0 <= i && j == i + 1 && j < seeds.len() ==> seeds[j] == seeds[i].wrapping_mul(
            1664525,
        ).wrapping_add(1013904223)
}

proof fn lemma_sway_run(seeds: Seq<u32>, k: nat)
    requires
        sway_run(seeds),
        k < seeds.len(),
    ensures
        seeds[k as int] == sway_seed(k),
    decreases k,
{
    if k > 0 {
        lemma_sway_run(seeds, (k - 1) as nat);
        assert(seeds[k - 1].wrapping_mul(1664525).wrapping_add(1013904223) == seeds[k as int]);
    }
}

proof fn lemma_laid_exactly(lines: Seq<TracedLine>, top: int, n: nat, k: nat)
    requires
        k < n <= lines.len(),
        i32::MIN <= top,
        top + 120 * n <= i32::MAX,
    ensures
        stands_in(
            lines[k as int],
            laid_lines(lines, top, n),
            strokes_in(lines, k as int),
            centred(lines[k as int].width as int),
            top + 120 * k + sway(k),
        ),
    decreases n,
{
    let all = laid_lines(lines, top, n);
    let before = laid_lines(lines, top, (n - 1) as nat);
    let line = lines[k as int];
    let from = strokes_in(lines, k as int);
    let left = centred(line.width as int);
    let down = top + 120 * k + sway(k);
    lemma_laid_count(lines, top, (n - 1) as nat);
    if k < n - 1 {
        lemma_laid_exactly(lines, top, (n - 1) as nat, k);
        lemma_stands_in_longer(line, before, all, from, left, down);
    } else {
        sway_is_slight(k);
        let own = laid_line(line, top, k);
        assert(from == before.len());
        assert forall|m: int| 0 <= m < line.strokes@.len() implies all[from + m].len() == (
        #[trigger] line.strokes@[m])@.len() by {
            assert(all[from + m] == own[m]);
        }
        assert forall|m: int, j: int|
            0 <= m < line.strokes@.len() && 0 <= j < line.strokes@[m]@.len() implies moved(
            #[trigger] line.strokes@[m]@[j],
            all[from + m][j],
            left,
            down,
        ) by {
            assert(all[from + m] == own[m]);
        }
    }
}

/// Each line sways by what its own draw gives, from three above to three below where it should
/// lie; the draws start over with each chunk.
pub proof fn each_line_sways_by_its_own_draw(
    lines: Vec<TracedLine>,
    y_start: Option<i32>,
    plan: WritePlan,
    seeds: Seq<u32>,
    k: int,
)
    requires
        call_ensures(plan_reply, (&lines, y_start), plan),
        0 <= k < lines@.len(),
        sway_run(seeds),
        seeds.len() > lines@.len(),
        y_start matches Some(y) ==> y + 120 * lines@.len() <= i32::MAX,
        120 * lines@.len() <= i32::MAX - 2160,
    ensures
        exists|left: int|
            0 <= (1620 - lines@[k].width) - 2 * left + 1 <= 2 && #[trigger] stands_in(
                lines@[k],
                seqs(plan.strokes@),
                strokes_in(lines@, k),
                left,
                plan.next_y - 120 * (lines@.len() - k) + (seeds[k + 1] >> 16) % 7 - 3,
            ),
{
    let n = lines@.len();
    let top = reply_top(n, y_start);
    lemma_laid_exactly(lines@, top, n, k as nat);
    lemma_sway_run(seeds, (k + 1) as nat);
    let down = plan.next_y - 120 * (n - k) + (seeds[k + 1] >> 16) % 7 - 3;
    assert(down == top + 120 * k + sway(k as nat));
    assert(stands_in(
        lines@[k],
        seqs(plan.strokes@),
        strokes_in(lines@, k),
        centred(lines@[k].width as int),
        down,
    ));
}

} // verus!
