//! The page: its size, boxes on it, and what can be done to it.
use vstd::prelude::*;

verus! {

/// Width of the page in pixels.
pub const SCREEN_W: usize = 1620;

/// Height of the page in pixels.
pub const SCREEN_H: usize = 2160;

/// `n`, or the nearest value that an `i32` can hold.
pub open spec fn fitted(n: int) -> i32 {
    if n < i32::MIN {
        i32::MIN
    } else if n > i32::MAX {
        i32::MAX
    } else {
        n as i32
    }
}

/// `a + b`, or the nearest value that an `i32` can hold.
pub fn plus(a: i32, b: i32) -> (c: i32)
    ensures
        c == fitted(a + b),
{
    let n: i64 = a as i64 + b as i64;
    if n < i32::MIN as i64 {
        i32::MIN
    } else if n > i32::MAX as i64 {
        i32::MAX
    } else {
        n as i32
    }
}

/// `a - b`, or the nearest value that an `i32` can hold.
pub fn minus(a: i32, b: i32) -> (c: i32)
    ensures
        c == fitted(a - b),
{
    let n: i64 = a as i64 - b as i64;
    if n < i32::MIN as i64 {
        i32::MIN
    } else if n > i32::MAX as i64 {
        i32::MAX
    } else {
        n as i32
    }
}

/// The smaller of two.
pub fn lesser(a: i32, b: i32) -> (c: i32)
    ensures
        c == if a <= b { a } else { b },
{
    if a <= b {
        a
    } else {
        b
    }
}

/// The greater of two.
pub fn greater(a: i32, b: i32) -> (c: i32)
    ensures
        c == if a >= b { a } else { b },
{
    if a >= b {
        a
    } else {
        b
    }
}

/// A box on the page, its edges included. It starts out empty and grows as points are added.
#[derive(Clone, Copy, Debug, PartialEq, Eq, Structural)]
pub struct BBox {
    pub x0: i32,
    pub y0: i32,
    pub x1: i32,
    pub y1: i32,
}

impl BBox {
    /// The box that holds nothing.
    pub open spec fn nothing() -> BBox {
        BBox { x0: i32::MAX, y0: i32::MAX, x1: i32::MIN, y1: i32::MIN }
    }

    /// Is there no point in the box?
    pub open spec fn hollow(self) -> bool {
        self.x1 < self.x0 || self.y1 < self.y0
    }

    /// Does the box hold the point `x`, `y`?
    pub open spec fn holds(self, x: int, y: int) -> bool {
        self.x0 <= x <= self.x1 && self.y0 <= y <= self.y1
    }

    /// The box once it has taken in the square of reach `r` round `x`, `y`.
    pub open spec fn grown(self, x: i32, y: i32, r: i32) -> BBox {
        BBox {
            x0: if self.x0 <= fitted(x - r) { self.x0 } else { fitted(x - r) },
            y0: if self.y0 <= fitted(y - r) { self.y0 } else { fitted(y - r) },
            x1: if self.x1 >= fitted(x + r) { self.x1 } else { fitted(x + r) },
            y1: if self.y1 >= fitted(y + r) { self.y1 } else { fitted(y + r) },
        }
    }

    /// The box once it has taken in `other`.
    pub open spec fn joined(self, other: BBox) -> BBox {
        if other.hollow() {
            self
        } else {
            self.grown(other.x0, other.y0, 0).grown(other.x1, other.y1, 0)
        }
    }

    /// Left edge, top edge, width and height; all zero for an empty box.
    pub open spec fn frame(self) -> (i32, i32, i32, i32) {
        if self.hollow() {
            (0, 0, 0, 0)
        } else {
            (self.x0, self.y0, fitted(self.x1 - self.x0 + 1), fitted(self.y1 - self.y0 + 1))
        }
    }

    /// An empty box.
    pub fn empty() -> (b: BBox)
        ensures
            b == BBox::nothing(),
            b.hollow(),
    {
        BBox { x0: i32::MAX, y0: i32::MAX, x1: i32::MIN, y1: i32::MIN }
    }

    /// Is there no point in the box?
    pub fn is_empty(&self) -> (b: bool)
        ensures
            b == self.hollow(),
    {
        self.x1 < self.x0 || self.y1 < self.y0
    }

    /// Take in the square of reach `r` round `x`, `y`.
    pub fn add(&mut self, x: i32, y: i32, r: i32)
        ensures
            *final(self) == old(self).grown(x, y, r),
    {
        self.x0 = lesser(self.x0, minus(x, r));
        self.y0 = lesser(self.y0, minus(y, r));
        self.x1 = greater(self.x1, plus(x, r));
        self.y1 = greater(self.y1, plus(y, r));
    }

    /// Take in another box.
    pub fn join(&mut self, other: BBox)
        ensures
            *final(self) == old(self).joined(other),
    {
        if !other.is_empty() {
            self.add(other.x0, other.y0, 0);
            self.add(other.x1, other.y1, 0);
        }
    }

    /// Left edge, top edge, width and height; all zero for an empty box.
    pub fn rect(&self) -> (f: (i32, i32, i32, i32))
        ensures
            f == self.frame(),
    {
        if self.is_empty() {
            (0, 0, 0, 0)
        } else {
            let w: i64 = self.x1 as i64 - self.x0 as i64 + 1;
            let h: i64 = self.y1 as i64 - self.y0 as i64 + 1;
            let w: i32 = if w > i32::MAX as i64 { i32::MAX } else { w as i32 };
            let h: i32 = if h > i32::MAX as i64 { i32::MAX } else { h as i32 };
            (self.x0, self.y0, w, h)
        }
    }
}

/// A box keeps every point that it held, and gains the square round the new one.
pub proof fn grown_covers(b: BBox, x: i32, y: i32, r: i32, px: int, py: int)
    requires
        i32::MIN <= px <= i32::MAX,
        i32::MIN <= py <= i32::MAX,
        b.holds(px, py) || (x - r <= px <= x + r && y - r <= py <= y + r),
    ensures
        b.grown(x, y, r).holds(px, py),
{
}

/// Two boxes joined hold every point that either held.
pub proof fn joined_covers(a: BBox, b: BBox, px: int, py: int)
    requires
        a.holds(px, py) || b.holds(px, py),
    ensures
        a.joined(b).holds(px, py),
{
}

/// The inks.
#[derive(Clone, Copy, Debug, PartialEq, Eq, Structural)]
pub enum Shade {
    /// Bare paper.
    White,
    /// Fresh ink.
    Black,
    /// Ink of a remembered page.
    Faded,
}

/// One thing to do to the page, to the pen's ink or to the memory. A list of them is carried
/// out from front to back.
#[derive(Clone, Copy, Debug, PartialEq, Eq, Structural)]
pub enum Action {
    /// Paint a rectangle: left edge, top edge, width, height.
    Fill { x: i32, y: i32, w: i32, h: i32, shade: Shade },
    /// Paint the whole page.
    FillAll { shade: Shade },
    /// A round blot of radius `r`.
    Stamp { x: i32, y: i32, r: i32, shade: Shade },
    /// A line between two points, drawn with a brush of radius `r`.
    Brush { x0: i32, y0: i32, x1: i32, y1: i32, r: i32, shade: Shade },
    /// One pass of dissolving what a box holds: pass `stage` out of `stages`.
    Dissolve { region: BBox, stage: u32, stages: u32 },
    /// Show a rectangle of the page; `fast` for the quick waveform.
    Update { x: i32, y: i32, w: i32, h: i32, fast: bool },
    /// Show the whole page by the quick waveform.
    UpdateAll,
    /// Show the whole page with a flashing refresh.
    FullRefresh,
    /// Wait this many milliseconds.
    Pause { ms: u64 },
    /// Drop the strokes that the pen has left.
    ClearInk,
    /// Erase every remembered page.
    ForgetAll,
}

/// The action that shows what a box frames.
pub open spec fn showing(b: BBox, fast: bool) -> Action {
    Action::Update { x: b.frame().0, y: b.frame().1, w: b.frame().2, h: b.frame().3, fast }
}

/// Painting the page white from edge to edge, and showing it.
pub open spec fn blanking() -> Seq<Action> {
    seq![
        Action::Fill { x: 0, y: 0, w: 1620, h: 2160, shade: Shade::White },
        Action::UpdateAll,
    ]
}

/// Painting the page white from edge to edge, and showing it.
pub fn blank_page() -> (acts: Vec<Action>)
    ensures
        acts@ == blanking(),
{
    let mut acts: Vec<Action> = Vec::new();
    acts.push(
        Action::Fill { x: 0, y: 0, w: SCREEN_W as i32, h: SCREEN_H as i32, shade: Shade::White },
    );
    acts.push(Action::UpdateAll);
    acts
}

/// The action that shows what a box frames.
pub fn show(b: BBox, fast: bool) -> (a: Action)
    ensures
        a == showing(b, fast),
{
    let (x, y, w, h) = b.rect();
    Action::Update { x, y, w, h, fast }
}

impl BBox {
    /// Does the box hold all of `other`'s edges?
    pub open spec fn spans(self, other: BBox) -> bool {
        self.x0 <= other.x0 && self.y0 <= other.y0 && self.x1 >= other.x1 && self.y1 >= other.y1
    }

    /// Does the box hold the square of reach `r` round `x`, `y`?
    pub open spec fn spans_square(self, x: int, y: int, r: int) -> bool {
        self.x0 <= x - r && self.y0 <= y - r && self.x1 >= x + r && self.y1 >= y + r
    }
}

/// A box grows by no more than it must: any box that holds it and the new square holds the grown
/// one.
pub proof fn grown_is_least(b: BBox, x: i32, y: i32, r: i32, c: BBox)
    requires
        c.spans(b),
        c.spans_square(x as int, y as int, r as int),
    ensures
        c.spans(b.grown(x, y, r)),
        b.grown(x, y, r).spans(b),
{
}

/// Two boxes are joined by no more than they must be: any box that holds both holds the joined
/// one, and joining with an empty box changes nothing.
pub proof fn joined_is_least(a: BBox, b: BBox, c: BBox)
    ensures
        c.spans(a) && c.spans(b) ==> c.spans(a.joined(b)),
        b.x1 < b.x0 || b.y1 < b.y0 ==> a.joined(b) == a,
{
}

/// What is shown of a box is the box: a point of the page is within the rectangle exactly where
/// it is in the box, and nothing is shown of an empty one.
pub proof fn whole_box_is_shown(b: BBox, fast: bool, px: int, py: int)
    requires
        b.x1 - b.x0 < i32::MAX,
        b.y1 - b.y0 < i32::MAX,
    ensures
        showing(b, fast) matches Action::Update { x, y, w, h, fast: f } && f == fast && (b.holds(
            px,
            py,
        ) <==> x <= px < x + w && y <= py < y + h),
{
}

/// A blank page is white all over.
pub proof fn blank_page_is_white(acts: Seq<Action>, px: int, py: int)
    requires
        acts == blanking(),
        0 <= px < SCREEN_W,
        0 <= py < SCREEN_H,
    ensures
        acts.len() == 2,
        acts[0] matches Action::Fill { x, y, w, h, shade } && shade == Shade::White && x <= px < x
            + w && y <= py < y + h,
        acts[1] == Action::UpdateAll,
{
}

/// Taking a square into a box moves each edge out to it, and no edge in.
pub proof fn edges_move_out_to_the_square(b: &mut BBox, x: i32, y: i32, r: i32)
    requires
        call_ensures(BBox::add, (b, x, y, r), ()),
        i32::MIN <= x - r && x + r <= i32::MAX,
        i32::MIN <= y - r && y + r <= i32::MAX,
        r >= 0,
    ensures
        final(b).x0 <= old(b).x0 && final(b).x0 <= x - r,
        final(b).x0 == old(b).x0 || final(b).x0 == x - r,
        final(b).y0 <= old(b).y0 && final(b).y0 <= y - r,
        final(b).y0 == old(b).y0 || final(b).y0 == y - r,
        final(b).x1 >= old(b).x1 && final(b).x1 >= x + r,
        final(b).x1 == old(b).x1 || final(b).x1 == x + r,
        final(b).y1 >= old(b).y1 && final(b).y1 >= y + r,
        final(b).y1 == old(b).y1 || final(b).y1 == y + r,
{
}

/// Joining takes in all of another box and nothing besides; an empty one adds nothing.
pub proof fn joining_takes_in_the_other(b: &mut BBox, other: BBox, x: int, y: int, c: BBox)
    requires
        call_ensures(BBox::join, (b, other), ()),
    ensures
        old(b).holds(x, y) || other.holds(x, y) ==> final(b).holds(x, y),
        c.spans(*old(b)) && c.spans(other) ==> c.spans(*final(b)),
        other.x1 < other.x0 || other.y1 < other.y0 ==> *final(b) == *old(b),
{
}

/// The rectangle of a box holds exactly the points of the box, and one that holds none has no
/// size.
pub proof fn rectangle_is_that_of_the_box(b: BBox, f: (i32, i32, i32, i32), px: int, py: int)
    requires
        call_ensures(BBox::rect, (&b,), f),
        b.x1 - b.x0 < i32::MAX,
        b.y1 - b.y0 < i32::MAX,
    ensures
        b.holds(px, py) <==> f.0 <= px < f.0 + f.2 && f.1 <= py < f.1 + f.3,
        b.x1 < b.x0 || b.y1 < b.y0 ==> f == (0i32, 0i32, 0i32, 0i32),
{
}

/// A box starts out with nothing in it, and says so.
pub proof fn empty_box_holds_nothing(b: BBox, hollow: bool, x: int, y: int)
    requires
        call_ensures(BBox::empty, (), b),
        call_ensures(BBox::is_empty, (&b,), hollow),
    ensures
        !b.holds(x, y),
        hollow,
{
}

} // verus!
