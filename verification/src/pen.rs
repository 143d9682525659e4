//! The pen on the page: ink, eraser, and the shown ink behind them.
use crate::diary::{elapsed, since, Diary, State};
use crate::fb::{fitted, show, showing, Action, BBox};
use vstd::arithmetic::div_mod::{lemma_fundamental_div_mod, lemma_mod_bound};
use vstd::prelude::*;

verus! {

/// Pressure above which the pen writes.
pub const TOUCH: i32 = 40;

/// Radius that the eraser wipes.
pub const WIPE: i32 = 22;

/// Which end of the pen is down.
#[derive(Clone, Copy, Debug, PartialEq, Eq, Structural)]
pub enum Tool {
    Pen,
    Eraser,
}

/// One reading of the raw pen.
#[derive(Clone, Copy, Debug, PartialEq, Eq, Structural)]
pub struct PenSample {
    pub x: i32,
    pub y: i32,
    pub pressure: i32,
    pub touching: bool,
    pub tool: Tool,
}

/// What a window system reports of the pen, where there is no raw one.
#[derive(Clone, Copy, Debug, PartialEq, Eq, Structural)]
pub enum WindowEvent {
    /// Pressed or moved while pressed, at depth `d` out of 100.
    Contact { x: i32, y: i32, d: i32 },
    /// Lifted.
    Release,
    /// Anything else.
    Other,
}

/// What to do to the writer's ink.
#[derive(Clone, Copy, Debug, PartialEq, Eq, Structural)]
pub enum PenOp {
    Nothing,
    /// The stroke ends.
    PenUp,
    /// Ink a point with this radius.
    Mark { x: i32, y: i32, r: i32 },
    /// Wipe a point with this radius.
    Erase { x: i32, y: i32, r: i32 },
}

/// Milliseconds between two showings of fresh ink. A screen of one's own is quick; a window is
/// not, and is spared.
pub fn flush_every(own_screen: bool) -> (ms: u64)
    ensures
        ms == if own_screen { 8u64 } else { 35u64 },
{
    if own_screen {
        8
    } else {
        35
    }
}

impl PenSample {
    /// Is the pen down hard enough to write?
    pub open spec fn writes(self) -> bool {
        self.touching && self.pressure > TOUCH
    }
}

/// The radius of ink at this pressure.
pub open spec fn ink_radius(pressure: int, max_pressure: int) -> int {
    2 + pressure * 3 / max_pressure
}

/// The radius of ink at this depth.
pub open spec fn depth_radius(d: int) -> int {
    2 + (if d < 0 {
        0
    } else if d > 100 {
        100
    } else {
        d
    }) / 45
}

impl Diary {
    /// The diary once the pen has lifted. A pen that was not down leaves it as it was; one that
    /// was starts the wait after which the page is handed over.
    pub open spec fn lifted(self, now: u64) -> Diary {
        if self.pen_down {
            Diary {
                pen_down: false,
                state: match self.state {
                    State::Listening { .. } => State::Listening { last_pen: Some(now) },
                    other => other,
                },
                ..self
            }
        } else {
            self
        }
    }

    /// The diary once the pen has come down: a reply that still rests on the page is kept to be
    /// drunk with the new ink, and the diary listens again.
    pub open spec fn met(self) -> Diary {
        match self.state {
            State::Lingering { region, .. } => Diary {
                state: State::Listening { last_pen: None },
                pending_reply: self.pending_reply.joined(region),
                ..self
            },
            _ => self,
        }
    }

    /// The diary once a point has been inked or wiped.
    pub open spec fn inking(self, now: u64) -> Diary {
        Diary { pen_down: true, state: State::Listening { last_pen: Some(now) }, ..self }
    }

    /// The diary after one reading of the raw pen.
    pub open spec fn sampled(self, s: PenSample, now: u64) -> Diary {
        let d = Diary {
            stylus_on: s.writes(),
            stylus_tapped: self.stylus_tapped || s.writes(),
            ..self
        };
        if !s.writes() {
            let up = d.lifted(now);
            if d.pen_down {
                Diary { eraser_at: None, ..up }
            } else {
                up
            }
        } else if d.met().state is Listening {
            Diary {
                eraser_at: match s.tool {
                    Tool::Pen => None,
                    Tool::Eraser => Some((s.x, s.y)),
                },
                ..d.met().inking(now)
            }
        } else {
            d.met()
        }
    }

    /// What one reading of the raw pen does to the ink.
    pub open spec fn sample_op(self, s: PenSample, max_pressure: i32) -> PenOp {
        if !s.writes() {
            if self.pen_down {
                PenOp::PenUp
            } else {
                PenOp::Nothing
            }
        } else if self.met().state is Listening {
            match s.tool {
                Tool::Pen => PenOp::Mark {
                    x: s.x,
                    y: s.y,
                    r: ink_radius(s.pressure as int, max_pressure as int) as i32,
                },
                Tool::Eraser => if self.bleed is Some {
                    PenOp::Nothing
                } else {
                    PenOp::Erase { x: s.x, y: s.y, r: WIPE }
                },
            }
        } else {
            PenOp::Nothing
        }
    }

    /// The diary after one report of the window system.
    pub open spec fn reported(self, ev: WindowEvent, now: u64) -> Diary {
        match ev {
            WindowEvent::Contact { .. } => {
                let d = Diary { stylus_on: true, stylus_tapped: true, ..self }.met();
                if d.state is Listening {
                    d.inking(now)
                } else {
                    d
                }
            },
            WindowEvent::Release => Diary { stylus_on: false, ..self }.lifted(now),
            WindowEvent::Other => self,
        }
    }

    /// What one report of the window system does to the ink.
    pub open spec fn report_op(self, ev: WindowEvent) -> PenOp {
        match ev {
            WindowEvent::Contact { x, y, d } => if self.met().state is Listening {
                PenOp::Mark { x, y, r: depth_radius(d as int) as i32 }
            } else {
                PenOp::Nothing
            },
            WindowEvent::Release => if self.pen_down {
                PenOp::PenUp
            } else {
                PenOp::Nothing
            },
            WindowEvent::Other => PenOp::Nothing,
        }
    }

    /// The pen has lifted.
    fn lift(&mut self, now: u64) -> (was_down: bool)
        ensures
            *final(self) == old(self).lifted(now),
            was_down == old(self).pen_down,
    {
        if self.pen_down {
            self.pen_down = false;
            let listening = match &self.state {
                State::Listening { .. } => true,
                _ => false,
            };
            if listening {
                self.state = State::Listening { last_pen: Some(now) };
            }
            true
        } else {
            false
        }
    }

    /// The pen has come down. Is the diary open to it?
    fn meet(&mut self) -> (open: bool)
        ensures
            *final(self) == old(self).met(),
            open == (final(self).state is Listening),
    {
        let resting = match &self.state {
            State::Lingering { region, .. } => Some(*region),
            _ => None,
        };
        if let Some(region) = resting {
            self.pending_reply.join(region);
            self.state = State::Listening { last_pen: None };
        }
        match &self.state {
            State::Listening { .. } => true,
            _ => false,
        }
    }

    /// Take one reading of the raw pen.
    pub fn pen_sample(&mut self, s: PenSample, max_pressure: i32, now: u64) -> (op: PenOp)
        requires
            old(self).wf(),
            max_pressure > 0,
            s.writes() ==> s.pressure * 3 <= i32::MAX,
            s.writes() ==> ink_radius(s.pressure as int, max_pressure as int) <= i32::MAX,
        ensures
            final(self).wf(),
            *final(self) == old(self).sampled(s, now),
            op == old(self).sample_op(s, max_pressure),
    {
        let writing = s.touching && s.pressure > TOUCH;
        self.stylus_on = writing;
        self.stylus_tapped = self.stylus_tapped || writing;
        if !writing {
            if self.lift(now) {
                self.eraser_at = None;
                return PenOp::PenUp;
            }
            return PenOp::Nothing;
        }
        if self.meet() {
            let op = match s.tool {
                Tool::Pen => {
                    self.eraser_at = None;
                    PenOp::Mark { x: s.x, y: s.y, r: 2 + s.pressure * 3 / max_pressure }
                },
                Tool::Eraser => {
                    self.eraser_at = Some((s.x, s.y));
                    if self.bleed.is_some() {
                        PenOp::Nothing
                    } else {
                        PenOp::Erase { x: s.x, y: s.y, r: WIPE }
                    }
                },
            };
            self.pen_down = true;
            self.state = State::Listening { last_pen: Some(now) };
            op
        } else {
            PenOp::Nothing
        }
    }

    /// Take one report of the window system. These are for where there is no raw pen.
    pub fn window_event(&mut self, ev: WindowEvent, now: u64) -> (op: PenOp)
        requires
            old(self).wf(),
        ensures
            final(self).wf(),
            *final(self) == old(self).reported(ev, now),
            op == old(self).report_op(ev),
    {
        match ev {
            WindowEvent::Contact { x, y, d } => {
                self.stylus_on = true;
                self.stylus_tapped = true;
                if self.meet() {
                    self.pen_down = true;
                    self.state = State::Listening { last_pen: Some(now) };
                    let depth: i32 = if d < 0 {
                        0
                    } else if d > 100 {
                        100
                    } else {
                        d
                    };
                    PenOp::Mark { x, y, r: 2 + depth / 45 }
                } else {
                    PenOp::Nothing
                }
            },
            WindowEvent::Release => {
                self.stylus_on = false;
                if self.lift(now) {
                    PenOp::PenUp
                } else {
                    PenOp::Nothing
                }
            },
            WindowEvent::Other => PenOp::Nothing,
        }
    }

    /// Inking or wiping has changed this part of the page.
    pub fn inked(&mut self, changed: BBox)
        requires
            old(self).wf(),
        ensures
            final(self).wf(),
            *final(self) == (Diary { ink_dirty: old(self).ink_dirty.joined(changed), ..*old(self) }),
    {
        self.ink_dirty.join(changed);
    }

    /// Show fresh ink, if there is any and `every` milliseconds have passed since the last time.
    pub fn flush(&mut self, now: u64, every: u64) -> (shown: Option<Action>)
        requires
            old(self).wf(),
        ensures
            final(self).wf(),
            !old(self).ink_dirty.hollow() && since(now, old(self).last_flush) >= every ==> {
                &&& shown == Some(showing(old(self).ink_dirty, true))
                &&& *final(self) == (Diary {
                    ink_dirty: BBox::nothing(),
                    last_flush: now,
                    ..*old(self)
                })
            },
            !(!old(self).ink_dirty.hollow() && since(now, old(self).last_flush) >= every) ==> {
                &&& shown is None
                &&& *final(self) == *old(self)
            },
    {
        if !self.ink_dirty.is_empty() && elapsed(now, self.last_flush) >= every {
            let shown = show(self.ink_dirty, true);
            self.ink_dirty = BBox::empty();
            self.last_flush = now;
            Some(shown)
        } else {
            None
        }
    }
}

/// The pen leaves a mark only on a page that is open to it: while the diary drinks, thinks,
/// writes, fades, shows its guide or a remembered page, a touch changes neither the ink nor
/// what the diary is doing.
pub proof fn no_mark_unless_open(d: Diary, s: PenSample, max_pressure: i32, now: u64)
    requires
        !(d.state is Listening),
        !(d.state is Lingering),
    ensures
        d.sample_op(s, max_pressure) is Nothing || d.sample_op(s, max_pressure) is PenUp,
        d.sampled(s, now).state == d.state,
        d.sampled(s, now).pending_reply == d.pending_reply,
{
}

/// A touch is never missed: once the pen has written, the tap stands however many readings
/// follow before the next step.
pub proof fn tap_stands(d: Diary, s: PenSample, now: u64)
    ensures
        d.stylus_tapped || s.writes() ==> d.sampled(s, now).stylus_tapped,
        !d.stylus_tapped && !s.writes() ==> !d.sampled(s, now).stylus_tapped,
{
}

/// Writing on a resting reply keeps it: the first reading that writes makes the diary listen,
/// and every point of the reply is in the part of the page to be drunk with the new ink.
pub proof fn resting_reply_is_kept(d: Diary, s: PenSample, now: u64, x: int, y: int)
    requires
        d.state is Lingering,
        s.writes(),
    ensures
        d.sampled(s, now).state == (State::Listening { last_pen: Some(now) }),
        d.state->Lingering_region.holds(x, y) || d.pending_reply.holds(x, y) ==> d.sampled(
            s,
            now,
        ).pending_reply.holds(x, y),
{
}

/// Is the page open to the pen: does the diary listen, or does a finished reply rest on it?
pub open spec fn open_page(d: Diary) -> bool {
    d.state is Listening || d.state is Lingering
}

/// Do two moments of a diary agree in all that the pen does not touch?
pub open spec fn pen_leaves(d: Diary, e: Diary) -> bool {
    &&& e.ink_dirty == d.ink_dirty
    &&& e.stab == d.stab
    &&& e.bleed == d.bleed
    &&& e.last_flush == d.last_flush
    &&& e.power_grace == d.power_grace
    &&& e.turn == d.turn
}

proof fn lemma_radius(pressure: int, max_pressure: int)
    requires
        max_pressure > 0,
    ensures
        max_pressure * (ink_radius(pressure, max_pressure) - 2) <= 3 * pressure,
        3 * pressure < max_pressure * (ink_radius(pressure, max_pressure) - 1),
{
    let n = pressure * 3;
    let q = n / max_pressure;
    lemma_fundamental_div_mod(n, max_pressure);
    lemma_mod_bound(n, max_pressure);
    assert(max_pressure * (q + 1) == max_pressure * q + max_pressure) by (nonlinear_arith);
}

/// A reading of the raw pen inks or wipes exactly where the pen presses, with more than 40, on a
/// page that is open to it; the harder it presses, the wider it inks. A reading that does not
/// press ends the stroke, if there was one.
pub proof fn pen_inks_where_it_presses(
    d: &mut Diary,
    s: PenSample,
    max_pressure: i32,
    now: u64,
    op: PenOp,
)
    requires
        call_ensures(Diary::pen_sample, (d, s, max_pressure, now), op),
        max_pressure > 0,
        s.writes() ==> ink_radius(s.pressure as int, max_pressure as int) <= i32::MAX,
    ensures
        ({
            let presses = s.touching && s.pressure > 40;
            &&& op is Mark <==> presses && open_page(*old(d)) && s.tool is Pen
            &&& op is Erase <==> presses && open_page(*old(d)) && s.tool is Eraser && old(
                d,
            ).bleed is None
            &&& op is PenUp <==> !presses && old(d).pen_down
        }),
        op matches PenOp::Mark { x, y, r } ==> {
            &&& x == s.x && y == s.y
            &&& max_pressure * (r - 2) <= 3 * s.pressure < max_pressure * (r - 1)
        },
        op matches PenOp::Erase { x, y, r } ==> x == s.x && y == s.y && r == 22,
{
    lemma_radius(s.pressure as int, max_pressure as int);
    if s.writes() {
        assert(s.pressure * 3 / max_pressure as int >= 0) by (nonlinear_arith)
            requires
                s.pressure > 0,
                max_pressure > 0,
        ;
    }
}

/// What a reading of the raw pen does to the diary: while the pen presses on an open page a
/// stroke is under way, and the wait for the writer's pause starts anew; so it does when the pen
/// lifts. The eraser is remembered for as long as it presses.
pub proof fn pen_keeps_the_diary_waiting(
    d: &mut Diary,
    s: PenSample,
    max_pressure: i32,
    now: u64,
    op: PenOp,
)
    requires
        call_ensures(Diary::pen_sample, (d, s, max_pressure, now), op),
    ensures
        ({
            let presses = s.touching && s.pressure > 40;
            &&& final(d).stylus_on == presses
            &&& final(d).stylus_tapped == (old(d).stylus_tapped || presses)
            &&& presses && open_page(*old(d)) ==> {
                &&& final(d).pen_down
                &&& final(d).state == (State::Listening { last_pen: Some(now) })
                &&& s.tool is Eraser ==> final(d).eraser_at == Some((s.x, s.y))
                &&& s.tool is Pen ==> final(d).eraser_at is None
            }
            &&& presses && !open_page(*old(d)) ==> {
                &&& final(d).pen_down == old(d).pen_down
                &&& final(d).state == old(d).state
                &&& final(d).eraser_at == old(d).eraser_at
            }
            &&& !presses ==> {
                &&& !final(d).pen_down
                &&& old(d).pen_down ==> final(d).eraser_at is None
                &&& !old(d).pen_down ==> final(d).eraser_at == old(d).eraser_at
                &&& old(d).pen_down && old(d).state is Listening ==> final(d).state == (
                State::Listening { last_pen: Some(now) })
                &&& !(old(d).pen_down && old(d).state is Listening) ==> final(d).state == old(d).state
            }
        }),
        pen_leaves(*old(d), *final(d)),
        !(old(d).state is Lingering) ==> final(d).pending_reply == old(d).pending_reply,
{
}

/// A report of the window system inks exactly where the pen touches an open page, with a radius
/// of two and one more for each 45 of depth; a release ends the stroke, if there was one; other
/// reports change nothing. The tap stands, and the wait for the writer's pause starts anew.
pub proof fn window_inks_where_it_is_touched(
    d: &mut Diary,
    ev: WindowEvent,
    now: u64,
    op: PenOp,
)
    requires
        call_ensures(Diary::window_event, (d, ev, now), op),
    ensures
        op is Mark <==> ev is Contact && open_page(*old(d)),
        op is PenUp <==> ev is Release && old(d).pen_down,
        !(op is Erase),
        op matches PenOp::Mark { x, y, r } ==> {
            &&& ev matches WindowEvent::Contact { x: u, y: v, d: depth }
            &&& x == u && y == v
            &&& 2 <= r <= 4
            &&& 0 <= depth <= 100 ==> 45 * (r - 2) <= depth < 45 * (r - 1)
            &&& depth < 0 ==> r == 2
            &&& depth > 100 ==> r == 4
        },
        ev is Other ==> *final(d) == *old(d),
        ev is Contact ==> final(d).stylus_on && final(d).stylus_tapped,
        ev is Release ==> !final(d).stylus_on && final(d).stylus_tapped == old(d).stylus_tapped,
        op is Mark ==> final(d).pen_down && final(d).state == (State::Listening {
            last_pen: Some(now),
        }),
        op is PenUp ==> !final(d).pen_down,
        op is PenUp && old(d).state is Listening ==> final(d).state == (State::Listening {
            last_pen: Some(now),
        }),
        op is Nothing ==> final(d).pen_down == old(d).pen_down && final(d).state == old(d).state,
        pen_leaves(*old(d), *final(d)),
        final(d).eraser_at == old(d).eraser_at,
        !(old(d).state is Lingering) ==> final(d).pending_reply == old(d).pending_reply,
{
}

/// No fresh ink is lost between being made and being shown: what has changed joins what is to be
/// shown, until a flush takes the whole of it.
pub proof fn fresh_ink_waits_to_be_shown(d: &mut Diary, changed: BBox, x: int, y: int)
    requires
        call_ensures(Diary::inked, (d, changed), ()),
    ensures
        old(d).ink_dirty.holds(x, y) || changed.holds(x, y) ==> final(d).ink_dirty.holds(x, y),
        changed.hollow() ==> *final(d) == *old(d),
        *final(d) == (Diary { ink_dirty: final(d).ink_dirty, ..*old(d) }),
{
}

/// A flush shows all fresh ink, quickly and at most once in `every` milliseconds, and then none
/// is left; until it is time the ink goes on waiting.
pub proof fn flush_shows_what_waits(d: &mut Diary, now: u64, every: u64, shown: Option<Action>)
    requires
        call_ensures(Diary::flush, (d, now, every), shown),
        every > 0,
    ensures
        shown is Some <==> {
            &&& exists|x: int, y: int| #[trigger] old(d).ink_dirty.holds(x, y)
            &&& now - old(d).last_flush >= every
        },
        shown matches Some(a) ==> {
            &&& a matches Action::Update { x, y, w, h, fast }
            &&& fast
            &&& x == old(d).ink_dirty.x0 && y == old(d).ink_dirty.y0
            &&& w == fitted(old(d).ink_dirty.x1 - x + 1)
            &&& h == fitted(old(d).ink_dirty.y1 - y + 1)
            &&& final(d).ink_dirty.hollow()
            &&& final(d).last_flush == now
        },
        shown is None ==> *final(d) == *old(d),
        *final(d) == (Diary {
            ink_dirty: final(d).ink_dirty,
            last_flush: final(d).last_flush,
            ..*old(d)
        }),
{
    let dirty = old(d).ink_dirty;
    if !dirty.hollow() {
        assert(dirty.holds(dirty.x0 as int, dirty.y0 as int));
    }
}

} // verus!
