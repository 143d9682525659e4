//! The diary's mind: what it is doing, and what it keeps in view while it does it.
//!
//! Time is counted in milliseconds from some fixed moment. Nothing here reads a clock, a device
//! or a file: each step is told what was found, and answers with what to do.
use crate::bleed::Bleed;
use crate::fb::BBox;
use crate::reply::{ConjurePlan, WritePlan};
use vstd::prelude::*;

verus! {

/// Passes in which the page drinks the writer's ink.
pub const DRINK_STAGES: u32 = 14;

/// Passes in which a reply fades.
pub const FADE_STAGES: u32 = 10;

/// The latest moment at which a step may be taken: every delay still fits behind it.
pub const LATEST: u64 = 0xFFFF_FFFF_FFFE_0000;

/// What the diary is doing.
#[allow(inconsistent_fields)]
pub enum State {
    /// Open to the pen, which was last seen at `last_pen`.
    Listening { last_pen: Option<u64> },
    /// Drinking the writer's ink in `region`, and with it the reply in `reply` that the writer
    /// wrote underneath (an empty box when there was none).
    Drinking { stage: u32, next: u64, region: BBox, reply: BBox },
    /// Waiting for the oracle, with a pulsing blot.
    Thinking { pulse: u64, blot_on: bool, since: u64 },
    /// Writing a reply, of which more may be streaming in.
    Replying { plan: WritePlan, next: u64, streaming: bool },
    /// A finished reply rests on the page.
    Lingering { until: u64, region: BBox },
    /// The reply fades.
    FadingReply { stage: u32, next: u64, region: BBox },
    /// The guide panel. Not `open`: dismissed, and waiting for the pen to lift, so that the
    /// touch that dismissed it leaves no mark.
    Help { open: bool, until: u64 },
    /// A remembered page rises through the paper; `saved` is today's page.
    Conjuring { plan: ConjurePlan, next: u64, saved: Vec<u8> },
    /// A remembered page rests on the paper. No `saved` page: dismissed, and waiting for the
    /// pen to lift.
    MemoryShown { saved: Option<Vec<u8>>, until: u64, region: BBox },
}

/// The turn being remembered: strokes taken when the page was handed over, transcript and reply
/// as they stream in.
pub struct Turn {
    pub id: u64,
    pub strokes: Vec<Vec<(i32, i32, i32)>>,
    pub reply: String,
    pub transcript: Option<String>,
    pub failed: bool,
}

/// The diary.
pub struct Diary {
    pub state: State,
    /// A stroke is being inked.
    pub pen_down: bool,
    /// The stylus touches the glass, whatever the diary is doing.
    pub stylus_on: bool,
    /// The stylus has touched the glass since the last step.
    pub stylus_tapped: bool,
    /// Fresh ink that is not shown yet.
    pub ink_dirty: BBox,
    /// A reply that the writer has started to answer while it was still on the page.
    pub pending_reply: BBox,
    /// An eraser pressed to the page: where it first touched, and when.
    pub stab: Option<(i32, i32, u64)>,
    /// The ink that wells up under it.
    pub bleed: Option<Bleed>,
    /// Where the eraser was last seen, while it touches.
    pub eraser_at: Option<(i32, i32)>,
    /// When fresh ink was last shown.
    pub last_flush: u64,
    /// Until when presses of the power button are ignored.
    pub power_grace: u64,
    pub turn: Turn,
}

/// The time from `t` to `now`; none when `t` lies ahead.
pub open spec fn since(now: u64, t: u64) -> int {
    if now >= t {
        now - t
    } else {
        0
    }
}

/// The time from `t` to `now`; none when `t` lies ahead.
pub fn elapsed(now: u64, t: u64) -> (d: u64)
    ensures
        d == since(now, t),
{
    if now >= t {
        now - t
    } else {
        0
    }
}

impl State {
    /// Plans are at a place that they have, and no animation is past its last pass.
    pub open spec fn wf(self) -> bool {
        match self {
            State::Drinking { stage, .. } => stage < DRINK_STAGES,
            State::Replying { plan, .. } => plan.wf(),
            State::FadingReply { stage, .. } => stage < FADE_STAGES,
            State::Conjuring { plan, .. } => plan.wf(),
            _ => true,
        }
    }

    /// Is the letter box looked into: while the diary thinks, or a reply streams in?
    pub open spec fn reads_mail(self) -> bool {
        match self {
            State::Thinking { .. } => true,
            State::Replying { streaming, .. } => streaming,
            _ => false,
        }
    }

    /// Is an answer still to come: the letter box is looked into, or will be once the ink is
    /// drunk?
    pub open spec fn awaits_mail(self) -> bool {
        self is Drinking || self.reads_mail()
    }
}

impl Diary {
    /// What every operation keeps: the state is in order, and ink wells up only under an eraser
    /// that is pressed to the page.
    pub open spec fn wf(self) -> bool {
        &&& self.state.wf()
        &&& self.bleed is Some ==> self.stab is Some && self.bleed->0.wf()
    }

    /// Is the letter box to be looked into before the next step?
    pub fn wants_mail(&self) -> (b: bool)
        ensures
            b == self.state.reads_mail(),
    {
        match &self.state {
            State::Thinking { .. } => true,
            State::Replying { streaming, .. } => *streaming,
            _ => false,
        }
    }

    /// Is the letter box to be kept?
    pub fn keeps_mail(&self) -> (b: bool)
        ensures
            b == self.state.awaits_mail(),
    {
        match &self.state {
            State::Drinking { .. } => true,
            _ => self.wants_mail(),
        }
    }

    /// A diary opened at the moment `now`: it listens, and nothing has touched it.
    pub fn open(now: u64) -> (d: Diary)
        ensures
            d.wf(),
            d.state == (State::Listening { last_pen: None }),
            !d.pen_down && !d.stylus_on && !d.stylus_tapped,
            d.ink_dirty == BBox::nothing(),
            d.pending_reply == BBox::nothing(),
            d.stab is None,
            d.bleed is None,
            d.eraser_at is None,
            d.last_flush == now,
            d.power_grace == now,
            d.turn.id == 0,
            d.turn.strokes@.len() == 0,
            d.turn.reply@.len() == 0,
            d.turn.transcript is None,
            !d.turn.failed,
    {
        Diary {
            state: State::Listening { last_pen: None },
            pen_down: false,
            stylus_on: false,
            stylus_tapped: false,
            ink_dirty: BBox::empty(),
            pending_reply: BBox::empty(),
            stab: None,
            bleed: None,
            eraser_at: None,
            last_flush: now,
            power_grace: now,
            turn: Turn {
                id: 0,
                strokes: Vec::new(),
                reply: String::new(),
                transcript: None,
                failed: false,
            },
        }
    }
}

/// A diary that has just been opened listens to a page that nothing has touched, with no turn
/// under way.
pub proof fn opened_diary_is_untouched(now: u64, d: Diary)
    requires
        call_ensures(Diary::open, (now,), d),
    ensures
        d.state == (State::Listening { last_pen: None }),
        !d.pen_down && !d.stylus_on && !d.stylus_tapped,
        d.ink_dirty.hollow() && d.pending_reply.hollow(),
        d.stab is None && d.bleed is None && d.eraser_at is None,
        d.last_flush == now && d.power_grace == now,
        d.turn.id == 0 && !d.turn.failed && d.turn.transcript is None,
        d.turn.strokes@.len() == 0 && d.turn.reply@.len() == 0,
{
}

/// The letter box is looked into while the diary thinks and while a reply streams in, and kept
/// while the page is still being drunk; once the reply is complete it is given up.
pub proof fn letter_box_is_kept_while_it_matters(d: Diary, wants: bool, keeps: bool)
    requires
        call_ensures(Diary::wants_mail, (&d,), wants),
        call_ensures(Diary::keeps_mail, (&d,), keeps),
    ensures
        wants <==> d.state is Thinking || (d.state is Replying && d.state->Replying_streaming),
        keeps <==> wants || d.state is Drinking,
{
}

} // verus!
