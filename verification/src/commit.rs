//! Turning points of a turn: the page is handed over, a reply is taken up, a memory rises.
use crate::diary::{Diary, State, Turn, LATEST};
use crate::fb::{
    blank_page, blanking, fitted, lesser, plus, show, showing, Action, BBox, Shade, SCREEN_H,
};
use crate::oracle::{excuse, oracle_excuse};
use crate::reply::{
    append_reply, appended, fresh_reply, plan_reply, ConjurePlan, TracedLine, WritePlan,
};
use crate::step::{asks_writing, write_on, wrote, Outcome, Request};
use crate::surface::{region_all_white, Surface, PAPER};
use vstd::prelude::*;

verus! {

/// How long the guide stays up by itself.
pub const GUIDE_TIME: u64 = 45_000;

/// What the writer has left on the page.
pub struct PageInk {
    /// The part of the page that holds it.
    pub bbox: BBox,
    /// The strokes, with the pen's radius at each point.
    pub strokes: Vec<Vec<(i32, i32, i32)>>,
    /// Do the strokes look like a question mark?
    pub question: bool,
}

/// Has everything in the box been erased?
pub open spec fn erased(surf: Surface, b: BBox) -> bool {
    forall|x: int, y: int|
        #![trigger surf.brightness(x, y)]
        b.holds(x, y) ==> surf.brightness(x, y) >= PAPER
}

/// Where the diary writes below ink that reaches down to `y`.
pub open spec fn below(y: int) -> int {
    if y + 90 <= SCREEN_H - 400 {
        y + 90
    } else {
        SCREEN_H - 400
    }
}

/// What handing over the page makes of a diary: nothing where all was erased; the guide for a
/// question mark; an excuse below the ink, which is left alone, where there is no oracle; and
/// otherwise the page is drunk, together with any reply that the writer wrote underneath, and
/// a new turn begins.
pub open spec fn committed(
    d: Diary,
    e: Diary,
    surf: Surface,
    ink: PageInk,
    has_oracle: bool,
    unix: u64,
    now: u64,
    out: Outcome,
) -> bool {
    if erased(surf, ink.bbox) {
        &&& e == (Diary { state: State::Listening { last_pen: None }, ..d })
        &&& out.actions@ == seq![Action::ClearInk]
        &&& out.request is Nothing
    } else if ink.question {
        &&& e == (Diary {
            state: State::Help { open: true, until: (now + GUIDE_TIME) as u64 },
            ..d
        })
        &&& out.actions@ == seq![
            Action::Fill {
                x: ink.bbox.frame().0,
                y: ink.bbox.frame().1,
                w: ink.bbox.frame().2,
                h: ink.bbox.frame().3,
                shade: Shade::White,
            },
            showing(ink.bbox, false),
            Action::ClearInk,
        ]
        &&& out.request is ShowGuide
    } else if !has_oracle {
        &&& e == d
        &&& out.actions@.len() == 0
        &&& asks_writing(
            out.request,
            excuse("no oracle"@),
            Some(below(ink.bbox.y1 as int) as i32),
            false,
        )
    } else {
        &&& e == (Diary {
            state: State::Drinking {
                stage: 0,
                next: now,
                region: ink.bbox,
                reply: d.pending_reply,
            },
            pending_reply: BBox::nothing(),
            turn: e.turn,
            ..d
        })
        &&& e.turn.id == unix
        &&& e.turn.strokes == ink.strokes
        &&& e.turn.reply@.len() == 0
        &&& e.turn.transcript is None
        &&& !e.turn.failed
        &&& out.actions@.len() == 0
        &&& out.request is Ask
    }
}

impl Diary {
    /// The writer has paused: hand the page over. `surf` is the page as it looks, `unix` the
    /// number that the turn is filed under.
    pub fn commit(
        &mut self,
        surf: &Surface,
        ink: PageInk,
        has_oracle: bool,
        unix: u64,
        now: u64,
    ) -> (out: Outcome)
        requires
            old(self).wf(),
            old(self).state is Listening,
            surf.wf(),
            now <= LATEST,
        ensures
            final(self).wf(),
            committed(*old(self), *final(self), *surf, ink, has_oracle, unix, now, out),
    {
        let mut actions: Vec<Action> = Vec::new();
        if region_all_white(surf, ink.bbox) {
            actions.push(Action::ClearInk);
            self.state = State::Listening { last_pen: None };
            assert(actions@ =~= seq![Action::ClearInk]);
            Outcome { actions, request: Request::Nothing }
        } else if ink.question {
            let (x, y, w, h) = ink.bbox.rect();
            actions.push(Action::Fill { x, y, w, h, shade: Shade::White });
            actions.push(show(ink.bbox, false));
            actions.push(Action::ClearInk);
            self.state = State::Help { open: true, until: now + GUIDE_TIME };
            assert(actions@ =~= seq![
                Action::Fill { x, y, w, h, shade: Shade::White },
                showing(ink.bbox, false),
                Action::ClearInk,
            ]);
            Outcome { actions, request: Request::ShowGuide }
        } else if !has_oracle {
            let y: i32 = lesser(plus(ink.bbox.y1, 90), SCREEN_H as i32 - 400);
            let text = oracle_excuse("no oracle");
            let request = Request::Write { text, y_start: Some(y), streaming: false };
            Outcome { actions, request }
        } else {
            self.turn = Turn {
                id: unix,
                strokes: ink.strokes,
                reply: String::new(),
                transcript: None,
                failed: false,
            };
            self.state = State::Drinking {
                stage: 0,
                next: now,
                region: ink.bbox,
                reply: self.pending_reply,
            };
            self.pending_reply = BBox::empty();
            Outcome { actions, request: Request::Ask }
        }
    }

    /// Start to write a reply that has been traced.
    pub fn write_reply(
        &mut self,
        lines: &Vec<TracedLine>,
        y_start: Option<i32>,
        streaming: bool,
        now: u64,
    )
        requires
            old(self).wf(),
        ensures
            final(self).wf(),
            *final(self) == (Diary { state: final(self).state, ..*old(self) }),
            final(self).state matches State::Replying { plan, next, streaming: on } && {
                &&& fresh_reply(plan, lines@, y_start)
                &&& next == now
                &&& on == streaming
            },
    {
        let plan = plan_reply(lines, y_start);
        self.state = State::Replying { plan, next: now, streaming };
    }

    /// Take a further chunk, traced, into the reply being written, and move the hand on.
    pub fn append(&mut self, lines: &Vec<TracedLine>, now: u64) -> (out: Outcome)
        requires
            old(self).wf(),
            old(self).state is Replying,
            now <= LATEST,
        ensures
            final(self).wf(),
            *final(self) == (Diary {
                state: final(self).state,
                turn: final(self).turn,
                ..*old(self)
            }),
            exists|longer: WritePlan|
                appended(old(self).state->Replying_plan, longer, lines@) && #[trigger] wrote(
                    old(self).turn,
                    final(self).turn,
                    longer,
                    old(self).state->Replying_next,
                    old(self).state->Replying_streaming,
                    now,
                    final(self).state,
                    out,
                ),
    {
        let mut state = State::Listening { last_pen: None };
        core::mem::swap(&mut state, &mut self.state);
        match state {
            State::Replying { plan, next, streaming } => {
                let mut plan = plan;
                append_reply(&mut plan, lines);
                let (s, out) = write_on(&mut self.turn, plan, next, streaming, now);
                self.state = s;
                out
            },
            other => {
                self.state = other;
                Outcome { actions: Vec::new(), request: Request::Nothing }
            },
        }
    }

    /// A remembered page starts to rise; `saved` is today's page. The paper is cleared for it.
    pub fn rise(&mut self, plan: ConjurePlan, saved: Vec<u8>, now: u64) -> (acts: Vec<Action>)
        requires
            old(self).wf(),
            plan.wf(),
        ensures
            final(self).wf(),
            *final(self) == (Diary {
                state: State::Conjuring { plan, next: now, saved },
                ..*old(self)
            }),
            acts@ == blanking(),
    {
        self.state = State::Conjuring { plan, next: now, saved };
        blank_page()
    }

    /// The page to be conjured up is missing: the turn has failed, and the diary says so.
    pub fn lose_page(&mut self) -> (out: Outcome)
        requires
            old(self).wf(),
        ensures
            final(self).wf(),
            *final(self) == (Diary {
                turn: Turn { failed: true, ..old(self).turn },
                ..*old(self)
            }),
            out.actions@.len() == 0,
            asks_writing(out.request, excuse("lost page"@), None, false),
    {
        self.turn.failed = true;
        let text = oracle_excuse("lost page");
        Outcome {
            actions: Vec::new(),
            request: Request::Write { text, y_start: None, streaming: false },
        }
    }
}

/// Is there a dark pixel left inside the box?
pub open spec fn some_ink_left(surf: Surface, b: BBox) -> bool {
    exists|x: int, y: int|
        b.x0 <= x <= b.x1 && b.y0 <= y <= b.y1 && #[trigger] surf.brightness(x, y) < 200
}

/// A page on which everything was erased is not handed over: the strokes are dropped, and the
/// diary listens on as if nothing had been written.
pub proof fn erased_page_is_not_handed_over(
    d: &mut Diary,
    surf: Surface,
    ink: PageInk,
    has_oracle: bool,
    unix: u64,
    now: u64,
    out: Outcome,
)
    requires
        call_ensures(Diary::commit, (d, &surf, ink, has_oracle, unix, now), out),
        !some_ink_left(surf, ink.bbox),
    ensures
        final(d).state == (State::Listening { last_pen: None }),
        *final(d) == (Diary { state: final(d).state, ..*old(d) }),
        out.actions@.len() == 1 && out.actions@[0] is ClearInk,
        out.request is Nothing,
{
    assert(erased(surf, ink.bbox));
}

/// A question mark brings up the guide for 45 seconds: the mark is painted over and its strokes
/// are dropped, and no turn begins.
pub proof fn question_mark_brings_the_guide(
    d: &mut Diary,
    surf: Surface,
    ink: PageInk,
    has_oracle: bool,
    unix: u64,
    now: u64,
    out: Outcome,
)
    requires
        call_ensures(Diary::commit, (d, &surf, ink, has_oracle, unix, now), out),
        some_ink_left(surf, ink.bbox),
        ink.question,
        now <= LATEST,
    ensures
        final(d).state matches State::Help { open, until } && open && until == now + 45_000,
        *final(d) == (Diary { state: final(d).state, ..*old(d) }),
        out.actions@.len() == 3,
        out.actions@[0] == (Action::Fill {
            x: ink.bbox.x0,
            y: ink.bbox.y0,
            w: fitted(ink.bbox.x1 - ink.bbox.x0 + 1),
            h: fitted(ink.bbox.y1 - ink.bbox.y0 + 1),
            shade: Shade::White,
        }),
        out.actions@[1] == (Action::Update {
            x: ink.bbox.x0,
            y: ink.bbox.y0,
            w: fitted(ink.bbox.x1 - ink.bbox.x0 + 1),
            h: fitted(ink.bbox.y1 - ink.bbox.y0 + 1),
            fast: false,
        }),
        out.actions@[2] is ClearInk,
        out.request is ShowGuide,
{
    assert(!erased(surf, ink.bbox));
}

/// Without an oracle the page is left alone, and the diary says why: 90 below the ink, where the
/// page has that room, and otherwise 400 from its bottom.
pub proof fn ink_is_kept_without_an_oracle(
    d: &mut Diary,
    surf: Surface,
    ink: PageInk,
    unix: u64,
    now: u64,
    out: Outcome,
)
    requires
        call_ensures(Diary::commit, (d, &surf, ink, false, unix, now), out),
        some_ink_left(surf, ink.bbox),
        !ink.question,
    ensures
        *final(d) == *old(d),
        out.actions@.len() == 0,
        out.request matches Request::Write { text, y_start, streaming } && {
            &&& text@ == excuse("no oracle"@)
            &&& !streaming
            &&& y_start matches Some(y)
            &&& y <= 1760
            &&& ink.bbox.y1 <= 1670 ==> y == ink.bbox.y1 + 90
            &&& ink.bbox.y1 > 1670 ==> y == 1760
        },
{
    assert(!erased(surf, ink.bbox));
}

/// A page that is handed over is drunk, all of its ink and the reply underneath it with it, and
/// a new turn is opened with the writer's strokes, under the number given and with nothing read
/// or answered yet.
pub proof fn handed_over_page_opens_a_turn(
    d: &mut Diary,
    surf: Surface,
    ink: PageInk,
    unix: u64,
    now: u64,
    out: Outcome,
)
    requires
        call_ensures(Diary::commit, (d, &surf, ink, true, unix, now), out),
        some_ink_left(surf, ink.bbox),
        !ink.question,
    ensures
        final(d).state == (State::Drinking {
            stage: 0,
            next: now,
            region: ink.bbox,
            reply: old(d).pending_reply,
        }),
        final(d).pending_reply.hollow(),
        final(d).turn.id == unix,
        final(d).turn.strokes == ink.strokes,
        final(d).turn.reply@.len() == 0,
        final(d).turn.transcript is None,
        !final(d).turn.failed,
        *final(d) == (Diary {
            state: final(d).state,
            pending_reply: final(d).pending_reply,
            turn: final(d).turn,
            ..*old(d)
        }),
        out.actions@.len() == 0,
        out.request is Ask,
{
    assert(!erased(surf, ink.bbox));
}

/// A reply that has been traced is written at once, from its first point, and streams on for as
/// long as the oracle does.
pub proof fn traced_reply_is_taken_up(
    d: &mut Diary,
    lines: Vec<TracedLine>,
    y_start: Option<i32>,
    streaming: bool,
    now: u64,
)
    requires
        call_ensures(Diary::write_reply, (d, &lines, y_start, streaming, now), ()),
    ensures
        final(d).state matches State::Replying { plan, next, streaming: on } && {
            &&& fresh_reply(plan, lines@, y_start)
            &&& plan.stroke_i == 0 && plan.point_i == 0
            &&& next == now
            &&& on == streaming
        },
        *final(d) == (Diary { state: final(d).state, ..*old(d) }),
{
}

/// A remembered page rises from its first point on paper that was cleared from edge to edge, and
/// today's page is kept for when it has gone.
pub proof fn memory_rises_on_blank_paper(
    d: &mut Diary,
    plan: ConjurePlan,
    saved: Vec<u8>,
    now: u64,
    acts: Vec<Action>,
)
    requires
        call_ensures(Diary::rise, (d, plan, saved, now), acts),
    ensures
        final(d).state == (State::Conjuring { plan, next: now, saved }),
        *final(d) == (Diary { state: final(d).state, ..*old(d) }),
        acts@.len() == 2,
        acts@[0] == (Action::Fill { x: 0, y: 0, w: 1620, h: 2160, shade: Shade::White }),
        acts@[1] is UpdateAll,
{
}

/// Where the page to be conjured up is missing, the diary says so on the page as it is, and the
/// turn counts as failed.
pub proof fn lost_page_is_owned_up_to(d: &mut Diary, out: Outcome)
    requires
        call_ensures(Diary::lose_page, (d,), out),
    ensures
        final(d).turn.failed,
        final(d).turn == (Turn { failed: true, ..old(d).turn }),
        *final(d) == (Diary { turn: final(d).turn, ..*old(d) }),
        out.actions@.len() == 0,
        out.request matches Request::Write { text, y_start, streaming } && {
            &&& text@ == excuse("lost page"@)
            &&& y_start is None
            &&& !streaming
        },
{
}

} // verus!
