//! One step of the diary's mind.
use crate::diary::{elapsed, since, Diary, State, Turn, DRINK_STAGES, FADE_STAGES, LATEST};
use crate::fb::{show, showing, whole_box_is_shown, Action, BBox, Shade};
use crate::oracle::{excuse, excuse_for_silence, oracle_excuse, Mail};
use crate::plan::{
    actions_of, all_dabs, dabs_made, dabs_to, draw_some, each_point_has_its_movement,
    made_opens_plan, movements_are_counted, points_to, redraws_point, reply_is_written_as_planned,
    stroke_dabs, touched, touched_is_least, whole_dab_is_touched, writes_point, Dab, Inked,
};
use crate::reply::{ConjurePlan, WritePlan};
use crate::text::{trim, trimmed};
use vstd::prelude::*;

verus! {

/// Quiet after which the page is handed to the oracle.
pub const IDLE_COMMIT: u64 = 2800;

/// How long the diary waits on a silent oracle before it gives up on the turn.
pub const ORACLE_PATIENCE: u64 = 120_000;

/// Time between two beats of the blot.
pub const BEAT: u64 = 600;

/// Middle of the page.
pub const MIDDLE_X: i32 = 810;

/// Middle of the page.
pub const MIDDLE_Y: i32 = 1080;

/// No chunk of a reply starts below this.
pub const PAGE_FULL: i32 = 1960;

/// Points that the hand inks in one step of a reply.
pub const REPLY_POINTS: u32 = 26;

/// Points that the hand inks in one step of a remembered page.
pub const MEMORY_POINTS: u32 = 48;

/// What a step asks for besides its actions.
pub enum Request {
    Nothing,
    /// The writer has paused: look at the page, then `commit`.
    Inspect,
    /// Put up the guide panel.
    ShowGuide,
    /// Take the guide panel down.
    HideGuide,
    /// Hand the page to the oracle.
    Ask,
    /// Trace this text and `write_reply` it.
    Write { text: String, y_start: Option<i32>, streaming: bool },
    /// Trace this text and `append` it.
    Append { text: String },
    /// Fetch this page from memory, then `rise`, or `lose_page` where it is missing.
    Conjure { id: u64 },
    /// Store the finished turn.
    Remember { id: u64, transcript: String, reply: String, strokes: Vec<Vec<(i32, i32, i32)>> },
    /// Put this page back and show it with a flashing refresh.
    Restore { page: Vec<u8> },
}

/// What a step does: its actions first, then what it asks for.
pub struct Outcome {
    pub actions: Vec<Action>,
    pub request: Request,
}

/// Does the request have this text written?
pub open spec fn asks_writing(
    r: Request,
    text: Seq<char>,
    y_start: Option<i32>,
    streaming: bool,
) -> bool {
    &&& r matches Request::Write { text: t, y_start: y, streaming: s }
    &&& t@ == text
    &&& y == y_start
    &&& s == streaming
}

/// No actions and no request.
pub open spec fn idle(out: Outcome) -> bool {
    out.actions@.len() == 0 && out.request is Nothing
}

/// Wiping the blot off the page.
pub open spec fn wiping() -> Seq<Action> {
    seq![
        Action::Fill { x: 796, y: 1066, w: 28, h: 28, shade: Shade::White },
        Action::Update { x: 796, y: 1066, w: 28, h: 28, fast: true },
    ]
}

/// One pass of dissolving a box, and showing it.
pub open spec fn dissolving(region: BBox, stage: u32, stages: u32) -> Seq<Action> {
    seq![Action::Dissolve { region, stage, stages }, showing(region, true)]
}

/// Has the writer paused for long enough that the page is to be handed over?
pub open spec fn paused(d: Diary, last_pen: Option<u64>, now: u64, has_ink: bool) -> bool {
    last_pen is Some && !d.pen_down && since(now, last_pen->0) >= IDLE_COMMIT && has_ink
}

/// The step while drinking.
pub open spec fn drunk(stage: u32, next: u64, region: BBox, reply: BBox, now: u64) -> (
    State,
    Seq<Action>,
) {
    if now < next {
        (State::Drinking { stage, next, region, reply }, Seq::empty())
    } else {
        let passes = dissolving(region, stage, DRINK_STAGES) + if reply.hollow() {
            Seq::empty()
        } else {
            dissolving(reply, stage, DRINK_STAGES)
        };
        if stage + 1 >= DRINK_STAGES {
            (
                State::Thinking { pulse: now, blot_on: false, since: now },
                passes.push(Action::ClearInk),
            )
        } else {
            (
                State::Drinking {
                    stage: (stage + 1) as u32,
                    next: (now + 70) as u64,
                    region,
                    reply,
                },
                passes,
            )
        }
    }
}

/// The step while a reply fades.
pub open spec fn faded(stage: u32, next: u64, region: BBox, now: u64) -> (State, Seq<Action>) {
    if now < next {
        (State::FadingReply { stage, next, region }, Seq::empty())
    } else if stage + 1 >= FADE_STAGES {
        (
            State::Listening { last_pen: None },
            dissolving(region, stage, FADE_STAGES).push(Action::FullRefresh),
        )
    } else {
        (
            State::FadingReply { stage: (stage + 1) as u32, next: (now + 80) as u64, region },
            dissolving(region, stage, FADE_STAGES),
        )
    }
}

/// The step while thinking, for what the letter box holds.
pub open spec fn thought(
    turn: Turn,
    turn2: Turn,
    pulse: u64,
    blot_on: bool,
    start: u64,
    mail: Mail,
    now: u64,
    s: State,
    out: Outcome,
) -> bool {
    let same = State::Thinking { pulse, blot_on, since: start };
    match mail {
        Mail::Empty => {
            &&& turn2 == turn
            &&& if since(now, start) >= ORACLE_PATIENCE {
                &&& s == same
                &&& out.actions@ == wiping()
                &&& asks_writing(out.request, excuse("timed out"@), None, false)
            } else if since(now, pulse) >= BEAT {
                &&& s == (State::Thinking { pulse: now, blot_on: !blot_on, since: start })
                &&& out.actions@ == seq![
                    if blot_on {
                        wiping()[0]
                    } else {
                        Action::Stamp { x: MIDDLE_X, y: MIDDLE_Y, r: 9, shade: Shade::Black }
                    },
                    wiping()[1],
                ]
                &&& out.request is Nothing
            } else {
                s == same && idle(out)
            }
        },
        Mail::Closed => {
            &&& turn2 == turn
            &&& s == (State::Listening { last_pen: None })
            &&& idle(out)
        },
        Mail::Ink(text) => {
            &&& turn2 == (Turn { reply: turn2.reply, ..turn })
            &&& turn2.reply@ == turn.reply@ + text@
            &&& s == same
            &&& out.actions@ == wiping()
            &&& asks_writing(out.request, text@, None, true)
        },
        Mail::Show(id) => {
            &&& turn2 == turn
            &&& s == same
            &&& out.actions@ == wiping()
            &&& out.request == (Request::Conjure { id })
        },
        Mail::Transcript(t) => {
            &&& turn2 == (Turn { transcript: Some(t), ..turn })
            &&& s == same
            &&& out.actions@ == wiping()
            &&& out.request is Nothing
        },
        Mail::Failed(e) => {
            &&& turn2 == (Turn { failed: true, ..turn })
            &&& s == same
            &&& out.actions@ == wiping()
            &&& asks_writing(out.request, excuse(e@), None, false)
        },
    }
}

/// The turn once a reply that streams in has been listened to, where nothing is to be appended.
pub open spec fn heard(turn: Turn, mail: Mail) -> Turn {
    match mail {
        Mail::Transcript(t) => Turn { transcript: Some(t), ..turn },
        Mail::Failed(_) => Turn { failed: true, ..turn },
        _ => turn,
    }
}

/// Does the reply go on streaming in? Not once the oracle has hung up or failed, nor once a
/// chunk has come that the page has no room for.
pub open spec fn streams_on(mail: Mail) -> bool {
    !(mail is Closed) && !(mail is Failed) && !(mail is Ink)
}

/// How long a reply of `points` points rests on the page.
pub open spec fn resting_time(points: int) -> int {
    if 4000 + points * 2 <= 20_000 {
        4000 + points * 2
    } else {
        20_000
    }
}

/// The movements made so far.
pub open spec fn made(plan: WritePlan) -> Seq<Dab> {
    dabs_made(plan.strokes@, plan.stroke_i as int, plan.point_i as int)
}

/// The movements made so far.
pub open spec fn risen(plan: ConjurePlan) -> Seq<Dab> {
    dabs_made(plan.strokes@, plan.stroke_i as int, plan.point_i as int)
}

/// The next `n` movements of a list after the first `from`, or those that are left.
pub open spec fn next_dabs(all: Seq<Dab>, from: int, n: int) -> Seq<Dab> {
    all.subrange(from, if from + n <= all.len() { from + n } else { all.len() as int })
}

/// Inking some movements, and showing what they touched.
pub open spec fn inking(dabs: Seq<Dab>) -> Seq<Action> {
    if touched(dabs).hollow() {
        actions_of(dabs)
    } else {
        actions_of(dabs).push(showing(touched(dabs), true))
    }
}

/// Does the request have the turn stored? Only one that has a reply and did not fail is.
pub open spec fn asks_storing(r: Request, turn: Turn) -> bool {
    if !turn.failed && turn.reply@.len() > 0 {
        &&& r matches Request::Remember { id, transcript, reply, strokes }
        &&& id == turn.id
        &&& transcript@ == (match turn.transcript {
            Some(t) => t@,
            None => Seq::empty(),
        })
        &&& reply@ == trimmed(turn.reply@)
        &&& strokes == turn.strokes
    } else {
        r is Nothing
    }
}

/// The step of the writing hand.
pub open spec fn wrote(
    turn: Turn,
    turn2: Turn,
    plan: WritePlan,
    next: u64,
    streaming: bool,
    now: u64,
    s: State,
    out: Outcome,
) -> bool {
    let all = all_dabs(plan.strokes@);
    let from = made(plan).len() as int;
    let fresh = next_dabs(all, from, REPLY_POINTS as int);
    if now < next {
        &&& turn2 == turn
        &&& s == (State::Replying { plan, next, streaming })
        &&& idle(out)
    } else if all.len() - from < REPLY_POINTS && !streaming {
        &&& turn2 == (Turn { strokes: turn2.strokes, ..turn })
        &&& turn2.strokes@.len() == 0
        &&& s == (State::Lingering {
            until: (now + resting_time(all.len() as int)) as u64,
            region: plan.region,
        })
        &&& out.actions@ == inking(fresh)
        &&& asks_storing(out.request, turn)
    } else {
        &&& turn2 == turn
        &&& s matches State::Replying { plan: plan2, next: next2, streaming: streaming2 }
        &&& plan2 == (WritePlan { stroke_i: plan2.stroke_i, point_i: plan2.point_i, ..plan })
        &&& plan2.wf()
        &&& made(plan2).len() == from + fresh.len()
        &&& next2 == now + 14
        &&& streaming2 == streaming
        &&& out.actions@ == inking(fresh)
        &&& out.request is Nothing
    }
}

/// The step while a reply is written: listen for more of it, then move the hand. A chunk that
/// the page has room for is handed over to be appended before the hand moves.
pub open spec fn replied(
    turn: Turn,
    turn2: Turn,
    plan: WritePlan,
    next: u64,
    streaming: bool,
    mail: Mail,
    now: u64,
    s: State,
    out: Outcome,
) -> bool {
    if streaming && mail is Ink && plan.next_y <= PAGE_FULL {
        &&& turn2 == (Turn { reply: turn2.reply, ..turn })
        &&& turn2.reply@ == turn.reply@ + " "@ + mail->Ink_0@
        &&& s == (State::Replying { plan, next, streaming })
        &&& out.actions@.len() == 0
        &&& out.request == (Request::Append { text: mail->Ink_0 })
    } else if streaming {
        wrote(heard(turn, mail), turn2, plan, next, streams_on(mail), now, s, out)
    } else {
        wrote(turn, turn2, plan, next, false, now, s, out)
    }
}

/// The step while a remembered page rises.
pub open spec fn rose(
    plan: ConjurePlan,
    next: u64,
    saved: Vec<u8>,
    tapped: bool,
    now: u64,
    s: State,
    out: Outcome,
) -> bool {
    let all = all_dabs(plan.strokes@);
    let from = risen(plan).len() as int;
    let fresh = next_dabs(all, from, MEMORY_POINTS as int);
    if tapped {
        &&& s == (State::MemoryShown { saved: None, until: now, region: plan.region })
        &&& out.actions@.len() == 0
        &&& out.request == (Request::Restore { page: saved })
    } else if now < next {
        s == (State::Conjuring { plan, next, saved }) && idle(out)
    } else if all.len() - from < MEMORY_POINTS {
        &&& s == (State::MemoryShown {
            saved: Some(saved),
            until: (now + 120_000) as u64,
            region: plan.region,
        })
        &&& out.actions@ == inking(fresh)
        &&& out.request is Nothing
    } else {
        &&& s matches State::Conjuring { plan: plan2, next: next2, saved: saved2 }
        &&& plan2 == (ConjurePlan { stroke_i: plan2.stroke_i, point_i: plan2.point_i, ..plan })
        &&& plan2.wf()
        &&& risen(plan2).len() == from + fresh.len()
        &&& next2 == now + 10
        &&& saved2 == saved
        &&& out.actions@ == inking(fresh)
        &&& out.request is Nothing
    }
}

/// The step of a diary `d`: what it does next (`s`), the turn as it stands then, and what the
/// step asks for.
pub open spec fn stepped(
    d: Diary,
    now: u64,
    mail: Mail,
    has_ink: bool,
    s: State,
    turn: Turn,
    out: Outcome,
) -> bool {
    match d.state {
        State::Listening { last_pen } => {
            &&& s == d.state
            &&& turn == d.turn
            &&& out.actions@.len() == 0
            &&& out.request == if paused(d, last_pen, now, has_ink) {
                Request::Inspect
            } else {
                Request::Nothing
            }
        },
        State::Drinking { stage, next, region, reply } => {
            &&& (s, out.actions@) == drunk(stage, next, region, reply, now)
            &&& turn == d.turn
            &&& out.request is Nothing
        },
        State::Thinking { pulse, blot_on, since } => thought(
            d.turn,
            turn,
            pulse,
            blot_on,
            since,
            mail,
            now,
            s,
            out,
        ),
        State::Replying { plan, next, streaming } => replied(
            d.turn,
            turn,
            plan,
            next,
            streaming,
            mail,
            now,
            s,
            out,
        ),
        State::Lingering { until, region } => {
            &&& s == if now >= until {
                State::FadingReply { stage: 0, next: now, region }
            } else {
                d.state
            }
            &&& turn == d.turn
            &&& idle(out)
        },
        State::FadingReply { stage, next, region } => {
            &&& (s, out.actions@) == faded(stage, next, region, now)
            &&& turn == d.turn
            &&& out.request is Nothing
        },
        State::Help { open, until } => {
            let closes = open && (d.stylus_tapped || now >= until);
            &&& s == if closes {
                State::Help { open: false, until }
            } else if open || d.stylus_on {
                d.state
            } else {
                State::Listening { last_pen: None }
            }
            &&& turn == d.turn
            &&& out.actions@.len() == 0
            &&& out.request == if closes {
                Request::HideGuide
            } else {
                Request::Nothing
            }
        },
        State::Conjuring { plan, next, saved } => {
            &&& rose(plan, next, saved, d.stylus_tapped, now, s, out)
            &&& turn == d.turn
        },
        State::MemoryShown { saved, until, region } => {
            let closes = saved is Some && (d.stylus_tapped || now >= until);
            &&& s == if closes {
                State::MemoryShown { saved: None, until, region }
            } else if saved is Some || d.stylus_on {
                d.state
            } else {
                State::Listening { last_pen: None }
            }
            &&& turn == d.turn
            &&& out.actions@.len() == 0
            &&& out.request == if closes {
                Request::Restore { page: saved->0 }
            } else {
                Request::Nothing
            }
        },
    }
}

/// Nothing to do and nothing to ask for.
fn rest() -> (out: Outcome)
    ensures
        idle(out),
{
    Outcome { actions: Vec::new(), request: Request::Nothing }
}

/// Wiping the blot off the page.
fn wipe() -> (acts: Vec<Action>)
    ensures
        acts@ == wiping(),
{
    let mut acts: Vec<Action> = Vec::new();
    acts.push(
        Action::Fill { x: MIDDLE_X - 14, y: MIDDLE_Y - 14, w: 28, h: 28, shade: Shade::White },
    );
    acts.push(Action::Update { x: MIDDLE_X - 14, y: MIDDLE_Y - 14, w: 28, h: 28, fast: true });
    acts
}

/// The step while drinking.
fn drink(stage: u32, next: u64, region: BBox, reply: BBox, now: u64) -> (r: (State, Vec<Action>))
    requires
        stage < DRINK_STAGES,
        now <= LATEST,
    ensures
        (r.0, r.1@) == drunk(stage, next, region, reply, now),
{
    let mut acts: Vec<Action> = Vec::new();
    if now < next {
        assert(acts@ =~= Seq::empty());
        return (State::Drinking { stage, next, region, reply }, acts);
    }
    acts.push(Action::Dissolve { region, stage, stages: DRINK_STAGES });
    acts.push(show(region, true));
    if !reply.is_empty() {
        acts.push(Action::Dissolve { region: reply, stage, stages: DRINK_STAGES });
        acts.push(show(reply, true));
    }
    let ghost passes = dissolving(region, stage, DRINK_STAGES) + if reply.hollow() {
        Seq::empty()
    } else {
        dissolving(reply, stage, DRINK_STAGES)
    };
    assert(acts@ =~= passes);
    if stage + 1 >= DRINK_STAGES {
        acts.push(Action::ClearInk);
        (State::Thinking { pulse: now, blot_on: false, since: now }, acts)
    } else {
        (State::Drinking { stage: stage + 1, next: now + 70, region, reply }, acts)
    }
}

/// The step while a reply fades.
fn fade(stage: u32, next: u64, region: BBox, now: u64) -> (r: (State, Vec<Action>))
    requires
        stage < FADE_STAGES,
        now <= LATEST,
    ensures
        (r.0, r.1@) == faded(stage, next, region, now),
{
    let mut acts: Vec<Action> = Vec::new();
    if now < next {
        assert(acts@ =~= Seq::empty());
        return (State::FadingReply { stage, next, region }, acts);
    }
    acts.push(Action::Dissolve { region, stage, stages: FADE_STAGES });
    acts.push(show(region, true));
    assert(acts@ =~= dissolving(region, stage, FADE_STAGES));
    if stage + 1 >= FADE_STAGES {
        acts.push(Action::FullRefresh);
        (State::Listening { last_pen: None }, acts)
    } else {
        (State::FadingReply { stage: stage + 1, next: now + 80, region }, acts)
    }
}

/// The step while thinking.
fn think(
    turn: &mut Turn,
    pulse: u64,
    blot_on: bool,
    start: u64,
    mail: Mail,
    now: u64,
) -> (r: (State, Outcome))
    ensures
        thought(*old(turn), *final(turn), pulse, blot_on, start, mail, now, r.0, r.1),
{
    let same = State::Thinking { pulse, blot_on, since: start };
    match mail {
        Mail::Empty => {
            if elapsed(now, start) >= ORACLE_PATIENCE {
                let text = oracle_excuse("timed out");
                let request = Request::Write { text, y_start: None, streaming: false };
                (same, Outcome { actions: wipe(), request })
            } else if elapsed(now, pulse) >= BEAT {
                let mut acts: Vec<Action> = Vec::new();
                let wiped = wipe();
                if blot_on {
                    acts.push(wiped[0]);
                } else {
                    acts.push(
                        Action::Stamp { x: MIDDLE_X, y: MIDDLE_Y, r: 9, shade: Shade::Black },
                    );
                }
                acts.push(wiped[1]);
                assert(acts@ =~= seq![
                    if blot_on {
                        wiping()[0]
                    } else {
                        Action::Stamp { x: MIDDLE_X, y: MIDDLE_Y, r: 9, shade: Shade::Black }
                    },
                    wiping()[1],
                ]);
                (
                    State::Thinking { pulse: now, blot_on: !blot_on, since: start },
                    Outcome { actions: acts, request: Request::Nothing },
                )
            } else {
                (same, rest())
            }
        },
        Mail::Closed => (State::Listening { last_pen: None }, rest()),
        Mail::Ink(text) => {
            turn.reply.append(text.as_str());
            let request = Request::Write { text, y_start: None, streaming: true };
            (same, Outcome { actions: wipe(), request })
        },
        Mail::Show(id) => (same, Outcome { actions: wipe(), request: Request::Conjure { id } }),
        Mail::Transcript(t) => {
            turn.transcript = Some(t);
            (same, Outcome { actions: wipe(), request: Request::Nothing })
        },
        Mail::Failed(e) => {
            turn.failed = true;
            let text = oracle_excuse(e.as_str());
            let request = Request::Write { text, y_start: None, streaming: false };
            (same, Outcome { actions: wipe(), request })
        },
    }
}

/// How long a plan's reply rests on the page.
fn rest_for(strokes: &Vec<Vec<(i32, i32)>>) -> (ms: u64)
    ensures
        ms == resting_time(all_dabs(strokes@).len() as int),
{
    let most: u64 = 8000;
    let mut points: u64 = 0;
    let mut i: usize = 0;
    while i < strokes.len()
        invariant
            i <= strokes@.len(),
            most == 8000,
            points <= most,
            points == (if dabs_to(strokes@, i as int).len() <= 8000 {
                dabs_to(strokes@, i as int).len() as int
            } else {
                8000
            }),
        decreases strokes@.len() - i,
    {
        let n: usize = strokes[i].len();
        if n as u64 >= most - points {
            points = most;
        } else {
            points = points + n as u64;
        }
        i += 1;
    }
    4000 + points * 2
}

/// What storing the turn asks for; its strokes go with it.
fn store(turn: &mut Turn) -> (r: Request)
    ensures
        *final(turn) == (Turn { strokes: final(turn).strokes, ..*old(turn) }),
        final(turn).strokes@.len() == 0,
        asks_storing(r, *old(turn)),
{
    let mut strokes: Vec<Vec<(i32, i32, i32)>> = Vec::new();
    core::mem::swap(&mut strokes, &mut turn.strokes);
    if !turn.failed && !turn.reply.as_str().is_empty() {
        let transcript = match &turn.transcript {
            Some(t) => t.clone(),
            None => String::new(),
        };
        let reply = trim(turn.reply.as_str()).to_owned();
        Request::Remember { id: turn.id, transcript, reply, strokes }
    } else {
        Request::Nothing
    }
}

/// Add the showing of `dirty` where anything was touched.
fn shown(actions: Vec<Action>, dirty: BBox) -> (acts: Vec<Action>)
    ensures
        acts@ == if dirty.hollow() {
            actions@
        } else {
            actions@.push(showing(dirty, true))
        },
{
    let mut acts = actions;
    if !dirty.is_empty() {
        acts.push(show(dirty, true));
    }
    acts
}

/// The step of the writing hand.
pub(crate) fn write_on(turn: &mut Turn, plan: WritePlan, next: u64, streaming: bool, now: u64) -> (r: (
    State,
    Outcome,
))
    requires
        plan.wf(),
        now <= LATEST,
    ensures
        wrote(*old(turn), *final(turn), plan, next, streaming, now, r.0, r.1),
        r.0.wf(),
{
    if now < next {
        return (State::Replying { plan, next, streaming }, rest());
    }
    let mut plan = plan;
    let ghost first = plan;
    let mut stroke_i: usize = plan.stroke_i;
    let mut point_i: usize = plan.point_i;
    let (acts, dirty) = draw_some(&plan.strokes, &mut stroke_i, &mut point_i, REPLY_POINTS);
    proof {
        made_opens_plan(first.strokes@, first.stroke_i as int, first.point_i as int);
    }
    plan.stroke_i = stroke_i;
    plan.point_i = point_i;
    let actions = shown(acts, dirty);
    if plan.stroke_i >= plan.strokes.len() && !streaming {
        let ms = rest_for(&plan.strokes);
        let request = store(turn);
        (
            State::Lingering { until: now + ms, region: plan.region },
            Outcome { actions, request },
        )
    } else {
        (
            State::Replying { plan, next: now + 14, streaming },
            Outcome { actions, request: Request::Nothing },
        )
    }
}

/// The step while a reply is written.
fn reply(
    turn: &mut Turn,
    plan: WritePlan,
    next: u64,
    streaming: bool,
    mail: Mail,
    now: u64,
) -> (r: (State, Outcome))
    requires
        plan.wf(),
        now <= LATEST,
    ensures
        replied(*old(turn), *final(turn), plan, next, streaming, mail, now, r.0, r.1),
        r.0.wf(),
{
    let mut streaming_on = streaming;
    if streaming {
        match mail {
            Mail::Ink(more) => {
                if plan.next_y > PAGE_FULL {
                    streaming_on = false;
                } else {
                    turn.reply.append(" ");
                    turn.reply.append(more.as_str());
                    return (
                        State::Replying { plan, next, streaming },
                        Outcome { actions: Vec::new(), request: Request::Append { text: more } },
                    );
                }
            },
            Mail::Transcript(t) => {
                turn.transcript = Some(t);
            },
            Mail::Failed(_) => {
                turn.failed = true;
                streaming_on = false;
            },
            Mail::Closed => {
                streaming_on = false;
            },
            Mail::Show(_) | Mail::Empty => {},
        }
    }
    write_on(turn, plan, next, streaming_on, now)
}

/// The step while a remembered page rises.
fn rise_on(plan: ConjurePlan, next: u64, saved: Vec<u8>, tapped: bool, now: u64) -> (r: (
    State,
    Outcome,
))
    requires
        plan.wf(),
        now <= LATEST,
    ensures
        rose(plan, next, saved, tapped, now, r.0, r.1),
        r.0.wf(),
{
    if tapped {
        return (
            State::MemoryShown { saved: None, until: now, region: plan.region },
            Outcome { actions: Vec::new(), request: Request::Restore { page: saved } },
        );
    }
    if now < next {
        return (State::Conjuring { plan, next, saved }, rest());
    }
    let mut plan = plan;
    let ghost first = plan;
    let mut stroke_i: usize = plan.stroke_i;
    let mut point_i: usize = plan.point_i;
    let (acts, dirty) = draw_some(&plan.strokes, &mut stroke_i, &mut point_i, MEMORY_POINTS);
    proof {
        made_opens_plan(first.strokes@, first.stroke_i as int, first.point_i as int);
    }
    plan.stroke_i = stroke_i;
    plan.point_i = point_i;
    let actions = shown(acts, dirty);
    let out = Outcome { actions, request: Request::Nothing };
    if plan.stroke_i >= plan.strokes.len() {
        (
            State::MemoryShown { saved: Some(saved), until: now + 120_000, region: plan.region },
            out,
        )
    } else {
        (State::Conjuring { plan, next: now + 10, saved }, out)
    }
}

impl Diary {
    /// Take one step. `mail` is what the oracle's letter box holds, looked into only while the
    /// diary thinks or a reply streams in; `has_ink` tells whether the writer has left any ink.
    pub fn step(&mut self, now: u64, mail: Mail, has_ink: bool) -> (out: Outcome)
        requires
            old(self).wf(),
            now <= LATEST,
        ensures
            final(self).wf(),
            *final(self) == (Diary {
                state: final(self).state,
                turn: final(self).turn,
                stylus_tapped: false,
                ..*old(self)
            }),
            stepped(*old(self), now, mail, has_ink, final(self).state, final(self).turn, out),
    {
        let mut state = State::Listening { last_pen: None };
        core::mem::swap(&mut state, &mut self.state);
        let tapped = self.stylus_tapped;
        self.stylus_tapped = false;
        match state {
            State::Listening { last_pen } => {
                self.state = State::Listening { last_pen };
                let mut out = rest();
                if let Some(t) = last_pen {
                    if !self.pen_down && elapsed(now, t) >= IDLE_COMMIT && has_ink {
                        out.request = Request::Inspect;
                    }
                }
                out
            },
            State::Drinking { stage, next, region, reply } => {
                let (s, actions) = drink(stage, next, region, reply, now);
                self.state = s;
                Outcome { actions, request: Request::Nothing }
            },
            State::Thinking { pulse, blot_on, since } => {
                let (s, out) = think(&mut self.turn, pulse, blot_on, since, mail, now);
                self.state = s;
                out
            },
            State::Replying { plan, next, streaming } => {
                let (s, out) = reply(&mut self.turn, plan, next, streaming, mail, now);
                self.state = s;
                out
            },
            State::Lingering { until, region } => {
                self.state = if now >= until {
                    State::FadingReply { stage: 0, next: now, region }
                } else {
                    State::Lingering { until, region }
                };
                rest()
            },
            State::FadingReply { stage, next, region } => {
                let (s, actions) = fade(stage, next, region, now);
                self.state = s;
                Outcome { actions, request: Request::Nothing }
            },
            State::Help { open, until } => {
                let mut out = rest();
                if open {
                    if tapped || now >= until {
                        self.state = State::Help { open: false, until };
                        out.request = Request::HideGuide;
                    } else {
                        self.state = State::Help { open, until };
                    }
                } else if self.stylus_on {
                    self.state = State::Help { open, until };
                } else {
                    self.state = State::Listening { last_pen: None };
                }
                out
            },
            State::Conjuring { plan, next, saved } => {
                let (s, out) = rise_on(plan, next, saved, tapped, now);
                self.state = s;
                out
            },
            State::MemoryShown { saved, until, region } => {
                let mut out = rest();
                match saved {
                    Some(page) => {
                        if tapped || now >= until {
                            self.state = State::MemoryShown { saved: None, until, region };
                            out.request = Request::Restore { page };
                        } else {
                            self.state = State::MemoryShown { saved: Some(page), until, region };
                        }
                    },
                    None => {
                        self.state = if self.stylus_on {
                            State::MemoryShown { saved: None, until, region }
                        } else {
                            State::Listening { last_pen: None }
                        };
                    },
                }
                out
            },
        }
    }
}

/// The state after due steps of drinking at these moments.
pub open spec fn after_drinking(s: State, times: Seq<u64>) -> State
    decreases times.len(),
{
    if times.len() == 0 {
        s
    } else {
        match s {
            State::Drinking { stage, next, region, reply } => after_drinking(
                drunk(stage, next, region, reply, times[0]).0,
                times.skip(1),
            ),
            other => other,
        }
    }
}

/// Drinking takes exactly as many passes as are left, and then the diary thinks.
pub proof fn drinking_ends(stage: u32, next: u64, region: BBox, reply: BBox, times: Seq<u64>)
    requires
        stage < DRINK_STAGES,
        times.len() == DRINK_STAGES - stage,
        times[0] >= next,
        forall|i: int| 0 <= i < times.len() ==> #[trigger] times[i] <= LATEST,
        forall|i: int, j: int|
            0 <= i < j < times.len() ==> #[trigger] times[j] >= #[trigger] times[i] + 70,
    ensures
        after_drinking(State::Drinking { stage, next, region, reply }, times) == (State::Thinking {
            pulse: times.last(),
            blot_on: false,
            since: times.last(),
        }),
        forall|k: int|
            0 <= k < times.len() ==> after_drinking(
                State::Drinking { stage, next, region, reply },
                #[trigger] times.take(k),
            ) is Drinking,
    decreases times.len(),
{
    let start = State::Drinking { stage, next, region, reply };
    let after = drunk(stage, next, region, reply, times[0]).0;
    let tail = times.skip(1);
    if tail.len() > 0 {
        assert(tail[0] == times[1]);
        drinking_ends((stage + 1) as u32, (times[0] + 70) as u64, region, reply, tail);
        assert(tail.last() == times.last());
    } else {
        assert(after_drinking(after, tail) == after);
    }
    assert forall|k: int| 0 <= k < times.len() implies after_drinking(
        start,
        #[trigger] times.take(k),
    ) is Drinking by {
        if k > 0 {
            assert(times.take(k)[0] == times[0]);
            assert(times.take(k).skip(1) =~= tail.take(k - 1));
            assert(after_drinking(after, tail.take(k - 1)) is Drinking);
        }
    }
}

/// The state after due steps of fading at these moments.
pub open spec fn after_fading(s: State, times: Seq<u64>) -> State
    decreases times.len(),
{
    if times.len() == 0 {
        s
    } else {
        match s {
            State::FadingReply { stage, next, region } => after_fading(
                faded(stage, next, region, times[0]).0,
                times.skip(1),
            ),
            other => other,
        }
    }
}

/// Fading takes exactly as many passes as are left, and then the diary listens.
pub proof fn fading_ends(stage: u32, next: u64, region: BBox, times: Seq<u64>)
    requires
        stage < FADE_STAGES,
        times.len() == FADE_STAGES - stage,
        times[0] >= next,
        forall|i: int| 0 <= i < times.len() ==> #[trigger] times[i] <= LATEST,
        forall|i: int, j: int|
            0 <= i < j < times.len() ==> #[trigger] times[j] >= #[trigger] times[i] + 80,
    ensures
        after_fading(State::FadingReply { stage, next, region }, times) == (State::Listening {
            last_pen: None,
        }),
        forall|k: int|
            0 <= k < times.len() ==> after_fading(
                State::FadingReply { stage, next, region },
                #[trigger] times.take(k),
            ) is FadingReply,
    decreases times.len(),
{
    let start = State::FadingReply { stage, next, region };
    let after = faded(stage, next, region, times[0]).0;
    let tail = times.skip(1);
    if tail.len() > 0 {
        assert(tail[0] == times[1]);
        fading_ends((stage + 1) as u32, (times[0] + 80) as u64, region, tail);
    } else {
        assert(after_fading(after, tail) == after);
    }
    assert forall|k: int| 0 <= k < times.len() implies after_fading(
        start,
        #[trigger] times.take(k),
    ) is FadingReply by {
        if k > 0 {
            assert(times.take(k)[0] == times[0]);
            assert(times.take(k).skip(1) =~= tail.take(k - 1));
            assert(after_fading(after, tail.take(k - 1)) is FadingReply);
        }
    }
}

/// A reply comes to rest only once every movement of its plan has been made.
pub proof fn whole_before_it_rests(
    turn: Turn,
    turn2: Turn,
    plan: WritePlan,
    next: u64,
    streaming: bool,
    now: u64,
    s: State,
    out: Outcome,
)
    requires
        plan.wf(),
        wrote(turn, turn2, plan, next, streaming, now, s, out),
        s is Lingering,
    ensures
        made(plan) + next_dabs(
            all_dabs(plan.strokes@),
            made(plan).len() as int,
            REPLY_POINTS as int,
        ) == all_dabs(plan.strokes@),
        !streaming,
{
    made_opens_plan(plan.strokes@, plan.stroke_i as int, plan.point_i as int);
    let all = all_dabs(plan.strokes@);
    let from = made(plan).len() as int;
    assert(all =~= all.take(from) + all.subrange(from, all.len() as int));
}

/// No movement of a reply is skipped or made twice: what a step inks takes up where the last
/// one left off.
pub proof fn hand_never_skips(
    turn: Turn,
    turn2: Turn,
    plan: WritePlan,
    next: u64,
    streaming: bool,
    now: u64,
    s: State,
    out: Outcome,
)
    requires
        plan.wf(),
        wrote(turn, turn2, plan, next, streaming, now, s, out),
        now >= next,
        s is Replying,
    ensures
        made(s->Replying_plan) == made(plan) + next_dabs(
            all_dabs(plan.strokes@),
            made(plan).len() as int,
            REPLY_POINTS as int,
        ),
{
    let plan2 = s->Replying_plan;
    made_opens_plan(plan.strokes@, plan.stroke_i as int, plan.point_i as int);
    made_opens_plan(plan2.strokes@, plan2.stroke_i as int, plan2.point_i as int);
    let all = all_dabs(plan.strokes@);
    let from = made(plan).len() as int;
    let to = made(plan2).len() as int;
    assert(all.take(to) =~= all.take(from) + all.subrange(from, to));
}

/// No movement of a remembered page is skipped or made twice, and it comes to rest only once
/// every one has been made.
pub proof fn memory_never_skips(
    plan: ConjurePlan,
    next: u64,
    saved: Vec<u8>,
    now: u64,
    s: State,
    out: Outcome,
)
    requires
        plan.wf(),
        rose(plan, next, saved, false, now, s, out),
        now >= next,
    ensures
        ({
            let all = all_dabs(plan.strokes@);
            let so_far = risen(plan) + next_dabs(
                all,
                risen(plan).len() as int,
                MEMORY_POINTS as int,
            );
            &&& s is Conjuring ==> risen(s->Conjuring_plan) == so_far
            &&& s is MemoryShown ==> so_far == all
            &&& s is Conjuring || s is MemoryShown
        }),
{
    made_opens_plan(plan.strokes@, plan.stroke_i as int, plan.point_i as int);
    let all = all_dabs(plan.strokes@);
    let from = risen(plan).len() as int;
    if s is Conjuring {
        let plan2 = s->Conjuring_plan;
        made_opens_plan(plan2.strokes@, plan2.stroke_i as int, plan2.point_i as int);
        let to = risen(plan2).len() as int;
        assert(all.take(to) =~= all.take(from) + all.subrange(from, to));
    } else {
        assert(all =~= all.take(from) + all.subrange(from, all.len() as int));
    }
}

/// The page that was put away for a remembered one.
pub open spec fn put_away(s: State) -> Option<Vec<u8>> {
    match s {
        State::Conjuring { saved, .. } => Some(saved),
        State::MemoryShown { saved, .. } => saved,
        _ => None,
    }
}

/// Today's page is never lost behind a remembered one: after each step it is either still put
/// away or has just been asked back.
pub proof fn todays_page_returns(
    d: Diary,
    now: u64,
    mail: Mail,
    has_ink: bool,
    s: State,
    turn: Turn,
    out: Outcome,
)
    requires
        put_away(d.state) is Some,
        stepped(d, now, mail, has_ink, s, turn, out),
    ensures
        put_away(s) == put_away(d.state) || out.request == (Request::Restore {
            page: put_away(d.state)->0,
        }),
        put_away(s) is None ==> out.request is Restore,
{
}

/// A tap, or its own time running out, dismisses what rests on the page: the guide comes down
/// and today's page comes back at once, but the diary listens only after the pen has lifted.
pub proof fn dismissal_waits_for_the_pen(
    d: Diary,
    now: u64,
    mail: Mail,
    has_ink: bool,
    s: State,
    turn: Turn,
    out: Outcome,
)
    requires
        d.state is Help || d.state is Conjuring || d.state is MemoryShown,
        stepped(d, now, mail, has_ink, s, turn, out),
    ensures
        s is Listening ==> !d.stylus_on && put_away(d.state) is None,
        d.stylus_tapped && put_away(d.state) is Some ==> out.request is Restore,
        d.stylus_tapped && d.state == (State::Help { open: true, until: d.state->Help_until })
            ==> out.request is HideGuide,
{
}

/// What was handed over with the page stays with the turn, under the same number, until the
/// reply comes to rest.
pub proof fn turn_is_kept_until_it_rests(
    d: Diary,
    now: u64,
    mail: Mail,
    has_ink: bool,
    s: State,
    turn: Turn,
    out: Outcome,
)
    requires
        stepped(d, now, mail, has_ink, s, turn, out),
    ensures
        turn.id == d.turn.id,
        turn.strokes == d.turn.strokes || (d.state is Replying && s is Lingering),
        d.turn.failed ==> turn.failed,
{
}

/// A turn that failed, or that brought no words, is not remembered.
pub proof fn only_answers_are_remembered(
    d: Diary,
    now: u64,
    mail: Mail,
    has_ink: bool,
    s: State,
    turn: Turn,
    out: Outcome,
)
    requires
        stepped(d, now, mail, has_ink, s, turn, out),
        out.request is Remember,
    ensures
        d.state is Replying,
        s is Lingering,
        !turn.failed,
        turn.reply@.len() > 0,
        out.request->Remember_id == d.turn.id,
        out.request->Remember_reply@ == trimmed(d.turn.reply@),
        out.request->Remember_strokes == d.turn.strokes,
{
}

/// The movements of a reply leave nothing but ink.
proof fn lemma_dabs_are_ink<T: Inked>(strokes: Seq<Vec<T>>, i: int)
    requires
        0 <= i <= strokes.len(),
        forall|s: Seq<T>, j: int| (#[trigger] T::dab(s, j)).action != Action::ForgetAll,
    ensures
        forall|k: int|
            0 <= k < dabs_to(strokes, i).len() ==> (#[trigger] dabs_to(strokes, i)[k]).action
                != Action::ForgetAll,
    decreases i,
{
    if i > 0 {
        lemma_dabs_are_ink(strokes, i - 1);
    }
}

/// No step of the diary erases its memory: only a fang does.
pub proof fn steps_never_forget(
    d: Diary,
    now: u64,
    mail: Mail,
    has_ink: bool,
    s: State,
    turn: Turn,
    out: Outcome,
)
    requires
        d.wf(),
        stepped(d, now, mail, has_ink, s, turn, out),
    ensures
        !out.actions@.contains(Action::ForgetAll),
{
    match d.state {
        State::Replying { plan, next, streaming } => {
            made_opens_plan(plan.strokes@, plan.stroke_i as int, plan.point_i as int);
            lemma_dabs_are_ink(plan.strokes@, plan.strokes@.len() as int);
        },
        State::Conjuring { plan, next, saved } => {
            made_opens_plan(plan.strokes@, plan.stroke_i as int, plan.point_i as int);
            lemma_dabs_are_ink(plan.strokes@, plan.strokes@.len() as int);
        },
        _ => {},
    }
}

/// Nothing hangs on what the letter box holds while it is not to be looked into.
pub proof fn unwanted_mail_is_not_read(
    d: Diary,
    now: u64,
    mail: Mail,
    other: Mail,
    has_ink: bool,
    s: State,
    turn: Turn,
    out: Outcome,
)
    requires
        !d.state.reads_mail(),
        stepped(d, now, mail, has_ink, s, turn, out),
    ensures
        stepped(d, now, other, has_ink, s, turn, out),
{
}

/// A letter box that was given up is not wanted again by a step: only handing over a page makes
/// another.
pub proof fn mail_is_given_up_for_good(
    d: Diary,
    now: u64,
    mail: Mail,
    has_ink: bool,
    s: State,
    turn: Turn,
    out: Outcome,
)
    requires
        !d.state.awaits_mail(),
        stepped(d, now, mail, has_ink, s, turn, out),
    ensures
        !s.awaits_mail(),
{
}

// --- Writing a reply ---

/// Is more of a reply to come once this mail has been found?
pub open spec fn more_to_come(streaming: bool, mail: Mail) -> bool {
    streaming && match mail {
        Mail::Empty | Mail::Show(_) | Mail::Transcript(_) => true,
        Mail::Closed | Mail::Failed(_) | Mail::Ink(_) => false,
    }
}

/// Is this mail a chunk of a reply that streams in, and has the page room for it?
pub open spec fn brings_more(streaming: bool, mail: Mail, next_y: int) -> bool {
    streaming && mail is Ink && next_y <= 1960
}

/// How many points of a plan lie before the place of the hand.
pub open spec fn written_so_far(plan: WritePlan) -> int {
    points_to(plan.strokes@, plan.stroke_i as int) + plan.point_i
}

/// Do the actions, of which the first writes point number `from` of some strokes, write place
/// `j` of stroke `i` when its turn comes?
pub open spec fn written_at(
    acts: Seq<Action>,
    strokes: Seq<Vec<(i32, i32)>>,
    from: int,
    i: int,
    j: int,
) -> bool {
    writes_point(acts[points_to(strokes, i) + j - from], strokes[i]@, j)
}

/// Do the first actions write the points of some strokes from number `from` up to number `to`,
/// in order and without a gap?
pub open spec fn writes_run(
    acts: Seq<Action>,
    strokes: Seq<Vec<(i32, i32)>>,
    from: int,
    to: int,
) -> bool {
    &&& acts.len() >= to - from
    &&& forall|i: int, j: int|
        0 <= i < strokes.len() && 0 <= j < strokes[i]@.len() && from <= points_to(strokes, i) + j
            < to ==> #[trigger] written_at(acts, strokes, from, i, j)
}

proof fn lemma_inking_opens(dabs: Seq<Dab>, k: int)
    requires
        0 <= k < dabs.len(),
    ensures
        k < inking(dabs).len(),
        inking(dabs)[k] == dabs[k].action,
        inking(dabs).len() <= dabs.len() + 1,
{
}

/// Inking a run of a plan's movements writes a run of its points.
proof fn lemma_run(strokes: Seq<Vec<(i32, i32)>>, from: int, to: int, acts: Seq<Action>)
    requires
        0 <= from <= to <= all_dabs(strokes).len(),
        acts == inking(all_dabs(strokes).subrange(from, to)),
    ensures
        writes_run(acts, strokes, from, to),
        acts.len() <= to - from + 1,
{
    let all = all_dabs(strokes);
    let fresh = all.subrange(from, to);
    assert(fresh.len() == to - from && actions_of(fresh).len() == fresh.len());
    assert forall|i: int, j: int|
        0 <= i < strokes.len() && 0 <= j < strokes[i]@.len() && from <= points_to(strokes, i) + j
            < to implies #[trigger] written_at(acts, strokes, from, i, j) by {
        let k = points_to(strokes, i) + j;
        reply_is_written_as_planned(strokes, i, j);
        lemma_inking_opens(fresh, k - from);
        assert(fresh[k - from] == all[k]);
    }
}

/// The hand of a reply, whose next step is due, writes the next 26 points of its plan, or those
/// that are left.
proof fn lemma_hand(
    turn: Turn,
    turn2: Turn,
    plan: WritePlan,
    next: u64,
    streaming: bool,
    now: u64,
    s: State,
    out: Outcome,
)
    requires
        plan.wf(),
        wrote(turn, turn2, plan, next, streaming, now, s, out),
        now >= next,
    ensures
        ({
            let total = points_to(plan.strokes@, plan.strokes@.len() as int);
            let from = written_so_far(plan);
            let to = if total - from < 26 {
                total
            } else {
                from + 26
            };
            &&& 0 <= from <= to <= total
            &&& writes_run(out.actions@, plan.strokes@, from, to)
            &&& out.actions@.len() <= to - from + 1
            &&& if total - from < 26 && !streaming {
                s is Lingering
            } else {
                &&& s matches State::Replying { plan: plan2, next: next2, streaming: streaming2 }
                &&& plan2.strokes == plan.strokes
                &&& plan2.region == plan.region
                &&& plan2.next_y == plan.next_y
                &&& written_so_far(plan2) == to
                &&& next2 == now + 14
                &&& streaming2 == streaming
            }
        }),
{
    let strokes = plan.strokes@;
    let all = all_dabs(strokes);
    let total = points_to(strokes, strokes.len() as int);
    let from = written_so_far(plan);
    let to = if total - from < 26 {
        total
    } else {
        from + 26
    };
    made_opens_plan(strokes, plan.stroke_i as int, plan.point_i as int);
    movements_are_counted(strokes, plan.stroke_i as int, plan.point_i as int);
    let fresh = next_dabs(all, from, REPLY_POINTS as int);
    assert(fresh =~= all.subrange(from, to));
    lemma_run(strokes, from, to, out.actions@);
    if s is Replying {
        let plan2 = s->Replying_plan;
        movements_are_counted(plan2.strokes@, plan2.stroke_i as int, plan2.point_i as int);
    }
}

/// A reply comes to rest only once all of it is on the page, whatever mail was found: every point
/// that was not written before is written by this very step, and no more of the text is to come.
pub proof fn reply_rests_only_when_all_is_written(
    d: Diary,
    now: u64,
    mail: Mail,
    has_ink: bool,
    s: State,
    turn: Turn,
    out: Outcome,
)
    requires
        d.wf(),
        stepped(d, now, mail, has_ink, s, turn, out),
        d.state is Replying,
        s is Lingering,
    ensures
        ({
            let plan = d.state->Replying_plan;
            let all = all_dabs(plan.strokes@);
            let made = dabs_made(plan.strokes@, plan.stroke_i as int, plan.point_i as int);
            &&& writes_run(
                out.actions@,
                plan.strokes@,
                written_so_far(plan),
                points_to(plan.strokes@, plan.strokes@.len() as int),
            )
            &&& out.actions@.len() >= all.len() - made.len()
            &&& made + all.subrange(made.len() as int, all.len() as int) == all
            &&& forall|k: int|
                made.len() <= k < all.len() ==> out.actions@[k - made.len()] == (
                #[trigger] all[k]).action
            &&& now >= d.state->Replying_next
            &&& !more_to_come(d.state->Replying_streaming, mail)
            &&& !brings_more(d.state->Replying_streaming, mail, plan.next_y as int)
        }),
{
    let plan = d.state->Replying_plan;
    let all = all_dabs(plan.strokes@);
    let made = dabs_made(plan.strokes@, plan.stroke_i as int, plan.point_i as int);
    let from = made.len() as int;
    made_opens_plan(plan.strokes@, plan.stroke_i as int, plan.point_i as int);
    if d.state->Replying_streaming {
        lemma_hand(
            heard(d.turn, mail),
            turn,
            plan,
            d.state->Replying_next,
            streams_on(mail),
            now,
            s,
            out,
        );
    } else {
        lemma_hand(d.turn, turn, plan, d.state->Replying_next, false, now, s, out);
    }
    let fresh = next_dabs(all, from, REPLY_POINTS as int);
    assert(made + all.subrange(from, all.len() as int) =~= all);
    assert forall|k: int| from <= k < all.len() implies out.actions@[k - from] == (
    #[trigger] all[k]).action by {
        lemma_inking_opens(fresh, k - from);
        assert(fresh[k - from] == all[k]);
    }
}

/// While a reply is written, each due step writes the next 26 points of its plan, or those that
/// are left, and shows them. The hand then stands behind them, and goes on 14 milliseconds later;
/// only where the plan is done and no more text is to come does the reply rest. The plan itself
/// stays as it is.
pub proof fn hand_writes_point_after_point(
    d: Diary,
    now: u64,
    mail: Mail,
    has_ink: bool,
    s: State,
    turn: Turn,
    out: Outcome,
)
    requires
        d.wf(),
        now <= LATEST,
        stepped(d, now, mail, has_ink, s, turn, out),
        d.state is Replying,
        !brings_more(
            d.state->Replying_streaming,
            mail,
            d.state->Replying_plan.next_y as int,
        ),
    ensures
        ({
            let plan = d.state->Replying_plan;
            let total = points_to(plan.strokes@, plan.strokes@.len() as int);
            let from = written_so_far(plan);
            let to = if total - from < 26 {
                total
            } else {
                from + 26
            };
            let more = more_to_come(d.state->Replying_streaming, mail);
            if now < d.state->Replying_next {
                &&& s == (State::Replying { plan, next: d.state->Replying_next, streaming: more })
                &&& out.actions@.len() == 0
                &&& out.request is Nothing
            } else {
                &&& 0 <= from <= to <= total
                &&& writes_run(out.actions@, plan.strokes@, from, to)
                &&& out.actions@.len() <= to - from + 1
                &&& s is Lingering <==> total - from < 26 && !more
                &&& s is Lingering || s is Replying
                &&& s matches State::Replying { plan: plan2, next, streaming } ==> {
                    &&& plan2.strokes == plan.strokes
                    &&& plan2.region == plan.region
                    &&& plan2.next_y == plan.next_y
                    &&& written_so_far(plan2) == to
                    &&& next == now + 14
                    &&& streaming == more
                    &&& out.request is Nothing
                }
                &&& s matches State::Lingering { until, region } ==> {
                    &&& region == plan.region
                    &&& total <= 8000 ==> until == now + 4000 + 2 * total
                    &&& total > 8000 ==> until == now + 20_000
                }
            }
        }),
{
    let plan = d.state->Replying_plan;
    let next = d.state->Replying_next;
    let heard_of = if d.state->Replying_streaming {
        heard(d.turn, mail)
    } else {
        d.turn
    };
    let more = more_to_come(d.state->Replying_streaming, mail);
    assert(wrote(heard_of, turn, plan, next, more, now, s, out));
    movements_are_counted(plan.strokes@, plan.stroke_i as int, plan.point_i as int);
    if now >= next {
        lemma_hand(heard_of, turn, plan, next, more, now, s, out);
    }
}

/// The fresh ink of a step is shown: where a step of a reply writes anything, its last action
/// shows a rectangle that holds each point written, with room for the width of the line.
pub proof fn fresh_ink_is_shown(
    d: Diary,
    now: u64,
    mail: Mail,
    has_ink: bool,
    s: State,
    turn: Turn,
    out: Outcome,
    i: int,
    j: int,
)
    requires
        d.wf(),
        stepped(d, now, mail, has_ink, s, turn, out),
        d.state is Replying,
        !brings_more(
            d.state->Replying_streaming,
            mail,
            d.state->Replying_plan.next_y as int,
        ),
        now >= d.state->Replying_next,
        ({
            let plan = d.state->Replying_plan;
            &&& 0 <= i < plan.strokes@.len()
            &&& 0 <= j < plan.strokes@[i]@.len()
            &&& written_so_far(plan) <= points_to(plan.strokes@, i) + j < written_so_far(plan) + 26
            &&& forall|a: int, b: int|
                0 <= a < plan.strokes@.len() && 0 <= b < plan.strokes@[a]@.len() ==> {
                    &&& -1_000_000 <= (#[trigger] plan.strokes@[a]@[b]).0 <= 1_000_000
                    &&& -1_000_000 <= plan.strokes@[a]@[b].1 <= 1_000_000
                }
        }),
    ensures
        ({
            let (px, py) = d.state->Replying_plan.strokes@[i]@[j];
            &&& out.actions@.len() > 0
            &&& out.actions@.last() matches Action::Update { x, y, w, h, fast } && fast && x <= px
                - 4 && px + 4 < x + w && y <= py - 4 && py + 4 < y + h
        }),
{
    let plan = d.state->Replying_plan;
    let strokes = plan.strokes@;
    let all = all_dabs(strokes);
    let from = written_so_far(plan);
    let (px, py) = strokes[i]@[j];
    movements_are_counted(strokes, plan.stroke_i as int, plan.point_i as int);
    made_opens_plan(strokes, plan.stroke_i as int, plan.point_i as int);
    each_point_has_its_movement(strokes, i, j);
    reply_is_written_as_planned(strokes, i, j);
    let fresh = next_dabs(all, from, REPLY_POINTS as int);
    let k = points_to(strokes, i) + j - from;
    assert(fresh[k] == all[k + from]);
    whole_dab_is_touched(fresh, k, px - 4, py - 4);
    whole_dab_is_touched(fresh, k, px + 4, py + 4);
    let page = BBox {
        x0: -1_000_004i32,
        y0: -1_000_004i32,
        x1: 1_000_004,
        y1: 1_000_004,
    };
    assert forall|m: int| 0 <= m < fresh.len() implies page.spans_square(
        (#[trigger] fresh[m]).x as int,
        fresh[m].y as int,
        fresh[m].margin as int,
    ) by {
        assert(fresh[m] == all[m + from]);
        lemma_dab_of_some_point(strokes, m + from);
    }
    touched_is_least(fresh, page);
    whole_box_is_shown(touched(fresh), true, px - 4, py - 4);
    whole_box_is_shown(touched(fresh), true, px + 4, py + 4);
    assert(out.actions@ == inking(fresh));
}

/// Each movement of a plan is that of some point, on the page of which it lies.
proof fn lemma_dab_of_some_point(strokes: Seq<Vec<(i32, i32)>>, k: int)
    requires
        0 <= k < all_dabs(strokes).len(),
        forall|a: int, b: int|
            0 <= a < strokes.len() && 0 <= b < strokes[a]@.len() ==> {
                &&& -1_000_000 <= (#[trigger] strokes[a]@[b]).0 <= 1_000_000
                &&& -1_000_000 <= strokes[a]@[b].1 <= 1_000_000
            },
    ensures
        -1_000_000 <= all_dabs(strokes)[k].x <= 1_000_000,
        -1_000_000 <= all_dabs(strokes)[k].y <= 1_000_000,
        all_dabs(strokes)[k].margin == 4,
{
    lemma_dabs_to_bounded(strokes, strokes.len() as int);
}

proof fn lemma_dabs_to_bounded(strokes: Seq<Vec<(i32, i32)>>, n: int)
    requires
        0 <= n <= strokes.len(),
        forall|a: int, b: int|
            0 <= a < strokes.len() && 0 <= b < strokes[a]@.len() ==> {
                &&& -1_000_000 <= (#[trigger] strokes[a]@[b]).0 <= 1_000_000
                &&& -1_000_000 <= strokes[a]@[b].1 <= 1_000_000
            },
    ensures
        forall|k: int|
            0 <= k < dabs_to(strokes, n).len() ==> {
                &&& -1_000_000 <= (#[trigger] dabs_to(strokes, n)[k]).x <= 1_000_000
                &&& -1_000_000 <= dabs_to(strokes, n)[k].y <= 1_000_000
                &&& dabs_to(strokes, n)[k].margin == 4
            },
    decreases n,
{
    if n > 0 {
        lemma_dabs_to_bounded(strokes, n - 1);
        let before = dabs_to(strokes, n - 1);
        let own = stroke_dabs(strokes[n - 1]@);
        assert forall|k: int| 0 <= k < dabs_to(strokes, n).len() implies {
            &&& -1_000_000 <= (#[trigger] dabs_to(strokes, n)[k]).x <= 1_000_000
            &&& -1_000_000 <= dabs_to(strokes, n)[k].y <= 1_000_000
            &&& dabs_to(strokes, n)[k].margin == 4
        } by {
            if k >= before.len() {
                let j = k - before.len();
                assert(dabs_to(strokes, n)[k] == own[j]);
                assert(-1_000_000 <= strokes[n - 1]@[j].0 <= 1_000_000);
            }
        }
    }
}

/// A stream that closes only means that no more text comes: the hand goes on as over a reply
/// that was whole from the start.
pub proof fn closing_only_ends_the_stream(
    d: Diary,
    e: Diary,
    now: u64,
    has_ink: bool,
    s: State,
    turn: Turn,
    out: Outcome,
)
    requires
        d.state matches State::Replying { plan, next, streaming } && e == (Diary {
            state: State::Replying { plan, next, streaming: false },
            ..d
        }),
    ensures
        stepped(d, now, Mail::Closed, has_ink, s, turn, out) <==> stepped(
            e,
            now,
            Mail::Empty,
            has_ink,
            s,
            turn,
            out,
        ),
{
}

/// An oracle that fails in the middle of a reply ends the stream, and the turn has failed; what
/// has come so far is still written.
pub proof fn failing_ends_the_stream(
    d: Diary,
    e: Diary,
    now: u64,
    why: String,
    has_ink: bool,
    s: State,
    turn: Turn,
    out: Outcome,
)
    requires
        d.state matches State::Replying { plan, next, streaming } && streaming && e == (Diary {
            state: State::Replying { plan, next, streaming: false },
            turn: Turn { failed: true, ..d.turn },
            ..d
        }),
    ensures
        stepped(d, now, Mail::Failed(why), has_ink, s, turn, out) <==> stepped(
            e,
            now,
            Mail::Empty,
            has_ink,
            s,
            turn,
            out,
        ),
{
}

/// A transcript that comes in the middle of a reply is kept with the turn, and holds up nothing.
pub proof fn transcript_is_only_kept(
    d: Diary,
    e: Diary,
    now: u64,
    words: String,
    has_ink: bool,
    s: State,
    turn: Turn,
    out: Outcome,
)
    requires
        d.state is Replying && d.state->Replying_streaming,
        e == (Diary { turn: Turn { transcript: Some(words), ..d.turn }, ..d }),
    ensures
        stepped(d, now, Mail::Transcript(words), has_ink, s, turn, out) <==> stepped(
            e,
            now,
            Mail::Empty,
            has_ink,
            s,
            turn,
            out,
        ),
{
}

/// In the middle of a reply no page is conjured up: the wish is passed over.
pub proof fn conjuring_mid_reply_is_passed_over(
    d: Diary,
    now: u64,
    id: u64,
    has_ink: bool,
    s: State,
    turn: Turn,
    out: Outcome,
)
    requires
        d.state is Replying,
    ensures
        stepped(d, now, Mail::Show(id), has_ink, s, turn, out) <==> stepped(
            d,
            now,
            Mail::Empty,
            has_ink,
            s,
            turn,
            out,
        ),
{
}

/// A chunk that the page has room for is handed over to be appended, word for word, before the
/// hand moves, and joins the reply to be remembered behind a space. One that the page has no room
/// for is let go, and with it all that would follow.
pub proof fn chunks_are_appended_while_there_is_room(
    d: Diary,
    now: u64,
    text: String,
    has_ink: bool,
    s: State,
    turn: Turn,
    out: Outcome,
)
    requires
        d.state is Replying && d.state->Replying_streaming,
        stepped(d, now, Mail::Ink(text), has_ink, s, turn, out),
    ensures
        d.state->Replying_plan.next_y <= 1960 ==> {
            &&& out.request == (Request::Append { text })
            &&& out.actions@.len() == 0
            &&& s == d.state
            &&& turn == (Turn { reply: turn.reply, ..d.turn })
            &&& turn.reply@.len() == d.turn.reply@.len() + 1 + text@.len()
            &&& turn.reply@.take(d.turn.reply@.len() as int) == d.turn.reply@
            &&& turn.reply@[d.turn.reply@.len() as int] == ' '
            &&& turn.reply@.skip(d.turn.reply@.len() as int + 1) == text@
        },
        d.state->Replying_plan.next_y > 1960 ==> {
            &&& !(out.request is Append)
            &&& turn.reply@ == d.turn.reply@
            &&& !s.reads_mail()
        },
{
    reveal_strlit(" ");
    if d.state->Replying_plan.next_y <= 1960 {
        let old = d.turn.reply@;
        assert(turn.reply@ =~= old + seq![' '] + text@);
        assert(turn.reply@.take(old.len() as int) =~= old);
        assert(turn.reply@.skip(old.len() as int + 1) =~= text@);
    }
}

// --- The rest of a turn ---

/// The page is handed over once the pen has been up for 2.8 seconds and has left ink, and not
/// before; until then the diary goes on listening.
pub proof fn page_is_handed_over_after_a_pause(
    d: Diary,
    now: u64,
    mail: Mail,
    has_ink: bool,
    s: State,
    turn: Turn,
    out: Outcome,
)
    requires
        d.state is Listening,
        stepped(d, now, mail, has_ink, s, turn, out),
    ensures
        out.request is Inspect <==> (d.state->last_pen matches Some(t) && !d.pen_down && has_ink
            && now >= t + 2800),
        out.request is Inspect || out.request is Nothing,
        out.actions@.len() == 0,
        s == d.state,
        turn == d.turn,
{
}

/// A due pass of drinking dissolves the writer's ink a little more, and with it the reply that
/// was written under, if any; passes are 70 milliseconds apart, count up to 14, and only with the
/// last are the strokes let go and does the diary start to think. Between passes nothing happens.
pub proof fn drinking_dissolves_pass_by_pass(
    d: Diary,
    now: u64,
    mail: Mail,
    has_ink: bool,
    s: State,
    turn: Turn,
    out: Outcome,
)
    requires
        d.wf(),
        now <= LATEST,
        stepped(d, now, mail, has_ink, s, turn, out),
        d.state is Drinking,
    ensures
        d.state matches State::Drinking { stage, next, region, reply } && {
            &&& turn == d.turn
            &&& out.request is Nothing
            &&& now < next ==> s == d.state && out.actions@.len() == 0
            &&& now >= next ==> {
                &&& out.actions@.contains(Action::Dissolve { region, stage, stages: 14 })
                &&& out.actions@.contains(showing(region, true))
                &&& reply.x0 <= reply.x1 && reply.y0 <= reply.y1 ==> out.actions@.contains(
                    Action::Dissolve { region: reply, stage, stages: 14 },
                ) && out.actions@.contains(showing(reply, true))
                &&& out.actions@.contains(Action::ClearInk) <==> stage == 13
                &&& stage == 13 ==> s == (State::Thinking {
                    pulse: now,
                    blot_on: false,
                    since: now,
                })
                &&& stage < 13 ==> s == (State::Drinking {
                    stage: (stage + 1) as u32,
                    next: (now + 70) as u64,
                    region,
                    reply,
                })
            }
        },
{
    let acts = out.actions@;
    if now >= d.state->Drinking_next {
        assert(acts[0] == Action::Dissolve {
            region: d.state->Drinking_region,
            stage: d.state->Drinking_stage,
            stages: 14,
        });
        assert(acts[1] == showing(d.state->Drinking_region, true));
        let reply = d.state->Drinking_reply;
        if !reply.hollow() {
            assert(acts[2] == Action::Dissolve {
                region: reply,
                stage: d.state->Drinking_stage,
                stages: 14,
            });
            assert(acts[3] == showing(reply, true));
        }
        if d.state->Drinking_stage == 13 {
            assert(acts.last() == Action::ClearInk);
            assert(acts[acts.len() - 1] == Action::ClearInk);
        }
    }
}

/// A due pass of fading dissolves the reply a little more; passes are 80 milliseconds apart and
/// count up to 10. With the last the page is refreshed and the diary listens again.
pub proof fn fading_dissolves_pass_by_pass(
    d: Diary,
    now: u64,
    mail: Mail,
    has_ink: bool,
    s: State,
    turn: Turn,
    out: Outcome,
)
    requires
        d.wf(),
        now <= LATEST,
        stepped(d, now, mail, has_ink, s, turn, out),
        d.state is FadingReply,
    ensures
        d.state matches State::FadingReply { stage, next, region } && {
            &&& turn == d.turn
            &&& out.request is Nothing
            &&& now < next ==> s == d.state && out.actions@.len() == 0
            &&& now >= next ==> {
                &&& out.actions@.contains(Action::Dissolve { region, stage, stages: 10 })
                &&& out.actions@.contains(showing(region, true))
                &&& out.actions@.contains(Action::FullRefresh) <==> stage == 9
                &&& stage == 9 ==> s == (State::Listening { last_pen: None })
                &&& stage < 9 ==> s == (State::FadingReply {
                    stage: (stage + 1) as u32,
                    next: (now + 80) as u64,
                    region,
                })
            }
        },
{
    let acts = out.actions@;
    if now >= d.state->FadingReply_next {
        assert(acts[0] == Action::Dissolve {
            region: d.state->FadingReply_region,
            stage: d.state->FadingReply_stage,
            stages: 10,
        });
        assert(acts[1] == showing(d.state->FadingReply_region, true));
        if d.state->FadingReply_stage == 9 {
            assert(acts[acts.len() - 1] == Action::FullRefresh);
        }
    }
}

/// A reply rests until its time is up and not a moment longer; then the very part of the page
/// that it lies on starts to fade.
pub proof fn rest_ends_in_fading(
    d: Diary,
    now: u64,
    mail: Mail,
    has_ink: bool,
    s: State,
    turn: Turn,
    out: Outcome,
)
    requires
        stepped(d, now, mail, has_ink, s, turn, out),
        d.state is Lingering,
    ensures
        d.state matches State::Lingering { until, region } && {
            &&& now < until ==> s == d.state
            &&& now >= until ==> s == (State::FadingReply { stage: 0, next: now, region })
            &&& out.actions@.len() == 0
            &&& out.request is Nothing
            &&& turn == d.turn
        },
{
}

/// The first words of an answer are written as they came, on an empty page, with more to stream
/// in, and are the reply to be remembered so far.
pub proof fn first_words_are_written(
    d: Diary,
    now: u64,
    text: String,
    has_ink: bool,
    s: State,
    turn: Turn,
    out: Outcome,
)
    requires
        stepped(d, now, Mail::Ink(text), has_ink, s, turn, out),
        d.state is Thinking,
    ensures
        out.request matches Request::Write { text: t, y_start, streaming } && t@ == text@ && y_start
            is None && streaming,
        turn.reply@.len() == d.turn.reply@.len() + text@.len(),
        turn.reply@.take(d.turn.reply@.len() as int) == d.turn.reply@,
        turn.reply@.skip(d.turn.reply@.len() as int) == text@,
        turn == (Turn { reply: turn.reply, ..d.turn }),
        s == d.state,
{
    let old = d.turn.reply@;
    assert(turn.reply@.take(old.len() as int) =~= old);
    assert(turn.reply@.skip(old.len() as int) =~= text@);
}

/// What else may come while the diary thinks: a failure is owned up to, in words for that
/// failure, and marks the turn; a page to be conjured up is asked for by its number; a transcript
/// is kept, and the waiting goes on; and an oracle that hangs up without a word leaves the diary
/// listening.
pub proof fn other_mail_is_heeded(
    d: Diary,
    now: u64,
    mail: Mail,
    has_ink: bool,
    s: State,
    turn: Turn,
    out: Outcome,
)
    requires
        stepped(d, now, mail, has_ink, s, turn, out),
        d.state is Thinking,
    ensures
        mail matches Mail::Failed(e) ==> {
            &&& out.request matches Request::Write { text, y_start, streaming }
            &&& text@ == excuse(e@)
            &&& y_start is None && !streaming
            &&& turn == (Turn { failed: true, ..d.turn })
        },
        mail matches Mail::Show(id) ==> out.request == (Request::Conjure { id }) && turn == d.turn,
        mail matches Mail::Transcript(t) ==> {
            &&& out.request is Nothing
            &&& turn == (Turn { transcript: Some(t), ..d.turn })
        },
        mail is Closed ==> {
            &&& s == (State::Listening { last_pen: None })
            &&& out.request is Nothing && out.actions@.len() == 0
            &&& turn == d.turn
        },
        !(mail is Closed) && !(mail is Empty) ==> s == d.state,
{
}

/// A silent oracle is waited for while its blot beats every 600 milliseconds, in turn drawn and
/// wiped; after two minutes of silence the diary says that it cannot reach it.
pub proof fn silence_is_waited_out(
    d: Diary,
    now: u64,
    has_ink: bool,
    s: State,
    turn: Turn,
    out: Outcome,
)
    requires
        stepped(d, now, Mail::Empty, has_ink, s, turn, out),
        d.state is Thinking,
    ensures
        d.state matches State::Thinking { pulse, blot_on, since } && {
            &&& turn == d.turn
            &&& now >= since + 120_000 ==> {
                &&& out.request matches Request::Write { text, y_start, streaming }
                &&& text@
                    == "The diary cannot reach its oracle. Is the tablet connected to Wi-Fi?"@
                &&& y_start is None && !streaming
                &&& s == d.state
            }
            &&& now < since + 120_000 ==> {
                &&& out.request is Nothing
                &&& now >= pulse + 600 ==> {
                    &&& s == (State::Thinking { pulse: now, blot_on: !blot_on, since })
                    &&& out.actions@.len() == 2
                    &&& out.actions@[0] is Stamp <==> !blot_on
                    &&& out.actions@[0] is Fill <==> blot_on
                }
                &&& now < pulse + 600 ==> s == d.state && out.actions@.len() == 0
            }
        },
{
    excuse_for_silence();
}

/// The blot lies in the middle of the page, and wherever it is wiped or shown, all of it is: the
/// rectangle holds the whole of the circle.
pub proof fn blot_is_wiped_and_shown_whole(
    d: Diary,
    now: u64,
    mail: Mail,
    has_ink: bool,
    s: State,
    turn: Turn,
    out: Outcome,
)
    requires
        stepped(d, now, mail, has_ink, s, turn, out),
        d.state is Thinking,
    ensures
        forall|k: int|
            0 <= k < out.actions@.len() ==> match #[trigger] out.actions@[k] {
                Action::Stamp { x, y, r, shade } => 2 * x == 1620 && 2 * y == 2160 && r == 9 && shade
                    == Shade::Black,
                Action::Fill { x, y, w, h, shade } => x <= 810 - 9 && x + w > 810 + 9 && y <= 1080 - 9
                    && y + h > 1080 + 9 && shade == Shade::White,
                Action::Update { x, y, w, h, fast } => x <= 810 - 9 && x + w > 810 + 9 && y <= 1080
                    - 9 && y + h > 1080 + 9,
                _ => false,
            },
        out.request is Write || out.request is Conjure || mail is Transcript ==> {
            &&& out.actions@.len() == 2
            &&& out.actions@[0] is Fill
            &&& out.actions@[1] is Update
        },
{
}

/// The guide comes down at a tap or when its time is up, and stays up until then.
pub proof fn guide_stays_until_dismissed(
    d: Diary,
    now: u64,
    mail: Mail,
    has_ink: bool,
    s: State,
    turn: Turn,
    out: Outcome,
)
    requires
        stepped(d, now, mail, has_ink, s, turn, out),
        d.state is Help,
    ensures
        d.state matches State::Help { open, until } && {
            &&& open && (d.stylus_tapped || now >= until) ==> s == (State::Help {
                open: false,
                until,
            }) && out.request is HideGuide
            &&& open && !d.stylus_tapped && now < until ==> s == d.state && out.request is Nothing
            &&& !open && d.stylus_on ==> s == d.state && out.request is Nothing
            &&& !open && !d.stylus_on ==> s == (State::Listening { last_pen: None })
                && out.request is Nothing
            &&& turn == d.turn
            &&& out.actions@.len() == 0
        },
{
}

/// A remembered page that rests on the paper is put away at a tap or when its time is up, and
/// today's page is asked back then and only then.
pub proof fn memory_stays_until_dismissed(
    d: Diary,
    now: u64,
    mail: Mail,
    has_ink: bool,
    s: State,
    turn: Turn,
    out: Outcome,
)
    requires
        stepped(d, now, mail, has_ink, s, turn, out),
        d.state is MemoryShown,
    ensures
        d.state matches State::MemoryShown { saved, until, region } && {
            &&& saved is Some && (d.stylus_tapped || now >= until) ==> s == (
            State::MemoryShown { saved: None, until, region }) && out.request == (
            Request::Restore { page: saved->0 })
            &&& saved is Some && !d.stylus_tapped && now < until ==> s == d.state
                && out.request is Nothing
            &&& saved is None && d.stylus_on ==> s == d.state && out.request is Nothing
            &&& saved is None && !d.stylus_on ==> s == (State::Listening { last_pen: None })
                && out.request is Nothing
            &&& turn == d.turn
            &&& out.actions@.len() == 0
        },
{
}

/// A turn that brought words and did not fail is remembered when its reply comes to rest: under
/// its own number, with all of its words, the transcript if there is one, and the strokes that
/// were handed over. Nothing is remembered at any other step.
pub proof fn finished_turn_is_remembered(
    d: Diary,
    now: u64,
    mail: Mail,
    has_ink: bool,
    s: State,
    turn: Turn,
    out: Outcome,
)
    requires
        stepped(d, now, mail, has_ink, s, turn, out),
        d.state is Replying,
        s is Lingering,
    ensures
        turn.failed == (d.turn.failed || (d.state->Replying_streaming && mail is Failed)),
        out.request is Remember <==> !turn.failed && d.turn.reply@.len() > 0,
        out.request is Remember || out.request is Nothing,
        out.request matches Request::Remember { id, transcript, reply, strokes } ==> {
            &&& id == d.turn.id
            &&& reply@ == trimmed(d.turn.reply@)
            &&& strokes == d.turn.strokes
            &&& d.state->Replying_streaming && mail is Transcript ==> transcript@
                == mail->Transcript_0@
            &&& !(d.state->Replying_streaming && mail is Transcript) ==> transcript@ == (
            match d.turn.transcript {
                Some(t) => t@,
                None => Seq::<char>::empty(),
            })
        },
        turn.strokes@.len() == 0,
        turn.id == d.turn.id,
        turn.reply@ == d.turn.reply@,
{
}

/// How many points of a remembered page lie before the place of the hand.
pub open spec fn risen_so_far(plan: ConjurePlan) -> int {
    points_to(plan.strokes@, plan.stroke_i as int) + plan.point_i
}

/// Do the actions, of which the first redraws point number `from` of a remembered page, redraw
/// place `j` of stroke `i` when its turn comes?
pub open spec fn redrawn_at(
    acts: Seq<Action>,
    strokes: Seq<Vec<(i32, i32, i32)>>,
    from: int,
    i: int,
    j: int,
) -> bool {
    redraws_point(acts[points_to(strokes, i) + j - from], strokes[i]@, j)
}

/// Do the first actions redraw the points of some strokes from number `from` up to number `to`,
/// in order and without a gap?
pub open spec fn redraws_run(
    acts: Seq<Action>,
    strokes: Seq<Vec<(i32, i32, i32)>>,
    from: int,
    to: int,
) -> bool {
    &&& acts.len() >= to - from
    &&& forall|i: int, j: int|
        0 <= i < strokes.len() && 0 <= j < strokes[i]@.len() && from <= points_to(strokes, i) + j
            < to ==> #[trigger] redrawn_at(acts, strokes, from, i, j)
}

proof fn lemma_redrawn(
    strokes: Seq<Vec<(i32, i32, i32)>>,
    from: int,
    to: int,
    acts: Seq<Action>,
)
    requires
        0 <= from <= to <= all_dabs(strokes).len(),
        acts == inking(all_dabs(strokes).subrange(from, to)),
    ensures
        redraws_run(acts, strokes, from, to),
        acts.len() <= to - from + 1,
{
    let all = all_dabs(strokes);
    let fresh = all.subrange(from, to);
    assert(fresh.len() == to - from && actions_of(fresh).len() == fresh.len());
    assert forall|i: int, j: int|
        0 <= i < strokes.len() && 0 <= j < strokes[i]@.len() && from <= points_to(strokes, i) + j
            < to implies #[trigger] redrawn_at(acts, strokes, from, i, j) by {
        let k = points_to(strokes, i) + j;
        each_point_has_its_movement(strokes, i, j);
        lemma_inking_opens(fresh, k - from);
        assert(fresh[k - from] == all[k]);
    }
}

/// A remembered page rises point after point: unless a tap breaks it off, each due step redraws
/// the next 48 points, or those that are left; the hand then stands behind them and goes on 10
/// milliseconds later. Once all is redrawn, and not before, the page rests for two minutes. A tap
/// brings today's page back at once.
pub proof fn memory_rises_point_after_point(
    d: Diary,
    now: u64,
    mail: Mail,
    has_ink: bool,
    s: State,
    turn: Turn,
    out: Outcome,
)
    requires
        d.wf(),
        now <= LATEST,
        stepped(d, now, mail, has_ink, s, turn, out),
        d.state is Conjuring,
    ensures
        d.state matches State::Conjuring { plan, next, saved } && {
            let total = points_to(plan.strokes@, plan.strokes@.len() as int);
            let from = risen_so_far(plan);
            let to = if total - from < 48 {
                total
            } else {
                from + 48
            };
            &&& turn == d.turn
            &&& d.stylus_tapped ==> {
                &&& out.request == (Request::Restore { page: saved })
                &&& s matches State::MemoryShown { saved: none, .. } && none is None
                &&& out.actions@.len() == 0
            }
            &&& !d.stylus_tapped && now < next ==> s == d.state && out.actions@.len() == 0
                && out.request is Nothing
            &&& !d.stylus_tapped && now >= next ==> {
                &&& 0 <= from <= to <= total
                &&& redraws_run(out.actions@, plan.strokes@, from, to)
                &&& out.actions@.len() <= to - from + 1
                &&& out.request is Nothing
                &&& total - from < 48 ==> s == (State::MemoryShown {
                    saved: Some(saved),
                    until: (now + 120_000) as u64,
                    region: plan.region,
                })
                &&& total - from >= 48 ==> {
                    &&& s matches State::Conjuring { plan: plan2, next: next2, saved: saved2 }
                    &&& plan2.strokes == plan.strokes
                    &&& plan2.region == plan.region
                    &&& risen_so_far(plan2) == to
                    &&& next2 == now + 10
                    &&& saved2 == saved
                }
            }
        },
{
    let plan = d.state->Conjuring_plan;
    let strokes = plan.strokes@;
    let all = all_dabs(strokes);
    let total = points_to(strokes, strokes.len() as int);
    let from = risen_so_far(plan);
    made_opens_plan(strokes, plan.stroke_i as int, plan.point_i as int);
    movements_are_counted(strokes, plan.stroke_i as int, plan.point_i as int);
    if !d.stylus_tapped && now >= d.state->Conjuring_next {
        let to = if total - from < 48 {
            total
        } else {
            from + 48
        };
        assert(next_dabs(all, from, MEMORY_POINTS as int) =~= all.subrange(from, to));
        lemma_redrawn(strokes, from, to, out.actions@);
        if s is Conjuring {
            let plan2 = s->Conjuring_plan;
            movements_are_counted(plan2.strokes@, plan2.stroke_i as int, plan2.point_i as int);
        }
    }
}

/// A step answers for the tap that it found, and leaves alone all of the diary besides what it
/// is doing and the turn that it is at.
pub proof fn step_keeps_to_its_own(
    d: &mut Diary,
    now: u64,
    mail: Mail,
    has_ink: bool,
    out: Outcome,
)
    requires
        call_ensures(Diary::step, (d, now, mail, has_ink), out),
    ensures
        !final(d).stylus_tapped,
        final(d).pen_down == old(d).pen_down,
        final(d).stylus_on == old(d).stylus_on,
        final(d).ink_dirty == old(d).ink_dirty,
        final(d).pending_reply == old(d).pending_reply,
        final(d).stab == old(d).stab,
        final(d).bleed == old(d).bleed,
        final(d).eraser_at == old(d).eraser_at,
        final(d).last_flush == old(d).last_flush,
        final(d).power_grace == old(d).power_grace,
        final(d).turn.id == old(d).turn.id,
        stepped(*old(d), now, mail, has_ink, final(d).state, final(d).turn, out),
{
}

} // verus!
