use riddle::diary::{Diary, State};
use riddle::fb::{Action, BBox, Shade};
use riddle::oracle::Mail;
use riddle::reply::{plan_reply, ConjurePlan, TracedLine};
use riddle::step::{Outcome, Request};

const WIPED: [Action; 2] = [
    Action::Fill { x: 796, y: 1066, w: 28, h: 28, shade: Shade::White },
    Action::Update { x: 796, y: 1066, w: 28, h: 28, fast: true },
];

fn at(state: State) -> Diary {
    let mut d = Diary::open(0);
    d.state = state;
    d
}

fn quiet(d: &mut Diary, now: u64) -> Outcome {
    d.step(now, Mail::Empty, true)
}

fn idle(out: &Outcome) -> bool {
    out.actions.is_empty() && matches!(out.request, Request::Nothing)
}

fn text(s: &str) -> String {
    s.to_string()
}

fn square() -> BBox {
    BBox { x0: 1, y0: 1, x1: 2, y1: 2 }
}

/// One line of `points` points in one stroke.
fn line(points: i32) -> Vec<TracedLine> {
    vec![TracedLine { width: 20, strokes: vec![(0..points).map(|x| (x, 0)).collect()] }]
}

#[test]
fn a_pause_hands_the_page_over() {
    let mut d = at(State::Listening { last_pen: Some(1000) });
    assert!(idle(&quiet(&mut d, 3799)));
    assert!(matches!(quiet(&mut d, 3800).request, Request::Inspect));
    assert!(idle(&d.step(3800, Mail::Empty, false)));
    d.pen_down = true;
    assert!(idle(&quiet(&mut d, 9000)));
    let mut fresh = at(State::Listening { last_pen: None });
    assert!(idle(&quiet(&mut fresh, 9000)));
}

#[test]
fn the_page_drinks_in_fourteen_passes() {
    let reply = BBox { x0: 5, y0: 5, x1: 5, y1: 5 };
    let mut d = at(State::Drinking { stage: 0, next: 100, region: square(), reply });
    assert!(idle(&quiet(&mut d, 99)));
    for n in 0..14u32 {
        let now = 100 + 70 * n as u64;
        let out = quiet(&mut d, now);
        let mut acts = vec![
            Action::Dissolve { region: square(), stage: n, stages: 14 },
            Action::Update { x: 1, y: 1, w: 2, h: 2, fast: true },
            Action::Dissolve { region: reply, stage: n, stages: 14 },
            Action::Update { x: 5, y: 5, w: 1, h: 1, fast: true },
        ];
        if n == 13 {
            acts.push(Action::ClearInk);
        }
        assert_eq!(out.actions, acts);
        if n < 13 {
            assert!(idle(&quiet(&mut d, now + 69)));
        }
    }
    assert!(matches!(d.state, State::Thinking { pulse: 1010, blot_on: false, since: 1010 }));
}

#[test]
fn drinking_alone_leaves_no_second_pass() {
    let mut d =
        at(State::Drinking { stage: 3, next: 0, region: square(), reply: BBox::empty() });
    assert_eq!(quiet(&mut d, 5).actions.len(), 2);
    assert!(matches!(d.state, State::Drinking { stage: 4, next: 75, .. }));
}

#[test]
fn the_blot_beats_while_the_oracle_is_silent() {
    let mut d = at(State::Thinking { pulse: 1000, blot_on: false, since: 1000 });
    assert!(idle(&quiet(&mut d, 1599)));
    let out = quiet(&mut d, 1600);
    let blot = Action::Stamp { x: 810, y: 1080, r: 9, shade: Shade::Black };
    assert_eq!(out.actions, vec![blot, WIPED[1]]);
    assert!(matches!(d.state, State::Thinking { pulse: 1600, blot_on: true, since: 1000 }));
    assert_eq!(quiet(&mut d, 2200).actions, WIPED.to_vec());
    assert!(matches!(d.state, State::Thinking { pulse: 2200, blot_on: false, since: 1000 }));
}

#[test]
fn patience_runs_out() {
    let mut d = at(State::Thinking { pulse: 120_900, blot_on: true, since: 1000 });
    assert!(idle(&quiet(&mut d, 120_999)));
    let out = quiet(&mut d, 121_000);
    assert_eq!(out.actions, WIPED.to_vec());
    assert!(matches!(out.request, Request::Write { text, y_start: None, streaming: false }
        if text == "The diary cannot reach its oracle. Is the tablet connected to Wi-Fi?"));
    assert!(!d.turn.failed);
}

#[test]
fn a_first_chunk_is_written() {
    let mut d = at(State::Thinking { pulse: 0, blot_on: true, since: 0 });
    let out = d.step(5, Mail::Ink(text("Hello")), false);
    assert_eq!(out.actions, WIPED.to_vec());
    assert!(matches!(out.request, Request::Write { text, y_start: None, streaming: true }
        if text == "Hello"));
    assert_eq!(d.turn.reply, "Hello");
}

#[test]
fn a_transcript_alone_keeps_the_diary_waiting() {
    let mut d = at(State::Thinking { pulse: 0, blot_on: true, since: 0 });
    let out = d.step(5, Mail::Transcript(text("hi")), false);
    assert_eq!(out.actions, WIPED.to_vec());
    assert!(matches!(out.request, Request::Nothing));
    assert!(matches!(d.state, State::Thinking { pulse: 0, blot_on: true, since: 0 }));
    assert_eq!(d.turn.transcript, Some(text("hi")));
}

#[test]
fn an_incantation_asks_for_the_page() {
    let mut d = at(State::Thinking { pulse: 0, blot_on: true, since: 0 });
    let out = d.step(5, Mail::Show(42), false);
    assert_eq!(out.actions, WIPED.to_vec());
    assert!(matches!(out.request, Request::Conjure { id: 42 }));
}

#[test]
fn a_failure_is_excused_and_marks_the_turn() {
    let mut d = at(State::Thinking { pulse: 0, blot_on: true, since: 0 });
    let out = d.step(5, Mail::Failed(text("http 401")), false);
    assert_eq!(out.actions, WIPED.to_vec());
    assert!(matches!(out.request, Request::Write { text, streaming: false, .. }
        if text.starts_with("The oracle refused")));
    assert!(d.turn.failed);
}

#[test]
fn an_oracle_that_hangs_up_is_let_go() {
    let mut d = at(State::Thinking { pulse: 0, blot_on: true, since: 0 });
    assert!(idle(&d.step(5, Mail::Closed, false)));
    assert!(matches!(d.state, State::Listening { last_pen: None }));
}

#[test]
fn the_hand_writes_twenty_six_points_a_step() {
    let plan = plan_reply(&line(60), Some(100));
    let region = plan.region;
    let mut d = at(State::Replying { plan, next: 100, streaming: false });
    assert!(idle(&quiet(&mut d, 99)));
    let first = quiet(&mut d, 100);
    assert_eq!(first.actions.len(), 27);
    assert_eq!(first.actions[0], Action::Stamp { x: 800, y: 102, r: 2, shade: Shade::Black });
    assert_eq!(first.actions[26], Action::Update { x: 796, y: 98, w: 34, h: 9, fast: true });
    assert!(matches!(d.state, State::Replying { next: 114, streaming: false, .. }));
    assert_eq!(quiet(&mut d, 114).actions.len(), 27);
    let last = quiet(&mut d, 128);
    assert_eq!(last.actions.len(), 9);
    match d.state {
        State::Lingering { until, region: r } => {
            assert_eq!(until, 128 + 4000 + 120);
            assert_eq!(r, region);
        }
        _ => panic!("not resting"),
    }
}

#[test]
fn a_reply_waits_for_its_stream() {
    let mut d = at(State::Replying {
        plan: plan_reply(&line(3), Some(100)),
        next: 0,
        streaming: true,
    });
    assert_eq!(quiet(&mut d, 10).actions.len(), 4);
    assert!(idle(&quiet(&mut d, 24)));
    assert!(matches!(d.state, State::Replying { next: 38, streaming: true, .. }));
    d.step(38, Mail::Closed, false);
    assert!(matches!(d.state, State::Lingering { until: 4044, .. }));
}

#[test]
fn a_further_chunk_is_appended_before_the_hand_moves() {
    let mut d = at(State::Replying {
        plan: plan_reply(&line(3), Some(100)),
        next: 0,
        streaming: true,
    });
    d.turn.reply = text("Hello");
    let out = d.step(10, Mail::Ink(text("there")), false);
    assert!(out.actions.is_empty());
    assert!(matches!(out.request, Request::Append { text } if text == "there"));
    assert_eq!(d.turn.reply, "Hello there");
    let out = d.append(&line(2), 10);
    assert_eq!(out.actions.len(), 6);
    assert!(matches!(out.request, Request::Nothing));
    assert!(matches!(d.state, State::Replying { next: 24, streaming: true, .. }));
}

#[test]
fn a_full_page_lets_the_rest_go() {
    let mut plan = plan_reply(&line(3), Some(100));
    plan.next_y = 1961;
    let mut d = at(State::Replying { plan, next: 0, streaming: true });
    d.turn.reply = text("Hello");
    let out = d.step(10, Mail::Ink(text("there")), false);
    assert_eq!(out.actions.len(), 4);
    assert_eq!(d.turn.reply, "Hello");
    assert!(matches!(out.request, Request::Remember { reply, .. } if reply == "Hello"));
    let mut plan = plan_reply(&line(3), Some(100));
    plan.next_y = 1960;
    let mut d = at(State::Replying { plan, next: 0, streaming: true });
    let out = d.step(10, Mail::Ink(text("there")), false);
    assert!(matches!(out.request, Request::Append { .. }));
}

#[test]
fn an_answered_turn_is_remembered() {
    let mut d = at(State::Replying {
        plan: plan_reply(&line(3), Some(100)),
        next: 0,
        streaming: true,
    });
    d.turn.id = 7;
    d.turn.reply = text(" Hello \n");
    d.turn.strokes = vec![vec![(1, 2, 3)]];
    d.step(5, Mail::Transcript(text("hi")), false);
    let out = d.step(19, Mail::Closed, false);
    match out.request {
        Request::Remember { id, transcript, reply, strokes } => {
            assert_eq!(id, 7);
            assert_eq!(transcript, "hi");
            assert_eq!(reply, "Hello");
            assert_eq!(strokes, vec![vec![(1, 2, 3)]]);
        }
        _ => panic!("forgotten"),
    }
    assert!(d.turn.strokes.is_empty());
}

#[test]
fn a_failed_or_silent_turn_is_not_remembered() {
    let replying = || State::Replying {
        plan: plan_reply(&line(3), Some(100)),
        next: 0,
        streaming: true,
    };
    let mut failed = at(replying());
    failed.turn.reply = text("Hello");
    failed.turn.strokes = vec![vec![(1, 2, 3)]];
    let out = failed.step(5, Mail::Failed(text("cut")), false);
    assert!(matches!(out.request, Request::Nothing));
    assert!(failed.turn.failed && failed.turn.strokes.is_empty());
    assert!(matches!(failed.state, State::Lingering { .. }));
    let mut silent = at(replying());
    let out = silent.step(5, Mail::Closed, false);
    assert!(matches!(out.request, Request::Nothing));
}

#[test]
fn an_incantation_in_mid_reply_is_ignored() {
    let mut d = at(State::Replying {
        plan: plan_reply(&line(3), Some(100)),
        next: 0,
        streaming: true,
    });
    let out = d.step(5, Mail::Show(9), false);
    assert!(matches!(out.request, Request::Nothing));
    assert_eq!(out.actions.len(), 4);
    assert!(matches!(d.state, State::Replying { streaming: true, .. }));
}

#[test]
fn a_long_reply_rests_no_longer_than_twenty_seconds() {
    for (points, rests) in [(7999, 19_998), (8000, 20_000), (9000, 20_000)] {
        let mut plan = plan_reply(&line(points), Some(100));
        plan.stroke_i = 1;
        let mut d = at(State::Replying { plan, next: 0, streaming: false });
        quiet(&mut d, 5);
        assert!(matches!(d.state, State::Lingering { until, .. } if until == 5 + rests));
    }
}

#[test]
fn a_reply_fades_in_ten_passes() {
    let mut d = at(State::Lingering { until: 100, region: square() });
    assert!(idle(&quiet(&mut d, 99)));
    assert!(matches!(d.state, State::Lingering { .. }));
    assert!(idle(&quiet(&mut d, 100)));
    for n in 0..10u32 {
        let out = quiet(&mut d, 100 + 80 * n as u64);
        let mut acts = vec![
            Action::Dissolve { region: square(), stage: n, stages: 10 },
            Action::Update { x: 1, y: 1, w: 2, h: 2, fast: true },
        ];
        if n == 9 {
            acts.push(Action::FullRefresh);
        }
        assert_eq!(out.actions, acts);
    }
    assert!(matches!(d.state, State::Listening { last_pen: None }));
}

#[test]
fn the_guide_comes_down_by_tap_or_time() {
    let mut d = at(State::Help { open: true, until: 100 });
    assert!(idle(&quiet(&mut d, 99)));
    assert!(matches!(quiet(&mut d, 100).request, Request::HideGuide));
    assert!(idle(&quiet(&mut d, 101)));
    assert!(matches!(d.state, State::Listening { last_pen: None }));
    let mut d = at(State::Help { open: true, until: 100 });
    d.stylus_tapped = true;
    d.stylus_on = true;
    assert!(matches!(quiet(&mut d, 5).request, Request::HideGuide));
    assert!(!d.stylus_tapped);
    assert!(idle(&quiet(&mut d, 6)));
    assert!(matches!(d.state, State::Help { open: false, .. }));
    d.stylus_on = false;
    quiet(&mut d, 7);
    assert!(matches!(d.state, State::Listening { last_pen: None }));
}

fn rising(points: i32) -> State {
    let strokes = vec![(0..points).map(|x| (x, 0, 2)).collect()];
    let plan = ConjurePlan { strokes, stroke_i: 0, point_i: 0, region: square() };
    State::Conjuring { plan, next: 100, saved: vec![9, 8] }
}

#[test]
fn a_memory_rises_and_rests() {
    let mut d = at(rising(50));
    assert!(idle(&quiet(&mut d, 99)));
    assert_eq!(quiet(&mut d, 100).actions.len(), 49);
    assert!(matches!(d.state, State::Conjuring { next: 110, .. }));
    assert_eq!(quiet(&mut d, 110).actions.len(), 3);
    match &d.state {
        State::MemoryShown { saved, until: 120_110, region } => {
            assert_eq!(saved, &Some(vec![9, 8]));
            assert_eq!(*region, square());
        }
        _ => panic!("not resting"),
    }
    assert!(idle(&quiet(&mut d, 120_109)));
    let out = quiet(&mut d, 120_110);
    assert!(matches!(out.request, Request::Restore { page } if page == vec![9, 8]));
    quiet(&mut d, 120_111);
    assert!(matches!(d.state, State::Listening { last_pen: None }));
}

#[test]
fn a_tap_brings_todays_page_back() {
    let mut d = at(rising(50));
    d.stylus_tapped = true;
    d.stylus_on = true;
    let out = quiet(&mut d, 5);
    assert!(out.actions.is_empty());
    assert!(matches!(out.request, Request::Restore { page } if page == vec![9, 8]));
    quiet(&mut d, 6);
    assert!(matches!(d.state, State::MemoryShown { saved: None, .. }));
    d.stylus_on = false;
    quiet(&mut d, 7);
    assert!(matches!(d.state, State::Listening { last_pen: None }));
    let mut d = at(State::MemoryShown { saved: Some(vec![1]), until: 99, region: square() });
    d.stylus_tapped = true;
    assert!(matches!(quiet(&mut d, 5).request, Request::Restore { page } if page == vec![1]));
}

#[test]
fn no_step_forgets() {
    let mut d = at(rising(200));
    for now in 100..1000 {
        assert!(!quiet(&mut d, now).actions.contains(&Action::ForgetAll));
    }
}

#[test]
fn each_step_takes_note_of_the_tap() {
    let mut d = at(State::Listening { last_pen: None });
    d.stylus_tapped = true;
    quiet(&mut d, 1);
    assert!(!d.stylus_tapped);
}

#[test]
fn mail_is_wanted_while_an_answer_is_to_come() {
    let replying = |streaming| {
        at(State::Replying { plan: plan_reply(&line(3), Some(100)), next: 0, streaming })
    };
    let drinking = at(State::Drinking { stage: 0, next: 0, region: square(), reply: square() });
    let thinking = at(State::Thinking { pulse: 0, blot_on: false, since: 0 });
    assert!(!drinking.wants_mail() && drinking.keeps_mail());
    assert!(thinking.wants_mail() && thinking.keeps_mail());
    assert!(replying(true).wants_mail() && replying(true).keeps_mail());
    assert!(!replying(false).wants_mail() && !replying(false).keeps_mail());
    for d in [
        at(State::Listening { last_pen: None }),
        at(State::Lingering { until: 0, region: square() }),
        at(State::FadingReply { stage: 0, next: 0, region: square() }),
        at(State::Help { open: true, until: 0 }),
        at(State::MemoryShown { saved: None, until: 0, region: square() }),
    ] {
        assert!(!d.wants_mail() && !d.keeps_mail());
    }
}

#[test]
fn mail_that_is_not_wanted_is_not_read() {
    let drinking = || at(State::Drinking { stage: 2, next: 0, region: square(), reply: square() });
    let (mut one, mut other) = (drinking(), drinking());
    let a = one.step(5, Mail::Empty, true);
    let b = other.step(5, Mail::Ink(text("early")), true);
    assert_eq!(a.actions, b.actions);
    assert_eq!(other.turn.reply, "");
    assert!(matches!(other.state, State::Drinking { stage: 3, next: 75, .. }));
    assert!(one.keeps_mail() && other.keeps_mail());
}
