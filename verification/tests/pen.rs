use riddle::diary::{Diary, State};
use riddle::fb::{Action, BBox};
use riddle::pen::{flush_every, PenOp, PenSample, Tool, WindowEvent};

const MAX: i32 = 4096;

fn down(x: i32, y: i32, pressure: i32) -> PenSample {
    PenSample { x, y, pressure, touching: true, tool: Tool::Pen }
}

fn eraser(x: i32, y: i32) -> PenSample {
    PenSample { x, y, pressure: 1000, touching: true, tool: Tool::Eraser }
}

fn up() -> PenSample {
    PenSample { x: 0, y: 0, pressure: 0, touching: false, tool: Tool::Pen }
}

fn last_pen(d: &Diary) -> Option<u64> {
    match d.state {
        State::Listening { last_pen } => last_pen,
        _ => panic!("not listening"),
    }
}

#[test]
fn pressure_sets_the_width() {
    let mut d = Diary::open(0);
    assert_eq!(d.pen_sample(down(1, 2, 41), MAX, 5), PenOp::Mark { x: 1, y: 2, r: 2 });
    assert_eq!(d.pen_sample(down(1, 2, 1366), MAX, 6), PenOp::Mark { x: 1, y: 2, r: 3 });
    assert_eq!(d.pen_sample(down(1, 2, 4096), MAX, 7), PenOp::Mark { x: 1, y: 2, r: 5 });
    assert!(d.pen_down && d.stylus_on && d.stylus_tapped);
    assert_eq!(last_pen(&d), Some(7));
}

#[test]
fn a_light_touch_does_not_write() {
    let mut d = Diary::open(0);
    assert_eq!(d.pen_sample(down(1, 2, 40), MAX, 5), PenOp::Nothing);
    let mut hover = down(1, 2, 4000);
    hover.touching = false;
    assert_eq!(d.pen_sample(hover, MAX, 5), PenOp::Nothing);
    assert!(!d.pen_down && !d.stylus_on && !d.stylus_tapped);
    assert_eq!(last_pen(&d), None);
}

#[test]
fn lifting_ends_the_stroke_once() {
    let mut d = Diary::open(0);
    d.pen_sample(down(1, 2, 100), MAX, 5);
    assert_eq!(d.pen_sample(up(), MAX, 9), PenOp::PenUp);
    assert_eq!(last_pen(&d), Some(9));
    assert_eq!(d.pen_sample(up(), MAX, 11), PenOp::Nothing);
    assert_eq!(last_pen(&d), Some(9));
    assert!(!d.pen_down && !d.stylus_on);
}

#[test]
fn a_tap_between_two_steps_still_counts() {
    let mut d = Diary::open(0);
    d.state = State::Help { open: true, until: 100 };
    d.pen_sample(down(1, 2, 100), MAX, 5);
    d.pen_sample(up(), MAX, 6);
    assert!(d.stylus_tapped && !d.stylus_on);
}

#[test]
fn the_eraser_wipes_and_is_watched() {
    let mut d = Diary::open(0);
    assert_eq!(d.pen_sample(eraser(7, 8), MAX, 5), PenOp::Erase { x: 7, y: 8, r: 22 });
    assert_eq!(d.eraser_at, Some((7, 8)));
    d.pen_sample(down(1, 1, 100), MAX, 6);
    assert_eq!(d.eraser_at, None);
    d.pen_sample(eraser(9, 9), MAX, 7);
    d.pen_sample(up(), MAX, 8);
    assert_eq!(d.eraser_at, None);
}

#[test]
fn a_resting_reply_is_kept_while_it_is_answered() {
    let mut d = Diary::open(0);
    let region = BBox { x0: 10, y0: 20, x1: 30, y1: 40 };
    d.state = State::Lingering { until: 999, region };
    assert_eq!(d.pen_sample(down(3, 4, 100), MAX, 5), PenOp::Mark { x: 3, y: 4, r: 2 });
    assert_eq!(d.pending_reply, region);
    assert_eq!(last_pen(&d), Some(5));
    let mut w = Diary::open(0);
    w.state = State::Lingering { until: 999, region: BBox::empty() };
    w.window_event(WindowEvent::Contact { x: 3, y: 4, d: 50 }, 5);
    assert!(w.pending_reply.is_empty());
    assert_eq!(last_pen(&w), Some(5));
}

#[test]
fn a_busy_page_takes_no_mark() {
    let states = [
        State::Drinking { stage: 0, next: 0, region: BBox::empty(), reply: BBox::empty() },
        State::Thinking { pulse: 0, blot_on: false, since: 0 },
        State::FadingReply { stage: 0, next: 0, region: BBox::empty() },
        State::Help { open: true, until: 0 },
        State::MemoryShown { saved: None, until: 0, region: BBox::empty() },
    ];
    for state in states {
        let mut d = Diary::open(0);
        d.state = state;
        assert_eq!(d.pen_sample(down(1, 1, 100), MAX, 5), PenOp::Nothing);
        assert_eq!(d.pen_sample(eraser(1, 1), MAX, 5), PenOp::Nothing);
        assert_eq!(d.window_event(WindowEvent::Contact { x: 1, y: 1, d: 9 }, 5), PenOp::Nothing);
        assert!(!d.pen_down && d.stylus_tapped && d.eraser_at.is_none());
        assert!(!matches!(d.state, State::Listening { .. }));
    }
}

#[test]
fn a_stroke_that_the_diary_outran_still_ends() {
    let mut d = Diary::open(0);
    d.pen_sample(down(1, 1, 100), MAX, 5);
    d.state = State::Thinking { pulse: 0, blot_on: false, since: 0 };
    assert_eq!(d.pen_sample(up(), MAX, 6), PenOp::PenUp);
    assert!(matches!(d.state, State::Thinking { .. }));
}

#[test]
fn a_window_reports_depth() {
    let mut d = Diary::open(0);
    for (depth, r) in [(-5, 2), (0, 2), (44, 2), (45, 3), (90, 4), (100, 4), (999, 4)] {
        let op = d.window_event(WindowEvent::Contact { x: 1, y: 2, d: depth }, 5);
        assert_eq!(op, PenOp::Mark { x: 1, y: 2, r });
    }
    assert_eq!(d.window_event(WindowEvent::Other, 6), PenOp::Nothing);
    assert_eq!(d.window_event(WindowEvent::Release, 7), PenOp::PenUp);
    assert_eq!(d.window_event(WindowEvent::Release, 8), PenOp::Nothing);
    assert_eq!(last_pen(&d), Some(7));
    assert!(!d.stylus_on && d.stylus_tapped);
}

#[test]
fn fresh_ink_is_shown_in_its_time() {
    let mut d = Diary::open(100);
    assert_eq!(d.flush(500, 8), None);
    d.inked(BBox::empty());
    assert_eq!(d.flush(500, 8), None);
    d.inked(BBox { x0: 1, y0: 1, x1: 2, y1: 2 });
    d.inked(BBox { x0: 5, y0: 5, x1: 5, y1: 5 });
    assert_eq!(d.flush(107, 8), None);
    assert_eq!(d.flush(108, 8), Some(Action::Update { x: 1, y: 1, w: 5, h: 5, fast: true }));
    assert!(d.ink_dirty.is_empty());
    assert_eq!(d.last_flush, 108);
    assert_eq!(flush_every(true), 8);
    assert_eq!(flush_every(false), 35);
}
