use riddle::commit::PageInk;
use riddle::diary::{Diary, State};
use riddle::fb::{blank_page, Action, BBox, Shade};
use riddle::reply::{conjure, TracedLine};
use riddle::step::Request;
use riddle::surface::Surface;

fn page(dark: bool) -> Surface {
    Surface { w: 2, h: 2, pixels: vec![255, 255, 255, if dark { 0 } else { 255 }] }
}

fn ink(question: bool) -> PageInk {
    PageInk {
        bbox: BBox { x0: 0, y0: 0, x1: 1, y1: 1 },
        strokes: vec![vec![(1, 1, 2)]],
        question,
    }
}

fn dot() -> Vec<TracedLine> {
    vec![TracedLine { width: 20, strokes: vec![vec![(0, 0)]] }]
}

#[test]
fn an_erased_page_is_not_handed_over() {
    let mut d = Diary::open(0);
    d.state = State::Listening { last_pen: Some(1) };
    let out = d.commit(&page(false), ink(true), true, 9, 5000);
    assert_eq!(out.actions, vec![Action::ClearInk]);
    assert!(matches!(out.request, Request::Nothing));
    assert!(matches!(d.state, State::Listening { last_pen: None }));
}

#[test]
fn a_question_mark_brings_up_the_guide() {
    let mut d = Diary::open(0);
    let out = d.commit(&page(true), ink(true), false, 9, 5000);
    assert_eq!(
        out.actions,
        vec![
            Action::Fill { x: 0, y: 0, w: 2, h: 2, shade: Shade::White },
            Action::Update { x: 0, y: 0, w: 2, h: 2, fast: false },
            Action::ClearInk,
        ]
    );
    assert!(matches!(out.request, Request::ShowGuide));
    assert!(matches!(d.state, State::Help { open: true, until: 50_000 }));
}

#[test]
fn without_an_oracle_the_ink_is_left_alone() {
    for (y1, y) in [(100, 190), (1670, 1760), (1671, 1760), (2000, 1760)] {
        let mut d = Diary::open(0);
        let mut i = ink(false);
        i.bbox.y1 = y1;
        let out = d.commit(&page(true), i, false, 9, 5000);
        assert!(out.actions.is_empty());
        match out.request {
            Request::Write { text, y_start, streaming } => {
                assert!(text.starts_with("The diary lies dormant"));
                assert_eq!(y_start, Some(y));
                assert!(!streaming);
            }
            _ => panic!("no excuse"),
        }
        assert!(matches!(d.state, State::Listening { .. }));
    }
}

#[test]
fn a_page_is_drunk_with_the_reply_beneath() {
    let mut d = Diary::open(0);
    let old = BBox { x0: 5, y0: 5, x1: 9, y1: 9 };
    d.pending_reply = old;
    d.turn.reply = "old words".to_string();
    d.turn.transcript = Some("old".to_string());
    d.turn.failed = true;
    let out = d.commit(&page(true), ink(false), true, 1_700_000_000, 5000);
    assert!(out.actions.is_empty());
    assert!(matches!(out.request, Request::Ask));
    match d.state {
        State::Drinking { stage: 0, next: 5000, region, reply } => {
            assert_eq!(region, BBox { x0: 0, y0: 0, x1: 1, y1: 1 });
            assert_eq!(reply, old);
        }
        _ => panic!("not drinking"),
    }
    assert!(d.pending_reply.is_empty());
    assert_eq!(d.turn.id, 1_700_000_000);
    assert_eq!(d.turn.strokes, vec![vec![(1, 1, 2)]]);
    assert!(d.turn.reply.is_empty() && d.turn.transcript.is_none() && !d.turn.failed);
}

#[test]
fn a_reply_is_taken_up_and_added_to() {
    let mut d = Diary::open(0);
    d.write_reply(&dot(), Some(100), true, 77);
    let out = d.append(&dot(), 76);
    assert!(out.actions.is_empty());
    match &d.state {
        State::Replying { plan, next: 77, streaming: true } => {
            assert_eq!(plan.strokes, vec![vec![(800, 102)], vec![(800, 222)]]);
            assert_eq!(plan.next_y, 340);
        }
        _ => panic!("not replying"),
    }
}

#[test]
fn a_memory_rises_on_cleared_paper() {
    let mut d = Diary::open(0);
    let plan = conjure(&TracedLine { width: 0, strokes: vec![] }, vec![vec![(1, 1, 2)]], &None);
    let acts = d.rise(plan, vec![1, 2, 3], 50);
    assert_eq!(acts, blank_page());
    match &d.state {
        State::Conjuring { plan, next: 50, saved } => {
            assert_eq!(plan.strokes, vec![vec![(1, 1, 2)]]);
            assert_eq!(saved, &vec![1, 2, 3]);
        }
        _ => panic!("nothing rises"),
    }
}

#[test]
fn a_lost_page_fails_the_turn() {
    let mut d = Diary::open(0);
    let out = d.lose_page();
    assert!(d.turn.failed);
    assert!(out.actions.is_empty());
    match out.request {
        Request::Write { text, y_start: None, streaming: false } => {
            assert_eq!(text, "The ink blurred before it could answer. Write again.");
        }
        _ => panic!("no excuse"),
    }
}
