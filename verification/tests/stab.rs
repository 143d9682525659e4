use riddle::bleed::{bleed_new, Droplet, Lattice, Radius};
use riddle::diary::{Diary, State};
use riddle::fb::{Action, BBox, Shade};
use riddle::pen::{PenOp, PenSample, Tool};
use riddle::stab::{absorb_region, StabStep};

fn eraser(x: i32, y: i32) -> PenSample {
    PenSample { x, y, pressure: 1000, touching: true, tool: Tool::Eraser }
}

fn up() -> PenSample {
    PenSample { x: 0, y: 0, pressure: 0, touching: false, tool: Tool::Pen }
}

fn radius(r: u32) -> Radius {
    Radius {
        bits: (r as f32).to_bits(),
        whole: r,
        squared: (r * r) as u64,
        reach: (r * 8 / 5) as i32 + 2,
    }
}

/// A diary with the eraser held at 100, 200 since the moment 1000.
fn held() -> Diary {
    let mut d = Diary::open(0);
    d.pen_sample(eraser(100, 200), 4096, 1000);
    assert!(matches!(d.stab_step(1000), StabStep::Nothing));
    assert_eq!(d.stab, Some((100, 200, 1000)));
    d
}

fn pooled() -> Diary {
    let mut d = held();
    assert!(matches!(d.stab_step(1800), StabStep::Pool { x: 100, y: 200, held: 800 }));
    let paper = |_: Lattice, _: Lattice, _: Lattice| 64u8;
    d.well_up(bleed_new(1620, 2160, 100, 200, 5, paper, |_: Droplet| (0, 0)));
    let g = d.pool(radius(3));
    assert_eq!(g.pixels.len(), 29);
    d
}

#[test]
fn nothing_wells_up_too_early() {
    let mut d = held();
    assert!(matches!(d.stab_step(1799), StabStep::Nothing));
    assert!(d.bleed.is_none());
}

#[test]
fn a_held_fang_pools_and_then_kills() {
    let mut d = pooled();
    assert!(matches!(d.stab_step(3999), StabStep::Pool { held: 2999, .. }));
    match d.stab_step(4000) {
        StabStep::Drown { x: 100, y: 200, bleed: Some(b) } => assert_eq!(b.r, radius(3)),
        _ => panic!("still alive"),
    }
    assert!(d.bleed.is_none());
    let acts = d.die(1620, 2160);
    assert_eq!(
        acts,
        vec![
            Action::FillAll { shade: Shade::Black },
            Action::Update { x: 0, y: 0, w: 1620, h: 2160, fast: true },
            Action::Pause { ms: 500 },
            Action::ForgetAll,
            Action::FillAll { shade: Shade::White },
            Action::FullRefresh,
            Action::ClearInk,
        ]
    );
    assert!(matches!(d.state, State::Listening { last_pen: None }));
    assert!(d.stab.is_none() && d.eraser_at.is_none());
    assert!(d.ink_dirty.is_empty() && d.pending_reply.is_empty());
}

#[test]
fn a_fang_does_not_erase_while_ink_wells_up() {
    let mut d = pooled();
    assert_eq!(d.pen_sample(eraser(101, 200), 4096, 1900), PenOp::Nothing);
    assert_eq!(d.eraser_at, Some((101, 200)));
}

#[test]
fn lifting_gives_the_ink_back() {
    let mut d = pooled();
    d.pen_sample(up(), 4096, 1900);
    let box3 = BBox { x0: 96, y0: 196, x1: 104, y1: 204 };
    assert!(matches!(d.stab_step(1900), StabStep::Absorb { region } if region == box3));
    assert!(d.stab.is_none() && d.bleed.is_none());
    assert!(matches!(d.stab_step(9000), StabStep::Nothing));
}

#[test]
fn lifting_before_the_warning_leaves_nothing_to_take_back() {
    let mut d = held();
    d.pen_sample(up(), 4096, 1100);
    assert!(matches!(d.stab_step(1100), StabStep::Nothing));
    assert!(d.stab.is_none());
}

#[test]
fn drifting_starts_anew() {
    let mut d = pooled();
    d.pen_sample(eraser(112, 216), 4096, 1900);
    assert!(matches!(d.stab_step(1900), StabStep::Pool { .. }));
    d.pen_sample(eraser(112, 217), 4096, 1950);
    assert!(matches!(d.stab_step(1950), StabStep::Absorb { .. }));
    assert_eq!(d.stab, Some((112, 217, 1950)));
    assert!(matches!(d.stab_step(4949), StabStep::Pool { .. }));
    assert!(matches!(d.stab_step(4950), StabStep::Drown { x: 112, y: 217, bleed: None }));
}

#[test]
fn a_busy_diary_is_not_stabbed() {
    let mut d = held();
    d.state = State::Thinking { pulse: 0, blot_on: false, since: 0 };
    assert!(matches!(d.stab_step(9000), StabStep::Nothing));
    assert!(d.stab.is_none());
}

#[test]
fn pooling_grows_and_never_shrinks() {
    let mut d = pooled();
    assert!(d.pool(radius(3)).pixels.is_empty());
    assert!(!d.pool(radius(6)).pixels.is_empty());
    assert_eq!(d.bleed.as_ref().unwrap().r, radius(6));
}

#[test]
fn a_bleed_is_taken_back_in_eight_passes() {
    let region = BBox { x0: 1, y0: 2, x1: 3, y1: 4 };
    let acts = absorb_region(region);
    assert_eq!(acts.len(), 24);
    for (n, pass) in acts.chunks(3).enumerate() {
        assert_eq!(
            pass,
            [
                Action::Dissolve { region, stage: n as u32, stages: 8 },
                Action::Update { x: 1, y: 2, w: 3, h: 3, fast: true },
                Action::Pause { ms: 45 },
            ]
        );
    }
}
