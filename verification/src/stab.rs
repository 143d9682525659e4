//! The fang: an eraser held still on one spot until the diary bleeds out.
use crate::bleed::{bleed_grow, grown_to, Bleed, Growth, Radius};
use crate::diary::{elapsed, since, Diary, State};
use crate::fb::{fitted, show, showing, Action, BBox, Shade};
use vstd::prelude::*;

verus! {

/// How long the eraser is held before ink wells up.
pub const WARNING: u64 = 800;

/// How long the eraser is held before the memory dies.
pub const DEATH: u64 = 3000;

/// The square of how far the eraser may drift from where it first touched.
pub const DRIFT2: i128 = 400;

/// Passes in which the page takes back a bleed.
pub const ABSORB_STAGES: u32 = 8;

/// What an eraser pressed to the page brings about.
pub enum StabStep {
    Nothing,
    /// The page takes back the ink in this box.
    Absorb { region: BBox },
    /// Ink wells up at `x`, `y`, where the eraser has been held for `held` milliseconds.
    Pool { x: i32, y: i32, held: u64 },
    /// The diary bleeds out at `x`, `y`, from the ink that has already welled up.
    Drown { x: i32, y: i32, bleed: Option<Bleed> },
}

/// Has the eraser drifted from `sx`, `sy`, so that it is erasing after all?
pub open spec fn drifted(sx: int, sy: int, x: int, y: int) -> bool {
    (x - sx) * (x - sx) + (y - sy) * (y - sy) > DRIFT2
}

/// What becomes of a bleed that is broken off.
pub open spec fn broken_off(bleed: Option<Bleed>) -> StabStep {
    if bleed is Some && !bleed->0.bbox.hollow() {
        StabStep::Absorb { region: bleed->0.bbox }
    } else {
        StabStep::Nothing
    }
}

/// What becomes of a bleed that is broken off.
fn break_off(bleed: Option<Bleed>) -> (step: StabStep)
    ensures
        step == broken_off(bleed),
{
    match bleed {
        Some(b) => if b.bbox.is_empty() {
            StabStep::Nothing
        } else {
            StabStep::Absorb { region: b.bbox }
        },
        None => StabStep::Nothing,
    }
}

impl Diary {
    /// Is the pen down on a page that is open to it?
    pub open spec fn stab_live(self) -> bool {
        self.pen_down && self.state is Listening
    }

    /// The diary after a look at the eraser.
    pub open spec fn stabbed(self, now: u64) -> Diary {
        match (self.stab, self.eraser_at) {
            (None, Some((x, y))) => if self.stab_live() {
                Diary { stab: Some((x, y, now)), ..self }
            } else {
                self
            },
            (Some((sx, sy, t0)), Some((x, y))) if self.stab_live() => if drifted(
                sx as int,
                sy as int,
                x as int,
                y as int,
            ) {
                Diary { stab: Some((x, y, now)), bleed: None, ..self }
            } else if since(now, t0) >= DEATH {
                Diary { bleed: None, ..self }
            } else {
                self
            },
            (Some(_), _) => Diary { stab: None, bleed: None, ..self },
            (None, None) => self,
        }
    }

    /// What a look at the eraser brings about.
    pub open spec fn stab_outcome(self, now: u64) -> StabStep {
        match (self.stab, self.eraser_at) {
            (Some((sx, sy, t0)), Some((x, y))) if self.stab_live() => if drifted(
                sx as int,
                sy as int,
                x as int,
                y as int,
            ) {
                broken_off(self.bleed)
            } else if since(now, t0) >= DEATH {
                StabStep::Drown { x: sx, y: sy, bleed: self.bleed }
            } else if since(now, t0) >= WARNING {
                StabStep::Pool { x: sx, y: sy, held: since(now, t0) as u64 }
            } else {
                StabStep::Nothing
            },
            (Some(_), _) => broken_off(self.bleed),
            _ => StabStep::Nothing,
        }
    }

    /// Look at the eraser. Held still on one spot it makes ink well up, and at last drowns the
    /// diary; lifted or moved before then, the page takes the ink back.
    pub fn stab_step(&mut self, now: u64) -> (step: StabStep)
        requires
            old(self).wf(),
        ensures
            final(self).wf(),
            *final(self) == old(self).stabbed(now),
            step == old(self).stab_outcome(now),
    {
        let live = self.pen_down && match &self.state {
            State::Listening { .. } => true,
            _ => false,
        };
        match self.stab {
            None => {
                if live {
                    if let Some((x, y)) = self.eraser_at {
                        self.stab = Some((x, y, now));
                    }
                }
                StabStep::Nothing
            },
            Some((sx, sy, t0)) => {
                if live {
                    if let Some((x, y)) = self.eraser_at {
                        let dx: i128 = x as i128 - sx as i128;
                        let dy: i128 = y as i128 - sy as i128;
                        assert(0 <= dx * dx <= 0x1_0000_0000_0000_0000) by (nonlinear_arith)
                            requires
                                -0x1_0000_0000 <= dx <= 0x1_0000_0000,
                        ;
                        assert(0 <= dy * dy <= 0x1_0000_0000_0000_0000) by (nonlinear_arith)
                            requires
                                -0x1_0000_0000 <= dy <= 0x1_0000_0000,
                        ;
                        if dx * dx + dy * dy > DRIFT2 {
                            let bleed = self.bleed.take();
                            self.stab = Some((x, y, now));
                            return break_off(bleed);
                        }
                        let held: u64 = elapsed(now, t0);
                        if held >= DEATH {
                            let bleed = self.bleed.take();
                            return StabStep::Drown { x: sx, y: sy, bleed };
                        }
                        if held >= WARNING {
                            return StabStep::Pool { x: sx, y: sy, held };
                        }
                        return StabStep::Nothing;
                    }
                }
                let bleed = self.bleed.take();
                self.stab = None;
                break_off(bleed)
            },
        }
    }

    /// Ink starts to well up under the eraser.
    pub fn well_up(&mut self, b: Bleed)
        requires
            old(self).wf(),
            old(self).stab is Some,
            b.wf(),
        ensures
            final(self).wf(),
            *final(self) == (Diary { bleed: Some(b), ..*old(self) }),
    {
        self.bleed = Some(b);
    }

    /// The ink that wells up under the eraser grows to the radius `to`.
    pub fn pool(&mut self, to: Radius) -> (g: Growth)
        requires
            old(self).wf(),
            old(self).bleed is Some,
        ensures
            final(self).wf(),
            final(self).bleed is Some,
            *final(self) == (Diary { bleed: final(self).bleed, ..*old(self) }),
            grown_to(old(self).bleed->0, to, g, final(self).bleed->0),
    {
        match self.bleed.take() {
            Some(b) => {
                let mut b = b;
                let g = bleed_grow(&mut b, to);
                self.bleed = Some(b);
                g
            },
            None => Growth { pixels: Vec::new(), drops: Vec::new() },
        }
    }

    /// The page of `w` by `h` pixels has drowned: the memory is erased, the paper comes back
    /// blank, and the diary listens as if nothing had ever been written.
    pub fn die(&mut self, w: i32, h: i32) -> (acts: Vec<Action>)
        requires
            old(self).wf(),
        ensures
            final(self).wf(),
            *final(self) == (Diary {
                state: State::Listening { last_pen: None },
                ink_dirty: BBox::nothing(),
                pending_reply: BBox::nothing(),
                stab: None,
                bleed: None,
                eraser_at: None,
                ..*old(self)
            }),
            acts@ == seq![
                Action::FillAll { shade: Shade::Black },
                Action::Update { x: 0, y: 0, w, h, fast: true },
                Action::Pause { ms: 500 },
                Action::ForgetAll,
                Action::FillAll { shade: Shade::White },
                Action::FullRefresh,
                Action::ClearInk,
            ],
    {
        self.state = State::Listening { last_pen: None };
        self.ink_dirty = BBox::empty();
        self.pending_reply = BBox::empty();
        self.stab = None;
        self.bleed = None;
        self.eraser_at = None;
        let mut acts: Vec<Action> = Vec::new();
        acts.push(Action::FillAll { shade: Shade::Black });
        acts.push(Action::Update { x: 0, y: 0, w, h, fast: true });
        acts.push(Action::Pause { ms: 500 });
        acts.push(Action::ForgetAll);
        acts.push(Action::FillAll { shade: Shade::White });
        acts.push(Action::FullRefresh);
        acts.push(Action::ClearInk);
        acts
    }
}

/// One pass of taking back a bleed: dissolve, show, wait.
pub open spec fn absorb_pass(region: BBox, stage: u32) -> Seq<Action> {
    seq![
        Action::Dissolve { region, stage, stages: ABSORB_STAGES },
        showing(region, true),
        Action::Pause { ms: 45 },
    ]
}

/// The first `n` passes of taking back a bleed.
pub open spec fn absorb_passes(region: BBox, n: nat) -> Seq<Action>
    decreases n,
{
    if n == 0 {
        Seq::empty()
    } else {
        absorb_passes(region, (n - 1) as nat) + absorb_pass(region, (n - 1) as u32)
    }
}

/// How the page takes back what a box holds after a stab that was broken off.
pub fn absorb_region(region: BBox) -> (acts: Vec<Action>)
    ensures
        acts@ == absorb_passes(region, ABSORB_STAGES as nat),
{
    let mut acts: Vec<Action> = Vec::new();
    let mut stage: u32 = 0;
    while stage < ABSORB_STAGES
        invariant
            stage <= ABSORB_STAGES,
            acts@ == absorb_passes(region, stage as nat),
        decreases ABSORB_STAGES - stage,
    {
        acts.push(Action::Dissolve { region, stage, stages: ABSORB_STAGES });
        acts.push(show(region, true));
        acts.push(Action::Pause { ms: 45 });
        assert(acts@ =~= absorb_passes(region, stage as nat) + absorb_pass(region, stage));
        stage += 1;
    }
    acts
}

/// The memory dies under a fang, and under nothing else: an eraser down on an open page, held
/// for three seconds within twenty pixels of where it first touched.
pub proof fn only_a_held_fang_kills(d: Diary, now: u64)
    ensures
        d.stab_outcome(now) is Drown <==> {
            &&& d.pen_down
            &&& d.state is Listening
            &&& d.stab matches Some((sx, sy, t0))
            &&& d.eraser_at matches Some((x, y))
            &&& since(now, t0) >= 3000
            &&& (x - sx) * (x - sx) + (y - sy) * (y - sy) <= 20 * 20
        },
{
}

/// Lifting the fang breaks the stab off: whatever had welled up is handed to the page to take
/// back, and the next touch starts anew.
pub proof fn lifting_breaks_off(d: Diary, now: u64)
    requires
        d.stab is Some,
        !d.stab_live() || d.eraser_at is None,
    ensures
        d.stabbed(now).stab is None,
        d.stabbed(now).bleed is None,
        d.stab_outcome(now) == broken_off(d.bleed),
{
}

/// Is the eraser down on a page that listens, at `x`, `y`?
pub open spec fn eraser_down(d: Diary, x: i32, y: i32) -> bool {
    d.pen_down && d.state is Listening && d.eraser_at == Some((x, y))
}

/// Is the eraser still within twenty pixels of where it first touched?
pub open spec fn held_still(d: Diary) -> bool {
    &&& d.stab matches Some((sx, sy, t0))
    &&& d.eraser_at matches Some((x, y))
    &&& eraser_down(d, x, y)
    &&& (x - sx) * (x - sx) + (y - sy) * (y - sy) <= 20 * 20
}

/// How long ago the eraser first touched; none when there is no stab.
pub open spec fn held_for(d: Diary, now: u64) -> int {
    match d.stab {
        Some((sx, sy, t0)) => now - t0,
        None => 0,
    }
}

/// Ink wells up where the eraser first touched, once it has been held still there for eight
/// tenths of a second and until it has been held for three seconds; then the diary drowns, at
/// the same place and from the same ink.
pub proof fn held_fang_draws_ink(d: &mut Diary, now: u64, step: StabStep)
    requires
        call_ensures(Diary::stab_step, (d, now), step),
    ensures
        step is Pool <==> held_still(*old(d)) && 800 <= held_for(*old(d), now) < 3000,
        step is Drown <==> held_still(*old(d)) && held_for(*old(d), now) >= 3000,
        step matches StabStep::Pool { x, y, held } ==> {
            &&& old(d).stab matches Some((sx, sy, t0))
            &&& x == sx && y == sy
            &&& held == now - t0
            &&& *final(d) == *old(d)
        },
        step matches StabStep::Drown { x, y, bleed } ==> {
            &&& old(d).stab matches Some((sx, sy, t0))
            &&& x == sx && y == sy
            &&& bleed == old(d).bleed
            &&& final(d).bleed is None
        },
        held_still(*old(d)) ==> final(d).stab == old(d).stab,
{
}

/// A stab is broken off by lifting or by drifting, and all the ink that had welled up is given
/// back to the page, once. The next begins where and when the eraser next touches.
pub proof fn broken_stab_gives_the_ink_back(d: &mut Diary, now: u64, step: StabStep)
    requires
        call_ensures(Diary::stab_step, (d, now), step),
    ensures
        !held_still(*old(d)) && old(d).stab is Some ==> final(d).bleed is None,
        step is Absorb <==> {
            &&& !held_still(*old(d))
            &&& old(d).stab is Some
            &&& old(d).bleed matches Some(b)
            &&& exists|x: int, y: int| #[trigger] b.bbox.holds(x, y)
        },
        step matches StabStep::Absorb { region } ==> region == old(d).bleed->0.bbox,
        forall|x: i32, y: i32|
            !held_still(*old(d)) && #[trigger] eraser_down(*old(d), x, y) ==> final(d).stab == Some(
                (x, y, now),
            ),
        (forall|x: i32, y: i32| !#[trigger] eraser_down(*old(d), x, y)) ==> final(d).stab is None,
        *final(d) == (Diary { stab: final(d).stab, bleed: final(d).bleed, ..*old(d) }),
{
    if let Some(b) = old(d).bleed {
        if !b.bbox.hollow() {
            assert(b.bbox.holds(b.bbox.x0 as int, b.bbox.y0 as int));
        }
    }
    if let Some((x, y)) = old(d).eraser_at {
        if old(d).pen_down && old(d).state is Listening {
            assert(eraser_down(*old(d), x, y));
        }
    }
}

proof fn lemma_absorb_passes(region: BBox, n: nat)
    requires
        n <= 8,
    ensures
        absorb_passes(region, n).len() == 3 * n,
        forall|i: int|
            0 <= i < 3 * n ==> #[trigger] absorb_passes(region, n)[i] == absorb_pass(
                region,
                (i / 3) as u32,
            )[i % 3],
    decreases n,
{
    if n > 0 {
        let m = (n - 1) as nat;
        lemma_absorb_passes(region, m);
        let was = absorb_passes(region, m);
        let all = absorb_passes(region, n);
        assert forall|i: int| 0 <= i < 3 * n implies #[trigger] all[i] == absorb_pass(
            region,
            (i / 3) as u32,
        )[i % 3] by {
            if i < 3 * m {
                assert(all[i] == was[i]);
            } else {
                assert(i / 3 == m && i % 3 == i - 3 * m);
                assert(all[i] == absorb_pass(region, m as u32)[i - 3 * m]);
            }
        }
    }
}

/// The page takes a bleed back in eight passes, one after the other, each over the whole of it,
/// shown, and held for a moment.
pub proof fn bleed_is_taken_back_pass_by_pass(region: BBox, acts: Vec<Action>, k: int)
    requires
        call_ensures(absorb_region, (region,), acts),
        0 <= k < 8,
    ensures
        acts@.len() == 24,
        acts@[3 * k] == (Action::Dissolve { region, stage: k as u32, stages: 8 }),
        !region.hollow() ==> acts@[3 * k + 1] == (Action::Update {
            x: region.x0,
            y: region.y0,
            w: fitted(region.x1 - region.x0 + 1),
            h: fitted(region.y1 - region.y0 + 1),
            fast: true,
        }),
        acts@[3 * k + 2] == (Action::Pause { ms: 45 }),
{
    lemma_absorb_passes(region, 8);
    assert((3 * k) / 3 == k && (3 * k) % 3 == 0);
    assert((3 * k + 1) / 3 == k && (3 * k + 1) % 3 == 1);
    assert((3 * k + 2) / 3 == k && (3 * k + 2) % 3 == 2);
    let all = absorb_passes(region, 8);
    assert(all[3 * k] == absorb_pass(region, k as u32)[0]);
    assert(all[3 * k + 1] == absorb_pass(region, k as u32)[1]);
    assert(all[3 * k + 2] == absorb_pass(region, k as u32)[2]);
}

/// Death forgets everything: the memory is erased while the page is black and before it comes
/// back white, the ink is gone, and no stab, bleed, fresh ink or pending reply outlives it.
pub proof fn death_leaves_a_blank_diary(d: &mut Diary, w: i32, h: i32, acts: Vec<Action>)
    requires
        call_ensures(Diary::die, (d, w, h), acts),
    ensures
        final(d).state == (State::Listening { last_pen: None }),
        final(d).ink_dirty.hollow(),
        final(d).pending_reply.hollow(),
        final(d).stab is None && final(d).bleed is None && final(d).eraser_at is None,
        final(d).pen_down == old(d).pen_down,
        final(d).turn == old(d).turn,
        acts@.len() == 7,
        acts@[0] == (Action::FillAll { shade: Shade::Black }),
        acts@[1] == (Action::Update { x: 0, y: 0, w, h, fast: true }),
        acts@[2] is Pause,
        acts@[3] is ForgetAll,
        acts@[4] == (Action::FillAll { shade: Shade::White }),
        acts@[5] is FullRefresh,
        acts@[6] is ClearInk,
{
}

/// The bleed that wells up is kept as it is, and nothing else changes.
pub proof fn welling_ink_is_kept(d: &mut Diary, b: Bleed)
    requires
        call_ensures(Diary::well_up, (d, b), ()),
    ensures
        final(d).bleed == Some(b),
        *final(d) == (Diary { bleed: final(d).bleed, ..*old(d) }),
{
}

} // verus!
