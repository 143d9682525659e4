//! The power button: when it counts, and how long to insist that the tablet sleeps.
use crate::diary::{elapsed, since, Diary, LATEST};
use vstd::prelude::*;

verus! {

/// After waking, presses of the button are ignored for this long.
pub const GRACE: u64 = 3000;

/// How long one attempt to sleep is given.
pub const ATTEMPT: u64 = 6000;

/// Attempts before the page is woken again.
pub const ATTEMPTS: u32 = 8;

impl Diary {
    /// Does a press of the power button send the diary to sleep?
    pub fn power_pressed(&self, pressed: bool, now: u64) -> (sleeps: bool)
        ensures
            sleeps == (pressed && now >= self.power_grace),
    {
        pressed && now >= self.power_grace
    }

    /// The diary has woken: the press that woke it must not send it back to sleep.
    pub fn woken(&mut self, now: u64)
        requires
            old(self).wf(),
            now <= LATEST,
        ensures
            final(self).wf(),
            *final(self) == (Diary { power_grace: (now + GRACE) as u64, ..*old(self) }),
    {
        self.power_grace = now + GRACE;
    }
}

/// A press that comes with waking does nothing, up to the end of the grace.
pub proof fn waking_press_is_ignored(d: Diary, woke: u64, now: u64)
    requires
        woke <= LATEST,
        woke <= now < woke + GRACE,
    ensures
        !(now >= (Diary { power_grace: (woke + GRACE) as u64, ..d }).power_grace),
{
}

/// A struggle to get the tablet to sleep.
#[derive(Clone, Copy, Debug, PartialEq, Eq, Structural)]
pub struct Suspend {
    /// Sleeps that the system had counted when the struggle began.
    pub count0: u64,
    /// Attempts made.
    pub attempts: u32,
    /// When the last one was made.
    pub tried: u64,
}

/// What to do next to get the tablet to sleep.
#[derive(Clone, Copy, Debug, PartialEq, Eq, Structural)]
pub enum SuspendStep {
    /// Give the attempt a little longer.
    Wait,
    /// Try again.
    Retry,
    /// Wake the page after all.
    GiveUp,
}

impl Suspend {
    /// The struggle begins: the system has counted this many sleeps so far.
    pub fn begin(count: u64, now: u64) -> (s: Suspend)
        ensures
            s == (Suspend { count0: count, attempts: 0, tried: now }),
    {
        Suspend { count0: count, attempts: 0, tried: now }
    }

    /// An attempt has been made.
    pub fn attempted(&mut self, now: u64)
        requires
            old(self).attempts < ATTEMPTS,
        ensures
            *final(self) == (Suspend {
                attempts: (old(self).attempts + 1) as u32,
                tried: now,
                ..*old(self)
            }),
    {
        self.attempts = self.attempts + 1;
        self.tried = now;
    }

    /// Has the tablet slept, now that the system counts this many sleeps?
    pub fn slept(&self, count: u64) -> (b: bool)
        ensures
            b == (count > self.count0),
    {
        count > self.count0
    }

    /// What to do next, while the tablet has not slept.
    pub fn next(&self, now: u64) -> (step: SuspendStep)
        ensures
            step == if since(now, self.tried) < ATTEMPT {
                SuspendStep::Wait
            } else if self.attempts >= ATTEMPTS {
                SuspendStep::GiveUp
            } else {
                SuspendStep::Retry
            },
    {
        if elapsed(now, self.tried) < ATTEMPT {
            SuspendStep::Wait
        } else if self.attempts >= ATTEMPTS {
            SuspendStep::GiveUp
        } else {
            SuspendStep::Retry
        }
    }
}

/// After waking, a press of the button sends the diary to sleep again from three seconds on, and
/// no sooner; without a press it stays awake.
pub proof fn button_counts_after_the_grace(
    d: &mut Diary,
    woke: u64,
    pressed: bool,
    now: u64,
    sleeps: bool,
)
    requires
        call_ensures(Diary::woken, (d, woke), ()),
        woke <= LATEST,
        call_ensures(Diary::power_pressed, (&*final(d), pressed, now), sleeps),
    ensures
        sleeps <==> pressed && now - woke >= 3000,
        *final(d) == (Diary { power_grace: final(d).power_grace, ..*old(d) }),
{
}

/// Each attempt to sleep is given six seconds; then another is made, until there have been
/// eight, and then the page wakes.
pub proof fn sleep_is_tried_eight_times(s: &mut Suspend, tried: u64, now: u64, step: SuspendStep)
    requires
        call_ensures(Suspend::attempted, (s, tried), ()),
        old(s).attempts < 8,
        tried <= now,
        call_ensures(Suspend::next, (&*final(s), now), step),
    ensures
        final(s).attempts == old(s).attempts + 1,
        final(s).count0 == old(s).count0,
        step is Wait <==> now - tried < 6000,
        step is Retry <==> now - tried >= 6000 && old(s).attempts < 7,
        step is GiveUp <==> now - tried >= 6000 && old(s).attempts == 7,
{
}

/// The tablet has slept exactly when the system has counted a sleep since the struggle began.
pub proof fn a_counted_sleep_ends_the_struggle(
    count: u64,
    now: u64,
    s: Suspend,
    later: u64,
    slept: bool,
)
    requires
        call_ensures(Suspend::begin, (count, now), s),
        call_ensures(Suspend::slept, (&s, later), slept),
    ensures
        slept <==> later > count,
        s.attempts == 0,
        s.tried == now,
{
}

} // verus!
