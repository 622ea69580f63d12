//! Monotonic time values and the clock collaborator.
//!
//! Time is measured as whole microseconds in a `u64`. [`Duration`] is a span,
//! [`Instant`] a point on the monotonic clock supplied by a [`Timer`]
//! implementation outside the engine.

use vstd::prelude::*;

use crate::behavior::DefaultBehavior;
use crate::key::Key;

verus! {

/// A span of time in whole microseconds.
#[derive(Clone, Copy, Debug, PartialEq, Eq, Structural)]
pub struct Duration {
    microseconds: u64,
}

impl Duration {
    /// The number of microseconds this span covers.
    pub closed spec fn spec_micros(self) -> u64 {
        self.microseconds
    }

    /// A span of `micros` microseconds.
    pub fn new(micros: u64) -> (r: Self)
        ensures
            r.spec_micros() == micros,
    {
        Self { microseconds: micros }
    }

    /// A span of `micros` microseconds.
    pub fn from_micros(micros: u64) -> (r: Self)
        ensures
            r.spec_micros() == micros,
    {
        Self { microseconds: micros }
    }

    /// A span of `millis` milliseconds.
    pub fn from_millis(millis: u64) -> (r: Self)
        requires
            millis * 1000 <= u64::MAX,
        ensures
            r.spec_micros() == millis * 1000,
    {
        Self { microseconds: millis * 1000 }
    }

    /// A span of `secs` seconds.
    pub fn from_secs(secs: u64) -> (r: Self)
        requires
            secs * 1_000_000 <= u64::MAX,
        ensures
            r.spec_micros() == secs * 1_000_000,
    {
        Self { microseconds: secs * 1_000_000 }
    }

    /// The span in microseconds.
    pub fn micros(&self) -> (r: u64)
        ensures
            r == self.spec_micros(),
    {
        self.microseconds
    }

    /// The span in whole milliseconds, rounded down.
    pub fn millis(&self) -> (r: u64)
        ensures
            r == self.spec_micros() / 1000,
    {
        self.microseconds / 1000
    }

    /// The span in whole seconds, rounded down.
    pub fn secs(&self) -> (r: u64)
        ensures
            r == self.spec_micros() / 1_000_000,
    {
        self.microseconds / 1_000_000
    }
}

/// A point in time, in whole microseconds since the clock's origin.
#[derive(Clone, Copy, Debug, PartialEq, Eq, Structural)]
pub struct Instant {
    microseconds: u64,
}

impl Instant {
    /// The number of microseconds since the clock's origin.
    pub closed spec fn spec_micros(self) -> u64 {
        self.microseconds
    }

    /// The instant `micros` microseconds after the origin.
    pub fn from_micros(micros: u64) -> (r: Self)
        ensures
            r.spec_micros() == micros,
    {
        Self { microseconds: micros }
    }

    /// The instant `millis` milliseconds after the origin.
    pub fn from_millis(millis: u64) -> (r: Self)
        requires
            millis * 1000 <= u64::MAX,
        ensures
            r.spec_micros() == millis * 1000,
    {
        Self { microseconds: millis * 1000 }
    }

    /// The instant `secs` seconds after the origin.
    pub fn from_secs(secs: u64) -> (r: Self)
        requires
            secs * 1_000_000 <= u64::MAX,
        ensures
            r.spec_micros() == secs * 1_000_000,
    {
        Self { microseconds: secs * 1_000_000 }
    }

    /// Microseconds since the origin.
    pub fn micros(&self) -> (r: u64)
        ensures
            r == self.spec_micros(),
    {
        self.microseconds
    }

    /// Whole milliseconds since the origin, rounded down.
    pub fn millis(&self) -> (r: u64)
        ensures
            r == self.spec_micros() / 1000,
    {
        self.microseconds / 1000
    }

    /// Whole seconds since the origin, rounded down.
    pub fn secs(&self) -> (r: u64)
        ensures
            r == self.spec_micros() / 1_000_000,
    {
        self.microseconds / 1_000_000
    }

    /// This instant moved forward by `duration`, clamped to the largest
    /// representable instant when the sum does not fit in 64 bits.
    pub fn saturating_add_duration(self, duration: Duration) -> (r: Self)
        ensures
            r.spec_micros() == if self.spec_micros() + duration.spec_micros() <= u64::MAX {
                self.spec_micros() + duration.spec_micros()
            } else {
                u64::MAX as int
            },
    {
        if self.microseconds <= u64::MAX - duration.microseconds {
            Self { microseconds: self.microseconds + duration.microseconds }
        } else {
            Self { microseconds: u64::MAX }
        }
    }
}

/// The clock collaborator. The engine never reads hardware time itself; the
/// host supplies an implementation. The host's clock is expected to be
/// monotonic, but nothing the engine proves depends on it: every engine
/// contract holds for arbitrary readings.
pub trait Timer {
    /// Microseconds elapsed since the clock's origin.
    fn microseconds(&self) -> u64;

    /// Block for `duration`. Used only by scan algorithms for debouncing.
    fn wait(&self, duration: Duration);
}

/// A pending hold/tap decision: when the deadline passes, `after_delay` fires
/// on the carried behavior copy.
#[derive(Clone, Copy, Debug)]
pub struct BehaviorTimeoutEvent {
    pub behavior: DefaultBehavior,
    pub instant: Instant,
}

/// A scheduled release of a behavior that was tapped: when the deadline
/// passes, a behavior-release event for the carried copy is enqueued.
#[derive(Clone, Copy, Debug)]
pub struct UntapBehaviorEvent {
    pub behavior: DefaultBehavior,
    pub instant: Instant,
}

/// A scheduled release of a bare virtual key: when the deadline passes, a
/// key-up event is enqueued.
#[derive(Clone, Copy, Debug)]
pub struct UntapKeyEvent {
    pub key: Key,
    pub instant: Instant,
}

/// A trigger waiting in the timer queue.
#[derive(Clone, Copy, Debug)]
pub enum TimerEvent {
    Behavior(BehaviorTimeoutEvent),
    UntapKey(UntapKeyEvent),
    UntapBehavior(UntapBehaviorEvent),
}

impl TimerEvent {
    /// The deadline at which this trigger fires.
    pub open spec fn spec_instant(self) -> Instant {
        match self {
            TimerEvent::Behavior(e) => e.instant,
            TimerEvent::UntapKey(e) => e.instant,
            TimerEvent::UntapBehavior(e) => e.instant,
        }
    }

    /// The deadline at which this trigger fires.
    pub fn instant(&self) -> (r: Instant)
        ensures
            r == self.spec_instant(),
    {
        match self {
            TimerEvent::Behavior(e) => e.instant,
            TimerEvent::UntapKey(e) => e.instant,
            TimerEvent::UntapBehavior(e) => e.instant,
        }
    }
}

/// Capacity of the timer queue. As with the event queue, overflow is a
/// configuration bug.
pub const TIMER_QUEUE_LEN: usize = 100;

/// Triggers ordered by nondecreasing deadline.
pub open spec fn sorted_by_deadline(s: Seq<TimerEvent>) -> bool {
    forall|i: int, j: int|
        0 <= i <= j < s.len() ==> #[trigger] s[i].spec_instant().spec_micros()
            <= #[trigger] s[j].spec_instant().spec_micros()
}

/// The pending timer triggers, kept sorted ascending by deadline at all
/// times. Ties may sit in either order; insertion places a new trigger after
/// every trigger with the same deadline.
pub struct TimerQueue {
    items: Vec<TimerEvent>,
}

impl View for TimerQueue {
    type V = Seq<TimerEvent>;

    closed spec fn view(&self) -> Seq<TimerEvent> {
        self.items@
    }
}

impl TimerQueue {
    /// The queue is sorted ascending by deadline and within capacity.
    pub open spec fn wf(self) -> bool {
        &&& sorted_by_deadline(self@)
        &&& self@.len() <= TIMER_QUEUE_LEN
    }

    /// An empty timer queue.
    pub fn new() -> (r: Self)
        ensures
            r.wf(),
            r@ == Seq::<TimerEvent>::empty(),
    {
        Self { items: Vec::new() }
    }

    /// How many triggers are pending.
    pub fn len(&self) -> (n: usize)
        ensures
            n == self@.len(),
    {
        self.items.len()
    }

    /// Place `t` before the first pending trigger with a later deadline and
    /// after every trigger with an earlier or equal one. The queue stays
    /// sorted. Overflow is a configuration bug and is excluded by the
    /// precondition.
    pub fn insert(&mut self, t: TimerEvent)
        requires
            old(self).wf(),
            old(self)@.len() < TIMER_QUEUE_LEN,
        ensures
            final(self).wf(),
            exists|idx: int|
                {
                    &&& 0 <= idx <= old(self)@.len()
                    &&& final(self)@ == old(self)@.insert(idx, t)
                    &&& forall|k: int|
                        0 <= k < idx ==> #[trigger] old(self)@[k].spec_instant().spec_micros()
                            <= t.spec_instant().spec_micros()
                    &&& forall|k: int|
                        idx <= k < old(self)@.len()
                            ==> #[trigger] old(self)@[k].spec_instant().spec_micros()
                            > t.spec_instant().spec_micros()
                },
    {
        let deadline = t.instant().micros();
        let mut i: usize = 0;
        while i < self.items.len() && self.items[i].instant().micros() <= deadline
            invariant
                i <= self@.len(),
                forall|k: int|
                    0 <= k < i ==> #[trigger] self@[k].spec_instant().spec_micros()
                        <= deadline as int,
                *self == *old(self),
                deadline == t.spec_instant().spec_micros(),
            decreases self@.len() - i,
        {
            i += 1;
        }
        proof {
            let s = old(self)@;
            let idx = i as int;
            assert forall|k: int|
                idx <= k < s.len() implies #[trigger] s[k].spec_instant().spec_micros()
                > t.spec_instant().spec_micros() by {
                // The scan stopped at the first later deadline; sortedness
                // carries it to every later position.
                assert(s[idx].spec_instant().spec_micros() <= s[k].spec_instant().spec_micros());
            }
        }
        self.items.insert(i, t);
        proof {
            let s = old(self)@;
            let idx = i as int;
            s.insert_ensures(idx, t);
            assert forall|a: int, b: int|
                0 <= a <= b < self@.len() implies #[trigger] self@[a].spec_instant().spec_micros()
                <= #[trigger] self@[b].spec_instant().spec_micros() by {
                if a < idx && b == idx {
                    assert(self@[a] == s[a]);
                } else if a == idx && b > idx {
                    assert(self@[b] == s[b - 1]);
                } else if a < idx && b > idx {
                    assert(self@[a] == s[a] && self@[b] == s[b - 1]);
                } else if a > idx && b > idx {
                    assert(self@[a] == s[a - 1] && self@[b] == s[b - 1]);
                } else if a < idx && b < idx {
                    assert(self@[a] == s[a] && self@[b] == s[b]);
                }
            }
        }
    }

    /// The earliest pending trigger, if any, left in place.
    pub fn peek_front(&self) -> (r: Option<TimerEvent>)
        ensures
            self@.len() == 0 ==> r is None,
            self@.len() > 0 ==> r == Some(self@.first()),
    {
        if self.items.len() == 0 {
            None
        } else {
            Some(self.items[0])
        }
    }

    /// Remove and return the earliest pending trigger, if any.
    pub fn pop_front(&mut self) -> (r: Option<TimerEvent>)
        requires
            old(self).wf(),
        ensures
            final(self).wf(),
            old(self)@.len() == 0 ==> r is None && final(self)@ == old(self)@,
            old(self)@.len() > 0 ==> r == Some(old(self)@.first()) && final(self)@ == old(
                self,
            )@.drop_first(),
    {
        if self.items.len() == 0 {
            None
        } else {
            let t = self.items.remove(0);
            proof {
                assert(self@ =~= old(self)@.drop_first());
            }
            Some(t)
        }
    }
}

} // verus!
