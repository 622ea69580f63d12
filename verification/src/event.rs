//! Events produced by behaviors and consumed by the state manager.

use vstd::prelude::*;

use crate::behavior::DefaultBehavior;
use crate::key::Key;

verus! {

/// Capacity of the bounded event vector a behavior callback returns.
pub const EVEC_LEN: usize = 5;

/// A press or release of a virtual key, as seen by the virtual keyboard.
#[derive(Clone, Copy, Debug, PartialEq, Eq, Structural)]
pub enum KeyEvent {
    KeyDown(Key),
    KeyUp(Key),
}

impl KeyEvent {
    /// The key this event is about.
    pub open spec fn key(self) -> Key {
        match self {
            KeyEvent::KeyDown(k) => k,
            KeyEvent::KeyUp(k) => k,
        }
    }

    /// Whether this event is a press.
    pub open spec fn is_press(self) -> bool {
        self matches KeyEvent::KeyDown(_)
    }
}

/// A change of the layer stack requested by a behavior.
#[derive(Clone, Copy, Debug, PartialEq, Eq, Structural)]
pub enum LayerEvent {
    /// Push the overlay with this layer id.
    AddLayer(usize),
    /// Pop overlays until the one with this layer id has been popped.
    RemoveDownToLayer(usize),
}

/// A press or release edge of a physical key, carrying the behavior instance
/// the key activated.
#[derive(Clone, Copy, Debug, PartialEq, Eq, Structural)]
pub struct BehaviorKeyEvent {
    pub behavior: DefaultBehavior,
    pub is_press: bool,
}

/// Work the state manager performs itself rather than forwarding.
#[derive(Clone, Copy, Debug, PartialEq, Eq, Structural)]
pub enum SpecialEvent {
    /// Synthesise a full press/release pair of the given behavior: press it
    /// now and schedule its release one tap interval later.
    TapBehavior(DefaultBehavior),
}

/// One entry of the event queue.
#[derive(Clone, Copy, Debug, PartialEq, Eq, Structural)]
pub enum Event {
    /// Padding slot; applying it does nothing.
    Noop,
    KeyEvent(KeyEvent),
    LayerEvent(LayerEvent),
    BehaviorKeyEvent(BehaviorKeyEvent),
    SpecialEvent(SpecialEvent),
}

impl Event {
    /// A virtual-key press event.
    pub fn key_down(key: Key) -> (r: Self)
        ensures
            r == Event::KeyEvent(KeyEvent::KeyDown(key)),
    {
        Event::KeyEvent(KeyEvent::KeyDown(key))
    }

    /// A virtual-key release event.
    pub fn key_up(key: Key) -> (r: Self)
        ensures
            r == Event::KeyEvent(KeyEvent::KeyUp(key)),
    {
        Event::KeyEvent(KeyEvent::KeyUp(key))
    }

    /// A behavior-press event for `behavior`.
    pub fn bkey_down(behavior: DefaultBehavior) -> (r: Self)
        ensures
            r == Event::BehaviorKeyEvent(BehaviorKeyEvent { behavior, is_press: true }),
    {
        Event::BehaviorKeyEvent(BehaviorKeyEvent { behavior, is_press: true })
    }

    /// A behavior-release event for `behavior`.
    pub fn bkey_up(behavior: DefaultBehavior) -> (r: Self)
        ensures
            r == Event::BehaviorKeyEvent(BehaviorKeyEvent { behavior, is_press: false }),
    {
        Event::BehaviorKeyEvent(BehaviorKeyEvent { behavior, is_press: false })
    }

    /// A synthesised tap of `behavior`.
    pub fn special_tap(behavior: DefaultBehavior) -> (r: Self)
        ensures
            r == Event::SpecialEvent(SpecialEvent::TapBehavior(behavior)),
    {
        Event::SpecialEvent(SpecialEvent::TapBehavior(behavior))
    }
}

/// A bounded vector of events, the return value of every behavior callback.
/// Capacity is [`EVEC_LEN`]; behaviors never emit more events at once.
#[derive(Debug)]
pub struct EVec {
    items: Vec<Event>,
}

impl View for EVec {
    type V = Seq<Event>;

    closed spec fn view(&self) -> Seq<Event> {
        self.items@
    }
}

impl EVec {
    /// The vector never outgrows its capacity.
    pub open spec fn wf(self) -> bool {
        self@.len() <= EVEC_LEN
    }

    /// An empty event vector.
    pub fn new() -> (r: Self)
        ensures
            r@ == Seq::<Event>::empty(),
            r.wf(),
    {
        Self { items: Vec::new() }
    }

    /// How many events are queued.
    pub fn len(&self) -> (n: usize)
        ensures
            n == self@.len(),
    {
        self.items.len()
    }

    /// Append an event. Capacity overflow is a programmer error and is
    /// excluded by the precondition.
    pub fn push_back(&mut self, event: Event)
        requires
            old(self)@.len() < EVEC_LEN,
        ensures
            final(self)@ == old(self)@.push(event),
    {
        self.items.push(event);
    }

    /// Remove and return the most recently appended event.
    pub fn pop_back(&mut self) -> (r: Option<Event>)
        ensures
            old(self)@.len() == 0 ==> r is None && final(self)@ == old(self)@,
            old(self)@.len() > 0 ==> r == Some(old(self)@.last()) && final(self)@ == old(
                self,
            )@.drop_last(),
    {
        self.items.pop()
    }

    /// The event at position `index`.
    pub fn get(&self, index: usize) -> (e: Event)
        requires
            index < self@.len(),
        ensures
            e == self@[index as int],
    {
        self.items[index]
    }
}

impl PartialEq for EVec {
    /// Two event vectors are equal when they hold the same events in the same
    /// order.
    fn eq(&self, other: &Self) -> (r: bool) {
        if self.items.len() != other.items.len() {
            return false;
        }
        let mut i: usize = 0;
        while i < self.items.len()
            invariant
                i <= self@.len(),
                self@.len() == other@.len(),
                forall|j: int| 0 <= j < i ==> self@[j] == other@[j],
            decreases self@.len() - i,
        {
            if self.items[i] != other.items[i] {
                return false;
            }
            i += 1;
        }
        proof {
            assert(self@ =~= other@);
        }
        true
    }
}

impl vstd::std_specs::cmp::PartialEqSpecImpl for EVec {
    open spec fn obeys_eq_spec() -> bool {
        true
    }

    open spec fn eq_spec(&self, other: &EVec) -> bool {
        self@ == other@
    }
}

} // verus!
