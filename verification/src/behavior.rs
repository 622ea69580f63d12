//! Per-key behaviors: the state machines that translate key edges and timer
//! ticks into events.
//!
//! The universe of behaviors is closed and tagged: dispatch goes through the
//! enums [`NoArgBehavior`] (the *simple* subset, legal as a hold/tap argument)
//! and [`DefaultBehavior`] (the full set), never through pointer indirection,
//! so behaviors stay plain copyable data.

use vstd::prelude::*;

use crate::event::{BehaviorKeyEvent, EVec, Event, KeyEvent, LayerEvent, SpecialEvent};
use crate::key::Key;
use crate::timer::Duration;

verus! {

/// Context handed to every behavior callback. Behaviors communicate solely by
/// returning events, so no state is carried here yet.
pub struct KeyState {}

/// A function-like object attached to a physical key. Each implementation
/// gives its entire observable behavior as spec functions, and the executable
/// callbacks are proved to follow them.
pub trait Behavior: Sized {
    /// Events emitted when the source key goes from unpressed to pressed.
    /// Pressing never mutates a behavior.
    spec fn press_events(self) -> Seq<Event>;

    /// Whether `on_release` may be invoked in the current state. Releasing a
    /// hold/tap that already decided for tap is a programmer error.
    spec fn release_allowed(self) -> bool;

    /// Events emitted when the source key goes from pressed to unpressed.
    spec fn release_events(self) -> Seq<Event>;

    /// The behavior's state after `on_release`.
    spec fn after_release(self) -> Self;

    /// The delay after which `after_delay` should be invoked, if any.
    spec fn delay(self) -> Option<Duration>;

    /// Events emitted when the armed timer fires.
    spec fn timeout_events(self) -> Seq<Event>;

    /// The behavior's state after `after_delay`.
    spec fn after_timeout(self) -> Self;

    /// React to the source key being pressed.
    fn on_press(&mut self, ks: &KeyState) -> (r: EVec)
        ensures
            *final(self) == *old(self),
            r@ == old(self).press_events(),
            r.wf(),
    ;

    /// React to the source key being released.
    fn on_release(&mut self, ks: &KeyState) -> (r: EVec)
        requires
            old(self).release_allowed(),
        ensures
            *final(self) == old(self).after_release(),
            r@ == old(self).release_events(),
            r.wf(),
    ;

    /// The one-shot delay to arm when the source key is pressed, if any.
    fn try_get_delay(&self) -> (r: Option<Duration>)
        ensures
            r == self.delay(),
    ;

    /// React to the armed timer firing.
    fn after_delay(&mut self, ks: &KeyState) -> (r: EVec)
        ensures
            *final(self) == old(self).after_timeout(),
            r@ == old(self).timeout_events(),
            r.wf(),
    ;
}

/// Emit one virtual-key press on key down and the matching release on key up.
#[derive(Clone, Copy, Debug, PartialEq, Eq, Structural)]
pub struct KeyPress {
    pub key: Key,
}

impl KeyPress {
    /// A key-press behavior for `key`.
    pub fn new(key: Key) -> (r: Self)
        ensures
            r == (KeyPress { key }),
    {
        Self { key }
    }
}

impl Behavior for KeyPress {
    open spec fn press_events(self) -> Seq<Event> {
        seq![Event::KeyEvent(KeyEvent::KeyDown(self.key))]
    }

    open spec fn release_allowed(self) -> bool {
        true
    }

    open spec fn release_events(self) -> Seq<Event> {
        seq![Event::KeyEvent(KeyEvent::KeyUp(self.key))]
    }

    open spec fn after_release(self) -> Self {
        self
    }

    open spec fn delay(self) -> Option<Duration> {
        None
    }

    open spec fn timeout_events(self) -> Seq<Event> {
        Seq::empty()
    }

    open spec fn after_timeout(self) -> Self {
        self
    }

    fn on_press(&mut self, _ks: &KeyState) -> (r: EVec) {
        let mut r = EVec::new();
        r.push_back(Event::key_down(self.key));
        proof {
            assert(r@ =~= self.press_events());
        }
        r
    }

    fn on_release(&mut self, _ks: &KeyState) -> (r: EVec) {
        let mut r = EVec::new();
        r.push_back(Event::key_up(self.key));
        proof {
            assert(r@ =~= self.release_events());
        }
        r
    }

    fn try_get_delay(&self) -> (r: Option<Duration>) {
        None
    }

    fn after_delay(&mut self, _ks: &KeyState) -> (r: EVec) {
        let r = EVec::new();
        proof {
            assert(r@ =~= self.timeout_events());
        }
        r
    }
}

/// Push an overlay layer while the source key is held and pop back down to it
/// on release.
#[derive(Clone, Copy, Debug, PartialEq, Eq, Structural)]
pub struct MomentaryLayer {
    pub layer: usize,
}

impl MomentaryLayer {
    /// A momentary-layer behavior for the overlay with id `layer`.
    pub fn new(layer: usize) -> (r: Self)
        ensures
            r == (MomentaryLayer { layer }),
    {
        Self { layer }
    }
}

impl Behavior for MomentaryLayer {
    open spec fn press_events(self) -> Seq<Event> {
        seq![Event::LayerEvent(LayerEvent::AddLayer(self.layer))]
    }

    open spec fn release_allowed(self) -> bool {
        true
    }

    open spec fn release_events(self) -> Seq<Event> {
        seq![Event::LayerEvent(LayerEvent::RemoveDownToLayer(self.layer))]
    }

    open spec fn after_release(self) -> Self {
        self
    }

    open spec fn delay(self) -> Option<Duration> {
        None
    }

    open spec fn timeout_events(self) -> Seq<Event> {
        Seq::empty()
    }

    open spec fn after_timeout(self) -> Self {
        self
    }

    fn on_press(&mut self, _ks: &KeyState) -> (r: EVec) {
        let mut r = EVec::new();
        r.push_back(Event::LayerEvent(LayerEvent::AddLayer(self.layer)));
        proof {
            assert(r@ =~= self.press_events());
        }
        r
    }

    fn on_release(&mut self, _ks: &KeyState) -> (r: EVec) {
        let mut r = EVec::new();
        r.push_back(Event::LayerEvent(LayerEvent::RemoveDownToLayer(self.layer)));
        proof {
            assert(r@ =~= self.release_events());
        }
        r
    }

    fn try_get_delay(&self) -> (r: Option<Duration>) {
        None
    }

    fn after_delay(&mut self, _ks: &KeyState) -> (r: EVec) {
        let r = EVec::new();
        proof {
            assert(r@ =~= self.timeout_events());
        }
        r
    }
}

impl NoArgBehavior {
    /// Whether every layer id this behavior names exists in a configuration
    /// of `num_layers` layers.
    pub open spec fn layers_ok(self, num_layers: int) -> bool {
        match self {
            NoArgBehavior::MomentaryLayer(m) => (m.layer as int) < num_layers,
            _ => true,
        }
    }
}

/// A *simple* behavior: one that embeds no other behavior. Only these are
/// legal as the hold or tap argument of [`HoldTap`], which rules out nesting
/// at the type level.
#[derive(Clone, Copy, Debug, PartialEq, Eq, Structural)]
pub enum NoArgBehavior {
    KeyPress(KeyPress),
    MomentaryLayer(MomentaryLayer),
    /// Emits nothing; a dead key.
    NoOp,
    /// Emits nothing; inside a layer it defers resolution to the layer below.
    Transparent,
}

impl Behavior for NoArgBehavior {
    open spec fn press_events(self) -> Seq<Event> {
        match self {
            NoArgBehavior::KeyPress(b) => b.press_events(),
            NoArgBehavior::MomentaryLayer(b) => b.press_events(),
            NoArgBehavior::NoOp => Seq::empty(),
            NoArgBehavior::Transparent => Seq::empty(),
        }
    }

    open spec fn release_allowed(self) -> bool {
        true
    }

    open spec fn release_events(self) -> Seq<Event> {
        match self {
            NoArgBehavior::KeyPress(b) => b.release_events(),
            NoArgBehavior::MomentaryLayer(b) => b.release_events(),
            NoArgBehavior::NoOp => Seq::empty(),
            NoArgBehavior::Transparent => Seq::empty(),
        }
    }

    open spec fn after_release(self) -> Self {
        self
    }

    open spec fn delay(self) -> Option<Duration> {
        None
    }

    open spec fn timeout_events(self) -> Seq<Event> {
        Seq::empty()
    }

    open spec fn after_timeout(self) -> Self {
        self
    }

    fn on_press(&mut self, ks: &KeyState) -> (r: EVec) {
        match self {
            NoArgBehavior::KeyPress(b) => b.on_press(ks),
            NoArgBehavior::MomentaryLayer(b) => b.on_press(ks),
            NoArgBehavior::NoOp => EVec::new(),
            NoArgBehavior::Transparent => EVec::new(),
        }
    }

    fn on_release(&mut self, ks: &KeyState) -> (r: EVec) {
        match self {
            NoArgBehavior::KeyPress(b) => b.on_release(ks),
            NoArgBehavior::MomentaryLayer(b) => b.on_release(ks),
            NoArgBehavior::NoOp => EVec::new(),
            NoArgBehavior::Transparent => EVec::new(),
        }
    }

    fn try_get_delay(&self) -> (r: Option<Duration>) {
        None
    }

    fn after_delay(&mut self, ks: &KeyState) -> (r: EVec) {
        match self {
            NoArgBehavior::KeyPress(b) => b.after_delay(ks),
            NoArgBehavior::MomentaryLayer(b) => b.after_delay(ks),
            NoArgBehavior::NoOp => EVec::new(),
            NoArgBehavior::Transparent => EVec::new(),
        }
    }
}

/// The delayed-decision state machine: decide between a *hold* behavior and a
/// *tap* behavior depending on whether the source key is released before the
/// timeout expires.
///
/// With `hold_while_undecided` the hold behavior is applied optimistically at
/// press time and retracted if the key turns out to be a tap; otherwise the
/// decision is deferred until the timeout or the release, whichever comes
/// first.
#[derive(Clone, Copy, Debug, PartialEq, Eq, Structural)]
pub struct HoldTap {
    pub decided_hold: bool,
    pub decided_tap: bool,
    pub hold: NoArgBehavior,
    pub tap: NoArgBehavior,
    pub hold_while_undecided: bool,
    pub duration: Duration,
}

impl HoldTap {
    /// A fresh, undecided hold/tap behavior.
    pub fn new(hold: NoArgBehavior, tap: NoArgBehavior, duration: Duration,
        hold_while_undecided: bool) -> (r: Self)
        ensures
            r == (HoldTap {
                decided_hold: false,
                decided_tap: false,
                hold,
                tap,
                hold_while_undecided,
                duration,
            }),
    {
        Self { decided_hold: false, decided_tap: false, hold, tap, hold_while_undecided, duration }
    }
}

impl Behavior for HoldTap {
    open spec fn press_events(self) -> Seq<Event> {
        if self.hold_while_undecided {
            seq![Event::BehaviorKeyEvent(BehaviorKeyEvent {
                behavior: DefaultBehavior::NoArg(self.hold),
                is_press: true,
            })]
        } else {
            Seq::empty()
        }
    }

    open spec fn release_allowed(self) -> bool {
        !self.decided_tap
    }

    open spec fn release_events(self) -> Seq<Event> {
        if self.decided_hold {
            seq![Event::BehaviorKeyEvent(BehaviorKeyEvent {
                behavior: DefaultBehavior::NoArg(self.hold),
                is_press: false,
            })]
        } else if self.hold_while_undecided {
            seq![
                Event::BehaviorKeyEvent(BehaviorKeyEvent {
                    behavior: DefaultBehavior::NoArg(self.hold),
                    is_press: false,
                }),
                Event::SpecialEvent(SpecialEvent::TapBehavior(DefaultBehavior::NoArg(self.tap))),
            ]
        } else {
            seq![Event::SpecialEvent(SpecialEvent::TapBehavior(DefaultBehavior::NoArg(self.tap)))]
        }
    }

    open spec fn after_release(self) -> Self {
        if self.decided_hold {
            self
        } else {
            HoldTap { decided_tap: true, ..self }
        }
    }

    open spec fn delay(self) -> Option<Duration> {
        Some(self.duration)
    }

    open spec fn timeout_events(self) -> Seq<Event> {
        if self.decided_hold || self.decided_tap || self.hold_while_undecided {
            Seq::empty()
        } else {
            seq![Event::BehaviorKeyEvent(BehaviorKeyEvent {
                behavior: DefaultBehavior::NoArg(self.hold),
                is_press: true,
            })]
        }
    }

    open spec fn after_timeout(self) -> Self {
        if self.decided_hold || self.decided_tap {
            self
        } else {
            HoldTap { decided_hold: true, ..self }
        }
    }

    fn on_press(&mut self, _ks: &KeyState) -> (r: EVec) {
        let mut r = EVec::new();
        if self.hold_while_undecided {
            r.push_back(Event::bkey_down(DefaultBehavior::NoArg(self.hold)));
        }
        proof {
            assert(r@ =~= self.press_events());
        }
        r
    }

    fn on_release(&mut self, _ks: &KeyState) -> (r: EVec) {
        let mut r = EVec::new();
        if self.decided_hold {
            // The delay expired and the hold behavior was applied; retract it.
            r.push_back(Event::bkey_up(DefaultBehavior::NoArg(self.hold)));
        } else {
            // Released before the timeout: this was a tap.
            self.decided_tap = true;
            if self.hold_while_undecided {
                // The hold was applied optimistically; retract it, then tap.
                r.push_back(Event::bkey_up(DefaultBehavior::NoArg(self.hold)));
            }
            r.push_back(Event::special_tap(DefaultBehavior::NoArg(self.tap)));
        }
        proof {
            assert(r@ =~= old(self).release_events());
        }
        r
    }

    fn try_get_delay(&self) -> (r: Option<Duration>) {
        Some(self.duration)
    }

    fn after_delay(&mut self, _ks: &KeyState) -> (r: EVec) {
        let mut r = EVec::new();
        if self.decided_hold || self.decided_tap {
            // Already decided; the stale trigger is a safe no-op.
        } else {
            self.decided_hold = true;
            if !self.hold_while_undecided {
                r.push_back(Event::bkey_down(DefaultBehavior::NoArg(self.hold)));
            }
        }
        proof {
            assert(r@ =~= old(self).timeout_events());
        }
        r
    }
}

/// The full behavior universe: the simple behaviors plus the compound
/// hold/tap.
#[derive(Clone, Copy, Debug, PartialEq, Eq, Structural)]
pub enum DefaultBehavior {
    NoArg(NoArgBehavior),
    HoldTap(HoldTap),
}

impl DefaultBehavior {
    /// Whether every layer id this behavior names exists in a configuration
    /// of `num_layers` layers.
    pub open spec fn layers_ok(self, num_layers: int) -> bool {
        match self {
            DefaultBehavior::NoArg(n) => n.layers_ok(num_layers),
            DefaultBehavior::HoldTap(h) => h.hold.layers_ok(num_layers) && h.tap.layers_ok(
                num_layers,
            ),
        }
    }

    /// Whether this is the fall-through layer entry.
    pub open spec fn spec_is_transparent(self) -> bool {
        self == DefaultBehavior::NoArg(NoArgBehavior::Transparent)
    }

    /// Whether this is the fall-through layer entry.
    pub fn is_transparent(&self) -> (r: bool)
        ensures
            r == self.spec_is_transparent(),
    {
        match self {
            DefaultBehavior::NoArg(NoArgBehavior::Transparent) => true,
            _ => false,
        }
    }
}

impl Behavior for DefaultBehavior {
    open spec fn press_events(self) -> Seq<Event> {
        match self {
            DefaultBehavior::NoArg(b) => b.press_events(),
            DefaultBehavior::HoldTap(b) => b.press_events(),
        }
    }

    open spec fn release_allowed(self) -> bool {
        match self {
            DefaultBehavior::NoArg(b) => b.release_allowed(),
            DefaultBehavior::HoldTap(b) => b.release_allowed(),
        }
    }

    open spec fn release_events(self) -> Seq<Event> {
        match self {
            DefaultBehavior::NoArg(b) => b.release_events(),
            DefaultBehavior::HoldTap(b) => b.release_events(),
        }
    }

    open spec fn after_release(self) -> Self {
        match self {
            DefaultBehavior::NoArg(b) => DefaultBehavior::NoArg(b.after_release()),
            DefaultBehavior::HoldTap(b) => DefaultBehavior::HoldTap(b.after_release()),
        }
    }

    open spec fn delay(self) -> Option<Duration> {
        match self {
            DefaultBehavior::NoArg(b) => b.delay(),
            DefaultBehavior::HoldTap(b) => b.delay(),
        }
    }

    open spec fn timeout_events(self) -> Seq<Event> {
        match self {
            DefaultBehavior::NoArg(b) => b.timeout_events(),
            DefaultBehavior::HoldTap(b) => b.timeout_events(),
        }
    }

    open spec fn after_timeout(self) -> Self {
        match self {
            DefaultBehavior::NoArg(b) => DefaultBehavior::NoArg(b.after_timeout()),
            DefaultBehavior::HoldTap(b) => DefaultBehavior::HoldTap(b.after_timeout()),
        }
    }

    fn on_press(&mut self, ks: &KeyState) -> (r: EVec) {
        match self {
            DefaultBehavior::NoArg(b) => b.on_press(ks),
            DefaultBehavior::HoldTap(b) => b.on_press(ks),
        }
    }

    fn on_release(&mut self, ks: &KeyState) -> (r: EVec) {
        match self {
            DefaultBehavior::NoArg(b) => b.on_release(ks),
            DefaultBehavior::HoldTap(b) => b.on_release(ks),
        }
    }

    fn try_get_delay(&self) -> (r: Option<Duration>) {
        match self {
            DefaultBehavior::NoArg(b) => b.try_get_delay(),
            DefaultBehavior::HoldTap(b) => b.try_get_delay(),
        }
    }

    fn after_delay(&mut self, ks: &KeyState) -> (r: EVec) {
        match self {
            DefaultBehavior::NoArg(b) => b.after_delay(ks),
            DefaultBehavior::HoldTap(b) => b.after_delay(ks),
        }
    }
}

/// A key-press behavior is stateless: no callback changes it, so repeated
/// presses and releases emit identical event sets.
pub proof fn lemma_key_press_stateless(kp: KeyPress)
    ensures
        kp.after_release() == kp,
        kp.after_timeout() == kp,
        kp.after_release().press_events() == kp.press_events(),
        kp.after_release().release_events() == kp.release_events(),
{
}

/// The dead key and the transparent cell emit nothing, on press and on
/// release alike.
pub proof fn lemma_noop_transparent_silent()
    ensures
        NoArgBehavior::NoOp.press_events() == Seq::<Event>::empty(),
        NoArgBehavior::NoOp.release_events() == Seq::<Event>::empty(),
        NoArgBehavior::Transparent.press_events() == Seq::<Event>::empty(),
        NoArgBehavior::Transparent.release_events() == Seq::<Event>::empty(),
{
}

impl From<KeyPress> for NoArgBehavior {
    /// Wrap a key press as a simple behavior.
    fn from(b: KeyPress) -> (r: NoArgBehavior) {
        NoArgBehavior::KeyPress(b)
    }
}

impl vstd::std_specs::convert::FromSpecImpl<KeyPress> for NoArgBehavior {
    open spec fn obeys_from_spec() -> bool {
        true
    }

    open spec fn from_spec(b: KeyPress) -> NoArgBehavior {
        NoArgBehavior::KeyPress(b)
    }
}

impl From<MomentaryLayer> for NoArgBehavior {
    /// Wrap a momentary layer as a simple behavior.
    fn from(b: MomentaryLayer) -> (r: NoArgBehavior) {
        NoArgBehavior::MomentaryLayer(b)
    }
}

impl vstd::std_specs::convert::FromSpecImpl<MomentaryLayer> for NoArgBehavior {
    open spec fn obeys_from_spec() -> bool {
        true
    }

    open spec fn from_spec(b: MomentaryLayer) -> NoArgBehavior {
        NoArgBehavior::MomentaryLayer(b)
    }
}

impl From<NoArgBehavior> for DefaultBehavior {
    /// Every simple behavior is a behavior.
    fn from(b: NoArgBehavior) -> (r: DefaultBehavior) {
        DefaultBehavior::NoArg(b)
    }
}

impl vstd::std_specs::convert::FromSpecImpl<NoArgBehavior> for DefaultBehavior {
    open spec fn obeys_from_spec() -> bool {
        true
    }

    open spec fn from_spec(b: NoArgBehavior) -> DefaultBehavior {
        DefaultBehavior::NoArg(b)
    }
}

impl From<KeyPress> for DefaultBehavior {
    /// Wrap a key press as a behavior.
    fn from(b: KeyPress) -> (r: DefaultBehavior) {
        DefaultBehavior::NoArg(NoArgBehavior::KeyPress(b))
    }
}

impl vstd::std_specs::convert::FromSpecImpl<KeyPress> for DefaultBehavior {
    open spec fn obeys_from_spec() -> bool {
        true
    }

    open spec fn from_spec(b: KeyPress) -> DefaultBehavior {
        DefaultBehavior::NoArg(NoArgBehavior::KeyPress(b))
    }
}

impl From<MomentaryLayer> for DefaultBehavior {
    /// Wrap a momentary layer as a behavior.
    fn from(b: MomentaryLayer) -> (r: DefaultBehavior) {
        DefaultBehavior::NoArg(NoArgBehavior::MomentaryLayer(b))
    }
}

impl vstd::std_specs::convert::FromSpecImpl<MomentaryLayer> for DefaultBehavior {
    open spec fn obeys_from_spec() -> bool {
        true
    }

    open spec fn from_spec(b: MomentaryLayer) -> DefaultBehavior {
        DefaultBehavior::NoArg(NoArgBehavior::MomentaryLayer(b))
    }
}

impl From<HoldTap> for DefaultBehavior {
    /// Wrap a hold/tap as a behavior.
    fn from(b: HoldTap) -> (r: DefaultBehavior) {
        DefaultBehavior::HoldTap(b)
    }
}

impl vstd::std_specs::convert::FromSpecImpl<HoldTap> for DefaultBehavior {
    open spec fn obeys_from_spec() -> bool {
        true
    }

    open spec fn from_spec(b: HoldTap) -> DefaultBehavior {
        DefaultBehavior::HoldTap(b)
    }
}

} // verus!
