use dmk::behavior::{DefaultBehavior, HoldTap, KeyPress, MomentaryLayer, NoArgBehavior};
use dmk::key::Key;
use dmk::layer::Layer;
use dmk::physical_layout::{HeldKeyCollection, PhysicalLayout, MAX_KEYS};
use dmk::state::{CapacityError, State};
use dmk::timer::{Duration, Timer};

struct TestLayout {
    count: usize,
    pressed: Vec<bool>,
}

impl TestLayout {
    fn new(count: usize) -> Self {
        Self { count, pressed: vec![false; count] }
    }
}

impl PhysicalLayout for TestLayout {
    fn keys(&self) -> usize {
        self.count
    }

    fn get_status(&self, key: usize) -> bool {
        self.pressed[key]
    }

    fn get_arr_copy(&self) -> Vec<bool> {
        let mut arr = self.pressed.clone();
        arr.resize(MAX_KEYS, false);
        arr
    }
}

struct TestTimer {
    now: u64,
}

impl Timer for TestTimer {
    fn microseconds(&self) -> u64 {
        self.now
    }

    fn wait(&self, _duration: Duration) {}
}

fn table(entries: Vec<(usize, DefaultBehavior)>) -> Vec<Option<DefaultBehavior>> {
    let mut behaviors = vec![None; MAX_KEYS];
    for (index, behavior) in entries {
        behaviors[index] = Some(behavior);
    }
    behaviors
}

type Engine = State<TestLayout, TestTimer>;

fn engine(layers: Vec<Layer>, count: usize) -> Engine {
    State::new(layers, TestLayout::new(count), TestTimer { now: 0 })
}

fn press(state: &mut Engine, key: usize) {
    state.get_phys_layout_mut().pressed[key] = true;
}

fn release(state: &mut Engine, key: usize) {
    state.get_phys_layout_mut().pressed[key] = false;
}

fn at_millis(state: &mut Engine, millis: u64) {
    state.get_timer_mut().now = millis * 1000;
}

fn step(state: &mut Engine) {
    state.main_iteration().expect("engine capacity exceeded");
}

fn pressed(state: &Engine, key: Key) -> bool {
    state.get_vboard().contains(key)
}

/// Pure tap: one key mapped to a plain key press.
#[test]
fn pure_tap() {
    let base = Layer::new(1, table(vec![(0, KeyPress::new(Key::A).into())]));
    let mut state = engine(vec![base], 1);

    step(&mut state);
    assert!(!pressed(&state, Key::A));

    press(&mut state, 0);
    step(&mut state); // scan observes the edge
    step(&mut state); // the edge's events are applied
    assert!(pressed(&state, Key::A));
    assert_eq!(state.held_count(), 1);

    at_millis(&mut state, 5);
    release(&mut state, 0);
    step(&mut state);
    step(&mut state);
    assert!(!pressed(&state, Key::A));
    assert_eq!(state.held_count(), 0);
}

/// Hold-tap released before the timeout acts as a tap: the tap key goes
/// down at the release and comes back up one tap interval later. The hold
/// key is never seen.
#[test]
fn hold_tap_as_tap() {
    let ht = HoldTap::new(
        KeyPress::new(Key::LShift).into(),
        KeyPress::new(Key::A).into(),
        Duration::from_millis(200),
        false,
    );
    let base = Layer::new(1, table(vec![(0, ht.into())]));
    let mut state = engine(vec![base], 1);

    press(&mut state, 0);
    step(&mut state);
    step(&mut state); // arms the hold/tap timer; nothing emitted yet
    assert!(!pressed(&state, Key::A));
    assert!(!pressed(&state, Key::LShift));

    at_millis(&mut state, 50);
    release(&mut state, 0);
    step(&mut state); // scan observes the release
    step(&mut state); // tap decided: press A, schedule its release
    assert!(pressed(&state, Key::A));
    assert!(!pressed(&state, Key::LShift));

    at_millis(&mut state, 150);
    step(&mut state); // the scheduled untap fires
    assert!(!pressed(&state, Key::A));
    assert!(!pressed(&state, Key::LShift));
}

/// Optimistic hold-tap held past the timeout acts as a hold from the start:
/// the hold key goes down at the press and up at the release; the tap key
/// is never seen.
#[test]
fn hold_tap_as_hold_optimistic() {
    let ht = HoldTap::new(
        KeyPress::new(Key::LShift).into(),
        KeyPress::new(Key::A).into(),
        Duration::from_millis(200),
        true,
    );
    let base = Layer::new(1, table(vec![(0, ht.into())]));
    let mut state = engine(vec![base], 1);

    press(&mut state, 0);
    step(&mut state);
    step(&mut state); // the hold is applied optimistically
    assert!(pressed(&state, Key::LShift));
    assert!(!pressed(&state, Key::A));

    at_millis(&mut state, 250);
    step(&mut state); // the timeout decides for hold; nothing new emitted
    assert!(pressed(&state, Key::LShift));

    at_millis(&mut state, 300);
    release(&mut state, 0);
    step(&mut state);
    step(&mut state);
    assert!(!pressed(&state, Key::LShift));
    assert!(!pressed(&state, Key::A));
}

/// Non-optimistic hold-tap interrupted by the timeout: the hold key goes
/// down when the timeout fires and up at the release.
#[test]
fn hold_tap_decides_hold_at_timeout() {
    let ht = HoldTap::new(
        KeyPress::new(Key::LShift).into(),
        KeyPress::new(Key::A).into(),
        Duration::from_millis(100),
        false,
    );
    let base = Layer::new(1, table(vec![(0, ht.into())]));
    let mut state = engine(vec![base], 1);

    press(&mut state, 0);
    step(&mut state);
    step(&mut state);
    assert!(!pressed(&state, Key::LShift));

    at_millis(&mut state, 150);
    step(&mut state); // the timeout fires: hold decided, hold key pressed
    assert!(pressed(&state, Key::LShift));
    assert!(!pressed(&state, Key::A));

    at_millis(&mut state, 250);
    release(&mut state, 0);
    step(&mut state);
    step(&mut state);
    assert!(!pressed(&state, Key::LShift));
    assert!(!pressed(&state, Key::A));
}

/// A zero timeout fires in the first timer drain after the press was
/// processed; a release racing it loses, because timers drain first.
#[test]
fn hold_tap_zero_timeout_ties_resolve_to_hold() {
    let ht = HoldTap::new(
        KeyPress::new(Key::LShift).into(),
        KeyPress::new(Key::A).into(),
        Duration::new(0),
        false,
    );
    let base = Layer::new(1, table(vec![(0, ht.into())]));
    let mut state = engine(vec![base], 1);

    press(&mut state, 0);
    step(&mut state); // scan observes the press
    step(&mut state); // press processed, timer armed at `now`
    release(&mut state, 0);
    step(&mut state); // timers drain first: hold decided before the release
    assert!(pressed(&state, Key::LShift));
    step(&mut state);
    assert!(!pressed(&state, Key::LShift));
    assert!(!pressed(&state, Key::A));
}

/// Momentary layer: while the layer key is held, the second key resolves
/// through the overlay; afterwards it resolves through the base again.
#[test]
fn momentary_layer_overlays_and_restores() {
    let base = Layer::new(
        2,
        table(vec![
            (0, MomentaryLayer::new(1).into()),
            (1, KeyPress::new(Key::A).into()),
        ]),
    );
    let overlay = Layer::new(
        2,
        table(vec![
            (0, NoArgBehavior::Transparent.into()),
            (1, KeyPress::new(Key::B).into()),
        ]),
    );
    let mut state = engine(vec![base, overlay], 2);

    press(&mut state, 0);
    step(&mut state);
    step(&mut state);
    assert_eq!(state.overlay_count(), 1);

    press(&mut state, 1);
    step(&mut state);
    step(&mut state);
    assert!(pressed(&state, Key::B));
    assert!(!pressed(&state, Key::A));

    release(&mut state, 1);
    step(&mut state);
    step(&mut state);
    assert!(!pressed(&state, Key::B));

    release(&mut state, 0);
    step(&mut state);
    step(&mut state);
    assert_eq!(state.overlay_count(), 0);

    // The overlay is gone: the same physical key now gives the base key.
    press(&mut state, 1);
    step(&mut state);
    step(&mut state);
    assert!(pressed(&state, Key::A));
    assert!(!pressed(&state, Key::B));
}

/// Dead and transparent keys emit nothing but are still tracked as held.
#[test]
fn noop_key_is_tracked_but_silent() {
    let base = Layer::new(
        2,
        table(vec![(0, NoArgBehavior::NoOp.into()), (1, NoArgBehavior::Transparent.into())]),
    );
    let mut state = engine(vec![base], 2);

    press(&mut state, 0);
    press(&mut state, 1);
    step(&mut state);
    step(&mut state);
    assert_eq!(state.held_count(), 2);
    assert_eq!(state.get_vboard().len(), 0);

    release(&mut state, 0);
    release(&mut state, 1);
    step(&mut state);
    step(&mut state);
    assert_eq!(state.held_count(), 0);
    assert_eq!(state.get_vboard().len(), 0);
}

/// Scan edges are enqueued in key order and everything an event produces is
/// applied in the same drain, before the next scan's edges.
#[test]
fn queue_draining_preserves_order() {
    let base = Layer::new(
        3,
        table(vec![
            (0, KeyPress::new(Key::A).into()),
            (1, KeyPress::new(Key::B).into()),
            (2, KeyPress::new(Key::C).into()),
        ]),
    );
    let mut state = engine(vec![base], 3);

    press(&mut state, 0);
    press(&mut state, 1);
    press(&mut state, 2);
    step(&mut state);
    // One drain applies all three edges and the key events they produced.
    step(&mut state);
    assert!(pressed(&state, Key::A));
    assert!(pressed(&state, Key::B));
    assert!(pressed(&state, Key::C));
}

/// The release of a key uses the behavior stored at press time, even when
/// the layer stack has changed in between.
#[test]
fn release_uses_the_press_time_behavior() {
    let base = Layer::new(
        2,
        table(vec![
            (0, KeyPress::new(Key::A).into()),
            (1, MomentaryLayer::new(1).into()),
        ]),
    );
    let overlay = Layer::new(
        2,
        table(vec![
            (0, KeyPress::new(Key::B).into()),
            (1, NoArgBehavior::Transparent.into()),
        ]),
    );
    let mut state = engine(vec![base, overlay], 2);

    // Press key 0 while the base layer resolves it to A.
    press(&mut state, 0);
    step(&mut state);
    step(&mut state);
    assert!(pressed(&state, Key::A));

    // Activate the overlay, under which key 0 would be B.
    press(&mut state, 1);
    step(&mut state);
    step(&mut state);
    assert_eq!(state.overlay_count(), 1);

    // Releasing key 0 must release A, the stored instance, not B.
    release(&mut state, 0);
    step(&mut state);
    step(&mut state);
    assert!(!pressed(&state, Key::A));
    assert!(!pressed(&state, Key::B));
}

/// Pressing more layer keys than the stack can hold is reported as a fatal
/// capacity error.
#[test]
fn layer_stack_overflow_is_reported() {
    let count = 11;
    let mut cells = Vec::new();
    for k in 0..count {
        cells.push((k, MomentaryLayer::new(1).into()));
    }
    let base = Layer::new(count, table(cells));
    let overlay = Layer::new(count, table(vec![]));
    let mut state = engine(vec![base, overlay], count);

    for k in 0..count {
        press(&mut state, k);
    }
    step(&mut state);
    assert_eq!(state.main_iteration(), Err(CapacityError::LayerStackFull));
}

/// A scan with more edges than the event queue has room for is reported as
/// a fatal capacity error.
#[test]
fn event_queue_overflow_is_reported() {
    let count = MAX_KEYS;
    let mut cells = Vec::new();
    for k in 0..count {
        cells.push((k, NoArgBehavior::NoOp.into()));
    }
    let base = Layer::new(count, table(cells));
    let mut state = engine(vec![base], count);

    for k in 0..count {
        press(&mut state, k);
    }
    // 110 edges cannot fit a queue of 100.
    assert_eq!(state.main_iteration(), Err(CapacityError::EventQueueFull));
}

/// Arming more hold/tap timers than the timer queue can hold is reported as
/// a fatal capacity error.
#[test]
fn timer_queue_overflow_is_reported() {
    let count = 102;
    let ht: DefaultBehavior = HoldTap::new(
        KeyPress::new(Key::LShift).into(),
        KeyPress::new(Key::A).into(),
        Duration::from_secs(1000),
        false,
    )
    .into();
    let mut cells = Vec::new();
    for k in 0..count {
        cells.push((k, ht));
    }
    let base = Layer::new(count, table(cells));
    let mut state = engine(vec![base], count);

    for k in 0..51 {
        press(&mut state, k);
    }
    step(&mut state);
    step(&mut state); // 51 timers armed

    for k in 51..count {
        press(&mut state, k);
    }
    step(&mut state);
    // Arming the 101st timer must fail.
    assert_eq!(state.main_iteration(), Err(CapacityError::TimerQueueFull));
}

#[test]
fn held_key_iterator_reports_presses_in_order() {
    let mut held = HeldKeyCollection::new();
    held.push(4, NoArgBehavior::NoOp.into());
    held.push(7, KeyPress::new(Key::A).into());
    let mut iter = held.iter();
    assert_eq!(iter.next(), Some((4, NoArgBehavior::NoOp.into())));
    assert_eq!(iter.next(), Some((7, KeyPress::new(Key::A).into())));
    assert_eq!(iter.next(), None);

    assert_eq!(held.try_remove_key(4), Some(NoArgBehavior::NoOp.into()));
    assert_eq!(held.try_remove_key(4), None);
    assert_eq!(held.len(), 1);
    let (key, _) = held.remove(0);
    assert_eq!(key, 7);
}

struct ShortSnapshotLayout;

impl PhysicalLayout for ShortSnapshotLayout {
    fn keys(&self) -> usize {
        2
    }

    fn get_status(&self, _key: usize) -> bool {
        false
    }

    fn get_arr_copy(&self) -> Vec<bool> {
        // A misbehaving collaborator: the snapshot covers no key at all.
        Vec::new()
    }
}

/// A snapshot that covers fewer keys than the layout declares is tolerated:
/// the uncovered keys read as unpressed.
#[test]
fn short_snapshot_counts_as_unpressed() {
    let base = Layer::new(2, table(vec![(0, KeyPress::new(Key::A).into())]));
    let mut state = State::new(vec![base], ShortSnapshotLayout, TestTimer { now: 0 });
    state.main_iteration().unwrap();
    state.main_iteration().unwrap();
    assert!(!state.get_vboard().contains(Key::A));
    assert_eq!(state.held_count(), 0);
}
