use dmk::behavior::{Behavior, HoldTap, KeyPress, KeyState, MomentaryLayer, NoArgBehavior};
use dmk::event::{EVec, Event, LayerEvent};
use dmk::key::Key;
use dmk::timer::Duration;

fn ev(items: Vec<Event>) -> EVec {
    let mut e = EVec::new();
    for item in items {
        e.push_back(item);
    }
    e
}

#[test]
fn test_hold_tap() {
    let kp_t = KeyPress::new(Key::T);
    let kp_h = KeyPress::new(Key::H);

    let mut ht1 = HoldTap {
        hold: kp_h.into(),
        tap: kp_t.into(),
        hold_while_undecided: true,
        decided_tap: false,
        decided_hold: false,
        duration: Duration::new(0),
    };
    let mut ht2 = HoldTap {
        hold: kp_h.into(),
        tap: kp_t.into(),
        hold_while_undecided: true,
        decided_tap: false,
        decided_hold: false,
        duration: Duration::new(0),
    };

    // Test timeout expired
    assert_eq!(
        ht1.on_press(&KeyState {}),
        ev(vec![Event::bkey_down(kp_h.into())])
    );
    assert_eq!(ht1.after_delay(&KeyState {}), ev(vec![]));
    assert_eq!(
        ht1.on_release(&KeyState {}),
        ev(vec![Event::bkey_up(kp_h.into())])
    );
    assert_eq!(ht1.try_get_delay(), Some(Duration::new(0)));
    assert!(ht1.decided_hold);
    assert!(!ht1.decided_tap);

    assert_eq!(
        ht2.on_press(&KeyState {}),
        ev(vec![Event::bkey_down(kp_h.into())])
    );
    assert_eq!(
        ht2.on_release(&KeyState {}),
        ev(vec![
            Event::bkey_up(kp_h.into()),
            Event::special_tap(KeyPress::new(Key::T).into())
        ])
    );
    assert_eq!(ht2.after_delay(&KeyState {}), ev(vec![]));
    assert_eq!(ht2.try_get_delay(), Some(Duration::new(0)));
    assert!(!ht2.decided_hold);
    assert!(ht2.decided_tap);
}

#[test]
fn test_key_press() {
    let mut kp = KeyPress { key: Key::A };

    assert_eq!(
        kp.on_press(&KeyState {}),
        ev(vec![Event::key_down(Key::A)])
    );
    assert_eq!(
        kp.on_release(&KeyState {}),
        ev(vec![Event::key_up(Key::A)])
    );
    assert_eq!(kp.try_get_delay(), None);
    assert_eq!(kp.after_delay(&KeyState {}), ev(vec![]));
}

#[test]
fn key_press_is_stateless_under_repetition() {
    let mut kp = KeyPress::new(Key::Q);
    let first_press = kp.on_press(&KeyState {});
    let first_release = kp.on_release(&KeyState {});
    let second_press = kp.on_press(&KeyState {});
    let second_release = kp.on_release(&KeyState {});
    assert_eq!(first_press, second_press);
    assert_eq!(first_release, second_release);
    assert_eq!(first_press, ev(vec![Event::key_down(Key::Q)]));
    assert_eq!(first_release, ev(vec![Event::key_up(Key::Q)]));
}

#[test]
fn momentary_layer_emits_layer_events() {
    let mut ml = MomentaryLayer::new(3);
    assert_eq!(
        ml.on_press(&KeyState {}),
        ev(vec![Event::LayerEvent(LayerEvent::AddLayer(3))])
    );
    assert_eq!(
        ml.on_release(&KeyState {}),
        ev(vec![Event::LayerEvent(LayerEvent::RemoveDownToLayer(3))])
    );
    assert_eq!(ml.try_get_delay(), None);
}

#[test]
fn noop_and_transparent_emit_nothing() {
    let mut noop = NoArgBehavior::NoOp;
    let mut transparent = NoArgBehavior::Transparent;
    assert_eq!(noop.on_press(&KeyState {}), ev(vec![]));
    assert_eq!(noop.on_release(&KeyState {}), ev(vec![]));
    assert_eq!(transparent.on_press(&KeyState {}), ev(vec![]));
    assert_eq!(transparent.on_release(&KeyState {}), ev(vec![]));
    assert_eq!(noop.try_get_delay(), None);
    assert_eq!(transparent.try_get_delay(), None);
}

#[test]
fn hold_tap_non_optimistic_press_is_silent() {
    let mut ht = HoldTap::new(
        KeyPress::new(Key::LShift).into(),
        KeyPress::new(Key::A).into(),
        Duration::from_millis(200),
        false,
    );
    assert_eq!(ht.on_press(&KeyState {}), ev(vec![]));
    assert_eq!(
        ht.on_release(&KeyState {}),
        ev(vec![Event::special_tap(KeyPress::new(Key::A).into())])
    );
    assert!(ht.decided_tap);
}

#[test]
fn hold_tap_stale_trigger_is_a_no_op() {
    let mut ht = HoldTap::new(
        KeyPress::new(Key::LShift).into(),
        KeyPress::new(Key::A).into(),
        Duration::from_millis(200),
        false,
    );
    ht.on_release(&KeyState {});
    assert!(ht.decided_tap);
    assert_eq!(ht.after_delay(&KeyState {}), ev(vec![]));
    assert!(!ht.decided_hold);
}
