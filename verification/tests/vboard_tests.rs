use dmk::event::KeyEvent;
use dmk::key::Key;
use dmk::vboard::VirtualKeyboard;

#[test]
fn press_then_release_leaves_the_keyboard_empty() {
    let mut kb = VirtualKeyboard::new();
    kb.apply(KeyEvent::KeyDown(Key::A));
    assert!(kb.contains(Key::A));
    kb.apply(KeyEvent::KeyUp(Key::A));
    assert!(!kb.contains(Key::A));
    assert_eq!(kb.len(), 0);
}

#[test]
fn repeated_presses_coalesce() {
    let mut kb = VirtualKeyboard::new();
    kb.apply(KeyEvent::KeyDown(Key::B));
    kb.apply(KeyEvent::KeyDown(Key::B));
    assert_eq!(kb.len(), 1);
    kb.apply(KeyEvent::KeyUp(Key::B));
    assert!(!kb.contains(Key::B));
    assert_eq!(kb.len(), 0);
}

#[test]
fn pressed_set_tracks_count_excess_along_a_coherent_sequence() {
    // Interleave presses and releases of three keys; after every prefix the
    // pressed set must equal the keys pressed more often than released.
    let events = vec![
        KeyEvent::KeyDown(Key::A),
        KeyEvent::KeyDown(Key::B),
        KeyEvent::KeyUp(Key::A),
        KeyEvent::KeyDown(Key::C),
        KeyEvent::KeyUp(Key::B),
        KeyEvent::KeyDown(Key::A),
        KeyEvent::KeyUp(Key::C),
        KeyEvent::KeyUp(Key::A),
    ];
    let keys = [Key::A, Key::B, Key::C];
    let mut kb = VirtualKeyboard::new();
    let mut downs = [0i32; 3];
    let mut ups = [0i32; 3];
    for event in events {
        match event {
            KeyEvent::KeyDown(k) => {
                downs[keys.iter().position(|x| *x == k).unwrap()] += 1;
            }
            KeyEvent::KeyUp(k) => {
                ups[keys.iter().position(|x| *x == k).unwrap()] += 1;
            }
        }
        kb.apply(event);
        for (i, k) in keys.iter().enumerate() {
            assert_eq!(kb.contains(*k), downs[i] > ups[i]);
        }
    }
    assert_eq!(kb.len(), 0);
}

#[test]
fn releasing_an_unpressed_key_is_a_no_op() {
    let mut kb = VirtualKeyboard::new();
    kb.apply(KeyEvent::KeyUp(Key::Z));
    assert_eq!(kb.len(), 0);
    kb.apply(KeyEvent::KeyDown(Key::Z));
    assert!(kb.contains(Key::Z));
}

#[test]
fn pressed_keys_lists_each_key_once() {
    let mut kb = VirtualKeyboard::new();
    kb.apply(KeyEvent::KeyDown(Key::A));
    kb.apply(KeyEvent::KeyDown(Key::B));
    kb.apply(KeyEvent::KeyDown(Key::A));
    let mut keys = kb.pressed_keys();
    keys.sort();
    assert_eq!(keys, vec![Key::A, Key::B]);
}
