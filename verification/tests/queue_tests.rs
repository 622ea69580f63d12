use dmk::event::Event;
use dmk::key::Key;
use dmk::event::EVec;
use dmk::queue::{EventQueue, EVENT_QUEUE_LEN};

#[test]
fn test_event_queue_basics() {
    let mut eq = EventQueue::new();
    let def_arr = eq.events.clone();

    eq.push_back(Event::key_up(Key::A));
    eq.push_back(Event::key_up(Key::B));

    let mut exp = def_arr.clone();
    exp[0] = Some(Event::key_up(Key::A));
    exp[1] = Some(Event::key_up(Key::B));
    assert_eq!(eq.events, exp);
    assert_eq!(eq.len, 2);
    assert_eq!(eq.cursor, 0);

    assert_eq!(eq.pop_front(), Some(Event::key_up(Key::A)));

    exp[0] = None;
    assert_eq!(eq.events, exp);
    assert_eq!(eq.len, 1);
    assert_eq!(eq.cursor, 1);

    assert_eq!(eq.pop_front(), Some(Event::key_up(Key::B)));

    exp[1] = None;
    assert_eq!(eq.events, exp);
    assert_eq!(eq.len, 0);
    assert_eq!(eq.cursor, 0);

    for i in 0..100 {
        match i % 2 {
            0 => eq.push_back(Event::key_up(Key::A)),
            1 => eq.push_back(Event::key_down(Key::A)),
            _ => panic!("the rust compiler found the long-sought exception to the even/odd binary"),
        }
    }

    assert_eq!(eq.len, 100);
    assert_eq!(eq.cursor, 0);
    for event in eq.events.iter() {
        assert!(event.is_some());
    }

    // To avoid recalculating this
    let mut exp = eq.events.clone();

    assert_eq!(eq.pop_front(), Some(Event::key_up(Key::A)));

    exp[0] = None;
    assert_eq!(eq.events, exp);
    assert_eq!(eq.len, 99);
    assert_eq!(eq.cursor, 1);

    eq.push_back(Event::key_down(Key::A));

    exp[0] = Some(Event::key_down(Key::A));
    assert_eq!(eq.events, exp);
    assert_eq!(eq.len, 100);
    assert_eq!(eq.cursor, 1);

    assert_eq!(eq.pop_front(), Some(Event::key_down(Key::A)));

    exp[1] = None;
    assert_eq!(eq.events, exp);
    assert_eq!(eq.len, 99);
    assert_eq!(eq.cursor, 2);

    eq.push_back(Event::key_up(Key::B));
    exp[1] = Some(Event::key_up(Key::B));
    assert_eq!(eq.events, exp);
    assert_eq!(eq.len, 100);
    assert_eq!(eq.cursor, 2);

    for _ in 0..99 {
        eq.pop_front();
    }

    let mut exp = def_arr.clone();
    exp[1] = Some(Event::key_up(Key::B));
    assert_eq!(eq.events, exp);
    assert_eq!(eq.len, 1);
    assert_eq!(eq.cursor, 1);
}

#[test]
fn queue_is_first_in_first_out() {
    let mut eq = EventQueue::new();
    eq.push_back(Event::key_down(Key::A));
    eq.push_back(Event::key_down(Key::B));
    eq.push_back(Event::key_down(Key::C));
    assert_eq!(eq.pop_front(), Some(Event::key_down(Key::A)));
    assert_eq!(eq.pop_front(), Some(Event::key_down(Key::B)));
    assert_eq!(eq.pop_front(), Some(Event::key_down(Key::C)));
    assert_eq!(eq.pop_front(), None);
}

#[test]
fn queue_holds_exactly_its_capacity() {
    let mut eq = EventQueue::new();
    for _ in 0..EVENT_QUEUE_LEN {
        eq.push_back(Event::key_down(Key::A));
    }
    assert_eq!(eq.len, EVENT_QUEUE_LEN);
    for _ in 0..EVENT_QUEUE_LEN {
        assert!(eq.pop_front().is_some());
    }
    assert_eq!(eq.len, 0);
    assert_eq!(eq.cursor, 0);
    assert_eq!(eq.pop_front(), None);
}

#[test]
fn drained_queue_resets_its_head() {
    let mut eq = EventQueue::new();
    eq.push_back(Event::key_down(Key::A));
    eq.push_back(Event::key_up(Key::A));
    eq.pop_front();
    eq.pop_front();
    assert_eq!(eq.cursor, 0);
    eq.push_back(Event::key_down(Key::B));
    assert_eq!(eq.pop_front(), Some(Event::key_down(Key::B)));
}

#[test]
fn evec_indexing_and_pop_back() {
    let mut e = EVec::new();
    assert_eq!(e.len(), 0);
    e.push_back(Event::key_down(Key::A));
    e.push_back(Event::key_up(Key::A));
    assert_eq!(e.len(), 2);
    assert_eq!(e.get(0), Event::key_down(Key::A));
    assert_eq!(e.get(1), Event::key_up(Key::A));
    assert_eq!(e.pop_back(), Some(Event::key_up(Key::A)));
    assert_eq!(e.pop_back(), Some(Event::key_down(Key::A)));
    assert_eq!(e.pop_back(), None);
}
