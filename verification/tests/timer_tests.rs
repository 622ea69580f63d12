use dmk::behavior::{KeyPress, NoArgBehavior};
use dmk::key::Key;
use dmk::timer::{
    BehaviorTimeoutEvent, Duration, Instant, TimerEvent, TimerQueue, UntapKeyEvent,
    TIMER_QUEUE_LEN,
};

#[test]
fn duration_conversions_are_exact() {
    assert_eq!(Duration::from_millis(5).micros(), 5_000);
    assert_eq!(Duration::from_secs(2).micros(), 2_000_000);
    assert_eq!(Duration::from_micros(1_234_567).millis(), 1_234);
    assert_eq!(Duration::from_micros(1_234_567).secs(), 1);
    assert_eq!(Duration::new(42).micros(), 42);
}

#[test]
fn instant_conversions_are_exact() {
    assert_eq!(Instant::from_millis(5).micros(), 5_000);
    assert_eq!(Instant::from_secs(3).micros(), 3_000_000);
    assert_eq!(Instant::from_micros(999).millis(), 0);
    assert_eq!(Instant::from_micros(2_500_000).secs(), 2);
}

#[test]
fn instant_addition_saturates() {
    let near_max = Instant::from_micros(u64::MAX - 10);
    let sum = near_max.saturating_add_duration(Duration::from_micros(100));
    assert_eq!(sum.micros(), u64::MAX);
    let plain = Instant::from_micros(100).saturating_add_duration(Duration::from_micros(50));
    assert_eq!(plain.micros(), 150);
}

fn untap_at(micros: u64) -> TimerEvent {
    TimerEvent::UntapKey(UntapKeyEvent { key: Key::A, instant: Instant::from_micros(micros) })
}

fn deadlines(queue: &mut TimerQueue) -> Vec<u64> {
    let mut out = Vec::new();
    while let Some(t) = queue.pop_front() {
        out.push(t.instant().micros());
    }
    out
}

#[test]
fn timer_queue_is_sorted_after_any_insert_and_pop() {
    let mut q = TimerQueue::new();
    for micros in [50u64, 10, 40, 10, 99, 0, 40] {
        q.insert(untap_at(micros));
    }
    assert_eq!(q.pop_front().unwrap().instant().micros(), 0);
    q.insert(untap_at(5));
    q.insert(untap_at(100));
    let rest = deadlines(&mut q);
    assert_eq!(rest, vec![5, 10, 10, 40, 40, 50, 99, 100]);
    let mut sorted = rest.clone();
    sorted.sort();
    assert_eq!(rest, sorted);
}

#[test]
fn timer_queue_peek_leaves_the_front_in_place() {
    let mut q = TimerQueue::new();
    q.insert(untap_at(7));
    assert_eq!(q.peek_front().unwrap().instant().micros(), 7);
    assert_eq!(q.len(), 1);
    assert_eq!(q.pop_front().unwrap().instant().micros(), 7);
    assert!(q.pop_front().is_none());
}

#[test]
fn timer_queue_carries_behavior_payloads() {
    let mut q = TimerQueue::new();
    let behavior = NoArgBehavior::KeyPress(KeyPress::new(Key::B)).into();
    q.insert(TimerEvent::Behavior(BehaviorTimeoutEvent {
        behavior,
        instant: Instant::from_micros(3),
    }));
    match q.pop_front().unwrap() {
        TimerEvent::Behavior(e) => {
            assert_eq!(e.behavior, behavior);
            assert_eq!(e.instant.micros(), 3);
        }
        _ => panic!("expected a behavior trigger"),
    }
}

#[test]
fn timer_queue_takes_its_full_capacity() {
    let mut q = TimerQueue::new();
    for i in 0..TIMER_QUEUE_LEN {
        q.insert(untap_at(i as u64));
    }
    assert_eq!(q.len(), TIMER_QUEUE_LEN);
    let all = deadlines(&mut q);
    assert_eq!(all.len(), TIMER_QUEUE_LEN);
}
