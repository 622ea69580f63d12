//! The virtual keyboard: the pressed-key set a downstream HID emitter reads.
//!
//! The keyboard is a pure function of the stream of key events applied to it:
//! a press adds the key to the set, a release removes it, and repeated
//! presses of a held key coalesce.

use vstd::prelude::*;

use crate::event::KeyEvent;
use crate::key::Key;

verus! {

/// The set of currently pressed virtual keys.
pub struct VirtualKeyboard {
    pressed: Vec<Key>,
}

impl View for VirtualKeyboard {
    type V = Set<Key>;

    /// The pressed-key set.
    closed spec fn view(&self) -> Set<Key> {
        self.pressed@.to_set()
    }
}

/// The pressed set after one key event: a press inserts the key, a release
/// removes it.
pub open spec fn apply_key_event(pressed: Set<Key>, event: KeyEvent) -> Set<Key> {
    match event {
        KeyEvent::KeyDown(k) => pressed.insert(k),
        KeyEvent::KeyUp(k) => pressed.remove(k),
    }
}

/// The pressed set after a whole sequence of key events.
pub open spec fn apply_key_events(pressed: Set<Key>, events: Seq<KeyEvent>) -> Set<Key>
    decreases events.len(),
{
    if events.len() == 0 {
        pressed
    } else {
        apply_key_event(apply_key_events(pressed, events.drop_last()), events.last())
    }
}

/// How many presses of `key` the sequence holds.
pub open spec fn count_downs(events: Seq<KeyEvent>, key: Key) -> nat
    decreases events.len(),
{
    if events.len() == 0 {
        0
    } else {
        count_downs(events.drop_last(), key) + if events.last() == KeyEvent::KeyDown(key) {
            1nat
        } else {
            0nat
        }
    }
}

/// How many releases of `key` the sequence holds.
pub open spec fn count_ups(events: Seq<KeyEvent>, key: Key) -> nat
    decreases events.len(),
{
    if events.len() == 0 {
        0
    } else {
        count_ups(events.drop_last(), key) + if events.last() == KeyEvent::KeyUp(key) {
            1nat
        } else {
            0nat
        }
    }
}

/// A key-event sequence without redundant events, starting from an empty
/// keyboard: every press is of a key not currently pressed and every release
/// is of a key currently pressed. The engine's scan phase emits only such
/// sequences, since it reports edges of the physical bitmap.
pub open spec fn coherent(events: Seq<KeyEvent>) -> bool
    decreases events.len(),
{
    if events.len() == 0 {
        true
    } else {
        coherent(events.drop_last()) && {
            let before = apply_key_events(Set::empty(), events.drop_last());
            match events.last() {
                KeyEvent::KeyDown(k) => !before.contains(k),
                KeyEvent::KeyUp(k) => before.contains(k),
            }
        }
    }
}

/// In a coherent sequence every key has been pressed exactly as often as
/// released, or exactly once more when it is currently pressed.
pub proof fn lemma_coherent_counts(events: Seq<KeyEvent>)
    requires
        coherent(events),
    ensures
        forall|k: Key|
            #[trigger] count_downs(events, k) == if apply_key_events(
                Set::empty(),
                events,
            ).contains(k) {
                count_ups(events, k) + 1
            } else {
                count_ups(events, k)
            },
    decreases events.len(),
{
    if events.len() == 0 {
    } else {
        let dl = events.drop_last();
        lemma_coherent_counts(dl);
        let before = apply_key_events(Set::empty(), dl);
        let after = apply_key_events(Set::empty(), events);
        assert forall|k: Key|
            #[trigger] count_downs(events, k) == if after.contains(k) {
                count_ups(events, k) + 1
            } else {
                count_ups(events, k)
            } by {
            match events.last() {
                KeyEvent::KeyDown(k0) => {
                    assert(after == before.insert(k0));
                    if k == k0 {
                        assert(count_downs(events, k) == count_downs(dl, k) + 1);
                        assert(count_ups(events, k) == count_ups(dl, k));
                    } else {
                        assert(count_downs(events, k) == count_downs(dl, k));
                        assert(count_ups(events, k) == count_ups(dl, k));
                        assert(after.contains(k) == before.contains(k));
                    }
                },
                KeyEvent::KeyUp(k0) => {
                    assert(after == before.remove(k0));
                    if k == k0 {
                        assert(count_downs(events, k) == count_downs(dl, k));
                        assert(count_ups(events, k) == count_ups(dl, k) + 1);
                    } else {
                        assert(count_downs(events, k) == count_downs(dl, k));
                        assert(count_ups(events, k) == count_ups(dl, k));
                        assert(after.contains(k) == before.contains(k));
                    }
                },
            }
        }
    }
}

/// Applying a coherent key-event sequence to an empty keyboard yields exactly
/// the keys with more presses than releases so far.
pub proof fn lemma_pressed_set_is_count_excess(events: Seq<KeyEvent>)
    requires
        coherent(events),
    ensures
        apply_key_events(Set::empty(), events) == Set::new(
            |k: Key| count_downs(events, k) > count_ups(events, k),
        ),
{
    lemma_coherent_counts(events);
    assert(apply_key_events(Set::empty(), events) =~= Set::new(
        |k: Key| count_downs(events, k) > count_ups(events, k),
    ));
}

/// Every prefix of a coherent sequence is coherent, so the pressed set equals
/// the count excess at every step along the way.
pub proof fn lemma_coherent_prefix(events: Seq<KeyEvent>, n: int)
    requires
        coherent(events),
        0 <= n <= events.len(),
    ensures
        coherent(events.take(n)),
    decreases events.len(),
{
    if n == events.len() {
        assert(events.take(n) =~= events);
    } else {
        let dl = events.drop_last();
        assert(events.take(n) =~= dl.take(n));
        lemma_coherent_prefix(dl, n);
    }
}

/// Pressing a key on an empty keyboard and releasing it leaves the keyboard
/// empty.
pub proof fn lemma_press_release_round_trip(k: Key)
    ensures
        apply_key_event(apply_key_event(Set::empty(), KeyEvent::KeyDown(k)), KeyEvent::KeyUp(k))
            == Set::<Key>::empty(),
{
    assert(apply_key_event(
        apply_key_event(Set::empty(), KeyEvent::KeyDown(k)),
        KeyEvent::KeyUp(k),
    ) =~= Set::<Key>::empty());
}

impl VirtualKeyboard {
    /// The backing list never records a key twice.
    pub closed spec fn wf(self) -> bool {
        self.pressed@.no_duplicates()
    }

    /// A keyboard with nothing pressed.
    pub fn new() -> (r: Self)
        ensures
            r.wf(),
            r@ == Set::<Key>::empty(),
    {
        let r = Self { pressed: Vec::new() };
        proof {
            assert(r@ =~= Set::<Key>::empty());
        }
        r
    }

    /// Whether `key` is currently pressed.
    pub fn contains(&self, key: Key) -> (r: bool)
        ensures
            r == self@.contains(key),
    {
        let mut i: usize = 0;
        while i < self.pressed.len()
            invariant
                i <= self.pressed@.len(),
                forall|j: int| 0 <= j < i ==> self.pressed@[j] != key,
            decreases self.pressed@.len() - i,
        {
            if self.pressed[i] == key {
                proof {
                    assert(self.pressed@.contains(key));
                }
                return true;
            }
            i += 1;
        }
        proof {
            assert(!self.pressed@.contains(key));
        }
        false
    }

    /// How many keys are pressed.
    pub fn len(&self) -> (n: usize)
        requires
            self.wf(),
        ensures
            n == self@.len(),
    {
        proof {
            self.pressed@.unique_seq_to_set();
        }
        self.pressed.len()
    }

    /// The pressed keys, one copy of each.
    pub fn pressed_keys(&self) -> (r: Vec<Key>)
        ensures
            r@.to_set() == self@,
    {
        let mut r: Vec<Key> = Vec::new();
        let mut i: usize = 0;
        while i < self.pressed.len()
            invariant
                i <= self.pressed@.len(),
                r@ == self.pressed@.take(i as int),
            decreases self.pressed@.len() - i,
        {
            r.push(self.pressed[i]);
            proof {
                assert(r@ =~= self.pressed@.take(i + 1));
            }
            i += 1;
        }
        proof {
            assert(r@ =~= self.pressed@);
        }
        r
    }

    /// Apply one key event: a press inserts the key into the pressed set, a
    /// release removes it. Both are idempotent on repetition.
    pub fn apply(&mut self, event: KeyEvent)
        requires
            old(self).wf(),
        ensures
            final(self).wf(),
            final(self)@ == apply_key_event(old(self)@, event),
    {
        match event {
            KeyEvent::KeyDown(k) => {
                if !self.contains(k) {
                    self.pressed.push(k);
                    proof {
                        assert(self.pressed@.drop_last() == old(self).pressed@);
                        assert(self.pressed@.no_duplicates());
                        assert(self@ =~= old(self)@.insert(k)) by {
                            assert forall|x: Key| self.pressed@.contains(x) implies old(
                                self,
                            )@.insert(k).contains(x) by {
                                let i = choose|i: int|
                                    0 <= i < self.pressed@.len() && self.pressed@[i] == x;
                                if i < old(self).pressed@.len() {
                                    assert(old(self).pressed@.contains(x));
                                }
                            }
                            assert forall|x: Key| old(self)@.insert(k).contains(x) implies self
                                .pressed@.contains(x) by {
                                if x == k {
                                    assert(self.pressed@.last() == k);
                                } else {
                                    let i = choose|i: int|
                                        0 <= i < old(self).pressed@.len() && old(self).pressed@[i]
                                            == x;
                                    assert(self.pressed@[i] == x);
                                }
                            }
                        }
                    }
                } else {
                    proof {
                        assert(self@ =~= old(self)@.insert(k));
                    }
                }
            },
            KeyEvent::KeyUp(k) => {
                let mut i: usize = 0;
                let n = self.pressed.len();
                while i < n
                    invariant
                        i <= n,
                        n == self.pressed@.len(),
                        *self == *old(self),
                        self.wf(),
                        event == KeyEvent::KeyUp(k),
                        forall|j: int| 0 <= j < i ==> self.pressed@[j] != k,
                    decreases n - i,
                {
                    if self.pressed[i] == k {
                        self.pressed.remove(i);
                        proof {
                            old(self).pressed@.remove_ensures(i as int);
                            assert(self.pressed@.no_duplicates()) by {
                                assert forall|a: int, b: int|
                                    0 <= a < b < self.pressed@.len() implies self.pressed@[a]
                                    != self.pressed@[b] by {
                                    assert(old(self).pressed@.no_duplicates());
                                }
                            }
                            assert(self@ =~= old(self)@.remove(k)) by {
                                assert forall|x: Key| self.pressed@.contains(x) implies old(
                                    self,
                                )@.remove(k).contains(x) by {
                                    let a = choose|a: int|
                                        0 <= a < self.pressed@.len() && self.pressed@[a] == x;
                                    if a < i {
                                        assert(old(self).pressed@[a] == x);
                                    } else {
                                        assert(old(self).pressed@[a + 1] == x);
                                    }
                                    assert(old(self).pressed@.contains(x));
                                    assert(x != k) by {
                                        if x == k {
                                            let w = if a < i {
                                                a
                                            } else {
                                                a + 1
                                            };
                                            assert(old(self).pressed@[w] == k);
                                            assert(old(self).pressed@[i as int] == k);
                                        }
                                    }
                                }
                                assert forall|x: Key| old(self)@.remove(k).contains(x) implies self
                                    .pressed@.contains(x) by {
                                    let a = choose|a: int|
                                        0 <= a < old(self).pressed@.len() && old(self).pressed@[a]
                                            == x;
                                    if a < i {
                                        assert(self.pressed@[a] == x);
                                    } else {
                                        assert(a != i);
                                        assert(self.pressed@[a - 1] == x);
                                    }
                                }
                            }
                        }
                        return ;
                    }
                    i += 1;
                }
                proof {
                    assert(!self.pressed@.contains(k));
                    assert(self@ =~= old(self)@.remove(k));
                }
            },
        }
    }
}

} // verus!
