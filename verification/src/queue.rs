//! The fixed-capacity FIFO ring buffer of pending events.

use vstd::prelude::*;

use crate::event::Event;

verus! {

/// Capacity of the event queue. Overflow is a configuration bug, not
/// back-pressure: realistic workloads stay far below this.
pub const EVENT_QUEUE_LEN: usize = 100;

/// A FIFO queue of events over a fixed ring of [`EVENT_QUEUE_LEN`] slots.
/// Indices wrap modulo the capacity; the head returns to slot zero whenever
/// the queue drains.
pub struct EventQueue {
    pub events: Vec<Option<Event>>,
    pub cursor: usize,
    pub len: usize,
}

impl View for EventQueue {
    type V = Seq<Event>;

    /// The queued events, oldest first.
    open spec fn view(&self) -> Seq<Event> {
        Seq::new(self.len as nat, |j: int| self.events@[self.slot_of(j)]->0)
    }
}

impl EventQueue {
    /// The ring slot that holds the `j`-th queued event.
    pub open spec fn slot_of(self, j: int) -> int {
        (self.cursor + j) % (EVENT_QUEUE_LEN as int)
    }

    /// How far into the queue window ring slot `i` lies.
    pub open spec fn offset_of(self, i: int) -> int {
        (i - self.cursor) % (EVENT_QUEUE_LEN as int)
    }

    /// The ring layout invariant: exactly the slots of the current window
    /// hold an event, and a drained queue rests at slot zero.
    pub open spec fn wf(self) -> bool {
        &&& self.events@.len() == EVENT_QUEUE_LEN
        &&& self.len <= EVENT_QUEUE_LEN
        &&& self.cursor < EVENT_QUEUE_LEN
        &&& (self.len == 0 ==> self.cursor == 0)
        &&& forall|i: int|
            0 <= i < EVENT_QUEUE_LEN ==> (self.events@[i] is Some <==> self.offset_of(i)
                < self.len)
    }

    /// An empty queue.
    pub fn new() -> (r: Self)
        ensures
            r.wf(),
            r@ == Seq::<Event>::empty(),
    {
        let mut events: Vec<Option<Event>> = Vec::new();
        let mut i: usize = 0;
        while i < EVENT_QUEUE_LEN
            invariant
                i <= EVENT_QUEUE_LEN,
                events@.len() == i,
                forall|j: int| 0 <= j < i ==> events@[j] is None,
            decreases EVENT_QUEUE_LEN - i,
        {
            events.push(None);
            i += 1;
        }
        let r = Self { events, cursor: 0, len: 0 };
        proof {
            assert forall|i: int| 0 <= i < EVENT_QUEUE_LEN implies !(r.offset_of(i) < r.len) by {
                vstd::arithmetic::div_mod::lemma_small_mod(i as nat, EVENT_QUEUE_LEN as nat);
            }
            assert(r@ =~= Seq::<Event>::empty());
        }
        r
    }

    /// Append `event` at the back of the queue. Overflow is a configuration
    /// bug and is excluded by the precondition.
    pub fn push_back(&mut self, event: Event)
        requires
            old(self).wf(),
            old(self)@.len() < EVENT_QUEUE_LEN,
        ensures
            final(self).wf(),
            final(self)@ == old(self)@.push(event),
    {
        let index = (self.cursor + self.len) % EVENT_QUEUE_LEN;
        proof {
            lemma_ring_offset(self.cursor as int, self.len as int);
            assert(self.offset_of(index as int) == self.len as int);
        }
        self.events[index] = Some(event);
        self.len = self.len + 1;
        proof {
            let q = EVENT_QUEUE_LEN as int;
            assert forall|i: int|
                0 <= i < q implies (self.events@[i] is Some <==> self.offset_of(i)
                < self.len) by {
                if i != index {
                    assert(self.events@[i] == old(self).events@[i]);
                    assert(self.offset_of(i) == old(self).offset_of(i));
                    // Only the slot at offset `old len` changed, so membership
                    // in the window is unchanged for every other slot.
                    lemma_offset_bounds(self.cursor as int, i);
                    if self.offset_of(i) == old(self).len as int {
                        lemma_slot_of_offset(self.cursor as int, i);
                        assert(i == old(self).slot_of(old(self).len as int));
                        assert(false);
                    }
                }
            }
            assert forall|j: int| 0 <= j < old(self).len as int implies self.events@[
                self.slot_of(j)
            ] == old(self).events@[old(self).slot_of(j)] by {
                lemma_ring_offset(self.cursor as int, j);
                lemma_offset_bounds(self.cursor as int, self.slot_of(j));
                if self.slot_of(j) == index {
                    assert(self.offset_of(index as int) == j);
                }
            }
            assert(self@ =~= old(self)@.push(event));
        }
    }

    /// Remove and return the event at the front of the queue, or nothing when
    /// the queue is empty. A drained queue resets its head to slot zero.
    pub fn pop_front(&mut self) -> (r: Option<Event>)
        requires
            old(self).wf(),
        ensures
            final(self).wf(),
            old(self)@.len() == 0 ==> r is None && final(self)@ == old(self)@,
            old(self)@.len() > 0 ==> r == Some(old(self)@.first()) && final(self)@ == old(
                self,
            )@.drop_first(),
    {
        proof {
            vstd::arithmetic::div_mod::lemma_small_mod(0nat, EVENT_QUEUE_LEN as nat);
            assert(old(self).offset_of(old(self).cursor as int) == 0);
        }
        let res = self.events[self.cursor];
        self.events[self.cursor] = None;

        if self.len > 0 {
            self.len = self.len - 1;
        }

        if self.len == 0 {
            self.cursor = 0;
        } else {
            self.cursor = self.cursor + 1;
            if self.cursor >= EVENT_QUEUE_LEN {
                self.cursor = 0;
            }
        }

        proof {
            let q = EVENT_QUEUE_LEN as int;
            let oldq = *old(self);
            if oldq.len == 0 {
                // Every slot was empty, and the head was already at zero.
                assert(self.cursor == 0 && self.len == 0);
                assert forall|i: int| 0 <= i < q implies self.events@[i] is None by {
                    lemma_offset_bounds(oldq.cursor as int, i);
                    assert(self.events@ == oldq.events@.update(
                        oldq.cursor as int,
                        Option::<Event>::None,
                    ));
                    assert(oldq.offset_of(i) >= 0);
                    if i != oldq.cursor as int {
                        assert(self.events@[i] == oldq.events@[i]);
                    }
                }
                assert(self.events@ =~= oldq.events@);
                assert(self@ =~= oldq@);
            } else {
                assert(res == Some(oldq@.first()));
                if self.len == 0 {
                    // Drained: the single occupied slot was the old cursor.
                    assert forall|i: int| 0 <= i < q implies !(self.offset_of(i)
                        < self.len) by {
                        lemma_offset_bounds(self.cursor as int, i);
                    }
                    assert forall|i: int| 0 <= i < q implies self.events@[i] is None by {
                        if i != oldq.cursor as int {
                            lemma_offset_bounds(oldq.cursor as int, i);
                            if oldq.offset_of(i) == 0 {
                                lemma_slot_of_offset(oldq.cursor as int, i);
                                vstd::arithmetic::div_mod::lemma_small_mod(
                                    0nat,
                                    EVENT_QUEUE_LEN as nat,
                                );
                                assert(i == oldq.cursor as int);
                            }
                        }
                    }
                    assert(self@ =~= oldq@.drop_first());
                } else {
                    assert(self.cursor as int == (oldq.cursor + 1) % q) by {
                        if oldq.cursor + 1 < q {
                            vstd::arithmetic::div_mod::lemma_small_mod(
                                (oldq.cursor + 1) as nat,
                                EVENT_QUEUE_LEN as nat,
                            );
                        } else {
                            lemma_wrap_mod(oldq.cursor + 1);
                        }
                    }
                    assert forall|i: int|
                        0 <= i < q implies (self.events@[i] is Some <==> self.offset_of(i)
                        < self.len) by {
                        lemma_offset_shift(oldq.cursor as int, i);
                        lemma_offset_bounds(oldq.cursor as int, i);
                        lemma_offset_bounds(self.cursor as int, i);
                        if i == oldq.cursor as int {
                            // The popped slot: old offset 0, new offset q - 1,
                            // outside the shrunk window.
                            assert(oldq.offset_of(i) == 0);
                            assert(self.offset_of(i) == q - 1);
                        } else {
                            assert(oldq.offset_of(i) != 0) by {
                                if oldq.offset_of(i) == 0 {
                                    lemma_slot_of_offset(oldq.cursor as int, i);
                                    vstd::arithmetic::div_mod::lemma_small_mod(
                                        0nat,
                                        EVENT_QUEUE_LEN as nat,
                                    );
                                }
                            }
                            assert(self.offset_of(i) == oldq.offset_of(i) - 1);
                        }
                    }
                    assert forall|j: int| 0 <= j < self.len as int implies self.events@[
                        self.slot_of(j)
                    ] == oldq.events@[oldq.slot_of(j + 1)] by {
                        lemma_slot_succ(oldq.cursor as int, j);
                        lemma_ring_offset(self.cursor as int, j);
                        lemma_offset_bounds(self.cursor as int, self.slot_of(j));
                        if self.slot_of(j) == oldq.cursor as int {
                            assert(self.offset_of(oldq.cursor as int) == q - 1) by {
                                lemma_offset_shift(oldq.cursor as int, oldq.cursor as int);
                                vstd::arithmetic::div_mod::lemma_small_mod(
                                    0nat,
                                    EVENT_QUEUE_LEN as nat,
                                );
                            }
                        }
                    }
                    assert(self@ =~= oldq@.drop_first());
                }
            }
        }
        res
    }
}

/// In a ring of [`EVENT_QUEUE_LEN`] slots, the slot `j` places after `cursor`
/// sits at offset `j` from `cursor`.
proof fn lemma_ring_offset(cursor: int, j: int)
    requires
        0 <= cursor < EVENT_QUEUE_LEN,
        0 <= j < EVENT_QUEUE_LEN,
    ensures
        ((cursor + j) % (EVENT_QUEUE_LEN as int) - cursor) % (EVENT_QUEUE_LEN as int) == j,
        0 <= (cursor + j) % (EVENT_QUEUE_LEN as int) < EVENT_QUEUE_LEN,
{
    let q = EVENT_QUEUE_LEN as int;
    if cursor + j < q {
        vstd::arithmetic::div_mod::lemma_small_mod((cursor + j) as nat, q as nat);
        vstd::arithmetic::div_mod::lemma_small_mod(j as nat, q as nat);
        vstd::arithmetic::div_mod::lemma_mod_add_multiples_vanish(j - q, q);
        if j == 0 {
            vstd::arithmetic::div_mod::lemma_small_mod(0nat, q as nat);
        }
    } else {
        lemma_wrap_mod(cursor + j);
        vstd::arithmetic::div_mod::lemma_mod_add_multiples_vanish(j - q, q);
        vstd::arithmetic::div_mod::lemma_small_mod(j as nat, q as nat);
    }
}

/// Reducing a value in the second turn of the ring by the capacity.
proof fn lemma_wrap_mod(x: int)
    requires
        EVENT_QUEUE_LEN <= x < 2 * EVENT_QUEUE_LEN,
    ensures
        x % (EVENT_QUEUE_LEN as int) == x - EVENT_QUEUE_LEN,
{
    let q = EVENT_QUEUE_LEN as int;
    vstd::arithmetic::div_mod::lemma_mod_sub_multiples_vanish(x, q);
    assert((x - q) % q == x % q);
    vstd::arithmetic::div_mod::lemma_small_mod((x - q) as nat, q as nat);
}

/// Offsets computed by the ring are always within the ring.
proof fn lemma_offset_bounds(cursor: int, i: int)
    requires
        0 <= cursor < EVENT_QUEUE_LEN,
        0 <= i < EVENT_QUEUE_LEN,
    ensures
        0 <= (i - cursor) % (EVENT_QUEUE_LEN as int) < EVENT_QUEUE_LEN,
{
    let q = EVENT_QUEUE_LEN as int;
    vstd::arithmetic::div_mod::lemma_mod_bound(i - cursor, q);
}

/// A slot is recovered from its offset: `slot_of(offset_of(i)) == i`.
proof fn lemma_slot_of_offset(cursor: int, i: int)
    requires
        0 <= cursor < EVENT_QUEUE_LEN,
        0 <= i < EVENT_QUEUE_LEN,
    ensures
        (cursor + (i - cursor) % (EVENT_QUEUE_LEN as int)) % (EVENT_QUEUE_LEN as int) == i,
{
    let q = EVENT_QUEUE_LEN as int;
    if i >= cursor {
        vstd::arithmetic::div_mod::lemma_small_mod((i - cursor) as nat, q as nat);
        vstd::arithmetic::div_mod::lemma_small_mod(i as nat, q as nat);
    } else {
        vstd::arithmetic::div_mod::lemma_mod_add_multiples_vanish(i - cursor, q);
        vstd::arithmetic::div_mod::lemma_small_mod((i - cursor + q) as nat, q as nat);
        lemma_wrap_mod(cursor + (i - cursor + q));
    }
}

/// Advancing the cursor by one reduces every other slot's offset by one.
proof fn lemma_offset_shift(cursor: int, i: int)
    requires
        0 <= cursor < EVENT_QUEUE_LEN,
        0 <= i < EVENT_QUEUE_LEN,
    ensures
        (i - (cursor + 1) % (EVENT_QUEUE_LEN as int)) % (EVENT_QUEUE_LEN as int) == if (i - cursor)
            % (EVENT_QUEUE_LEN as int) == 0 {
            (EVENT_QUEUE_LEN - 1) as int
        } else {
            (i - cursor) % (EVENT_QUEUE_LEN as int) - 1
        },
{
    let q = EVENT_QUEUE_LEN as int;
    let c1 = (cursor + 1) % q;
    if cursor + 1 < q {
        vstd::arithmetic::div_mod::lemma_small_mod((cursor + 1) as nat, q as nat);
    } else {
        lemma_wrap_mod(cursor + 1);
    }
    // c1 == cursor + 1 - (q when wrapping), so the two offsets differ by one
    // modulo q.
    vstd::arithmetic::div_mod::lemma_mod_add_multiples_vanish(i - cursor - 1, q);
    assert((i - c1) % q == (i - cursor - 1) % q);
    vstd::arithmetic::div_mod::lemma_mod_bound(i - cursor, q);
    let off = (i - cursor) % q;
    vstd::arithmetic::div_mod::lemma_fundamental_div_mod(i - cursor, q);
    let d = (i - cursor) / q;
    assert(i - cursor == q * d + off);
    if off == 0 {
        vstd::arithmetic::mul::lemma_mul_is_distributive_sub(q, d, 1);
        assert(i - cursor - 1 == q * (d - 1) + (q - 1));
        lemma_multiple_plus_small(d - 1, q - 1, q);
    } else {
        assert((i - cursor - 1) % q == off - 1) by {
            assert(i - cursor - 1 == q * d + (off - 1));
            lemma_multiple_plus_small(d, off - 1, q);
        }
    }
}

/// `(q * d + r) % q == r` for a remainder already in range.
proof fn lemma_multiple_plus_small(d: int, r: int, q: int)
    requires
        q > 0,
        0 <= r < q,
    ensures
        (q * d + r) % q == r,
{
    vstd::arithmetic::div_mod::lemma_mod_multiples_vanish(d, r, q);
    vstd::arithmetic::div_mod::lemma_small_mod(r as nat, q as nat);
}

/// The successor slot in the shifted window matches the next slot of the old
/// window.
proof fn lemma_slot_succ(cursor: int, j: int)
    requires
        0 <= cursor < EVENT_QUEUE_LEN,
        0 <= j < EVENT_QUEUE_LEN - 1,
    ensures
        ((cursor + 1) % (EVENT_QUEUE_LEN as int) + j) % (EVENT_QUEUE_LEN as int) == (cursor + (j
            + 1)) % (EVENT_QUEUE_LEN as int),
{
    let q = EVENT_QUEUE_LEN as int;
    let c1 = (cursor + 1) % q;
    if cursor + 1 < q {
        vstd::arithmetic::div_mod::lemma_small_mod((cursor + 1) as nat, q as nat);
    } else {
        lemma_wrap_mod(cursor + 1);
        vstd::arithmetic::div_mod::lemma_mod_add_multiples_vanish(cursor + 1 - q + j, q);
    }
}

} // verus!
