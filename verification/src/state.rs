//! The state manager: the phase orchestrator tying scans, events, timers and
//! the virtual keyboard together.
//!
//! One call of [`State::main_iteration`] performs three phases in order:
//! drain every due timer trigger, drain the event queue, then scan the
//! physical layout and enqueue one behavior edge event per observed change.
//! Capacity overflow of a bounded container is a configuration bug; the
//! engine reports it as a [`CapacityError`] instead of corrupting state, and
//! the host treats it as fatal.

use vstd::prelude::*;

use crate::behavior::{Behavior, DefaultBehavior, KeyState, NoArgBehavior};
use crate::event::{BehaviorKeyEvent, EVec, Event, KeyEvent, LayerEvent, SpecialEvent};
use crate::key::Key;
use crate::layer::{Layer, LayerStack, MAX_LAYERS};
use crate::physical_layout::{
    contains_key_spec, held_behavior, HeldKeyCollection, lemma_contains_key_push,
    lemma_contains_key_remove, lemma_held_behavior_push, lemma_held_behavior_remove, MAX_KEYS,
    PhysicalLayout,
};
use crate::queue::{EVENT_QUEUE_LEN, EventQueue};
use crate::timer::{
    BehaviorTimeoutEvent, Duration, Instant, TIMER_QUEUE_LEN, Timer, TimerEvent, TimerQueue,
    UntapBehaviorEvent,
};
use crate::vboard::{apply_key_event, VirtualKeyboard};

verus! {

/// How long a synthesised tap holds its behavior before the scheduled
/// release: 100 milliseconds.
pub const TAP_DURATION_MICROS: u64 = 100_000;

/// A bounded container reached its capacity. These are sized so that
/// realistic workloads never reach them; hitting one is a configuration bug
/// and the host should halt.
#[derive(Clone, Copy, Debug, PartialEq, Eq, Structural)]
pub enum CapacityError {
    EventQueueFull,
    TimerQueueFull,
    LayerStackFull,
}

/// An event is fit for the queue of a configuration with `num_layers`
/// layers: layer ids exist, and any behavior that will be released is in a
/// releasable state.
pub open spec fn event_ok(event: Event, num_layers: int) -> bool {
    match event {
        Event::Noop => true,
        Event::KeyEvent(_) => true,
        Event::LayerEvent(LayerEvent::AddLayer(id)) => (id as int) < num_layers,
        Event::LayerEvent(LayerEvent::RemoveDownToLayer(_)) => true,
        Event::BehaviorKeyEvent(bke) => bke.behavior.layers_ok(num_layers)
            && bke.behavior.release_allowed(),
        Event::SpecialEvent(SpecialEvent::TapBehavior(b)) => b.layers_ok(num_layers)
            && b.release_allowed(),
    }
}

/// A configured layer cell is fit for the configuration: absent, or a
/// behavior that names existing layers and starts releasable.
pub open spec fn cell_ok(cell: Option<DefaultBehavior>, num_layers: int) -> bool {
    match cell {
        Some(b) => b.layers_ok(num_layers) && b.release_allowed(),
        None => true,
    }
}

/// A timer trigger is fit for the queue: its behavior copy names existing
/// layers and can still take the callbacks the trigger will invoke.
pub open spec fn trigger_ok(trigger: TimerEvent, num_layers: int) -> bool {
    match trigger {
        TimerEvent::Behavior(e) => e.behavior.layers_ok(num_layers)
            && e.behavior.release_allowed(),
        TimerEvent::UntapKey(_) => true,
        TimerEvent::UntapBehavior(e) => e.behavior.layers_ok(num_layers)
            && e.behavior.release_allowed(),
    }
}

/// An upper bound on how much queue work one event can spawn: every event a
/// handler emits weighs strictly less than the event handled, so the event
/// drain terminates.
pub open spec fn event_weight(event: Event) -> nat {
    match event {
        Event::Noop => 1,
        Event::KeyEvent(_) => 1,
        Event::LayerEvent(_) => 1,
        Event::BehaviorKeyEvent(bke) => match bke.behavior {
            DefaultBehavior::NoArg(_) => 2,
            DefaultBehavior::HoldTap(_) => if bke.is_press {
                3
            } else {
                5
            },
        },
        Event::SpecialEvent(SpecialEvent::TapBehavior(b)) => match b {
            DefaultBehavior::NoArg(_) => 2,
            DefaultBehavior::HoldTap(_) => 3,
        },
    }
}

/// The combined weight of a queue of events.
pub open spec fn events_weight(events: Seq<Event>) -> nat
    decreases events.len(),
{
    if events.len() == 0 {
        0
    } else {
        event_weight(events.first()) + events_weight(events.drop_first())
    }
}

/// Weights add up over concatenation.
pub proof fn lemma_events_weight_concat(s: Seq<Event>, t: Seq<Event>)
    ensures
        events_weight(s + t) == events_weight(s) + events_weight(t),
    decreases s.len(),
{
    if s.len() == 0 {
        assert(s + t =~= t);
    } else {
        assert((s + t).first() == s.first());
        assert((s + t).drop_first() =~= s.drop_first() + t);
        lemma_events_weight_concat(s.drop_first(), t);
    }
}

/// Everything a handler emits weighs strictly less than the event handled.
pub proof fn lemma_emitted_weight_decreases(event: Event)
    ensures
        events_weight(emitted_events(event)) < event_weight(event),
{
    reveal_with_fuel(events_weight, 4);
    match event {
        Event::Noop => {},
        Event::KeyEvent(_) => {},
        Event::LayerEvent(_) => {},
        Event::BehaviorKeyEvent(bke) => {
            match bke.behavior {
                DefaultBehavior::NoArg(n) => {
                    match n {
                        NoArgBehavior::KeyPress(_) => {},
                        NoArgBehavior::MomentaryLayer(_) => {},
                        NoArgBehavior::NoOp => {},
                        NoArgBehavior::Transparent => {},
                    }
                },
                DefaultBehavior::HoldTap(_) => {},
            }
        },
        Event::SpecialEvent(SpecialEvent::TapBehavior(b)) => {
            match b {
                DefaultBehavior::NoArg(n) => {
                    match n {
                        NoArgBehavior::KeyPress(_) => {},
                        NoArgBehavior::MomentaryLayer(_) => {},
                        NoArgBehavior::NoOp => {},
                        NoArgBehavior::Transparent => {},
                    }
                },
                DefaultBehavior::HoldTap(_) => {},
            }
        },
    }
}

/// The events that handling `event` appends to the event queue.
pub open spec fn emitted_events(event: Event) -> Seq<Event> {
    match event {
        Event::Noop => Seq::empty(),
        Event::KeyEvent(_) => Seq::empty(),
        Event::LayerEvent(_) => Seq::empty(),
        Event::BehaviorKeyEvent(bke) => if bke.is_press {
            bke.behavior.press_events()
        } else {
            bke.behavior.release_events()
        },
        Event::SpecialEvent(SpecialEvent::TapBehavior(b)) => b.press_events(),
    }
}

/// Whether handling `event` schedules a timer trigger.
pub open spec fn schedules_trigger(event: Event) -> bool {
    match event {
        Event::BehaviorKeyEvent(bke) => bke.is_press && bke.behavior.delay() is Some,
        Event::SpecialEvent(_) => true,
        _ => false,
    }
}

/// The trigger scheduled for `event` carries the event's behavior copy:
/// a pending hold/tap decision for a behavior press, a scheduled release
/// for a synthesised tap.
pub open spec fn trigger_for(event: Event, t: TimerEvent) -> bool {
    match event {
        Event::BehaviorKeyEvent(bke) => t matches TimerEvent::Behavior(bt) && bt.behavior
            == bke.behavior,
        Event::SpecialEvent(SpecialEvent::TapBehavior(b)) => t matches TimerEvent::UntapBehavior(
            ut,
        ) && ut.behavior == b,
        _ => false,
    }
}

/// The events that applying `trigger` appends to the event queue.
pub open spec fn timer_emitted_events(trigger: TimerEvent) -> Seq<Event> {
    match trigger {
        TimerEvent::Behavior(bt) => bt.behavior.timeout_events(),
        TimerEvent::UntapKey(e) => seq![Event::KeyEvent(KeyEvent::KeyUp(e.key))],
        TimerEvent::UntapBehavior(e) => seq![
            Event::BehaviorKeyEvent(BehaviorKeyEvent { behavior: e.behavior, is_press: false }),
        ],
    }
}

/// The clock-independent image of the engine state the event drain acts on:
/// the pressed set, the overlay stack, the queued events, and how many timer
/// triggers are pending. Everything else the drain touches — the triggers'
/// deadlines — depends on the clock and is stated per call instead.
#[verifier::ext_equal]
pub struct DrainModel {
    pub pressed: Set<Key>,
    pub stack: Seq<usize>,
    pub queue: Seq<Event>,
    pub timers: int,
}

/// One popped event applied against the model: either the exact capacity
/// error the handler reports, or the model afterwards. `m.queue` holds the
/// events still pending behind the popped one.
pub open spec fn model_step(m: DrainModel, event: Event) -> Result<DrainModel, CapacityError> {
    if m.queue.len() + emitted_events(event).len() > EVENT_QUEUE_LEN {
        Err(CapacityError::EventQueueFull)
    } else if schedules_trigger(event) && m.timers >= TIMER_QUEUE_LEN {
        Err(CapacityError::TimerQueueFull)
    } else if (event matches Event::LayerEvent(LayerEvent::AddLayer(_))) && m.stack.len()
        >= MAX_LAYERS {
        Err(CapacityError::LayerStackFull)
    } else {
        Ok(
            DrainModel {
                pressed: match event {
                    Event::KeyEvent(ke) => apply_key_event(m.pressed, ke),
                    _ => m.pressed,
                },
                stack: match event {
                    Event::LayerEvent(LayerEvent::AddLayer(id)) => m.stack.push(id),
                    Event::LayerEvent(LayerEvent::RemoveDownToLayer(id)) => crate::layer::pop_until_spec(
                        m.stack,
                        id,
                    ),
                    _ => m.stack,
                },
                queue: m.queue + emitted_events(event),
                timers: m.timers + if schedules_trigger(event) {
                    1int
                } else {
                    0int
                },
            },
        )
    }
}

/// Draining the queue to empty, one event at a time, strictly first in,
/// first out: the final model, or the capacity error on which the drain
/// stops. Terminates because everything a handled event emits weighs
/// strictly less than the event itself.
pub open spec fn drain_events_spec(m: DrainModel) -> Result<DrainModel, CapacityError>
    decreases events_weight(m.queue),
{
    if m.queue.len() == 0 {
        Ok(m)
    } else {
        let event = m.queue.first();
        let rest = DrainModel { queue: m.queue.drop_first(), ..m };
        match model_step(rest, event) {
            Ok(next) => {
                proof {
                    lemma_emitted_weight_decreases(event);
                    lemma_events_weight_concat(m.queue.drop_first(), emitted_events(event));
                }
                drain_events_spec(next)
            },
            Err(err) => Err(err),
        }
    }
}

/// Whether the scan bitmap reports key `k` as pressed. Indices the snapshot
/// does not cover count as unpressed.
pub open spec fn scanned(bitmap: Seq<bool>, k: int) -> bool {
    0 <= k < bitmap.len() && bitmap[k]
}

/// The events a scan emits for key `k`: a behavior press on a rising edge,
/// a behavior release (of the stored instance) on a falling edge, nothing
/// otherwise. `held` and `last` are the record and bitmap at scan start.
pub open spec fn edge_events(
    stack: LayerStack,
    held: Seq<(usize, DefaultBehavior)>,
    last: Seq<bool>,
    bitmap: Seq<bool>,
    k: int,
) -> Seq<Event> {
    let now = scanned(bitmap, k);
    let was = last[k];
    if now && !was {
        seq![
            Event::BehaviorKeyEvent(
                BehaviorKeyEvent { behavior: stack.spec_find_key_behavior(k), is_press: true },
            ),
        ]
    } else if !now && was {
        seq![
            Event::BehaviorKeyEvent(
                BehaviorKeyEvent { behavior: held_behavior(held, k as usize), is_press: false },
            ),
        ]
    } else {
        Seq::empty()
    }
}

/// All edge events for keys `[0, k)`, in key order.
pub open spec fn scan_events_upto(
    stack: LayerStack,
    held: Seq<(usize, DefaultBehavior)>,
    last: Seq<bool>,
    bitmap: Seq<bool>,
    k: int,
) -> Seq<Event>
    decreases k,
{
    if k <= 0 {
        Seq::empty()
    } else {
        scan_events_upto(stack, held, last, bitmap, k - 1) + edge_events(
            stack,
            held,
            last,
            bitmap,
            k - 1,
        )
    }
}

/// Scanning more keys only adds edge events.
pub proof fn lemma_scan_events_monotone(
    stack: LayerStack,
    held: Seq<(usize, DefaultBehavior)>,
    last: Seq<bool>,
    bitmap: Seq<bool>,
    k1: int,
    k2: int,
)
    requires
        k1 <= k2,
    ensures
        scan_events_upto(stack, held, last, bitmap, k1).len() <= scan_events_upto(
            stack,
            held,
            last,
            bitmap,
            k2,
        ).len(),
    decreases k2 - k1,
{
    if k1 < k2 {
        lemma_scan_events_monotone(stack, held, last, bitmap, k1, k2 - 1);
    }
}

/// A scan emits at most one edge event per scanned key.
pub proof fn lemma_scan_events_len_bound(
    stack: LayerStack,
    held: Seq<(usize, DefaultBehavior)>,
    last: Seq<bool>,
    bitmap: Seq<bool>,
    k: int,
)
    requires
        k >= 0,
    ensures
        scan_events_upto(stack, held, last, bitmap, k).len() <= k,
    decreases k,
{
    if k > 0 {
        lemma_scan_events_len_bound(stack, held, last, bitmap, k - 1);
    }
}

/// Key resolution only ever yields a configured behavior or the no-op, so
/// its result is always fit for the configuration.
pub proof fn lemma_resolve_ok(stack: LayerStack, key: int, depth: int)
    requires
        stack.wf(),
        forall|li: int, k: int|
            0 <= li < stack.spec_all_layers().len() && 0 <= k < MAX_KEYS ==> cell_ok(
                #[trigger] stack.spec_all_layers()[li]@[k],
                stack.spec_all_layers().len() as int,
            ),
        0 <= key < MAX_KEYS,
        0 <= depth,
    ensures
        stack.resolve_from(key, depth).layers_ok(stack.spec_all_layers().len() as int),
        stack.resolve_from(key, depth).release_allowed(),
    decreases stack@.len() + 1 - depth,
{
    let num = stack.spec_all_layers().len() as int;
    if depth > stack@.len() {
    } else {
        let li: int = if depth < stack@.len() {
            stack@[stack@.len() - 1 - depth] as int
        } else {
            0
        };
        assert(0 <= li < stack.spec_all_layers().len());
        assert(stack.layer_at_depth(depth) == stack.spec_all_layers()[li]);
        assert(cell_ok(stack.spec_all_layers()[li]@[key], num));
        let entry = stack.layer_at_depth(depth)@[key];
        if entry is Some && !entry->0.spec_is_transparent() {
        } else if depth == stack@.len() {
        } else {
            lemma_resolve_ok(stack, key, depth + 1);
        }
    }
}

/// The position of the first held entry whose stored behavior equals `b`,
/// or the record's length when none matches.
pub open spec fn first_match_index(held: Seq<(usize, DefaultBehavior)>, b: DefaultBehavior) -> int
    decreases held.len(),
{
    if held.len() == 0 {
        0
    } else if held.first().1 == b {
        0
    } else {
        1 + first_match_index(held.drop_first(), b)
    }
}

/// The linear search and `first_match_index` agree on a found position.
pub proof fn lemma_first_match_found(held: Seq<(usize, DefaultBehavior)>, b: DefaultBehavior, i: int)
    requires
        0 <= i < held.len(),
        (#[trigger] held[i]).1 == b,
        forall|j: int| 0 <= j < i ==> (#[trigger] held[j]).1 != b,
    ensures
        first_match_index(held, b) == i,
    decreases i,
{
    if i == 0 {
    } else {
        assert(held[0].1 != b);
        assert(held.drop_first()[i - 1].1 == b);
        assert forall|j: int| 0 <= j < i - 1 implies (#[trigger] held.drop_first()[j]).1 != b by {
            assert(held[j + 1].1 != b);
        }
        lemma_first_match_found(held.drop_first(), b, i - 1);
    }
}

/// With no matching entry, `first_match_index` reports the record's length.
pub proof fn lemma_first_match_none(held: Seq<(usize, DefaultBehavior)>, b: DefaultBehavior)
    requires
        forall|j: int| 0 <= j < held.len() ==> (#[trigger] held[j]).1 != b,
    ensures
        first_match_index(held, b) == held.len(),
    decreases held.len(),
{
    if held.len() > 0 {
        assert(held[0].1 != b);
        assert forall|j: int|
            0 <= j < held.drop_first().len() implies (#[trigger] held.drop_first()[j]).1 != b by {
            assert(held[j + 1].1 != b);
        }
        lemma_first_match_none(held.drop_first(), b);
    }
}

/// The held record after one timer trigger: a pending hold/tap decision
/// advances the first matching entry's stored copy in place; untap triggers
/// leave the record alone.
pub open spec fn held_after_trigger(
    held: Seq<(usize, DefaultBehavior)>,
    trigger: TimerEvent,
) -> Seq<(usize, DefaultBehavior)> {
    match trigger {
        TimerEvent::Behavior(bt) => {
            let i = first_match_index(held, bt.behavior);
            if i < held.len() {
                held.update(i, (held[i].0, bt.behavior.after_timeout()))
            } else {
                held
            }
        },
        _ => held,
    }
}

/// The events appended by applying a run of triggers, in order.
pub open spec fn triggers_emitted(triggers: Seq<TimerEvent>) -> Seq<Event>
    decreases triggers.len(),
{
    if triggers.len() == 0 {
        Seq::empty()
    } else {
        timer_emitted_events(triggers.first()) + triggers_emitted(triggers.drop_first())
    }
}

/// The held record after applying a run of triggers, in order.
pub open spec fn held_after_triggers(
    held: Seq<(usize, DefaultBehavior)>,
    triggers: Seq<TimerEvent>,
) -> Seq<(usize, DefaultBehavior)>
    decreases triggers.len(),
{
    if triggers.len() == 0 {
        held
    } else {
        held_after_triggers(held_after_trigger(held, triggers.first()), triggers.drop_first())
    }
}

/// Extending a run of triggers by one appends that trigger's events.
pub proof fn lemma_triggers_emitted_snoc(triggers: Seq<TimerEvent>, t: TimerEvent)
    ensures
        triggers_emitted(triggers.push(t)) == triggers_emitted(triggers) + timer_emitted_events(t),
    decreases triggers.len(),
{
    if triggers.len() == 0 {
        assert(triggers.push(t).first() == t);
        assert(triggers.push(t).drop_first() =~= Seq::<TimerEvent>::empty());
        assert(timer_emitted_events(t) + triggers_emitted(Seq::empty()) =~= triggers_emitted(
            triggers,
        ) + timer_emitted_events(t));
    } else {
        assert(triggers.push(t).first() == triggers.first());
        assert(triggers.push(t).drop_first() =~= triggers.drop_first().push(t));
        lemma_triggers_emitted_snoc(triggers.drop_first(), t);
        assert(timer_emitted_events(triggers.first()) + (triggers_emitted(triggers.drop_first())
            + timer_emitted_events(t)) =~= (timer_emitted_events(triggers.first())
            + triggers_emitted(triggers.drop_first())) + timer_emitted_events(t));
    }
}

/// Extending a run of triggers by one applies that trigger last.
pub proof fn lemma_held_after_snoc(
    held: Seq<(usize, DefaultBehavior)>,
    triggers: Seq<TimerEvent>,
    t: TimerEvent,
)
    ensures
        held_after_triggers(held, triggers.push(t)) == held_after_trigger(
            held_after_triggers(held, triggers),
            t,
        ),
    decreases triggers.len(),
{
    if triggers.len() == 0 {
        reveal_with_fuel(held_after_triggers, 2);
        assert(triggers.push(t).first() == t);
        assert(triggers.push(t).drop_first() =~= Seq::<TimerEvent>::empty());
    } else {
        assert(triggers.push(t).first() == triggers.first());
        assert(triggers.push(t).drop_first() =~= triggers.drop_first().push(t));
        lemma_held_after_snoc(held_after_trigger(held, triggers.first()), triggers.drop_first(), t);
    }
}

/// The decision core. `P` reads the physical keys, `T` reads the clock; both
/// are host collaborators the engine assumes nothing about.
pub struct State<P: PhysicalLayout, T: Timer> {
    layer_stack: LayerStack,
    layout: P,
    timer: T,
    vboard: VirtualKeyboard,
    event_queue: EventQueue,
    timer_queue: TimerQueue,
    held_keys: HeldKeyCollection,
    last_state: Vec<bool>,
    key_count: usize,
}

impl<P: PhysicalLayout, T: Timer> State<P, T> {
    /// The layer stack.
    pub closed spec fn spec_layer_stack(self) -> LayerStack {
        self.layer_stack
    }

    /// The virtual keyboard.
    pub closed spec fn spec_vboard(self) -> VirtualKeyboard {
        self.vboard
    }

    /// The event queue.
    pub closed spec fn spec_event_queue(self) -> EventQueue {
        self.event_queue
    }

    /// The timer queue.
    pub closed spec fn spec_timer_queue(self) -> TimerQueue {
        self.timer_queue
    }

    /// The held-key record.
    pub closed spec fn spec_held_keys(self) -> HeldKeyCollection {
        self.held_keys
    }

    /// The active overlay ids, bottom first.
    pub open spec fn spec_stack(self) -> Seq<usize> {
        self.spec_layer_stack()@
    }

    /// The configured layers, indexed by layer id.
    pub open spec fn spec_all_layers(self) -> Seq<Layer> {
        self.spec_layer_stack().spec_all_layers()
    }

    /// The set of currently pressed virtual keys.
    pub open spec fn spec_pressed(self) -> Set<Key> {
        self.spec_vboard()@
    }

    /// The pending events, oldest first.
    pub open spec fn spec_events(self) -> Seq<Event> {
        self.spec_event_queue()@
    }

    /// The pending timer triggers, earliest deadline first.
    pub open spec fn spec_timers(self) -> Seq<TimerEvent> {
        self.spec_timer_queue()@
    }

    /// The held-key record: one entry per pressed physical key.
    pub open spec fn spec_held(self) -> Seq<(usize, DefaultBehavior)> {
        self.spec_held_keys()@
    }

    /// The bitmap of the previous scan.
    pub closed spec fn spec_last(self) -> Seq<bool> {
        self.last_state@
    }

    /// How many physical keys the engine scans.
    pub closed spec fn spec_key_count(self) -> usize {
        self.key_count
    }

    /// The physical-layout collaborator.
    pub closed spec fn spec_layout(self) -> P {
        self.layout
    }

    /// The clock collaborator.
    pub closed spec fn spec_timer(self) -> T {
        self.timer
    }

    /// How many layers the configuration holds.
    pub open spec fn num_layers(self) -> int {
        self.spec_all_layers().len() as int
    }

    /// The clock-independent components the event drain acts on.
    pub open spec fn drain_model(self) -> DrainModel {
        DrainModel {
            pressed: self.spec_pressed(),
            stack: self.spec_stack(),
            queue: self.spec_events(),
            timers: self.spec_timers().len() as int,
        }
    }

    /// Every behavior stored in the configured layers names existing layers
    /// and starts in a releasable state.
    pub open spec fn config_ok(self) -> bool {
        forall|li: int, k: int|
            0 <= li < self.spec_all_layers().len() && 0 <= k < MAX_KEYS ==> cell_ok(
                #[trigger] self.spec_all_layers()[li]@[k],
                self.num_layers(),
            )
    }

    /// The engine invariant. Besides the well-formedness of each component:
    /// every queued event and trigger is fit for this configuration, every
    /// held behavior is releasable, and a physical key has a held entry
    /// exactly when the previous scan saw it pressed.
    pub open spec fn wf(self) -> bool {
        &&& self.spec_layer_stack().wf()
        &&& self.config_ok()
        &&& self.spec_key_count() <= self.spec_layer_stack().spec_keys()
        &&& self.spec_key_count() <= MAX_KEYS
        &&& self.spec_vboard().wf()
        &&& self.spec_event_queue().wf()
        &&& forall|i: int|
            0 <= i < self.spec_events().len() ==> event_ok(
                #[trigger] self.spec_events()[i],
                self.num_layers(),
            )
        &&& self.spec_timer_queue().wf()
        &&& forall|i: int|
            0 <= i < self.spec_timers().len() ==> trigger_ok(
                #[trigger] self.spec_timers()[i],
                self.num_layers(),
            )
        &&& self.spec_held_keys().wf()
        &&& forall|i: int|
            0 <= i < self.spec_held().len() ==> {
                &&& (#[trigger] self.spec_held()[i]).1.layers_ok(self.num_layers())
                &&& self.spec_held()[i].1.release_allowed()
                &&& self.spec_held()[i].0 < self.spec_key_count()
            }
        &&& self.spec_last().len() == MAX_KEYS
        &&& forall|k: usize|
            k < self.spec_key_count() ==> (self.spec_held_keys().contains_key(k)
                <==> self.spec_last()[k as int])
    }

    /// Replacing the collaborators (the layout and the clock) cannot break
    /// the engine invariant: it speaks only of the engine's own components.
    pub proof fn lemma_collaborators_do_not_affect_wf(a: State<P, T>, b: State<P, T>)
        requires
            a.wf(),
            b.spec_layer_stack() == a.spec_layer_stack(),
            b.spec_vboard() == a.spec_vboard(),
            b.spec_event_queue() == a.spec_event_queue(),
            b.spec_timer_queue() == a.spec_timer_queue(),
            b.spec_held_keys() == a.spec_held_keys(),
            b.spec_last() == a.spec_last(),
            b.spec_key_count() == a.spec_key_count(),
        ensures
            b.wf(),
    {
        assert(b.spec_events() == a.spec_events());
        assert(b.spec_timers() == a.spec_timers());
        assert(b.spec_held() == a.spec_held());
        assert(b.num_layers() == a.num_layers());
        assert forall|i: int|
            0 <= i < b.spec_events().len() implies event_ok(
            #[trigger] b.spec_events()[i],
            b.num_layers(),
        ) by {
            assert(event_ok(a.spec_events()[i], a.num_layers()));
        }
        assert forall|i: int|
            0 <= i < b.spec_timers().len() implies trigger_ok(
            #[trigger] b.spec_timers()[i],
            b.num_layers(),
        ) by {
            assert(trigger_ok(a.spec_timers()[i], a.num_layers()));
        }
        assert forall|i: int|
            0 <= i < b.spec_held().len() implies {
            &&& (#[trigger] b.spec_held()[i]).1.layers_ok(b.num_layers())
            &&& b.spec_held()[i].1.release_allowed()
            &&& b.spec_held()[i].0 < b.spec_key_count()
        } by {
            assert(a.spec_held()[i].1.layers_ok(a.num_layers()) && a.spec_held()[i].1.release_allowed()
                && a.spec_held()[i].0 < a.spec_key_count());
        }
        assert forall|k: usize|
            k < b.spec_key_count() implies (b.spec_held_keys().contains_key(k)
            <==> b.spec_last()[k as int]) by {
            assert(a.spec_held_keys().contains_key(k) <==> a.spec_last()[k as int]);
        }
    }

    /// A behavior fit for the configuration emits only events fit for it, at
    /// every callback.
    pub proof fn lemma_behavior_events_ok(b: DefaultBehavior, num_layers: int)
        requires
            b.layers_ok(num_layers),
            b.release_allowed(),
        ensures
            forall|i: int|
                0 <= i < b.press_events().len() ==> event_ok(
                    #[trigger] b.press_events()[i],
                    num_layers,
                ),
            forall|i: int|
                0 <= i < b.release_events().len() ==> event_ok(
                    #[trigger] b.release_events()[i],
                    num_layers,
                ),
            forall|i: int|
                0 <= i < b.timeout_events().len() ==> event_ok(
                    #[trigger] b.timeout_events()[i],
                    num_layers,
                ),
    {
        match b {
            DefaultBehavior::NoArg(n) => {
                match n {
                    NoArgBehavior::KeyPress(_) => {},
                    NoArgBehavior::MomentaryLayer(_) => {},
                    NoArgBehavior::NoOp => {},
                    NoArgBehavior::Transparent => {},
                }
            },
            DefaultBehavior::HoldTap(h) => {
                assert(DefaultBehavior::NoArg(h.hold).layers_ok(num_layers));
                assert(DefaultBehavior::NoArg(h.tap).layers_ok(num_layers));
                assert(DefaultBehavior::NoArg(h.hold).release_allowed());
                assert(DefaultBehavior::NoArg(h.tap).release_allowed());
            },
        }
    }

    /// The invariant survives appending configuration-fit events to the
    /// event queue and at most one configuration-fit trigger to the timer
    /// queue, as long as the other engine components are untouched and the
    /// touched ones stay well-formed.
    proof fn lemma_wf_after_handle(a: State<P, T>, b: State<P, T>, added: Seq<Event>)
        requires
            a.wf(),
            b.spec_all_layers() == a.spec_all_layers(),
            b.spec_key_count() == a.spec_key_count(),
            b.spec_held_keys() == a.spec_held_keys(),
            b.spec_last() == a.spec_last(),
            b.spec_layer_stack().wf(),
            b.spec_vboard().wf(),
            b.spec_event_queue().wf(),
            b.spec_events() == a.spec_events() + added,
            forall|i: int|
                0 <= i < added.len() ==> event_ok(#[trigger] added[i], a.num_layers()),
            b.spec_timer_queue().wf(),
            b.spec_timers() == a.spec_timers() || (exists|idx: int, t: TimerEvent|
                #![auto]
                {
                    &&& 0 <= idx <= a.spec_timers().len()
                    &&& b.spec_timers() == a.spec_timers().insert(idx, t)
                    &&& trigger_ok(t, a.num_layers())
                }),
        ensures
            b.wf(),
    {
        assert(b.num_layers() == a.num_layers());
        assert(b.spec_held() == a.spec_held());
        assert forall|li: int, k: int|
            0 <= li < b.spec_all_layers().len() && 0 <= k < MAX_KEYS implies cell_ok(
            #[trigger] b.spec_all_layers()[li]@[k],
            b.num_layers(),
        ) by {
            assert(cell_ok(a.spec_all_layers()[li]@[k], a.num_layers()));
        }
        assert forall|i: int|
            0 <= i < b.spec_events().len() implies event_ok(
            #[trigger] b.spec_events()[i],
            b.num_layers(),
        ) by {
            if i < a.spec_events().len() {
                assert(b.spec_events()[i] == a.spec_events()[i]);
                assert(event_ok(a.spec_events()[i], a.num_layers()));
            } else {
                assert(b.spec_events()[i] == added[i - a.spec_events().len()]);
                assert(event_ok(added[i - a.spec_events().len()], a.num_layers()));
            }
        }
        if b.spec_timers() == a.spec_timers() {
            assert forall|i: int|
                0 <= i < b.spec_timers().len() implies trigger_ok(
                #[trigger] b.spec_timers()[i],
                b.num_layers(),
            ) by {
                assert(trigger_ok(a.spec_timers()[i], a.num_layers()));
            }
        } else {
            let (idx, t) = choose|idx: int, t: TimerEvent|
                #![auto]
                {
                    &&& 0 <= idx <= a.spec_timers().len()
                    &&& b.spec_timers() == a.spec_timers().insert(idx, t)
                    &&& trigger_ok(t, a.num_layers())
                };
            a.spec_timers().insert_ensures(idx, t);
            assert forall|i: int|
                0 <= i < b.spec_timers().len() implies trigger_ok(
                #[trigger] b.spec_timers()[i],
                b.num_layers(),
            ) by {
                if i < idx {
                    assert(b.spec_timers()[i] == a.spec_timers()[i]);
                    assert(trigger_ok(a.spec_timers()[i], a.num_layers()));
                } else if i == idx {
                    assert(b.spec_timers()[i] == t);
                } else {
                    assert(b.spec_timers()[i] == a.spec_timers()[i - 1]);
                    assert(trigger_ok(a.spec_timers()[i - 1], a.num_layers()));
                }
            }
        }
        assert forall|i: int|
            0 <= i < b.spec_held().len() implies {
            &&& (#[trigger] b.spec_held()[i]).1.layers_ok(b.num_layers())
            &&& b.spec_held()[i].1.release_allowed()
            &&& b.spec_held()[i].0 < b.spec_key_count()
        } by {
            assert(a.spec_held()[i].1.layers_ok(a.num_layers()) && a.spec_held()[
                i
            ].1.release_allowed() && a.spec_held()[i].0 < a.spec_key_count());
        }
        assert forall|k: usize|
            k < b.spec_key_count() implies (b.spec_held_keys().contains_key(k)
            <==> b.spec_last()[k as int]) by {
            assert(a.spec_held_keys().contains_key(k) <==> a.spec_last()[k as int]);
        }
    }

    /// Apply one queued event to the engine state. This is the whole of
    /// phase B for a single event: key events drive the virtual keyboard,
    /// layer events drive the layer stack, behavior edge events invoke the
    /// behavior callbacks and enqueue whatever they emit, and a synthesised
    /// tap presses its behavior now and schedules the matching release one
    /// tap interval ahead.
    pub fn handle_event(&mut self, event: Event) -> (r: Result<(), CapacityError>)
        requires
            old(self).wf(),
            event_ok(event, old(self).num_layers()),
        ensures
            final(self).wf(),
            final(self).spec_all_layers() == old(self).spec_all_layers(),
            final(self).spec_key_count() == old(self).spec_key_count(),
            final(self).spec_held_keys() == old(self).spec_held_keys(),
            final(self).spec_last() == old(self).spec_last(),
            final(self).spec_layout() == old(self).spec_layout(),
            final(self).spec_timer() == old(self).spec_timer(),
            (r == Err::<(), CapacityError>(CapacityError::EventQueueFull) <==> old(
                self,
            ).spec_events().len() + emitted_events(event).len() > EVENT_QUEUE_LEN),
            (r == Err::<(), CapacityError>(CapacityError::TimerQueueFull) <==> {
                &&& old(self).spec_events().len() + emitted_events(event).len()
                    <= EVENT_QUEUE_LEN
                &&& schedules_trigger(event)
                &&& old(self).spec_timers().len() >= TIMER_QUEUE_LEN
            }),
            (r == Err::<(), CapacityError>(CapacityError::LayerStackFull) <==> {
                &&& event matches Event::LayerEvent(LayerEvent::AddLayer(_))
                &&& old(self).spec_stack().len() >= MAX_LAYERS
            }),
            r is Err ==> *final(self) == *old(self),
            r is Ok ==> final(self).spec_events() == old(self).spec_events()
                + emitted_events(event),
            r is Ok ==> final(self).spec_pressed() == match event {
                Event::KeyEvent(ke) => apply_key_event(old(self).spec_pressed(), ke),
                _ => old(self).spec_pressed(),
            },
            r is Ok ==> final(self).spec_stack() == match event {
                Event::LayerEvent(LayerEvent::AddLayer(id)) => old(self).spec_stack().push(id),
                Event::LayerEvent(LayerEvent::RemoveDownToLayer(id)) => crate::layer::pop_until_spec(
                    old(self).spec_stack(),
                    id,
                ),
                _ => old(self).spec_stack(),
            },
            r is Ok && !schedules_trigger(event) ==> final(self).spec_timers() == old(
                self,
            ).spec_timers(),
            r is Ok && schedules_trigger(event) ==> exists|idx: int, t: TimerEvent|
                #![auto]
                {
                    &&& 0 <= idx <= old(self).spec_timers().len()
                    &&& final(self).spec_timers() == old(self).spec_timers().insert(idx, t)
                    &&& trigger_for(event, t)
                    &&& trigger_ok(t, old(self).num_layers())
                },
    {
        let ghost pre = *self;
        match event {
            Event::Noop => {
                proof {
                    assert(pre.spec_events() + emitted_events(event) =~= pre.spec_events());
                }
                Ok(())
            },
            Event::KeyEvent(ke) => {
                self.vboard.apply(ke);
                proof {
                    assert(self.spec_events() == pre.spec_events() + emitted_events(event))
                        by {
                        assert(pre.spec_events() + Seq::<Event>::empty() =~= pre.spec_events());
                    }
                    Self::lemma_wf_after_handle(pre, *self, Seq::empty());
                }
                Ok(())
            },
            Event::LayerEvent(LayerEvent::AddLayer(id)) => {
                if self.layer_stack.len() >= MAX_LAYERS {
                    Err(CapacityError::LayerStackFull)
                } else {
                    self.layer_stack.push(id);
                    proof {
                        assert(self.spec_events() == pre.spec_events() + emitted_events(
                            event,
                        )) by {
                            assert(pre.spec_events() + Seq::<Event>::empty()
                                =~= pre.spec_events());
                        }
                        Self::lemma_wf_after_handle(pre, *self, Seq::empty());
                    }
                    Ok(())
                }
            },
            Event::LayerEvent(LayerEvent::RemoveDownToLayer(id)) => {
                self.layer_stack.pop_until(id);
                proof {
                    assert(self.spec_events() == pre.spec_events() + emitted_events(event))
                        by {
                        assert(pre.spec_events() + Seq::<Event>::empty() =~= pre.spec_events());
                    }
                    Self::lemma_wf_after_handle(pre, *self, Seq::empty());
                }
                Ok(())
            },
            Event::BehaviorKeyEvent(bke) => {
                let ks = KeyState {  };
                let mut b = bke.behavior;
                let evec = if bke.is_press {
                    b.on_press(&ks)
                } else {
                    b.on_release(&ks)
                };
                if evec.len() > EVENT_QUEUE_LEN - self.event_queue.len {
                    return Err(CapacityError::EventQueueFull);
                }
                if bke.is_press {
                    let delay = b.try_get_delay();
                    if delay.is_some() && self.timer_queue.len() >= TIMER_QUEUE_LEN {
                        return Err(CapacityError::TimerQueueFull);
                    }
                }
                self.enqueue_all(&evec);
                proof {
                    Self::lemma_behavior_events_ok(bke.behavior, pre.num_layers());
                }
                if bke.is_press {
                    match b.try_get_delay() {
                        Some(d) => {
                            let now_us = self.timer.microseconds();
                            let deadline = Instant::from_micros(now_us).saturating_add_duration(
                                d,
                            );
                            self.timer_queue.insert(
                                TimerEvent::Behavior(
                                    BehaviorTimeoutEvent { behavior: b, instant: deadline },
                                ),
                            );
                        },
                        None => {},
                    }
                }
                proof {
                    Self::lemma_wf_after_handle(pre, *self, emitted_events(event));
                }
                Ok(())
            },
            Event::SpecialEvent(SpecialEvent::TapBehavior(tap)) => {
                let ks = KeyState {  };
                let mut b = tap;
                let evec = b.on_press(&ks);
                if evec.len() > EVENT_QUEUE_LEN - self.event_queue.len {
                    return Err(CapacityError::EventQueueFull);
                }
                if self.timer_queue.len() >= TIMER_QUEUE_LEN {
                    return Err(CapacityError::TimerQueueFull);
                }
                self.enqueue_all(&evec);
                proof {
                    Self::lemma_behavior_events_ok(tap, pre.num_layers());
                }
                let now_us = self.timer.microseconds();
                let deadline = Instant::from_micros(now_us).saturating_add_duration(
                    Duration::from_micros(TAP_DURATION_MICROS),
                );
                self.timer_queue.insert(
                    TimerEvent::UntapBehavior(
                        UntapBehaviorEvent { behavior: tap, instant: deadline },
                    ),
                );
                proof {
                    Self::lemma_wf_after_handle(pre, *self, emitted_events(event));
                }
                Ok(())
            },
        }
    }

    /// Append every event of `evec` to the event queue, in order.
    fn enqueue_all(&mut self, evec: &EVec)
        requires
            old(self).spec_event_queue().wf(),
            old(self).spec_events().len() + evec@.len() <= EVENT_QUEUE_LEN,
        ensures
            final(self).spec_event_queue().wf(),
            final(self).spec_events() == old(self).spec_events() + evec@,
            final(self).spec_layer_stack() == old(self).spec_layer_stack(),
            final(self).spec_vboard() == old(self).spec_vboard(),
            final(self).spec_timer_queue() == old(self).spec_timer_queue(),
            final(self).spec_held_keys() == old(self).spec_held_keys(),
            final(self).spec_last() == old(self).spec_last(),
            final(self).spec_key_count() == old(self).spec_key_count(),
            final(self).spec_layout() == old(self).spec_layout(),
            final(self).spec_timer() == old(self).spec_timer(),
    {
        let mut i: usize = 0;
        let n = evec.len();
        while i < n
            invariant
                i <= n,
                n == evec@.len(),
                self.spec_event_queue().wf(),
                self.spec_events() == old(self).spec_events() + evec@.take(i as int),
                old(self).spec_events().len() + evec@.len() <= EVENT_QUEUE_LEN,
                self.spec_layer_stack() == old(self).spec_layer_stack(),
                self.spec_vboard() == old(self).spec_vboard(),
                self.spec_timer_queue() == old(self).spec_timer_queue(),
                self.spec_held_keys() == old(self).spec_held_keys(),
                self.spec_last() == old(self).spec_last(),
                self.spec_key_count() == old(self).spec_key_count(),
                self.spec_layout() == old(self).spec_layout(),
                self.spec_timer() == old(self).spec_timer(),
            decreases n - i,
        {
            self.event_queue.push_back(evec.get(i));
            proof {
                assert(old(self).spec_events() + evec@.take(i as int + 1) =~= (old(
                    self,
                ).spec_events() + evec@.take(i as int)).push(evec@[i as int]));
            }
            i += 1;
        }
        proof {
            assert(evec@.take(n as int) =~= evec@);
        }
    }

    /// A hold/tap decision fired by the clock leaves the behavior copy as
    /// releasable, and naming the same layers, as before.
    pub proof fn lemma_after_timeout_preserved(b: DefaultBehavior, num_layers: int)
        ensures
            b.after_timeout().release_allowed() == b.release_allowed(),
            b.after_timeout().layers_ok(num_layers) == b.layers_ok(num_layers),
    {
        match b {
            DefaultBehavior::NoArg(_) => {},
            DefaultBehavior::HoldTap(_) => {},
        }
    }

    /// The invariant survives replacing held behaviors in place (same keys,
    /// still configuration-fit) while appending configuration-fit events,
    /// with the other components untouched.
    proof fn lemma_wf_after_timer(a: State<P, T>, b: State<P, T>, added: Seq<Event>)
        requires
            a.wf(),
            b.spec_layer_stack() == a.spec_layer_stack(),
            b.spec_vboard() == a.spec_vboard(),
            b.spec_timer_queue() == a.spec_timer_queue(),
            b.spec_last() == a.spec_last(),
            b.spec_key_count() == a.spec_key_count(),
            b.spec_event_queue().wf(),
            b.spec_events() == a.spec_events() + added,
            forall|i: int|
                0 <= i < added.len() ==> event_ok(#[trigger] added[i], a.num_layers()),
            b.spec_held_keys().wf(),
            b.spec_held().len() == a.spec_held().len(),
            forall|i: int|
                0 <= i < b.spec_held().len() ==> (#[trigger] b.spec_held()[i]).0 == a.spec_held()[
                    i
                ].0,
            forall|i: int|
                0 <= i < b.spec_held().len() ==> (#[trigger] b.spec_held()[i]).1.layers_ok(
                    a.num_layers(),
                ) && b.spec_held()[i].1.release_allowed(),
        ensures
            b.wf(),
    {
        assert(b.num_layers() == a.num_layers());
        assert(b.spec_timers() == a.spec_timers());
        assert forall|li: int, k: int|
            0 <= li < b.spec_all_layers().len() && 0 <= k < MAX_KEYS implies cell_ok(
            #[trigger] b.spec_all_layers()[li]@[k],
            b.num_layers(),
        ) by {
            assert(cell_ok(a.spec_all_layers()[li]@[k], a.num_layers()));
        }
        assert forall|i: int|
            0 <= i < b.spec_events().len() implies event_ok(
            #[trigger] b.spec_events()[i],
            b.num_layers(),
        ) by {
            if i < a.spec_events().len() {
                assert(b.spec_events()[i] == a.spec_events()[i]);
                assert(event_ok(a.spec_events()[i], a.num_layers()));
            } else {
                assert(b.spec_events()[i] == added[i - a.spec_events().len()]);
                assert(event_ok(added[i - a.spec_events().len()], a.num_layers()));
            }
        }
        assert forall|i: int|
            0 <= i < b.spec_timers().len() implies trigger_ok(
            #[trigger] b.spec_timers()[i],
            b.num_layers(),
        ) by {
            assert(trigger_ok(a.spec_timers()[i], a.num_layers()));
        }
        assert forall|i: int|
            0 <= i < b.spec_held().len() implies {
            &&& (#[trigger] b.spec_held()[i]).1.layers_ok(b.num_layers())
            &&& b.spec_held()[i].1.release_allowed()
            &&& b.spec_held()[i].0 < b.spec_key_count()
        } by {
            assert(a.spec_held()[i].0 < a.spec_key_count());
        }
        assert forall|k: usize|
            k < b.spec_key_count() implies (b.spec_held_keys().contains_key(k)
            <==> b.spec_last()[k as int]) by {
            assert(a.spec_held_keys().contains_key(k) <==> a.spec_last()[k as int]);
            if a.spec_held_keys().contains_key(k) {
                let j = choose|j: int|
                    0 <= j < a.spec_held().len() && (#[trigger] a.spec_held()[j]).0 == k;
                assert(b.spec_held()[j].0 == k);
            }
            if b.spec_held_keys().contains_key(k) {
                let j = choose|j: int|
                    0 <= j < b.spec_held().len() && (#[trigger] b.spec_held()[j]).0 == k;
                assert(a.spec_held()[j].0 == k);
            }
        }
    }

    /// Apply one due timer trigger: phase A for a single trigger. A pending
    /// hold/tap decision fires `after_delay` on the carried behavior copy,
    /// enqueues whatever it emits, and re-stores the advanced copy over the
    /// matching held entry so the eventual release sees the decided state
    /// machine; a scheduled untap enqueues the matching release event.
    pub fn apply_timer_event(&mut self, trigger: TimerEvent) -> (r: Result<(), CapacityError>)
        requires
            old(self).wf(),
            trigger_ok(trigger, old(self).num_layers()),
        ensures
            final(self).wf(),
            final(self).spec_all_layers() == old(self).spec_all_layers(),
            final(self).spec_key_count() == old(self).spec_key_count(),
            final(self).spec_last() == old(self).spec_last(),
            final(self).spec_stack() == old(self).spec_stack(),
            final(self).spec_pressed() == old(self).spec_pressed(),
            final(self).spec_timer_queue() == old(self).spec_timer_queue(),
            final(self).spec_layout() == old(self).spec_layout(),
            final(self).spec_timer() == old(self).spec_timer(),
            (r == Err::<(), CapacityError>(CapacityError::EventQueueFull) <==> old(
                self,
            ).spec_events().len() + timer_emitted_events(trigger).len() > EVENT_QUEUE_LEN),
            r is Err ==> r == Err::<(), CapacityError>(CapacityError::EventQueueFull),
            r is Err ==> *final(self) == *old(self),
            r is Ok ==> final(self).spec_events() == old(self).spec_events()
                + timer_emitted_events(trigger),
            r is Ok ==> final(self).spec_held() == held_after_trigger(
                old(self).spec_held(),
                trigger,
            ),
    {
        let ghost pre = *self;
        match trigger {
            TimerEvent::Behavior(bt) => {
                let ks = KeyState {  };
                let mut b = bt.behavior;

                // Locate the first held entry whose stored behavior equals
                // the carried copy; structural equality suffices for the
                // closed behavior universe.
                let mut found: Option<usize> = None;
                let n = self.held_keys.len();
                let mut i: usize = 0;
                while i < n
                    invariant
                        i <= n,
                        n == self.spec_held().len(),
                        *self == pre,
                        b == bt.behavior,
                        match found {
                            None => forall|j: int|
                                0 <= j < i ==> (#[trigger] self.spec_held()[j]).1 != bt.behavior,
                            Some(f) => {
                                &&& f < i
                                &&& self.spec_held()[f as int].1 == bt.behavior
                                &&& forall|j: int|
                                    0 <= j < f ==> (#[trigger] self.spec_held()[j]).1
                                        != bt.behavior
                            },
                        },
                    decreases n - i,
                {
                    if found.is_none() {
                        let entry = self.held_keys.get(i);
                        if entry.1 == b {
                            found = Some(i);
                        }
                    }
                    i += 1;
                }

                let evec = b.after_delay(&ks);
                if evec.len() > EVENT_QUEUE_LEN - self.event_queue.len {
                    return Err(CapacityError::EventQueueFull);
                }
                self.enqueue_all(&evec);
                proof {
                    Self::lemma_behavior_events_ok(bt.behavior, pre.num_layers());
                }
                match found {
                    Some(f) => {
                        let entry = self.held_keys.get(f);
                        proof {
                            assert(self.spec_held()[f as int].0 == entry.0);
                        }
                        self.held_keys.replace(entry.0, b);
                        proof {
                            let j = choose|j: int|
                                {
                                    &&& 0 <= j < pre.spec_held().len()
                                    &&& (#[trigger] pre.spec_held()[j]).0 == entry.0
                                    &&& self.spec_held() == pre.spec_held().update(
                                        j,
                                        (entry.0, b),
                                    )
                                };
                            // Key uniqueness pins the replaced position to the
                            // one the search found.
                            assert(j == f as int);
                            lemma_first_match_found(pre.spec_held(), bt.behavior, f as int);
                        }
                    },
                    None => {
                        proof {
                            lemma_first_match_none(pre.spec_held(), bt.behavior);
                        }
                    },
                }
                proof {
                    Self::lemma_after_timeout_preserved(bt.behavior, pre.num_layers());
                    Self::lemma_wf_after_timer(pre, *self, bt.behavior.timeout_events());
                }
                Ok(())
            },
            TimerEvent::UntapKey(e) => {
                if self.event_queue.len >= EVENT_QUEUE_LEN {
                    return Err(CapacityError::EventQueueFull);
                }
                self.event_queue.push_back(Event::key_up(e.key));
                proof {
                    assert(self.spec_events() =~= pre.spec_events()
                        + timer_emitted_events(trigger));
                    Self::lemma_wf_after_timer(pre, *self, timer_emitted_events(trigger));
                }
                Ok(())
            },
            TimerEvent::UntapBehavior(e) => {
                if self.event_queue.len >= EVENT_QUEUE_LEN {
                    return Err(CapacityError::EventQueueFull);
                }
                self.event_queue.push_back(Event::bkey_up(e.behavior));
                proof {
                    assert(self.spec_events() =~= pre.spec_events()
                        + timer_emitted_events(trigger));
                    Self::lemma_wf_after_timer(pre, *self, timer_emitted_events(trigger));
                }
                Ok(())
            },
        }
    }

    /// The invariant survives removing the earliest timer trigger.
    proof fn lemma_wf_after_pop_trigger(a: State<P, T>, b: State<P, T>)
        requires
            a.wf(),
            a.spec_timers().len() > 0,
            b.spec_layer_stack() == a.spec_layer_stack(),
            b.spec_vboard() == a.spec_vboard(),
            b.spec_event_queue() == a.spec_event_queue(),
            b.spec_held_keys() == a.spec_held_keys(),
            b.spec_last() == a.spec_last(),
            b.spec_key_count() == a.spec_key_count(),
            b.spec_timer_queue().wf(),
            b.spec_timers() == a.spec_timers().drop_first(),
        ensures
            b.wf(),
    {
        assert(b.num_layers() == a.num_layers());
        assert forall|li: int, k: int|
            0 <= li < b.spec_all_layers().len() && 0 <= k < MAX_KEYS implies cell_ok(
            #[trigger] b.spec_all_layers()[li]@[k],
            b.num_layers(),
        ) by {
            assert(cell_ok(a.spec_all_layers()[li]@[k], a.num_layers()));
        }
        assert forall|i: int|
            0 <= i < b.spec_events().len() implies event_ok(
            #[trigger] b.spec_events()[i],
            b.num_layers(),
        ) by {
            assert(event_ok(a.spec_events()[i], a.num_layers()));
        }
        assert forall|i: int|
            0 <= i < b.spec_timers().len() implies trigger_ok(
            #[trigger] b.spec_timers()[i],
            b.num_layers(),
        ) by {
            assert(b.spec_timers()[i] == a.spec_timers()[i + 1]);
            assert(trigger_ok(a.spec_timers()[i + 1], a.num_layers()));
        }
        assert forall|i: int|
            0 <= i < b.spec_held().len() implies {
            &&& (#[trigger] b.spec_held()[i]).1.layers_ok(b.num_layers())
            &&& b.spec_held()[i].1.release_allowed()
            &&& b.spec_held()[i].0 < b.spec_key_count()
        } by {
            assert(a.spec_held()[i].0 < a.spec_key_count());
        }
        assert forall|k: usize|
            k < b.spec_key_count() implies (b.spec_held_keys().contains_key(k)
            <==> b.spec_last()[k as int]) by {
            assert(a.spec_held_keys().contains_key(k) <==> a.spec_last()[k as int]);
        }
    }

    /// Phase A: pop every timer trigger whose deadline has passed and apply
    /// its consequence, earliest deadline first. How long a prefix is due
    /// depends on the host clock, so the contract fixes, for whatever prefix
    /// was popped, exactly the events it appended and the held entries it
    /// advanced.
    pub fn drain_timers(&mut self) -> (r: Result<(), CapacityError>)
        requires
            old(self).wf(),
        ensures
            final(self).wf(),
            final(self).spec_all_layers() == old(self).spec_all_layers(),
            final(self).spec_key_count() == old(self).spec_key_count(),
            final(self).spec_last() == old(self).spec_last(),
            final(self).spec_stack() == old(self).spec_stack(),
            final(self).spec_pressed() == old(self).spec_pressed(),
            final(self).spec_layout() == old(self).spec_layout(),
            final(self).spec_timer() == old(self).spec_timer(),
            old(self).spec_timers().len() == 0 ==> r is Ok,
            r is Err ==> r == Err::<(), CapacityError>(CapacityError::EventQueueFull),
            exists|k: int|
                {
                    &&& 0 <= k <= old(self).spec_timers().len()
                    &&& final(self).spec_timers() == #[trigger] old(self).spec_timers().skip(k)
                    &&& (r is Ok ==> {
                        &&& final(self).spec_events() == old(self).spec_events()
                            + triggers_emitted(old(self).spec_timers().take(k))
                        &&& final(self).spec_held() == held_after_triggers(
                            old(self).spec_held(),
                            old(self).spec_timers().take(k),
                        )
                    })
                },
    {
        let ghost orig = *self;
        let ghost mut k: int = 0;
        loop
            invariant
                orig == *old(self),
                self.wf(),
                0 <= k <= orig.spec_timers().len(),
                self.spec_timers() == orig.spec_timers().skip(k),
                self.spec_events() == orig.spec_events() + triggers_emitted(
                    orig.spec_timers().take(k),
                ),
                self.spec_held() == held_after_triggers(
                    orig.spec_held(),
                    orig.spec_timers().take(k),
                ),
                self.spec_all_layers() == orig.spec_all_layers(),
                self.spec_key_count() == orig.spec_key_count(),
                self.spec_last() == orig.spec_last(),
                self.spec_stack() == orig.spec_stack(),
                self.spec_pressed() == orig.spec_pressed(),
                self.spec_layout() == orig.spec_layout(),
                self.spec_timer() == orig.spec_timer(),
            decreases self.spec_timers().len(),
        {
            proof {
                if k == 0 {
                    assert(orig.spec_timers().take(0) =~= Seq::<TimerEvent>::empty());
                    assert(orig.spec_events() + triggers_emitted(Seq::empty())
                        =~= orig.spec_events());
                }
            }
            match self.timer_queue.peek_front() {
                Some(t) => {
                    let now_us = self.timer.microseconds();
                    if t.instant().micros() <= now_us {
                        let ghost mid = *self;
                        self.timer_queue.pop_front();
                        proof {
                            assert(t == orig.spec_timers()[k]);
                            assert(trigger_ok(mid.spec_timers()[0], mid.num_layers()));
                            Self::lemma_wf_after_pop_trigger(mid, *self);
                            k = k + 1;
                            assert(self.spec_timers() =~= orig.spec_timers().skip(k));
                        }
                        match self.apply_timer_event(t) {
                            Ok(()) => {
                                proof {
                                    // One more trigger's consequences folded in.
                                    assert(orig.spec_timers().take(k) =~= orig.spec_timers().take(
                                        k - 1,
                                    ).push(t));
                                    lemma_triggers_emitted_snoc(
                                        orig.spec_timers().take(k - 1),
                                        t,
                                    );
                                    lemma_held_after_snoc(
                                        orig.spec_held(),
                                        orig.spec_timers().take(k - 1),
                                        t,
                                    );
                                    assert(self.spec_events() =~= orig.spec_events()
                                        + triggers_emitted(orig.spec_timers().take(k)));
                                }
                            },
                            Err(err) => {
                                return Err(err);
                            },
                        }
                    } else {
                        return Ok(());
                    }
                },
                None => {
                    return Ok(());
                },
            }
        }
    }

    /// The invariant survives removing the oldest queued event.
    proof fn lemma_wf_after_pop_event(a: State<P, T>, b: State<P, T>)
        requires
            a.wf(),
            a.spec_events().len() > 0,
            b.spec_layer_stack() == a.spec_layer_stack(),
            b.spec_vboard() == a.spec_vboard(),
            b.spec_timer_queue() == a.spec_timer_queue(),
            b.spec_held_keys() == a.spec_held_keys(),
            b.spec_last() == a.spec_last(),
            b.spec_key_count() == a.spec_key_count(),
            b.spec_event_queue().wf(),
            b.spec_events() == a.spec_events().drop_first(),
        ensures
            b.wf(),
    {
        assert(b.num_layers() == a.num_layers());
        assert forall|li: int, k: int|
            0 <= li < b.spec_all_layers().len() && 0 <= k < MAX_KEYS implies cell_ok(
            #[trigger] b.spec_all_layers()[li]@[k],
            b.num_layers(),
        ) by {
            assert(cell_ok(a.spec_all_layers()[li]@[k], a.num_layers()));
        }
        assert forall|i: int|
            0 <= i < b.spec_events().len() implies event_ok(
            #[trigger] b.spec_events()[i],
            b.num_layers(),
        ) by {
            assert(b.spec_events()[i] == a.spec_events()[i + 1]);
            assert(event_ok(a.spec_events()[i + 1], a.num_layers()));
        }
        assert forall|i: int|
            0 <= i < b.spec_timers().len() implies trigger_ok(
            #[trigger] b.spec_timers()[i],
            b.num_layers(),
        ) by {
            assert(trigger_ok(a.spec_timers()[i], a.num_layers()));
        }
        assert forall|i: int|
            0 <= i < b.spec_held().len() implies {
            &&& (#[trigger] b.spec_held()[i]).1.layers_ok(b.num_layers())
            &&& b.spec_held()[i].1.release_allowed()
            &&& b.spec_held()[i].0 < b.spec_key_count()
        } by {
            assert(a.spec_held()[i].0 < a.spec_key_count());
        }
        assert forall|k: usize|
            k < b.spec_key_count() implies (b.spec_held_keys().contains_key(k)
            <==> b.spec_last()[k as int]) by {
            assert(a.spec_held_keys().contains_key(k) <==> a.spec_last()[k as int]);
        }
    }

    /// Phase B: pop every queued event and apply it, strictly first in,
    /// first out. Events that handling enqueues are processed in the same
    /// drain, after everything queued before them. The result is exactly
    /// what [`drain_events_spec`] gives on the engine's drain model: either
    /// the drained pressed set, overlay stack and trigger count, or the
    /// capacity error on which the drain stops.
    pub fn drain_events(&mut self) -> (r: Result<(), CapacityError>)
        requires
            old(self).wf(),
        ensures
            final(self).wf(),
            final(self).spec_all_layers() == old(self).spec_all_layers(),
            final(self).spec_key_count() == old(self).spec_key_count(),
            final(self).spec_held_keys() == old(self).spec_held_keys(),
            final(self).spec_last() == old(self).spec_last(),
            final(self).spec_layout() == old(self).spec_layout(),
            final(self).spec_timer() == old(self).spec_timer(),
            match drain_events_spec(old(self).drain_model()) {
                Ok(m) => {
                    &&& r is Ok
                    &&& final(self).spec_pressed() == m.pressed
                    &&& final(self).spec_stack() == m.stack
                    &&& final(self).spec_events() == m.queue
                    &&& final(self).spec_events().len() == 0
                    &&& final(self).spec_timers().len() == m.timers
                },
                Err(err) => r == Err::<(), CapacityError>(err),
            },
    {
        let ghost orig = *self;
        loop
            invariant
                orig == *old(self),
                self.wf(),
                drain_events_spec(self.drain_model()) == drain_events_spec(orig.drain_model()),
                self.spec_all_layers() == orig.spec_all_layers(),
                self.spec_key_count() == orig.spec_key_count(),
                self.spec_held_keys() == orig.spec_held_keys(),
                self.spec_last() == orig.spec_last(),
                self.spec_layout() == orig.spec_layout(),
                self.spec_timer() == orig.spec_timer(),
            decreases events_weight(self.spec_events()),
        {
            let ghost before = *self;
            match self.event_queue.pop_front() {
                Some(event) => {
                    proof {
                        assert(event == before.spec_events()[0]);
                        assert(event_ok(before.spec_events()[0], before.num_layers()));
                        Self::lemma_wf_after_pop_event(before, *self);
                    }
                    let ghost mid = *self;
                    let ghost rest = DrainModel {
                        queue: before.drain_model().queue.drop_first(),
                        ..before.drain_model()
                    };
                    proof {
                        assert(mid.drain_model() == rest);
                        assert(before.spec_events().first() == event);
                    }
                    match self.handle_event(event) {
                        Ok(()) => {},
                        Err(err) => {
                            proof {
                                // The handler's error characterizations are
                                // exactly the model's checks, so the model
                                // drain stops on the same error here.
                                assert(model_step(rest, event) == Err::<
                                    DrainModel,
                                    CapacityError,
                                >(err));
                                assert(drain_events_spec(before.drain_model()) == Err::<
                                    DrainModel,
                                    CapacityError,
                                >(err));
                            }
                            return Err(err);
                        },
                    }
                    proof {
                        // The handler advanced the state to the model's next
                        // step, so the drained outcome is unchanged.
                        assert(self.spec_timers().len() == rest.timers + if schedules_trigger(
                            event,
                        ) {
                            1int
                        } else {
                            0int
                        }) by {
                            if schedules_trigger(event) {
                                let (idx, t) = choose|idx: int, t: TimerEvent|
                                    #![auto]
                                    {
                                        &&& 0 <= idx <= mid.spec_timers().len()
                                        &&& self.spec_timers() == mid.spec_timers().insert(idx, t)
                                        &&& trigger_for(event, t)
                                        &&& trigger_ok(t, mid.num_layers())
                                    };
                                mid.spec_timers().insert_ensures(idx, t);
                            }
                        }
                        assert(model_step(rest, event) == Ok::<DrainModel, CapacityError>(
                            self.drain_model(),
                        )) by {
                            assert(self.drain_model().pressed == match event {
                                Event::KeyEvent(ke) => apply_key_event(rest.pressed, ke),
                                _ => rest.pressed,
                            });
                        }
                        assert(drain_events_spec(before.drain_model()) == drain_events_spec(
                            self.drain_model(),
                        ));
                        lemma_events_weight_concat(mid.spec_events(), emitted_events(event));
                        lemma_emitted_weight_decreases(event);
                        assert(before.spec_events() =~= seq![event]
                            + before.spec_events().drop_first());
                        lemma_events_weight_concat(seq![event], before.spec_events().drop_first());
                        reveal_with_fuel(events_weight, 2);
                        assert(events_weight(seq![event]) == event_weight(event));
                        assert(events_weight(self.spec_events()) < events_weight(
                            before.spec_events(),
                        ));
                    }
                },
                None => {
                    proof {
                        assert(before.spec_events() + Seq::<Event>::empty()
                            =~= self.spec_events());
                        Self::lemma_wf_after_handle(before, *self, Seq::empty());
                        assert(drain_events_spec(self.drain_model()) == Ok::<
                            DrainModel,
                            CapacityError,
                        >(self.drain_model()));
                    }
                    return Ok(());
                },
            }
        }
    }

    /// The invariant survives recording one rising edge: a behavior press
    /// event enqueued, a held entry added, and the scan bit set.
    proof fn lemma_wf_after_scan_press(a: State<P, T>, b: State<P, T>, k: usize, bh: DefaultBehavior)
        requires
            a.wf(),
            k < a.spec_key_count(),
            !a.spec_held_keys().contains_key(k),
            bh.layers_ok(a.num_layers()),
            bh.release_allowed(),
            b.spec_layer_stack() == a.spec_layer_stack(),
            b.spec_vboard() == a.spec_vboard(),
            b.spec_timer_queue() == a.spec_timer_queue(),
            b.spec_key_count() == a.spec_key_count(),
            b.spec_event_queue().wf(),
            b.spec_events() == a.spec_events().push(
                Event::BehaviorKeyEvent(BehaviorKeyEvent { behavior: bh, is_press: true }),
            ),
            b.spec_held_keys().wf(),
            b.spec_held() == a.spec_held().push((k, bh)),
            b.spec_last() == a.spec_last().update(k as int, true),
        ensures
            b.wf(),
    {
        assert(b.num_layers() == a.num_layers());
        assert forall|li: int, kk: int|
            0 <= li < b.spec_all_layers().len() && 0 <= kk < MAX_KEYS implies cell_ok(
            #[trigger] b.spec_all_layers()[li]@[kk],
            b.num_layers(),
        ) by {
            assert(cell_ok(a.spec_all_layers()[li]@[kk], a.num_layers()));
        }
        assert forall|i: int|
            0 <= i < b.spec_events().len() implies event_ok(
            #[trigger] b.spec_events()[i],
            b.num_layers(),
        ) by {
            if i < a.spec_events().len() {
                assert(b.spec_events()[i] == a.spec_events()[i]);
                assert(event_ok(a.spec_events()[i], a.num_layers()));
            }
        }
        assert forall|i: int|
            0 <= i < b.spec_timers().len() implies trigger_ok(
            #[trigger] b.spec_timers()[i],
            b.num_layers(),
        ) by {
            assert(trigger_ok(a.spec_timers()[i], a.num_layers()));
        }
        assert forall|i: int|
            0 <= i < b.spec_held().len() implies {
            &&& (#[trigger] b.spec_held()[i]).1.layers_ok(b.num_layers())
            &&& b.spec_held()[i].1.release_allowed()
            &&& b.spec_held()[i].0 < b.spec_key_count()
        } by {
            if i < a.spec_held().len() {
                assert(b.spec_held()[i] == a.spec_held()[i]);
                assert(a.spec_held()[i].0 < a.spec_key_count());
            }
        }
        assert forall|kk: usize|
            kk < b.spec_key_count() implies (b.spec_held_keys().contains_key(kk)
            <==> b.spec_last()[kk as int]) by {
            assert(a.spec_held_keys().contains_key(kk) <==> a.spec_last()[kk as int]);
            if kk == k {
                assert(b.spec_held()[a.spec_held().len() as int].0 == k);
                assert(b.spec_held_keys().contains_key(k));
            } else {
                if a.spec_held_keys().contains_key(kk) {
                    let j = choose|j: int|
                        0 <= j < a.spec_held().len() && (#[trigger] a.spec_held()[j]).0 == kk;
                    assert(b.spec_held()[j].0 == kk);
                }
                if b.spec_held_keys().contains_key(kk) {
                    let j = choose|j: int|
                        0 <= j < b.spec_held().len() && (#[trigger] b.spec_held()[j]).0 == kk;
                    assert(j < a.spec_held().len());
                    assert(a.spec_held()[j].0 == kk);
                }
            }
        }
    }

    /// The invariant survives recording one falling edge: the stored
    /// behavior's release event enqueued, the held entry removed, and the
    /// scan bit cleared.
    proof fn lemma_wf_after_scan_release(a: State<P, T>, b: State<P, T>, k: usize, i: int)
        requires
            a.wf(),
            k < a.spec_key_count(),
            0 <= i < a.spec_held().len(),
            a.spec_held()[i].0 == k,
            b.spec_layer_stack() == a.spec_layer_stack(),
            b.spec_vboard() == a.spec_vboard(),
            b.spec_timer_queue() == a.spec_timer_queue(),
            b.spec_key_count() == a.spec_key_count(),
            b.spec_event_queue().wf(),
            b.spec_events() == a.spec_events().push(
                Event::BehaviorKeyEvent(
                    BehaviorKeyEvent { behavior: a.spec_held()[i].1, is_press: false },
                ),
            ),
            b.spec_held_keys().wf(),
            b.spec_held() == a.spec_held().remove(i),
            b.spec_last() == a.spec_last().update(k as int, false),
        ensures
            b.wf(),
    {
        assert(b.num_layers() == a.num_layers());
        a.spec_held().remove_ensures(i);
        assert forall|li: int, kk: int|
            0 <= li < b.spec_all_layers().len() && 0 <= kk < MAX_KEYS implies cell_ok(
            #[trigger] b.spec_all_layers()[li]@[kk],
            b.num_layers(),
        ) by {
            assert(cell_ok(a.spec_all_layers()[li]@[kk], a.num_layers()));
        }
        assert forall|j: int|
            0 <= j < b.spec_events().len() implies event_ok(
            #[trigger] b.spec_events()[j],
            b.num_layers(),
        ) by {
            if j < a.spec_events().len() {
                assert(b.spec_events()[j] == a.spec_events()[j]);
                assert(event_ok(a.spec_events()[j], a.num_layers()));
            } else {
                assert(a.spec_held()[i].1.layers_ok(a.num_layers()) && a.spec_held()[
                    i
                ].1.release_allowed());
            }
        }
        assert forall|j: int|
            0 <= j < b.spec_timers().len() implies trigger_ok(
            #[trigger] b.spec_timers()[j],
            b.num_layers(),
        ) by {
            assert(trigger_ok(a.spec_timers()[j], a.num_layers()));
        }
        assert forall|j: int|
            0 <= j < b.spec_held().len() implies {
            &&& (#[trigger] b.spec_held()[j]).1.layers_ok(b.num_layers())
            &&& b.spec_held()[j].1.release_allowed()
            &&& b.spec_held()[j].0 < b.spec_key_count()
        } by {
            if j < i {
                assert(b.spec_held()[j] == a.spec_held()[j]);
                assert(a.spec_held()[j].0 < a.spec_key_count());
            } else {
                assert(b.spec_held()[j] == a.spec_held()[j + 1]);
                assert(a.spec_held()[j + 1].0 < a.spec_key_count());
            }
        }
        assert forall|kk: usize|
            kk < b.spec_key_count() implies (b.spec_held_keys().contains_key(kk)
            <==> b.spec_last()[kk as int]) by {
            assert(a.spec_held_keys().contains_key(kk) <==> a.spec_last()[kk as int]);
            if kk == k {
                assert(!b.spec_held_keys().contains_key(k)) by {
                    if b.spec_held_keys().contains_key(k) {
                        let j = choose|j: int|
                            0 <= j < b.spec_held().len() && (#[trigger] b.spec_held()[j]).0 == k;
                        if j < i {
                            assert(a.spec_held()[j].0 == k);
                            assert(a.spec_held()[j].0 != a.spec_held()[i].0);
                        } else {
                            assert(a.spec_held()[j + 1].0 == k);
                            assert(a.spec_held()[i].0 != a.spec_held()[j + 1].0);
                        }
                    }
                }
            } else {
                if a.spec_held_keys().contains_key(kk) {
                    let j = choose|j: int|
                        0 <= j < a.spec_held().len() && (#[trigger] a.spec_held()[j]).0 == kk;
                    assert(j != i);
                    if j < i {
                        assert(b.spec_held()[j].0 == kk);
                    } else {
                        assert(b.spec_held()[j - 1].0 == kk);
                    }
                }
                if b.spec_held_keys().contains_key(kk) {
                    let j = choose|j: int|
                        0 <= j < b.spec_held().len() && (#[trigger] b.spec_held()[j]).0 == kk;
                    if j < i {
                        assert(a.spec_held()[j].0 == kk);
                    } else {
                        assert(a.spec_held()[j + 1].0 == kk);
                    }
                }
            }
        }
    }

    /// What one scan over snapshot `bitmap` did: the edge events of every
    /// scanned key were appended in key order, the previous-scan bitmap now
    /// mirrors the snapshot, and the held-key record tracks exactly the
    /// pressed keys — fresh presses store the freshly resolved behavior,
    /// keys that stayed down keep their stored instance.
    pub open spec fn scan_post(pre: State<P, T>, post: State<P, T>, bitmap: Seq<bool>) -> bool {
        let stack = pre.spec_layer_stack();
        let held0 = pre.spec_held();
        let last0 = pre.spec_last();
        let kc = pre.spec_key_count();
        &&& post.spec_events() == pre.spec_events() + scan_events_upto(
            stack,
            held0,
            last0,
            bitmap,
            kc as int,
        )
        &&& forall|k: int| 0 <= k < kc ==> post.spec_last()[k] == scanned(bitmap, k)
        &&& forall|k: int| kc <= k < MAX_KEYS ==> post.spec_last()[k] == last0[k]
        &&& forall|k: usize|
            k < kc ==> (post.spec_held_keys().contains_key(k) <==> scanned(bitmap, k as int))
        &&& forall|k: usize|
            k < kc && scanned(bitmap, k as int) && last0[k as int] ==> held_behavior(
                post.spec_held(),
                k,
            ) == held_behavior(held0, k)
        &&& forall|k: usize|
            k < kc && scanned(bitmap, k as int) && !last0[k as int] ==> held_behavior(
                post.spec_held(),
                k,
            ) == stack.spec_find_key_behavior(k as int)
    }

    /// Phase C: read the current key bitmap from the layout, diff it against
    /// the previous scan, and for every edge enqueue one behavior event — a
    /// press of the freshly resolved behavior on a rising edge, a release of
    /// the *stored* instance on a falling edge — while keeping the held-key
    /// record in step. Keys the snapshot does not cover count as unpressed.
    /// When the event queue cannot take every edge, nothing is changed and
    /// the scan reports the overflow.
    pub fn scan_layout(&mut self) -> (r: Result<(), CapacityError>)
        requires
            old(self).wf(),
        ensures
            final(self).wf(),
            final(self).spec_layer_stack() == old(self).spec_layer_stack(),
            final(self).spec_vboard() == old(self).spec_vboard(),
            final(self).spec_timer_queue() == old(self).spec_timer_queue(),
            final(self).spec_key_count() == old(self).spec_key_count(),
            final(self).spec_layout() == old(self).spec_layout(),
            final(self).spec_timer() == old(self).spec_timer(),
            r is Err ==> r == Err::<(), CapacityError>(CapacityError::EventQueueFull),
            old(self).spec_events().len() + old(self).spec_key_count() <= EVENT_QUEUE_LEN
                ==> r is Ok,
            r is Ok ==> exists|bitmap: Seq<bool>|
                Self::scan_post(*old(self), *final(self), bitmap),
    {
        let ghost pre = *self;
        let ghost stackp = pre.spec_layer_stack();
        let ghost held0 = pre.spec_held();
        let ghost last0 = pre.spec_last();
        let ghost kc = pre.spec_key_count();
        let bitmap = self.layout.get_arr_copy();

        // First pass: count the edges, so an overflowing scan changes
        // nothing at all.
        let mut edges: usize = 0;
        let mut k: usize = 0;
        while k < self.key_count
            invariant
                pre.wf(),
                *self == (State { layout: self.layout, ..pre }),
                self.spec_layout() == pre.spec_layout(),
                k <= kc,
                kc == pre.spec_key_count(),
                stackp == pre.spec_layer_stack(),
                held0 == pre.spec_held(),
                last0 == pre.spec_last(),
                edges as int == scan_events_upto(stackp, held0, last0, bitmap@, k as int).len(),
                edges <= k,
            decreases kc - k,
        {
            let now = if k < bitmap.len() {
                bitmap[k]
            } else {
                false
            };
            let was = self.last_state[k];
            proof {
                assert(scan_events_upto(stackp, held0, last0, bitmap@, k + 1)
                    == scan_events_upto(stackp, held0, last0, bitmap@, k as int) + edge_events(
                    stackp,
                    held0,
                    last0,
                    bitmap@,
                    k as int,
                ));
                assert(scanned(bitmap@, k as int) == now);
                assert(last0[k as int] == was);
            }
            if now != was {
                edges += 1;
            }
            k += 1;
        }

        if edges > EVENT_QUEUE_LEN - self.event_queue.len {
            proof {
                lemma_scan_events_len_bound(stackp, held0, last0, bitmap@, kc as int);
            }
            return Err(CapacityError::EventQueueFull);
        }

        // Second pass: apply every edge in key order.
        let mut k: usize = 0;
        while k < self.key_count
            invariant
                self.wf(),
                k <= kc,
                kc == pre.spec_key_count(),
                self.spec_layer_stack() == stackp,
                self.spec_vboard() == pre.spec_vboard(),
                self.spec_timer_queue() == pre.spec_timer_queue(),
                self.spec_key_count() == kc,
                self.spec_layout() == pre.spec_layout(),
                self.spec_timer() == pre.spec_timer(),
                stackp == pre.spec_layer_stack(),
                held0 == pre.spec_held(),
                last0 == pre.spec_last(),
                last0.len() == MAX_KEYS,
                edges as int == scan_events_upto(stackp, held0, last0, bitmap@, kc as int).len(),
                pre.spec_events().len() + edges <= EVENT_QUEUE_LEN,
                self.spec_events() == pre.spec_events() + scan_events_upto(
                    stackp,
                    held0,
                    last0,
                    bitmap@,
                    k as int,
                ),
                forall|j: int| 0 <= j < k ==> self.spec_last()[j] == scanned(bitmap@, j),
                forall|j: int| k <= j < MAX_KEYS ==> self.spec_last()[j] == last0[j],
                forall|j: usize|
                    k <= j < kc ==> ((self.spec_held_keys().contains_key(j)
                        <==> pre.spec_held_keys().contains_key(j)) && (
                    self.spec_held_keys().contains_key(j) ==> held_behavior(self.spec_held(), j)
                        == held_behavior(held0, j))),
                forall|j: usize|
                    j < k && j < kc ==> (self.spec_held_keys().contains_key(j) <==> scanned(
                        bitmap@,
                        j as int,
                    )),
                forall|j: usize|
                    j < k && j < kc && scanned(bitmap@, j as int) && last0[j as int]
                        ==> held_behavior(self.spec_held(), j) == held_behavior(held0, j),
                forall|j: usize|
                    j < k && j < kc && scanned(bitmap@, j as int) && !last0[j as int]
                        ==> held_behavior(self.spec_held(), j) == stackp.spec_find_key_behavior(
                        j as int,
                    ),
            decreases kc - k,
        {
            let ghost it0 = *self;
            let now = if k < bitmap.len() {
                bitmap[k]
            } else {
                false
            };
            let was = self.last_state[k];
            proof {
                assert(scanned(bitmap@, k as int) == now);
                assert(last0[k as int] == was);
                assert(scan_events_upto(stackp, held0, last0, bitmap@, k + 1)
                    == scan_events_upto(stackp, held0, last0, bitmap@, k as int) + edge_events(
                    stackp,
                    held0,
                    last0,
                    bitmap@,
                    k as int,
                ));
            }
            if now && !was {
                let behavior = self.layer_stack.find_key_behavior(k);
                proof {
                    assert forall|li: int, kk: int|
                        0 <= li < stackp.spec_all_layers().len() && 0 <= kk < MAX_KEYS implies cell_ok(
                        #[trigger] stackp.spec_all_layers()[li]@[kk],
                        stackp.spec_all_layers().len() as int,
                    ) by {
                        assert(cell_ok(self.spec_all_layers()[li]@[kk], self.num_layers()));
                    }
                    lemma_resolve_ok(stackp, k as int, 0);
                    lemma_scan_events_monotone(stackp, held0, last0, bitmap@, k + 1, kc as int);
                    assert(self.spec_events().len() < pre.spec_events().len() + edges);
                }
                self.event_queue.push_back(Event::bkey_down(behavior));
                proof {
                    // The key was not held: the previous scan saw it up.
                    assert(it0.spec_held_keys().contains_key(k)
                        <==> pre.spec_held_keys().contains_key(k));
                    assert(pre.spec_held_keys().contains_key(k) <==> last0[k as int]);
                }
                self.held_keys.push(k, behavior);
                self.last_state[k] = true;
                proof {
                    Self::lemma_wf_after_scan_press(it0, *self, k, behavior);
                    assert(self.spec_events() =~= pre.spec_events() + scan_events_upto(
                        stackp,
                        held0,
                        last0,
                        bitmap@,
                        k + 1,
                    ));
                    // The fresh entry sits at the end; key uniqueness makes
                    // it the one `held_behavior` picks.
                    assert forall|j: usize|
                        j < k + 1 && j < kc && scanned(bitmap@, j as int) && !last0[j as int]
                            implies held_behavior(self.spec_held(), j)
                        == stackp.spec_find_key_behavior(j as int) by {
                        if j == k {
                            assert(self.spec_held()[it0.spec_held().len() as int]
                                == (k, behavior));
                            assert(self.spec_held_keys().contains_key(k));
                            let w = choose|i: int|
                                0 <= i < self.spec_held().len() && (#[trigger] self.spec_held()[
                                    i
                                ]).0 == k;
                            if w < it0.spec_held().len() {
                                assert(it0.spec_held()[w].0 == k);
                                assert(it0.spec_held_keys().contains_key(k));
                            }
                            assert(held_behavior(self.spec_held(), k) == behavior);
                        } else {
                            assert(held_behavior(it0.spec_held(), j)
                                == stackp.spec_find_key_behavior(j as int));
                            lemma_held_behavior_push(it0.spec_held(), (k, behavior), j);
                        }
                    }
                    assert forall|j: usize|
                        j < k + 1 && j < kc && scanned(bitmap@, j as int) && last0[j as int]
                            implies held_behavior(self.spec_held(), j) == held_behavior(held0, j)
                        by {
                        if j != k {
                            lemma_held_behavior_push(it0.spec_held(), (k, behavior), j);
                        }
                    }
                    assert forall|j: usize|
                        k + 1 <= j < kc implies ((self.spec_held_keys().contains_key(j)
                        <==> pre.spec_held_keys().contains_key(j)) && (
                    self.spec_held_keys().contains_key(j) ==> held_behavior(self.spec_held(), j)
                        == held_behavior(held0, j))) by {
                        lemma_contains_key_push(it0.spec_held(), (k, behavior), j);
                        if it0.spec_held_keys().contains_key(j) {
                            lemma_held_behavior_push(it0.spec_held(), (k, behavior), j);
                        }
                    }
                    assert forall|j: usize|
                        j < k + 1 && j < kc implies (self.spec_held_keys().contains_key(j)
                        <==> scanned(bitmap@, j as int)) by {
                        if j == k {
                            assert(self.spec_held()[it0.spec_held().len() as int].0 == k);
                        } else {
                            lemma_contains_key_push(it0.spec_held(), (k, behavior), j);
                        }
                    }
                }
            } else if !now && was {
                proof {
                    assert(it0.spec_held_keys().contains_key(k)
                        <==> pre.spec_held_keys().contains_key(k));
                    assert(pre.spec_held_keys().contains_key(k) <==> last0[k as int]);
                }
                let removed = self.held_keys.try_remove_key(k);
                let behavior = match removed {
                    Some(b) => b,
                    None => vstd::pervasive::unreached(),
                };
                let ghost ridx = choose|i: int|
                    {
                        &&& 0 <= i < it0.spec_held().len()
                        &&& (#[trigger] it0.spec_held()[i]).0 == k
                        &&& removed == Some(it0.spec_held()[i].1)
                        &&& self.spec_held() == it0.spec_held().remove(i)
                    };
                proof {
                    lemma_scan_events_monotone(stackp, held0, last0, bitmap@, k + 1, kc as int);
                    assert(self.spec_events().len() < pre.spec_events().len() + edges);
                    // The stored instance is the one the record gives for k.
                    assert(it0.spec_held()[ridx].1 == held_behavior(it0.spec_held(), k)) by {
                        let w = choose|i: int|
                            0 <= i < it0.spec_held().len() && (#[trigger] it0.spec_held()[i]).0
                                == k;
                        assert(w == ridx);
                    }
                    assert(held_behavior(it0.spec_held(), k) == held_behavior(held0, k));
                }
                self.event_queue.push_back(Event::bkey_up(behavior));
                self.last_state[k] = false;
                proof {
                    Self::lemma_wf_after_scan_release(it0, *self, k, ridx);
                    assert(self.spec_events() =~= pre.spec_events() + scan_events_upto(
                        stackp,
                        held0,
                        last0,
                        bitmap@,
                        k + 1,
                    ));
                    it0.spec_held().remove_ensures(ridx);
                    assert forall|j: usize|
                        k + 1 <= j < kc implies ((self.spec_held_keys().contains_key(j)
                        <==> pre.spec_held_keys().contains_key(j)) && (
                    self.spec_held_keys().contains_key(j) ==> held_behavior(self.spec_held(), j)
                        == held_behavior(held0, j))) by {
                        lemma_contains_key_remove(it0.spec_held(), ridx, j);
                        if it0.spec_held_keys().contains_key(j) {
                            lemma_held_behavior_remove(it0.spec_held(), ridx, j);
                        }
                    }
                    assert forall|j: usize|
                        j < k + 1 && j < kc implies (self.spec_held_keys().contains_key(j)
                        <==> scanned(bitmap@, j as int)) by {
                        if j == k {
                            assert(!self.spec_held_keys().contains_key(k));
                        } else {
                            lemma_contains_key_remove(it0.spec_held(), ridx, j);
                        }
                    }
                    assert forall|j: usize|
                        j < k + 1 && j < kc && scanned(bitmap@, j as int) && last0[j as int]
                            implies held_behavior(self.spec_held(), j) == held_behavior(held0, j)
                        by {
                        if j != k {
                            lemma_contains_key_remove(it0.spec_held(), ridx, j);
                            lemma_held_behavior_remove(it0.spec_held(), ridx, j);
                        }
                    }
                    assert forall|j: usize|
                        j < k + 1 && j < kc && scanned(bitmap@, j as int) && !last0[j as int]
                            implies held_behavior(self.spec_held(), j)
                        == stackp.spec_find_key_behavior(j as int) by {
                        if j != k {
                            lemma_contains_key_remove(it0.spec_held(), ridx, j);
                            lemma_held_behavior_remove(it0.spec_held(), ridx, j);
                        }
                    }
                }
            } else {
                proof {
                    assert(edge_events(stackp, held0, last0, bitmap@, k as int)
                        =~= Seq::<Event>::empty());
                    assert(self.spec_events() =~= pre.spec_events() + scan_events_upto(
                        stackp,
                        held0,
                        last0,
                        bitmap@,
                        k + 1,
                    ));
                    assert(self.spec_last()[k as int] == last0[k as int]);
                }
            }
            k += 1;
        }
        proof {
            assert(Self::scan_post(pre, *self, bitmap@));
        }
        Ok(())
    }

    /// What phase A guarantees when it completes: some prefix of the
    /// pending triggers was popped and applied; nothing else of the engine
    /// was touched except what applying those triggers touches.
    pub open spec fn timers_phase_post(a: State<P, T>, b: State<P, T>) -> bool {
        &&& b.wf()
        &&& b.spec_all_layers() == a.spec_all_layers()
        &&& b.spec_key_count() == a.spec_key_count()
        &&& b.spec_last() == a.spec_last()
        &&& b.spec_stack() == a.spec_stack()
        &&& b.spec_pressed() == a.spec_pressed()
        &&& b.spec_layout() == a.spec_layout()
        &&& b.spec_timer() == a.spec_timer()
        &&& exists|k: int|
            0 <= k <= a.spec_timers().len() && b.spec_timers() == a.spec_timers().skip(k)
    }

    /// What phase B guarantees when it completes: the event queue was
    /// drained to empty, strictly first in, first out, leaving exactly the
    /// pressed set, overlay stack and trigger count the drain model gives,
    /// without touching the held-key record or the scan bitmap.
    pub open spec fn events_phase_post(a: State<P, T>, b: State<P, T>) -> bool {
        &&& b.wf()
        &&& b.spec_all_layers() == a.spec_all_layers()
        &&& b.spec_key_count() == a.spec_key_count()
        &&& b.spec_held_keys() == a.spec_held_keys()
        &&& b.spec_last() == a.spec_last()
        &&& b.spec_layout() == a.spec_layout()
        &&& b.spec_timer() == a.spec_timer()
        &&& match drain_events_spec(a.drain_model()) {
            Ok(m) => {
                &&& b.spec_pressed() == m.pressed
                &&& b.spec_stack() == m.stack
                &&& b.spec_events() == m.queue
                &&& b.spec_events().len() == 0
                &&& b.spec_timers().len() == m.timers
            },
            Err(_) => false,
        }
    }

    /// One iteration of the engine: drain due timers, drain the event queue,
    /// then scan the physical layout. The host calls this in a loop; a
    /// capacity error is fatal and the host should halt. On success the
    /// three phase guarantees hold in sequence through two intermediate
    /// states.
    pub fn main_iteration(&mut self) -> (r: Result<(), CapacityError>)
        requires
            old(self).wf(),
        ensures
            final(self).wf(),
            final(self).spec_all_layers() == old(self).spec_all_layers(),
            final(self).spec_key_count() == old(self).spec_key_count(),
            final(self).spec_layout() == old(self).spec_layout(),
            final(self).spec_timer() == old(self).spec_timer(),
            old(self).spec_timers().len() == 0 && old(self).spec_events().len() == 0 && old(
                self,
            ).spec_key_count() <= EVENT_QUEUE_LEN ==> r is Ok,
            r is Ok ==> exists|s1: State<P, T>, s2: State<P, T>, bitmap: Seq<bool>|
                {
                    &&& #[trigger] Self::timers_phase_post(*old(self), s1)
                    &&& Self::events_phase_post(s1, s2)
                    &&& #[trigger] Self::scan_post(s2, *final(self), bitmap)
                },
    {
        let ghost idle = old(self).spec_timers().len() == 0 && old(self).spec_events().len() == 0
            && old(self).spec_key_count() <= EVENT_QUEUE_LEN;
        match self.drain_timers() {
            Ok(()) => {},
            Err(err) => {
                return Err(err);
            },
        }
        let ghost s1 = *self;
        proof {
            if idle {
                // An idle engine pops nothing, so phase A leaves it idle.
                assert(old(self).spec_timers().take(0) =~= Seq::<TimerEvent>::empty());
                assert(old(self).spec_events() + triggers_emitted(Seq::empty()) =~= old(
                    self,
                ).spec_events());
                assert(s1.spec_events().len() == 0);
            }
        }
        match self.drain_events() {
            Ok(()) => {},
            Err(err) => {
                return Err(err);
            },
        }
        let ghost s2 = *self;
        match self.scan_layout() {
            Ok(()) => {},
            Err(err) => {
                return Err(err);
            },
        }
        proof {
            assert(Self::timers_phase_post(*old(self), s1));
            assert(Self::events_phase_post(s1, s2));
        }
        Ok(())
    }

    /// A fresh engine over the given configuration. The first layer is the
    /// base layer; all layers must share one key count, and every configured
    /// behavior must name existing layers and start undecided. The scanned
    /// key count is the layout's, clamped to what the layers cover.
    pub fn new(layers: Vec<Layer>, layout: P, timer: T) -> (r: Self)
        requires
            layers@.len() >= 1,
            forall|i: int| 0 <= i < layers@.len() ==> (#[trigger] layers@[i]).wf(),
            forall|i: int|
                0 <= i < layers@.len() ==> (#[trigger] layers@[i]).spec_keys()
                    == layers@[0].spec_keys(),
            forall|li: int, k: int|
                0 <= li < layers@.len() && 0 <= k < MAX_KEYS ==> cell_ok(
                    #[trigger] layers@[li]@[k],
                    layers@.len() as int,
                ),
        ensures
            r.wf(),
            r.spec_all_layers() == layers@,
            r.spec_stack() == Seq::<usize>::empty(),
            r.spec_pressed() == Set::<Key>::empty(),
            r.spec_events() == Seq::<Event>::empty(),
            r.spec_timers() == Seq::<TimerEvent>::empty(),
            r.spec_held() == Seq::<(usize, DefaultBehavior)>::empty(),
            r.spec_key_count() <= layers@[0].spec_keys(),
            forall|k: int| 0 <= k < MAX_KEYS ==> !(#[trigger] r.spec_last()[k]),
            r.spec_layout() == layout,
            r.spec_timer() == timer,
    {
        let reported = layout.keys();
        let covered = layers[0].key_count();
        let key_count = if reported <= covered {
            reported
        } else {
            covered
        };
        let mut last_state: Vec<bool> = Vec::new();
        let mut i: usize = 0;
        while i < MAX_KEYS
            invariant
                i <= MAX_KEYS,
                last_state@.len() == i,
                forall|k: int| 0 <= k < i ==> !(#[trigger] last_state@[k]),
            decreases MAX_KEYS - i,
        {
            last_state.push(false);
            i += 1;
        }
        State {
            layer_stack: LayerStack::new(layers),
            layout,
            timer,
            vboard: VirtualKeyboard::new(),
            event_queue: EventQueue::new(),
            timer_queue: TimerQueue::new(),
            held_keys: HeldKeyCollection::new(),
            last_state,
            key_count,
        }
    }

    /// The virtual keyboard, for the downstream HID emitter to read.
    pub fn get_vboard(&self) -> (r: &VirtualKeyboard)
        ensures
            r@ == self.spec_pressed(),
            *r == self.spec_vboard(),
    {
        &self.vboard
    }

    /// How many physical keys are currently held.
    pub fn held_count(&self) -> (n: usize)
        ensures
            n == self.spec_held().len(),
    {
        self.held_keys.len()
    }

    /// How many overlay layers are currently active.
    pub fn overlay_count(&self) -> (n: usize)
        ensures
            n == self.spec_stack().len(),
    {
        self.layer_stack.len()
    }

    /// Mutable access to the physical-layout collaborator.
    pub fn get_phys_layout_mut(&mut self) -> (r: &mut P)
        ensures
            *r == old(self).spec_layout(),
            final(self).spec_layout() == *final(r),
            final(self).spec_layer_stack() == old(self).spec_layer_stack(),
            final(self).spec_vboard() == old(self).spec_vboard(),
            final(self).spec_event_queue() == old(self).spec_event_queue(),
            final(self).spec_timer_queue() == old(self).spec_timer_queue(),
            final(self).spec_held_keys() == old(self).spec_held_keys(),
            final(self).spec_last() == old(self).spec_last(),
            final(self).spec_key_count() == old(self).spec_key_count(),
            final(self).spec_timer() == old(self).spec_timer(),
    {
        &mut self.layout
    }

    /// Mutable access to the clock collaborator.
    pub fn get_timer_mut(&mut self) -> (r: &mut T)
        ensures
            *r == old(self).spec_timer(),
            final(self).spec_timer() == *final(r),
            final(self).spec_layer_stack() == old(self).spec_layer_stack(),
            final(self).spec_vboard() == old(self).spec_vboard(),
            final(self).spec_event_queue() == old(self).spec_event_queue(),
            final(self).spec_timer_queue() == old(self).spec_timer_queue(),
            final(self).spec_held_keys() == old(self).spec_held_keys(),
            final(self).spec_last() == old(self).spec_last(),
            final(self).spec_key_count() == old(self).spec_key_count(),
            final(self).spec_layout() == old(self).spec_layout(),
    {
        &mut self.timer
    }
}

} // verus!
