use dmk::behavior::{KeyPress, NoArgBehavior};
use dmk::key::Key;
use dmk::layer::{Layer, LayerStack, MAX_LAYERS};
use dmk::physical_layout::MAX_KEYS;

fn table(entries: Vec<(usize, dmk::behavior::DefaultBehavior)>) -> Vec<Option<dmk::behavior::DefaultBehavior>> {
    let mut behaviors = vec![None; MAX_KEYS];
    for (index, behavior) in entries {
        behaviors[index] = Some(behavior);
    }
    behaviors
}

#[test]
fn test_layer_basics() {
    let keys = 3;

    let bb = table(vec![
        (0, NoArgBehavior::KeyPress(KeyPress::new(Key::A)).into()),
        (1, NoArgBehavior::KeyPress(KeyPress::new(Key::B)).into()),
        (2, NoArgBehavior::KeyPress(KeyPress::new(Key::C)).into()),
    ]);
    let b1 = table(vec![
        (0, NoArgBehavior::KeyPress(KeyPress::new(Key::D)).into()),
        (1, NoArgBehavior::Transparent.into()),
        (2, NoArgBehavior::KeyPress(KeyPress::new(Key::F)).into()),
    ]);
    let b2 = table(vec![
        (0, NoArgBehavior::Transparent.into()),
        (1, NoArgBehavior::Transparent.into()),
        (2, NoArgBehavior::KeyPress(KeyPress::new(Key::I)).into()),
    ]);

    let bl = Layer::new(keys, bb);
    let l1 = Layer::new(keys, b1);
    let l2 = Layer::new(keys, b2);

    let mut stack = LayerStack::new(vec![bl, l1, l2]);
    stack.push(1);
    stack.push(2);

    assert_eq!(
        stack.find_key_behavior(0),
        NoArgBehavior::KeyPress(KeyPress::new(Key::D)).into()
    );
    assert_eq!(
        stack.find_key_behavior(1),
        NoArgBehavior::KeyPress(KeyPress::new(Key::B)).into()
    );
    assert_eq!(
        stack.find_key_behavior(2),
        NoArgBehavior::KeyPress(KeyPress::new(Key::I)).into()
    );
}

#[test]
fn push_then_pop_is_identity() {
    let base = Layer::new(1, table(vec![(0, NoArgBehavior::NoOp.into())]));
    let overlay = Layer::new(1, table(vec![]));
    let mut stack = LayerStack::new(vec![base, overlay]);
    stack.push(1);
    assert_eq!(stack.len(), 1);
    assert_eq!(stack.pop(), Some(1));
    assert_eq!(stack.len(), 0);
    assert_eq!(stack.pop(), None);
}

#[test]
fn add_then_remove_down_to_same_layer_restores_stack() {
    let base = Layer::new(1, table(vec![]));
    let l1 = Layer::new(1, table(vec![]));
    let l2 = Layer::new(1, table(vec![]));
    let mut stack = LayerStack::new(vec![base, l1, l2]);
    stack.push(1);
    stack.push(2);
    stack.push(1);
    stack.pop_until(1);
    // The two original overlays are untouched.
    assert_eq!(stack.len(), 2);
    assert_eq!(stack.pop(), Some(2));
    assert_eq!(stack.pop(), Some(1));
}

#[test]
fn pop_until_missing_layer_drains_the_overlays() {
    let base = Layer::new(1, table(vec![]));
    let l1 = Layer::new(1, table(vec![]));
    let mut stack = LayerStack::new(vec![base, l1]);
    stack.push(1);
    stack.push(1);
    stack.pop_until(0);
    assert_eq!(stack.len(), 0);
    // The base layer is still consulted: resolution falls back to it.
    assert_eq!(stack.find_key_behavior(0), NoArgBehavior::NoOp.into());
}

#[test]
fn stack_takes_its_full_capacity() {
    let base = Layer::new(1, table(vec![]));
    let l1 = Layer::new(1, table(vec![]));
    let mut stack = LayerStack::new(vec![base, l1]);
    for _ in 0..MAX_LAYERS {
        stack.push(1);
    }
    assert_eq!(stack.len(), MAX_LAYERS);
}

#[test]
fn resolution_falls_through_missing_and_transparent_cells() {
    let base = Layer::new(2, table(vec![(1, NoArgBehavior::KeyPress(KeyPress::new(Key::Z)).into())]));
    let overlay = Layer::new(2, table(vec![(1, NoArgBehavior::Transparent.into())]));
    let mut stack = LayerStack::new(vec![base, overlay]);
    stack.push(1);
    // Key 0 is absent everywhere: the effective behavior is the no-op.
    assert_eq!(stack.find_key_behavior(0), NoArgBehavior::NoOp.into());
    // Key 1 is transparent on top and falls through to the base.
    assert_eq!(
        stack.find_key_behavior(1),
        NoArgBehavior::KeyPress(KeyPress::new(Key::Z)).into()
    );
}

#[test]
fn layer_iterator_walks_top_overlay_first_then_base() {
    let base = Layer::new(
        1,
        table(vec![(0, NoArgBehavior::KeyPress(KeyPress::new(Key::A)).into())]),
    );
    let l1 = Layer::new(
        1,
        table(vec![(0, NoArgBehavior::KeyPress(KeyPress::new(Key::B)).into())]),
    );
    let l2 = Layer::new(
        1,
        table(vec![(0, NoArgBehavior::KeyPress(KeyPress::new(Key::C)).into())]),
    );
    let mut stack = LayerStack::new(vec![base, l1, l2]);
    stack.push(1);
    stack.push(2);

    let mut iter = stack.iter();
    let mut seen = Vec::new();
    while let Some(layer) = iter.next() {
        seen.push(layer.get_behavior(0));
    }
    assert_eq!(
        seen,
        vec![
            Some(NoArgBehavior::KeyPress(KeyPress::new(Key::C)).into()),
            Some(NoArgBehavior::KeyPress(KeyPress::new(Key::B)).into()),
            Some(NoArgBehavior::KeyPress(KeyPress::new(Key::A)).into()),
        ]
    );
}
