//! Layers and the layer stack: resolving a physical-key index to a behavior.
//!
//! A [`Layer`] maps every key index to an optional behavior. A [`LayerStack`]
//! holds all configured layers plus an ordered push-down stack of overlay
//! layer ids; the base layer (id 0) is always resident and is never popped.

use vstd::prelude::*;

use crate::behavior::{DefaultBehavior, NoArgBehavior};
use crate::physical_layout::MAX_KEYS;

verus! {

/// Maximum overlays that can be active in the stack at once.
pub const MAX_LAYERS: usize = 10;

/// A mapping from physical-key index to optional behavior, tagged with the
/// layout's key count.
pub struct Layer {
    keys: usize,
    behaviors: Vec<Option<DefaultBehavior>>,
}

impl View for Layer {
    type V = Seq<Option<DefaultBehavior>>;

    /// One optional behavior per representable key index.
    closed spec fn view(&self) -> Seq<Option<DefaultBehavior>> {
        self.behaviors@
    }
}

impl Layer {
    /// The layout's key count this layer was built for.
    pub closed spec fn spec_keys(self) -> usize {
        self.keys
    }

    /// The mapping covers every representable key index and the declared key
    /// count is representable.
    pub open spec fn wf(self) -> bool {
        &&& self@.len() == MAX_KEYS
        &&& self.spec_keys() <= MAX_KEYS
    }

    /// A layer for a layout of `keys` keys. The behavior table must cover
    /// every representable key index.
    pub fn new(keys: usize, behaviors: Vec<Option<DefaultBehavior>>) -> (r: Self)
        requires
            keys <= MAX_KEYS,
            behaviors@.len() == MAX_KEYS,
        ensures
            r.wf(),
            r.spec_keys() == keys,
            r@ == behaviors@,
    {
        Self { keys, behaviors }
    }

    /// The number of keys this layer declares.
    pub fn key_count(&self) -> (r: usize)
        ensures
            r == self.spec_keys(),
    {
        self.keys
    }

    /// The behavior mapped to `key`. Asking for a key outside the declared
    /// count is a programmer error and is excluded.
    pub fn get_behavior(&self, key: usize) -> (r: Option<DefaultBehavior>)
        requires
            self.wf(),
            key < self.spec_keys(),
        ensures
            r == self@[key as int],
    {
        self.behaviors[key]
    }
}

/// The base layer plus an ordered push-down stack of overlay layer ids. The
/// view is the overlay stack, bottom first.
pub struct LayerStack {
    all_layers: Vec<Layer>,
    base_layer: usize,
    layers: Vec<usize>,
}

impl View for LayerStack {
    type V = Seq<usize>;

    /// The overlay ids currently pushed, bottom first.
    closed spec fn view(&self) -> Seq<usize> {
        self.layers@
    }
}

impl LayerStack {
    /// All configured layers, indexed by layer id.
    pub closed spec fn spec_all_layers(self) -> Seq<Layer> {
        self.all_layers@
    }

    /// The id of the always-resident base layer.
    pub closed spec fn spec_base(self) -> usize {
        self.base_layer
    }

    /// The key count shared by every configured layer.
    pub open spec fn spec_keys(self) -> usize {
        self.spec_all_layers()[0].spec_keys()
    }

    /// The stack holds valid overlay ids within capacity, the base layer is
    /// layer 0, and all layers agree on the key count.
    pub open spec fn wf(self) -> bool {
        &&& self.spec_all_layers().len() >= 1
        &&& self.spec_base() == 0
        &&& self@.len() <= MAX_LAYERS
        &&& forall|i: int| 0 <= i < self@.len() ==> (#[trigger] self@[i]) < self.spec_all_layers().len()
        &&& forall|i: int|
            0 <= i < self.spec_all_layers().len() ==> (#[trigger] self.spec_all_layers()[i]).wf()
        &&& forall|i: int|
            0 <= i < self.spec_all_layers().len() ==> (#[trigger] self.spec_all_layers()[i]).spec_keys()
                == self.spec_keys()
    }

    /// A stack over the given configuration, with no overlay active. The
    /// first layer is the base layer; all layers must share one key count.
    pub fn new(all_layers: Vec<Layer>) -> (r: Self)
        requires
            all_layers@.len() >= 1,
            forall|i: int| 0 <= i < all_layers@.len() ==> (#[trigger] all_layers@[i]).wf(),
            forall|i: int|
                0 <= i < all_layers@.len() ==> (#[trigger] all_layers@[i]).spec_keys()
                    == all_layers@[0].spec_keys(),
        ensures
            r.wf(),
            r@ == Seq::<usize>::empty(),
            r.spec_all_layers() == all_layers@,
    {
        Self { all_layers, base_layer: 0, layers: Vec::new() }
    }

    /// How many overlays are active.
    pub fn len(&self) -> (n: usize)
        ensures
            n == self@.len(),
    {
        self.layers.len()
    }

    /// Push overlay `layer`. Overflowing the stack or naming a layer outside
    /// the configuration is a programmer error and is excluded.
    pub fn push(&mut self, layer: usize)
        requires
            old(self).wf(),
            old(self)@.len() < MAX_LAYERS,
            layer < old(self).spec_all_layers().len(),
        ensures
            final(self).wf(),
            final(self)@ == old(self)@.push(layer),
            final(self).spec_all_layers() == old(self).spec_all_layers(),
    {
        self.layers.push(layer);
    }

    /// Pop and return the top overlay, if any. The base layer is never
    /// popped.
    pub fn pop(&mut self) -> (r: Option<usize>)
        requires
            old(self).wf(),
        ensures
            final(self).wf(),
            final(self).spec_all_layers() == old(self).spec_all_layers(),
            old(self)@.len() == 0 ==> r is None && final(self)@ == old(self)@,
            old(self)@.len() > 0 ==> r == Some(old(self)@.last()) && final(self)@ == old(
                self,
            )@.drop_last(),
    {
        self.layers.pop()
    }

    /// Pop overlays until the one with id `layer` has been popped, or the
    /// stack is empty.
    pub fn pop_until(&mut self, layer: usize)
        requires
            old(self).wf(),
        ensures
            final(self).wf(),
            final(self).spec_all_layers() == old(self).spec_all_layers(),
            final(self)@ == pop_until_spec(old(self)@, layer),
    {
        loop
            invariant
                self.wf(),
                self.spec_all_layers() == old(self).spec_all_layers(),
                pop_until_spec(self@, layer) == pop_until_spec(old(self)@, layer),
            decreases self@.len(),
        {
            match self.pop() {
                Some(l) => {
                    if l == layer {
                        return ;
                    }
                },
                None => {
                    return ;
                },
            }
        }
    }

    /// The layer consulted at `depth` while resolving a key: overlays from
    /// the top of the stack down, then the base layer.
    pub open spec fn layer_at_depth(self, depth: int) -> Layer {
        if depth < self@.len() {
            self.spec_all_layers()[self@[self@.len() - 1 - depth] as int]
        } else {
            self.spec_all_layers()[0]
        }
    }

    /// Resolution from `depth` downwards: the first entry that is neither
    /// absent nor transparent wins; an exhausted walk yields the no-op
    /// behavior.
    pub open spec fn resolve_from(self, key: int, depth: int) -> DefaultBehavior
        decreases self@.len() + 1 - depth,
    {
        if depth < 0 || depth > self@.len() {
            DefaultBehavior::NoArg(NoArgBehavior::NoOp)
        } else {
            let entry = self.layer_at_depth(depth)@[key];
            if entry is Some && !entry->0.spec_is_transparent() {
                entry->0
            } else if depth == self@.len() {
                DefaultBehavior::NoArg(NoArgBehavior::NoOp)
            } else {
                self.resolve_from(key, depth + 1)
            }
        }
    }

    /// The effective behavior of `key`: overlays top to bottom, then the
    /// base; the first entry that is neither absent nor transparent, or the
    /// no-op behavior when none qualifies.
    pub open spec fn spec_find_key_behavior(self, key: int) -> DefaultBehavior {
        self.resolve_from(key, 0)
    }

    /// Find the effective behavior for `key` by walking the overlays from
    /// the top of the stack down to the base layer.
    pub fn find_key_behavior(&self, key: usize) -> (r: DefaultBehavior)
        requires
            self.wf(),
            key < self.spec_keys(),
        ensures
            r == self.spec_find_key_behavior(key as int),
    {
        let mut depth: usize = 0;
        loop
            invariant
                self.wf(),
                key < self.spec_keys(),
                depth <= self@.len(),
                self.resolve_from(key as int, depth as int) == self.spec_find_key_behavior(
                    key as int,
                ),
            decreases self@.len() - depth,
        {
            let layer = if depth < self.layers.len() {
                let id = self.layers[self.layers.len() - 1 - depth];
                &self.all_layers[id]
            } else {
                &self.all_layers[self.base_layer]
            };
            proof {
                assert(*layer == self.layer_at_depth(depth as int));
            }
            match layer.get_behavior(key) {
                Some(behavior) => {
                    if !behavior.is_transparent() {
                        return behavior;
                    }
                },
                None => {},
            }
            if depth == self.layers.len() {
                return DefaultBehavior::NoArg(NoArgBehavior::NoOp);
            }
            depth += 1;
        }
    }

    /// An iterator over the consulted layers, top overlay first, ending with
    /// the base layer.
    pub fn iter(&self) -> (r: LayerStackIter<'_>)
        ensures
            r.stack == self,
            r.index == 0,
            r.len == self@.len(),
    {
        LayerStackIter { stack: self, len: self.layers.len(), index: 0 }
    }
}

/// A cursor over the layers a [`LayerStack`] consults, top overlay first and
/// the base layer last.
pub struct LayerStackIter<'s> {
    pub stack: &'s LayerStack,
    pub len: usize,
    pub index: usize,
}

impl<'s> LayerStackIter<'s> {
    /// The next consulted layer, or nothing after the base layer.
    pub fn next(&mut self) -> (r: Option<&'s Layer>)
        requires
            old(self).stack.wf(),
            old(self).len == old(self).stack@.len(),
        ensures
            final(self).stack == old(self).stack,
            final(self).len == old(self).len,
            old(self).index > old(self).len ==> r is None && final(self).index == old(self).index,
            old(self).index <= old(self).len ==> (r matches Some(l) && *l == old(
                self,
            ).stack.layer_at_depth(old(self).index as int)) && final(self).index == old(self).index
                + 1,
    {
        if self.index > self.len {
            None
        } else {
            let ret = if self.index == self.len {
                // Base layer special case.
                &self.stack.all_layers[self.stack.base_layer]
            } else {
                let id = self.stack.layers[self.len - 1 - self.index];
                &self.stack.all_layers[id]
            };
            self.index += 1;
            Some(ret)
        }
    }
}

/// What remains of an overlay stack after popping down to (and including)
/// `layer`: entries above the topmost occurrence of `layer` go, `layer` goes,
/// and without an occurrence the whole stack drains.
pub open spec fn pop_until_spec(s: Seq<usize>, layer: usize) -> Seq<usize>
    decreases s.len(),
{
    if s.len() == 0 {
        s
    } else if s.last() == layer {
        s.drop_last()
    } else {
        pop_until_spec(s.drop_last(), layer)
    }
}

/// Pushing an overlay and immediately popping returns the pushed id and
/// restores the stack.
pub proof fn lemma_push_pop_identity(s: Seq<usize>, layer: usize)
    ensures
        s.push(layer).len() > 0,
        s.push(layer).last() == layer,
        s.push(layer).drop_last() == s,
{
    assert(s.push(layer).drop_last() =~= s);
}

/// Adding a layer and then removing down to that same layer, with no layer
/// event in between, leaves the stack unchanged.
pub proof fn lemma_add_remove_round_trip(s: Seq<usize>, layer: usize)
    ensures
        pop_until_spec(s.push(layer), layer) == s,
{
    assert(s.push(layer).last() == layer);
    assert(s.push(layer).drop_last() =~= s);
}

} // verus!
