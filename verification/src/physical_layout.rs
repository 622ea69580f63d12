//! The physical-layout collaborator and the held-key record.

use vstd::prelude::*;

use crate::behavior::DefaultBehavior;

verus! {

/// An upper bound for the number of keys in a layout.
pub const MAX_KEYS: usize = 110;

/// The physical-layout collaborator: whatever turns hardware into a bitmap of
/// pressed keys. Implementations live outside the engine, so the engine
/// assumes nothing about them and validates what it reads at run time.
pub trait PhysicalLayout {
    /// The number of keys in this layout. Indices `[0, keys)` of the bitmap
    /// are authoritative.
    fn keys(&self) -> usize;

    /// Whether the key with index `key` is currently pressed.
    fn get_status(&self, key: usize) -> bool;

    /// A coherent snapshot of the pressed state of every key index up to
    /// [`MAX_KEYS`].
    fn get_arr_copy(&self) -> Vec<bool>;
}

/// The engine's authoritative record of currently pressed physical keys and
/// the behavior instance each press activated. At most one entry per key
/// index; releases must use the stored instance, which carries any evolved
/// hold/tap state.
pub struct HeldKeyCollection {
    arr: Vec<(usize, DefaultBehavior)>,
}

impl View for HeldKeyCollection {
    type V = Seq<(usize, DefaultBehavior)>;

    closed spec fn view(&self) -> Seq<(usize, DefaultBehavior)> {
        self.arr@
    }
}

impl HeldKeyCollection {
    /// Whether some entry records `key` as held.
    pub open spec fn contains_key(self, key: usize) -> bool {
        contains_key_spec(self@, key)
    }

    /// Key indices are unique and within the layout bound.
    pub open spec fn wf(self) -> bool {
        &&& forall|i: int, j: int|
            0 <= i < j < self@.len() ==> (#[trigger] self@[i]).0 != (#[trigger] self@[j]).0
        &&& forall|i: int| 0 <= i < self@.len() ==> (#[trigger] self@[i]).0 < MAX_KEYS
    }

    /// An empty record.
    pub fn new() -> (r: Self)
        ensures
            r.wf(),
            r@ == Seq::<(usize, DefaultBehavior)>::empty(),
    {
        Self { arr: Vec::new() }
    }

    /// How many keys are held.
    pub fn len(&self) -> (n: usize)
        ensures
            n == self@.len(),
    {
        self.arr.len()
    }

    /// The entry at position `index`.
    pub fn get(&self, index: usize) -> (r: (usize, DefaultBehavior))
        requires
            index < self@.len(),
        ensures
            r == self@[index as int],
    {
        self.arr[index]
    }

    /// Record `key` as held by `behavior`. A duplicate key or one outside the
    /// layout bound would break the record's invariant and is excluded.
    pub fn push(&mut self, key: usize, behavior: DefaultBehavior)
        requires
            old(self).wf(),
            !old(self).contains_key(key),
            key < MAX_KEYS,
        ensures
            final(self).wf(),
            final(self)@ == old(self)@.push((key, behavior)),
            final(self)@.len() <= MAX_KEYS,
    {
        self.arr.push((key, behavior));
        proof {
            assert forall|i: int, j: int|
                0 <= i < j < self@.len() implies (#[trigger] self@[i]).0 != (
            #[trigger] self@[j]).0 by {
                if j == old(self)@.len() {
                    assert(self@[i] == old(self)@[i]);
                    assert(old(self)@[i].0 != key);
                } else {
                    assert(self@[i] == old(self)@[i]);
                    assert(self@[j] == old(self)@[j]);
                }
            }
            assert forall|i: int| 0 <= i < self@.len() implies (#[trigger] self@[i]).0
                < MAX_KEYS by {
                if i < old(self)@.len() {
                    assert(self@[i] == old(self)@[i]);
                }
            }
            lemma_unique_keys_bound(self@);
        }
    }

    /// Replace the behavior stored for `key`, keeping its position. The key
    /// must be held; failing to find it is a programmer error.
    pub fn replace(&mut self, key: usize, behavior: DefaultBehavior)
        requires
            old(self).wf(),
            old(self).contains_key(key),
        ensures
            final(self).wf(),
            exists|i: int|
                {
                    &&& 0 <= i < old(self)@.len()
                    &&& (#[trigger] old(self)@[i]).0 == key
                    &&& final(self)@ == old(self)@.update(i, (key, behavior))
                },
    {
        let mut spot: Option<usize> = None;
        let mut i: usize = 0;
        while i < self.arr.len()
            invariant
                i <= self@.len(),
                *self == *old(self),
                match spot {
                    Some(s) => s < i && self@[s as int].0 == key,
                    None => forall|j: int| 0 <= j < i ==> (#[trigger] self@[j]).0 != key,
                },
            decreases self@.len() - i,
        {
            if self.arr[i].0 == key {
                spot = Some(i);
            }
            i += 1;
        }
        match spot {
            Some(s) => {
                self.arr[s] = (key, behavior);
            },
            None => {
                // The precondition rules this out.
                proof {
                    let w = choose|i: int|
                        0 <= i < old(self)@.len() && (#[trigger] old(self)@[i]).0 == key;
                    assert(old(self)@[w].0 != key);
                }
            },
        }
    }

    /// Remove and return the entry at position `index`, shifting later
    /// entries left.
    pub fn remove(&mut self, index: usize) -> (r: (usize, DefaultBehavior))
        requires
            old(self).wf(),
            index < old(self)@.len(),
        ensures
            final(self).wf(),
            r == old(self)@[index as int],
            final(self)@ == old(self)@.remove(index as int),
    {
        let r = self.arr.remove(index);
        proof {
            old(self)@.remove_ensures(index as int);
        }
        r
    }

    /// Remove the entry for `key`, if one exists, and return its behavior.
    pub fn try_remove_key(&mut self, key: usize) -> (r: Option<DefaultBehavior>)
        requires
            old(self).wf(),
        ensures
            final(self).wf(),
            !old(self).contains_key(key) ==> r is None && final(self)@ == old(self)@,
            old(self).contains_key(key) ==> exists|i: int|
                {
                    &&& 0 <= i < old(self)@.len()
                    &&& (#[trigger] old(self)@[i]).0 == key
                    &&& r == Some(old(self)@[i].1)
                    &&& final(self)@ == old(self)@.remove(i)
                },
    {
        let mut i: usize = 0;
        while i < self.arr.len()
            invariant
                i <= self@.len(),
                *self == *old(self),
                self.wf(),
                forall|j: int| 0 <= j < i ==> (#[trigger] self@[j]).0 != key,
            decreases self@.len() - i,
        {
            if self.arr[i].0 == key {
                let (_, behavior) = self.remove(i);
                return Some(behavior);
            }
            i += 1;
        }
        None
    }

    /// An iterator over the held entries, oldest press first.
    pub fn iter(&self) -> (r: HeldKeyIter<'_>)
        ensures
            r.collection == self,
            r.index == 0,
    {
        HeldKeyIter { collection: self, index: 0 }
    }
}

/// A cursor over a [`HeldKeyCollection`].
pub struct HeldKeyIter<'a> {
    pub collection: &'a HeldKeyCollection,
    pub index: usize,
}

impl<'a> HeldKeyIter<'a> {
    /// The next held entry, or nothing once every entry has been visited.
    pub fn next(&mut self) -> (r: Option<(usize, DefaultBehavior)>)
        requires
            old(self).index <= old(self).collection@.len(),
        ensures
            final(self).collection == old(self).collection,
            old(self).index == old(self).collection@.len() ==> r is None && final(self).index == old(
                self,
            ).index,
            old(self).index < old(self).collection@.len() ==> r == Some(
                old(self).collection@[old(self).index as int],
            ) && final(self).index == old(self).index + 1,
    {
        if self.index >= self.collection.len() {
            None
        } else {
            let r = self.collection.get(self.index);
            self.index += 1;
            Some(r)
        }
    }
}

/// The behavior stored for key `k` in a held-key record (meaningful when the
/// record holds `k`; unique by the record's invariant).
pub open spec fn held_behavior(held: Seq<(usize, DefaultBehavior)>, k: usize) -> DefaultBehavior {
    held[choose|i: int| 0 <= i < held.len() && (#[trigger] held[i]).0 == k].1
}

/// Pushing an entry for a different key neither adds nor removes `k`.
pub proof fn lemma_contains_key_push(
    held: Seq<(usize, DefaultBehavior)>,
    entry: (usize, DefaultBehavior),
    k: usize,
)
    requires
        entry.0 != k,
    ensures
        contains_key_spec(held.push(entry), k) == contains_key_spec(held, k),
{
    if contains_key_spec(held, k) {
        let j = choose|i: int| 0 <= i < held.len() && (#[trigger] held[i]).0 == k;
        assert(held.push(entry)[j].0 == k);
    }
    if contains_key_spec(held.push(entry), k) {
        let j = choose|i: int|
            0 <= i < held.push(entry).len() && (#[trigger] held.push(entry)[i]).0 == k;
        assert(j < held.len());
        assert(held[j].0 == k);
    }
}

/// Pushing an entry for a different key leaves the behavior stored for `k`
/// unchanged.
pub proof fn lemma_held_behavior_push(
    held: Seq<(usize, DefaultBehavior)>,
    entry: (usize, DefaultBehavior),
    k: usize,
)
    requires
        entry.0 != k,
        contains_key_spec(held, k),
        forall|i: int, j: int|
            0 <= i < j < held.len() ==> (#[trigger] held[i]).0 != (#[trigger] held[j]).0,
    ensures
        held_behavior(held.push(entry), k) == held_behavior(held, k),
{
    let w0 = choose|i: int| 0 <= i < held.len() && (#[trigger] held[i]).0 == k;
    assert(held.push(entry)[w0].0 == k);
    let w1 = choose|i: int|
        0 <= i < held.push(entry).len() && (#[trigger] held.push(entry)[i]).0 == k;
    assert(w1 < held.len());
    assert(held[w1].0 == k);
    assert(w1 == w0);
}

/// Removing an entry for a different key neither adds nor removes `k`.
pub proof fn lemma_contains_key_remove(held: Seq<(usize, DefaultBehavior)>, at: int, k: usize)
    requires
        0 <= at < held.len(),
        held[at].0 != k,
    ensures
        contains_key_spec(held.remove(at), k) == contains_key_spec(held, k),
{
    held.remove_ensures(at);
    if contains_key_spec(held, k) {
        let j = choose|i: int| 0 <= i < held.len() && (#[trigger] held[i]).0 == k;
        if j < at {
            assert(held.remove(at)[j].0 == k);
        } else {
            assert(held.remove(at)[j - 1].0 == k);
        }
    }
    if contains_key_spec(held.remove(at), k) {
        let j = choose|i: int|
            0 <= i < held.remove(at).len() && (#[trigger] held.remove(at)[i]).0 == k;
        if j < at {
            assert(held[j].0 == k);
        } else {
            assert(held[j + 1].0 == k);
        }
    }
}

/// Removing an entry for a different key leaves the behavior stored for `k`
/// unchanged.
pub proof fn lemma_held_behavior_remove(held: Seq<(usize, DefaultBehavior)>, at: int, k: usize)
    requires
        0 <= at < held.len(),
        held[at].0 != k,
        contains_key_spec(held, k),
        forall|i: int, j: int|
            0 <= i < j < held.len() ==> (#[trigger] held[i]).0 != (#[trigger] held[j]).0,
    ensures
        held_behavior(held.remove(at), k) == held_behavior(held, k),
{
    held.remove_ensures(at);
    let w0 = choose|i: int| 0 <= i < held.len() && (#[trigger] held[i]).0 == k;
    if w0 < at {
        assert(held.remove(at)[w0].0 == k);
    } else {
        assert(held.remove(at)[w0 - 1].0 == k);
    }
    let w1 = choose|i: int|
        0 <= i < held.remove(at).len() && (#[trigger] held.remove(at)[i]).0 == k;
    if w1 < at {
        assert(held[w1].0 == k);
        assert(w1 == w0);
    } else {
        assert(held[w1 + 1].0 == k);
        assert(w1 + 1 == w0);
    }
}

/// Whether a held-key record holds an entry for `k`.
pub open spec fn contains_key_spec(held: Seq<(usize, DefaultBehavior)>, k: usize) -> bool {
    exists|i: int| 0 <= i < held.len() && (#[trigger] held[i]).0 == k
}

/// While a key is recorded as held, the record holds exactly one entry for
/// it: any two positions that name the same key are the same position.
pub proof fn lemma_held_entry_unique(held: HeldKeyCollection, k: usize, i: int, j: int)
    requires
        held.wf(),
        0 <= i < held@.len(),
        0 <= j < held@.len(),
        held@[i].0 == k,
        held@[j].0 == k,
    ensures
        i == j,
{
}

/// A record with unique key indices below [`MAX_KEYS`] cannot hold more than
/// [`MAX_KEYS`] entries.
pub proof fn lemma_unique_keys_bound(s: Seq<(usize, DefaultBehavior)>)
    requires
        forall|i: int, j: int| 0 <= i < j < s.len() ==> (#[trigger] s[i]).0 != (#[trigger] s[j]).0,
        forall|i: int| 0 <= i < s.len() ==> (#[trigger] s[i]).0 < MAX_KEYS,
    ensures
        s.len() <= MAX_KEYS,
{
    let keys = s.map_values(|e: (usize, DefaultBehavior)| e.0 as int);
    assert(keys.no_duplicates());
    keys.unique_seq_to_set();
    assert(keys.to_set().subset_of(vstd::set_lib::set_int_range(0, MAX_KEYS as int))) by {
        assert forall|k: int| keys.to_set().contains(k) implies vstd::set_lib::set_int_range(
            0,
            MAX_KEYS as int,
        ).contains(k) by {
            let i = choose|i: int| 0 <= i < keys.len() && keys[i] == k;
            assert(0 <= keys[i] < MAX_KEYS);
        }
    }
    vstd::set_lib::lemma_int_range(0, MAX_KEYS as int);
    vstd::set_lib::lemma_len_subset(
        keys.to_set(),
        vstd::set_lib::set_int_range(0, MAX_KEYS as int),
    );
}

} // verus!
