//! A persistent store of one value per kind, in layers.

use crate::fx::{
    fx_map_contains, fx_map_entries, fx_map_get, fx_map_get_mut, fx_map_insert,
    fx_map_into_entries, fx_map_new, FxMap,
};
use std::rc::Rc;
use vstd::prelude::*;

verus! {

/// What a map of shared values shows: for each key the value behind the
/// pointer.
pub open spec fn shown<V>(table: Map<u64, Rc<V>>) -> Map<u64, V> {
    Map::new(|kind: u64| table.contains_key(kind), |kind: u64| *table[kind])
}

/// A flat layer: one value for each kind that it defines.
#[derive(Debug)]
pub struct SlotMap<V> {
    map: FxMap<Rc<V>>,
}

impl<V> SlotMap<V> {
    /// The value that the layer holds for each kind.
    pub closed spec fn view(self) -> Map<u64, V> {
        shown(self.map@)
    }
}

/// A persistent store of one value per kind: a flat base layer, or a layer
/// that overrides one kind on top of a shared parent.
#[derive(Debug)]
pub enum SlotNode<V> {
    Base(SlotMap<V>),
    Node(u64, Rc<V>, Rc<SlotNode<V>>),
}

impl<V> SlotNode<V> {
    /// The value visible for each kind: that of the nearest layer, from this
    /// node towards the base, that defines the kind.
    pub open spec fn view(self) -> Map<u64, V>
        decreases self,
    {
        match self {
            SlotNode::Base(base) => base@,
            SlotNode::Node(kind, value, parent) => parent@.insert(kind, *value),
        }
    }

    /// The number of layers between this node and its base.
    pub open spec fn depth(self) -> nat
        decreases self,
    {
        match self {
            SlotNode::Base(_) => 0,
            SlotNode::Node(_, _, parent) => parent.depth() + 1,
        }
    }

    /// What `get` answers for `kind`.
    pub open spec fn lookup(self, kind: u64) -> Option<V> {
        if self@.contains_key(kind) {
            Some(self@[kind])
        } else {
            None
        }
    }

    /// A base layer that holds, for each kind, the value visible from this
    /// node.
    pub fn flatten(&self) -> (flat: Self)
        ensures
            flat@ == self@,
            flat.depth() == 0,
    {
        let mut current = self;
        let mut flat: FxMap<Rc<V>> = fx_map_new();
        assert(current@.union_prefer_right(shown(flat@)) =~= self@);
        loop
            invariant
                self@ == current@.union_prefer_right(shown(flat@)),
            decreases current,
        {
            match current {
                SlotNode::Base(base) => {
                    let entries = fx_map_entries(&base.map);
                    let mut i: usize = 0;
                    while i < entries.len()
                        invariant
                            i <= entries.len(),
                            forall|j: int|
                                0 <= j < entries@.len() ==> base.map@.contains_key(
                                    #[trigger] entries@[j].0,
                                ) && *entries@[j].1 == base.map@[entries@[j].0],
                            self@ == base@.union_prefer_right(shown(flat@)),
                            forall|j: int|
                                0 <= j < i ==> flat@.contains_key(#[trigger] entries@[j].0),
                        decreases entries.len() - i,
                    {
                        let kind = entries[i].0;
                        let value = entries[i].1;
                        if !fx_map_contains(&flat, kind) {
                            fx_map_insert(&mut flat, kind, value.clone());
                        }
                        assert(base@.union_prefer_right(shown(flat@)) =~= self@);
                        i = i + 1;
                    }
                    assert(shown(flat@) =~= self@);
                    return SlotNode::Base(SlotMap { map: flat });
                },
                SlotNode::Node(kind, value, parent) => {
                    if !fx_map_contains(&flat, *kind) {
                        fx_map_insert(&mut flat, *kind, value.clone());
                    }
                    assert(parent@.union_prefer_right(shown(flat@)) =~= self@);
                    current = &**parent;
                },
            }
        }
    }

    /// A layer over this node that overrides `kind` with `value`.
    pub fn child_with_override(self: &Rc<Self>, kind: u64, value: V) -> (child: Self)
        ensures
            child@ == self@.insert(kind, value),
            child.depth() == self.depth() + 1,
    {
        SlotNode::Node(kind, Rc::new(value), self.clone())
    }

    /// The value visible for `kind`: that of the nearest layer that defines
    /// it, if any does.
    pub fn get(&self, kind: u64) -> (value: Option<&V>)
        ensures
            value == (match self.lookup(kind) {
                Some(found) => Some(&found),
                None => None,
            }),
    {
        let mut current = self;
        loop
            invariant
                self.lookup(kind) == current.lookup(kind),
            decreases current,
        {
            match current {
                SlotNode::Base(base) => {
                    return match fx_map_get(&base.map, kind) {
                        Some(value) => Some(&**value),
                        None => None,
                    };
                },
                SlotNode::Node(overridden, value, parent) => {
                    if *overridden == kind {
                        return Some(&**value);
                    } else {
                        current = &**parent;
                    }
                },
            }
        }
    }
}

/// Flattening twice shows what flattening once shows, which is what the node
/// itself shows: `get` answers alike for every kind.
pub proof fn lemma_flatten_idempotent<V>(node: SlotNode<V>, once: SlotNode<V>, twice: SlotNode<V>)
    requires
        once@ == node@,
        twice@ == once@,
    ensures
        forall|kind: u64| #[trigger] twice.lookup(kind) == once.lookup(kind),
        forall|kind: u64| #[trigger] once.lookup(kind) == node.lookup(kind),
{
}

/// A layer over a node hides nothing but the kind that it overrides, from
/// whatever else is built over the same node.
pub proof fn lemma_override_is_local<V>(
    parent: SlotNode<V>,
    child: SlotNode<V>,
    kind: u64,
    value: V,
)
    requires
        child@ == parent@.insert(kind, value),
    ensures
        child.lookup(kind) == Some(value),
        forall|other: u64| other != kind ==> #[trigger] child.lookup(other) == parent.lookup(other),
{
}

/// The builder of a base layer: one value per kind, open to change.
#[derive(Debug)]
pub struct RootMap<V> {
    map: FxMap<V>,
}

impl<V> RootMap<V> {
    /// The value that the builder holds for each kind.
    pub closed spec fn view(self) -> Map<u64, V> {
        self.map@
    }

    /// A builder that holds nothing.
    pub fn new() -> (root: Self)
        ensures
            root@ == Map::<u64, V>::empty(),
    {
        Self { map: fx_map_new() }
    }

    /// The value held for `kind`, open to change; where there was none, the
    /// default value is put there first.
    pub fn get_mut_or_default(&mut self, kind: u64) -> (slot: &mut V) where V: Default
        ensures
            old(self)@.contains_key(kind) ==> *slot == old(self)@[kind],
            !old(self)@.contains_key(kind) ==> call_ensures(V::default, (), *slot),
            final(self)@ == old(self)@.insert(kind, *final(slot)),
    {
        if !fx_map_contains(&self.map, kind) {
            fx_map_insert(&mut self.map, kind, V::default());
        }
        match fx_map_get_mut(&mut self.map, kind) {
            Some(slot) => slot,
            None => vstd::pervasive::unreached(),
        }
    }

    /// Freezes the builder into a base layer that holds what it held.
    pub fn into_node(self) -> (node: SlotNode<V>)
        ensures
            node@ == self@,
            node.depth() == 0,
    {
        let ghost source = self.map@;
        let mut entries = fx_map_into_entries(self.map);
        let ghost all = entries@;
        let mut map: FxMap<Rc<V>> = fx_map_new();
        while entries.len() > 0
            invariant
                entries@.len() <= all.len(),
                entries@ == all.subrange(0, entries@.len() as int),
                forall|j: int|
                    0 <= j < all.len() ==> source.contains_key(#[trigger] all[j].0) && all[j].1
                        == source[all[j].0],
                forall|kind: u64|
                    source.contains_key(kind) ==> exists|j: int|
                        0 <= j < all.len() && all[j].0 == kind,
                forall|kind: u64| #[trigger]
                    map@.contains_key(kind) ==> source.contains_key(kind) && *map@[kind]
                        == source[kind],
                forall|j: int|
                    entries@.len() <= j < all.len() ==> map@.contains_key(#[trigger] all[j].0),
            decreases entries.len(),
        {
            let ghost last = entries@.len() - 1;
            assert(entries@[last] == all[last]);
            match entries.pop() {
                Some((kind, value)) => {
                    fx_map_insert(&mut map, kind, Rc::new(value));
                },
                None => {},
            }
        }
        assert(shown(map@) =~= source);
        SlotNode::Base(SlotMap { map })
    }
}

} // verus!
