//! States: immutable, layered stores of resources by kind, built from a
//! builder and branched without change to what they were branched from.

use crate::slot::{RootMap, SlotNode};
use std::rc::Rc;
use vstd::prelude::*;
use vstd::std_specs::cmp::PartialEqSpec;

verus! {

/// One recorded value of a kind's history, linked to the one recorded before.
#[derive(Debug)]
struct Trace<R> {
    value: R,
    previous: Option<Rc<Trace<R>>>,
}

impl<R> Trace<R> {
    /// The recorded values from this one back to the oldest.
    spec fn history(self) -> Seq<R>
        decreases self,
    {
        match self.previous {
            Some(previous) => seq![self.value] + previous.history(),
            None => seq![self.value],
        }
    }
}

/// What a state shares with its holders: the layers of its slots and the
/// layers of its trace heads.
#[derive(Debug)]
struct StateData<R> {
    slots: Rc<SlotNode<Vec<R>>>,
    traces: Rc<SlotNode<Rc<Trace<R>>>>,
}

impl<R> StateData<R> {
    /// The values visible for `kind`, none if no layer defines it.
    spec fn slot(self, kind: u64) -> Seq<R> {
        match self.slots.lookup(kind) {
            Some(values) => values@,
            None => Seq::empty(),
        }
    }

    /// The values recorded for `kind`, the latest first.
    spec fn history(self, kind: u64) -> Seq<R> {
        match self.traces.lookup(kind) {
            Some(head) => head.history(),
            None => Seq::empty(),
        }
    }

    /// The data of a state that has `base` for its slots and no history.
    fn root(base: SlotNode<Vec<R>>) -> (data: Self)
        ensures
            data.slots@ == base@,
            data.slots.depth() == base.depth(),
            data.traces@ == Map::<u64, Rc<Trace<R>>>::empty(),
            data.traces.depth() == 0,
    {
        Self { slots: Rc::new(base), traces: Rc::new(RootMap::new().into_node()) }
    }

    /// The slot visible for `kind`, empty if no layer defines it.
    fn get(&self, kind: u64) -> (values: &[R])
        ensures
            values@ == self.slot(kind),
    {
        match self.slots.get(kind) {
            Some(values) => values.as_slice(),
            None => &[],
        }
    }

    /// The data of a branch that has `values` for its slot of `kind` and
    /// shares everything else.
    fn child_with_override(&self, kind: u64, values: Vec<R>) -> (child: Self)
        ensures
            child.slots@ == self.slots@.insert(kind, values),
            child.slots.depth() == self.slots.depth() + 1,
            child.traces == self.traces,
    {
        Self {
            slots: Rc::new(self.slots.child_with_override(kind, values)),
            traces: self.traces.clone(),
        }
    }
}

/// The builder of a state: it owns one growable slot for each kind.
#[derive(Debug)]
pub struct RootState<R> {
    data: RootMap<Vec<R>>,
}

impl<R> RootState<R> {
    /// The values held for `kind`, in the order in which they were added.
    pub closed spec fn slot(self, kind: u64) -> Seq<R> {
        if self.data@.contains_key(kind) {
            self.data@[kind]@
        } else {
            Seq::empty()
        }
    }

    /// A builder that holds nothing.
    pub fn new() -> (root: Self)
        ensures
            forall|kind: u64| root.slot(kind) == Seq::<R>::empty(),
    {
        Self { data: RootMap::new() }
    }

    /// Appends `resource` to the slot of `kind`.
    pub fn add(&mut self, kind: u64, resource: R)
        ensures
            final(self).slot(kind) == old(self).slot(kind).push(resource),
            forall|other: u64| other != kind ==> final(self).slot(other) == old(self).slot(other),
    {
        self.data.get_mut_or_default(kind).push(resource);
    }

    /// Appends `resources`, in order, to the slot of `kind`.
    pub fn add_many(&mut self, kind: u64, resources: Vec<R>)
        ensures
            final(self).slot(kind) == old(self).slot(kind) + resources@,
            forall|other: u64| other != kind ==> final(self).slot(other) == old(self).slot(other),
    {
        let ghost before = self.slot(kind);
        let ghost others = *self;
        for resource in it: resources
            invariant
                self.slot(kind) == before + it.seq().take(it.index() as int),
                forall|other: u64| other != kind ==> self.slot(other) == others.slot(other),
        {
            self.add(kind, resource);
        }
    }

    /// The builder with `resource` appended to the slot of `kind`.
    pub fn with(self, kind: u64, resource: R) -> (root: Self)
        ensures
            root.slot(kind) == self.slot(kind).push(resource),
            forall|other: u64| other != kind ==> root.slot(other) == self.slot(other),
    {
        let mut root = self;
        root.add(kind, resource);
        root
    }

    /// The builder with `resources` appended, in order, to the slot of
    /// `kind`.
    pub fn with_many(self, kind: u64, resources: Vec<R>) -> (root: Self)
        ensures
            root.slot(kind) == self.slot(kind) + resources@,
            forall|other: u64| other != kind ==> root.slot(other) == self.slot(other),
    {
        let mut root = self;
        root.add_many(kind, resources);
        root
    }

    /// Freezes the builder into a state of one base layer that shows what
    /// the builder held.
    pub fn finalize(self) -> (state: State<R>)
        ensures
            forall|kind: u64| state.slot(kind) == self.slot(kind),
            forall|kind: u64| state.history(kind) == Seq::<R>::empty(),
            state.depth() == 0,
    {
        State { data: Rc::new(StateData::root(self.data.into_node())) }
    }
}

/// An immutable state: for each kind the slot that the nearest layer
/// defines, and the history recorded for it.
#[derive(Debug)]
pub struct State<R> {
    data: Rc<StateData<R>>,
}

impl<R> State<R> {
    /// The values visible for `kind`: those of the nearest layer that
    /// defines the kind, none if no layer does.
    pub closed spec fn slot(self, kind: u64) -> Seq<R> {
        self.data.slot(kind)
    }

    /// The values recorded for `kind`, the latest first.
    pub closed spec fn history(self, kind: u64) -> Seq<R> {
        self.data.history(kind)
    }

    /// The number of layers that lie over the base layers of this state.
    pub closed spec fn depth(self) -> nat {
        self.data.slots.depth() + self.data.traces.depth()
    }

    /// The slot visible for `kind`, empty if no layer defines it.
    pub fn get(&self, kind: u64) -> (values: &[R])
        ensures
            values@ == self.slot(kind),
    {
        self.data.get(kind)
    }

    /// The first value of the slot visible for `kind`, if it has one.
    pub fn first(&self, kind: u64) -> (value: Option<&R>)
        ensures
            value == (if self.slot(kind).len() > 0 {
                Some(&self.slot(kind)[0])
            } else {
                None
            }),
    {
        self.get(kind).first()
    }

    /// Whether a value of the slot visible for `kind` equals `resource`.
    pub fn has(&self, kind: u64, resource: &R) -> (found: bool) where R: Eq
        ensures
            R::obeys_eq_spec() ==> (found <==> exists|i: int|
                0 <= i < self.slot(kind).len() && #[trigger] self.slot(kind)[i].eq_spec(resource)),
            found ==> exists|i: int|
                0 <= i < self.slot(kind).len() && call_ensures(
                    R::eq,
                    (&#[trigger] self.slot(kind)[i], resource),
                    true,
                ),
            !found ==> forall|i: int|
                0 <= i < self.slot(kind).len() ==> call_ensures(
                    R::eq,
                    (&#[trigger] self.slot(kind)[i], resource),
                    false,
                ),
    {
        let values = self.get(kind);
        let mut i: usize = 0;
        while i < values.len()
            invariant
                i <= values@.len(),
                values@ == self.slot(kind),
                R::obeys_eq_spec() ==> forall|j: int|
                    0 <= j < i ==> !(#[trigger] self.slot(kind)[j].eq_spec(resource)),
                forall|j: int|
                    0 <= j < i ==> call_ensures(
                        R::eq,
                        (&#[trigger] self.slot(kind)[j], resource),
                        false,
                    ),
            decreases values.len() - i,
        {
            if values[i].eq(resource) {
                return true;
            }
            i = i + 1;
        }
        false
    }

    /// A branch whose slot of `kind` holds clones of the values visible here
    /// and then the values of `source`.
    pub fn with_produced(&self, kind: u64, source: Vec<R>) -> (child: Self) where R: Clone
        ensures
            appended(child.slot(kind), self.slot(kind), source@),
            child.overrides(*self, kind),
    {
        let mut source = source;
        let mut new_resources: Vec<R> = Vec::new();
        new_resources.extend_from_slice(self.data.get(kind));
        new_resources.append(&mut source);
        let new_data = self.data.child_with_override(kind, new_resources);
        State { data: Rc::new(new_data) }
    }

    /// This state lies one layer over `parent` and differs from it at most in
    /// the slot of `kind`.
    pub open spec fn overrides(self, parent: Self, kind: u64) -> bool {
        &&& forall|other: u64| other != kind ==> self.slot(other) == parent.slot(other)
        &&& forall|any: u64| self.history(any) == parent.history(any)
        &&& self.depth() == parent.depth() + 1
    }

    /// This state is the branch that `descend_mapped_filtered` makes of
    /// `parent` for the value at `index`, with `mapped` in its place.
    pub open spec fn mapped_branch(
        self,
        parent: Self,
        kind: u64,
        index: int,
        mapped: R,
    ) -> bool where R: Clone {
        &&& self.overrides(parent, kind)
        &&& moved_last(self.slot(kind), parent.slot(kind), index, mapped)
    }

    /// This state is the branch that `descend_consumed_filtered` makes of
    /// `parent` for the value at `index`.
    pub open spec fn consumed_branch(self, parent: Self, kind: u64, index: int) -> bool where
        R: Clone,
    {
        &&& self.overrides(parent, kind)
        &&& taken_out(self.slot(kind), parent.slot(kind), index)
    }

    /// `mapper` may be called on a clone of any value of the slot of `kind`,
    /// and `callback` on any branch made for what it returns.
    pub open spec fn admits_mapped<MF, F>(self, kind: u64, mapper: MF, callback: F) -> bool where
        R: Clone,
        MF: FnMut(R) -> R,
        F: FnMut(&State<R>, &R),
    {
        &&& forall|i: int, taken: R|
            0 <= i < self.slot(kind).len() && cloned(#[trigger] self.slot(kind)[i], taken)
                ==> #[trigger] call_requires(mapper, (taken,))
        &&& forall|child: State<R>, i: int, mapped: R| #[trigger]
            child.mapped_branch(self, kind, i, mapped) ==> call_requires(
                callback,
                (&child, &mapped),
            )
    }

    /// `callback` may be called on any branch made by taking one value out of
    /// the slot of `kind`, with a clone of that value.
    pub open spec fn admits_consumed<F>(self, kind: u64, callback: F) -> bool where
        R: Clone,
        F: FnMut(&State<R>, R),
    {
        forall|child: State<R>, i: int, taken: R|
            #[trigger] child.consumed_branch(self, kind, i) && cloned(self.slot(kind)[i], taken)
                ==> #[trigger] call_requires(callback, (&child, taken))
    }

    /// `call` records one round of `descend_mapped_filtered`: the index of a
    /// value of the slot of `kind`, the branch made for it and the mapped
    /// value, after `mapper` turned a clone of the value into the mapped
    /// value and `callback` was called with the branch and the mapped value.
    pub open spec fn mapped_call<MF, F>(
        self,
        kind: u64,
        mapper: MF,
        callback: F,
        call: Descent<R>,
    ) -> bool where R: Clone, MF: FnMut(R) -> R, F: FnMut(&State<R>, &R) {
        &&& 0 <= call.index < self.slot(kind).len()
        &&& exists|taken: R|
            cloned(self.slot(kind)[call.index], taken) && #[trigger] call_ensures(
                mapper,
                (taken,),
                call.value,
            )
        &&& call.child.mapped_branch(self, kind, call.index, call.value)
        &&& call_ensures(callback, (&call.child, &call.value), ())
    }

    /// `call` records one round of `descend_consumed_filtered`: the index of
    /// a value of the slot of `kind`, the branch made without it and a clone
    /// of the value, after `callback` was called with the two.
    pub open spec fn consumed_call<F>(
        self,
        kind: u64,
        callback: F,
        call: Descent<R>,
    ) -> bool where R: Clone, F: FnMut(&State<R>, R) {
        &&& 0 <= call.index < self.slot(kind).len()
        &&& cloned(self.slot(kind)[call.index], call.value)
        &&& call.child.consumed_branch(self, kind, call.index)
        &&& call_ensures(callback, (&call.child, call.value), ())
    }

    /// `calls` took the values of the slot of `kind` below `upto` in order:
    /// `filter` answered true for the value of each call and false for every
    /// value that has no call.
    pub open spec fn filtered_calls<RF>(
        self,
        kind: u64,
        filter: RF,
        calls: Seq<Descent<R>>,
        upto: int,
    ) -> bool where RF: FnMut(&R) -> bool {
        &&& forall|k: int|
            0 <= k < calls.len() ==> 0 <= (#[trigger] calls[k]).index < upto && call_ensures(
                filter,
                (&self.slot(kind)[calls[k].index],),
                true,
            )
        &&& forall|k: int, l: int| 0 <= k < l < calls.len() ==> calls[k].index < calls[l].index
        &&& forall|i: int|
            0 <= i < upto ==> call_ensures(filter, (&#[trigger] self.slot(kind)[i],), false)
                || occurs(calls, i)
    }

    /// For each value of the slot of `kind` that `filter` accepts, in order:
    /// makes the branch in which clones of the other values keep their order
    /// and what `mapper` makes of a clone of the value comes last, and calls
    /// `callback` with the branch and the mapped value. Returns the record of
    /// the calls.
    pub fn descend_mapped_filtered<RF, MF, F>(
        &self,
        kind: u64,
        filter: RF,
        mapper: MF,
        callback: F,
    ) -> (calls: Ghost<Seq<Descent<R>>>) where
        R: Clone,
        RF: FnMut(&R) -> bool,
        MF: FnMut(R) -> R,
        F: FnMut(&State<R>, &R),

        requires
            forall|i: int|
                0 <= i < self.slot(kind).len() ==> call_requires(
                    filter,
                    (&#[trigger] self.slot(kind)[i],),
                ),
            self.admits_mapped(kind, mapper, callback),
        ensures
            self.filtered_calls(kind, filter, calls@, self.slot(kind).len() as int),
            forall|k: int|
                0 <= k < calls@.len() ==> self.mapped_call(
                    kind,
                    mapper,
                    callback,
                    #[trigger] calls@[k],
                ),
    {
        let mut accept = filter;
        let mut map_one = mapper;
        let mut notify = callback;
        let ghost mut calls: Seq<Descent<R>> = Seq::empty();
        let visible = self.data.get(kind);
        let mut index: usize = 0;
        while index < visible.len()
            invariant
                accept == filter,
                map_one == mapper,
                notify == callback,
                index <= visible@.len(),
                visible@ == self.slot(kind),
                forall|i: int|
                    0 <= i < self.slot(kind).len() ==> call_requires(
                        filter,
                        (&#[trigger] self.slot(kind)[i],),
                    ),
                self.admits_mapped(kind, mapper, callback),
                self.filtered_calls(kind, filter, calls, index as int),
                forall|k: int|
                    0 <= k < calls.len() ==> self.mapped_call(
                        kind,
                        mapper,
                        callback,
                        #[trigger] calls[k],
                    ),
            decreases visible.len() - index,
        {
            let ghost before = calls;
            if accept(&visible[index]) {
                let mut new_resources: Vec<R> = Vec::new();
                new_resources.extend_from_slice(visible);
                let removed = new_resources.remove(index);
                let mapped = map_one(removed);
                new_resources.push(mapped);
                let new_data = self.data.child_with_override(kind, new_resources);
                let new_state = State { data: Rc::new(new_data) };
                let resources = new_state.get(kind);
                let last = &resources[resources.len() - 1];
                assert(new_state.mapped_branch(*self, kind, index as int, *last));
                notify(&new_state, last);
                proof {
                    calls = calls.push(
                        Descent { index: index as int, child: new_state, value: *last },
                    );
                    assert(calls.drop_last() =~= before);
                }
            }
            proof {
                lemma_calls_grow(before, calls, index as int);
            }
            index = index + 1;
        }
        Ghost(calls)
    }

    /// `descend_mapped_filtered` with a filter that accepts every value:
    /// one call for each value of the slot of `kind`, in order.
    pub fn descend_mapped<MF, F>(&self, kind: u64, mapper: MF, callback: F) -> (calls: Ghost<
        Seq<Descent<R>>,
    >) where R: Clone, MF: FnMut(R) -> R, F: FnMut(&State<R>, &R)
        requires
            self.admits_mapped(kind, mapper, callback),
        ensures
            calls@.len() == self.slot(kind).len(),
            forall|k: int|
                0 <= k < calls@.len() ==> (#[trigger] calls@[k]).index == k && self.mapped_call(
                    kind,
                    mapper,
                    callback,
                    calls@[k],
                ),
    {
        let all = |_value: &R| -> (keep: bool)
            ensures
                keep,
            { true };
        let calls = self.descend_mapped_filtered(kind, all, mapper, callback);
        proof {
            assert forall|i: int| 0 <= i < self.slot(kind).len() implies #[trigger] occurs(
                calls@,
                i,
            ) by {
                let value = &self.slot(kind)[i];
                assert(!call_ensures(all, (value,), false));
            }
            lemma_every_index(calls@, self.slot(kind).len() as int);
        }
        calls
    }

    /// For each value of the slot of `kind` that `filter` accepts, in order:
    /// makes the branch in which clones of the other values keep their order,
    /// and calls `callback` with the branch and a clone of the value. Returns
    /// the record of the calls.
    pub fn descend_consumed_filtered<RF, F>(&self, kind: u64, filter: RF, callback: F) -> (calls:
        Ghost<Seq<Descent<R>>>) where
        R: Clone,
        RF: FnMut(&R) -> bool,
        F: FnMut(&State<R>, R),

        requires
            forall|i: int|
                0 <= i < self.slot(kind).len() ==> call_requires(
                    filter,
                    (&#[trigger] self.slot(kind)[i],),
                ),
            self.admits_consumed(kind, callback),
        ensures
            self.filtered_calls(kind, filter, calls@, self.slot(kind).len() as int),
            forall|k: int|
                0 <= k < calls@.len() ==> self.consumed_call(kind, callback, #[trigger] calls@[k]),
    {
        let mut accept = filter;
        let mut notify = callback;
        let ghost mut calls: Seq<Descent<R>> = Seq::empty();
        let visible = self.data.get(kind);
        let mut index: usize = 0;
        while index < visible.len()
            invariant
                accept == filter,
                notify == callback,
                index <= visible@.len(),
                visible@ == self.slot(kind),
                forall|i: int|
                    0 <= i < self.slot(kind).len() ==> call_requires(
                        filter,
                        (&#[trigger] self.slot(kind)[i],),
                    ),
                self.admits_consumed(kind, callback),
                self.filtered_calls(kind, filter, calls, index as int),
                forall|k: int|
                    0 <= k < calls.len() ==> self.consumed_call(
                        kind,
                        callback,
                        #[trigger] calls[k],
                    ),
            decreases visible.len() - index,
        {
            let ghost before = calls;
            if accept(&visible[index]) {
                let mut new_resources: Vec<R> = Vec::new();
                new_resources.extend_from_slice(visible);
                let removed = new_resources.remove(index);
                let new_data = self.data.child_with_override(kind, new_resources);
                let new_state = State { data: Rc::new(new_data) };
                let ghost taken = removed;
                assert(new_state.consumed_branch(*self, kind, index as int));
                notify(&new_state, removed);
                proof {
                    calls = calls.push(
                        Descent { index: index as int, child: new_state, value: taken },
                    );
                    assert(calls.drop_last() =~= before);
                }
            }
            proof {
                lemma_calls_grow(before, calls, index as int);
            }
            index = index + 1;
        }
        Ghost(calls)
    }

    /// `descend_consumed_filtered` with a filter that accepts every value:
    /// one call for each value of the slot of `kind`, in order.
    pub fn descend_consumed<F>(&self, kind: u64, callback: F) -> (calls: Ghost<
        Seq<Descent<R>>,
    >) where R: Clone, F: FnMut(&State<R>, R)
        requires
            self.admits_consumed(kind, callback),
        ensures
            calls@.len() == self.slot(kind).len(),
            forall|k: int|
                0 <= k < calls@.len() ==> (#[trigger] calls@[k]).index == k && self.consumed_call(
                    kind,
                    callback,
                    calls@[k],
                ),
    {
        let all = |_value: &R| -> (keep: bool)
            ensures
                keep,
            { true };
        let calls = self.descend_consumed_filtered(kind, all, callback);
        proof {
            assert forall|i: int| 0 <= i < self.slot(kind).len() implies #[trigger] occurs(
                calls@,
                i,
            ) by {
                let value = &self.slot(kind)[i];
                assert(!call_ensures(all, (value,), false));
            }
            lemma_every_index(calls@, self.slot(kind).len() as int);
        }
        calls
    }

    /// A branch that records `value` as the latest of the history of `kind`
    /// and shows the slots that this state shows.
    pub fn with_trace(&self, kind: u64, value: R) -> (child: Self)
        ensures
            child.history(kind) == seq![value] + self.history(kind),
            forall|other: u64| other != kind ==> child.history(other) == self.history(other),
            forall|any: u64| child.slot(any) == self.slot(any),
            child.depth() == self.depth() + 1,
    {
        let current = if let Some(prev) = self.data.traces.get(kind) {
            Trace { value, previous: Some(prev.clone()) }
        } else {
            Trace { value, previous: None }
        };
        let new_data = StateData {
            slots: self.data.slots.clone(),
            traces: Rc::new(self.data.traces.child_with_override(kind, Rc::new(current))),
        };
        State { data: Rc::new(new_data) }
    }

    /// A walk over the history of `kind`, from the latest value back.
    pub fn trace(&self, kind: u64) -> (iter: TraceIter<'_, R>)
        ensures
            iter.remaining() == self.history(kind),
    {
        TraceIter { current: self.data.traces.get(kind) }
    }

    /// A state of base layers alone that shows what this state shows.
    pub fn flatten(&self) -> (flat: Self)
        ensures
            forall|kind: u64| flat.slot(kind) == self.slot(kind),
            forall|kind: u64| flat.history(kind) == self.history(kind),
            flat.depth() == 0,
    {
        let new_data = StateData {
            slots: Rc::new(self.data.slots.flatten()),
            traces: Rc::new(self.data.traces.flatten()),
        };
        State { data: Rc::new(new_data) }
    }
}

/// A clone shares the layers of the state that it was made from.
impl<R> Clone for State<R> {
    /// Another holder of the same state.
    fn clone(&self) -> (copy: Self)
        ensures
            copy == *self,
    {
        State { data: self.data.clone() }
    }
}

/// `slot` holds a clone of each value of `base`, in order, and then the
/// values of `added`.
pub open spec fn appended<R: Clone>(slot: Seq<R>, base: Seq<R>, added: Seq<R>) -> bool {
    &&& slot.len() == base.len() + added.len()
    &&& forall|i: int| 0 <= i < base.len() ==> cloned(base[i], #[trigger] slot[i])
    &&& forall|i: int| base.len() <= i < slot.len() ==> #[trigger] slot[i] == added[i - base.len()]
}

/// `slot` holds a clone of each value of `base` but the one at `index`, in
/// order, and then `last`.
pub open spec fn moved_last<R: Clone>(slot: Seq<R>, base: Seq<R>, index: int, last: R) -> bool {
    &&& 0 <= index < base.len()
    &&& slot.len() == base.len()
    &&& forall|i: int| 0 <= i < index ==> cloned(base[i], #[trigger] slot[i])
    &&& forall|i: int| index < i < base.len() ==> cloned(#[trigger] base[i], slot[i - 1])
    &&& slot[base.len() - 1] == last
}

/// `slot` holds a clone of each value of `base` but the one at `index`, in
/// order.
pub open spec fn taken_out<R: Clone>(slot: Seq<R>, base: Seq<R>, index: int) -> bool {
    &&& 0 <= index < base.len()
    &&& slot.len() == base.len() - 1
    &&& forall|i: int| 0 <= i < index ==> cloned(base[i], #[trigger] slot[i])
    &&& forall|i: int| index < i < base.len() ==> cloned(#[trigger] base[i], slot[i - 1])
}

/// Flattening twice shows what flattening once shows, which is what the
/// state itself shows: for every kind the same slot and the same history.
pub proof fn lemma_flatten_idempotent<R>(state: State<R>, once: State<R>, twice: State<R>)
    requires
        forall|kind: u64| once.slot(kind) == state.slot(kind),
        forall|kind: u64| once.history(kind) == state.history(kind),
        forall|kind: u64| twice.slot(kind) == once.slot(kind),
        forall|kind: u64| twice.history(kind) == once.history(kind),
    ensures
        forall|kind: u64| #[trigger] twice.slot(kind) == once.slot(kind),
        forall|kind: u64| #[trigger] once.slot(kind) == state.slot(kind),
        forall|kind: u64| #[trigger] twice.history(kind) == once.history(kind),
        forall|kind: u64| #[trigger] once.history(kind) == state.history(kind),
{
}

/// Two branches of one parent do not see each other: outside the kind that
/// a branch overrides, it shows what the parent shows, whatever its sibling
/// overrides, and both share the parent's histories.
pub proof fn lemma_branch_independence<R>(
    parent: State<R>,
    left: State<R>,
    left_kind: u64,
    right: State<R>,
    right_kind: u64,
)
    requires
        left.overrides(parent, left_kind),
        right.overrides(parent, right_kind),
    ensures
        forall|kind: u64| kind != left_kind ==> #[trigger] left.slot(kind) == parent.slot(kind),
        forall|kind: u64| kind != right_kind ==> #[trigger] right.slot(kind) == parent.slot(kind),
        forall|kind: u64|
            kind != left_kind && kind != right_kind ==> #[trigger] left.slot(kind) == right.slot(
                kind,
            ),
        forall|kind: u64| #[trigger] left.history(kind) == right.history(kind),
{
}

/// Values come out in the order in which they went in: two values added to
/// an empty slot are the slot of the state built from it, and what a branch
/// produces comes after clones of them.
pub proof fn lemma_insertion_order<R: Clone>(
    empty: RootState<R>,
    first: RootState<R>,
    second: RootState<R>,
    state: State<R>,
    child: State<R>,
    kind: u64,
    a: R,
    b: R,
    produced: Seq<R>,
)
    requires
        empty.slot(kind) == Seq::<R>::empty(),
        first.slot(kind) == empty.slot(kind).push(a),
        second.slot(kind) == first.slot(kind).push(b),
        state.slot(kind) == second.slot(kind),
        appended(child.slot(kind), state.slot(kind), produced),
    ensures
        state.slot(kind) == seq![a, b],
        child.slot(kind).len() == 2 + produced.len(),
        cloned(a, child.slot(kind)[0]),
        cloned(b, child.slot(kind)[1]),
        child.slot(kind).skip(2) == produced,
{
    assert(state.slot(kind) =~= seq![a, b]);
    assert(cloned(state.slot(kind)[0], child.slot(kind)[0]));
    assert(cloned(state.slot(kind)[1], child.slot(kind)[1]));
    assert(child.slot(kind).skip(2) =~= produced);
}

/// The record of one call that a descent made: the index of the value that
/// the call was made for, the branch handed to the callback and the value
/// handed over with it.
pub struct Descent<R> {
    pub index: int,
    pub child: State<R>,
    pub value: R,
}

/// One of `calls` was made for the value at index `i`.
pub open spec fn occurs<R>(calls: Seq<Descent<R>>, i: int) -> bool {
    exists|k: int| 0 <= k < calls.len() && (#[trigger] calls[k]).index == i
}

/// Calls whose indices rise, lie below `n` and leave out none of those below
/// `n` are one for each index, in order.
proof fn lemma_every_index<R>(calls: Seq<Descent<R>>, n: int)
    requires
        0 <= n,
        forall|k: int| 0 <= k < calls.len() ==> 0 <= (#[trigger] calls[k]).index < n,
        forall|k: int, l: int| 0 <= k < l < calls.len() ==> calls[k].index < calls[l].index,
        forall|i: int| 0 <= i < n ==> #[trigger] occurs(calls, i),
    ensures
        calls.len() == n,
        forall|k: int| 0 <= k < calls.len() ==> (#[trigger] calls[k]).index == k,
{
    lemma_leading_indices(calls, n, calls.len() as int);
    if calls.len() > 0 {
        assert(calls[calls.len() - 1].index < n);
    }
    if n > 0 {
        assert(occurs(calls, n - 1));
    }
}

/// The first `upto` of such calls are one for each index below `upto`, in
/// order.
proof fn lemma_leading_indices<R>(calls: Seq<Descent<R>>, n: int, upto: int)
    requires
        0 <= upto <= calls.len(),
        forall|k: int| 0 <= k < calls.len() ==> 0 <= (#[trigger] calls[k]).index < n,
        forall|k: int, l: int| 0 <= k < l < calls.len() ==> calls[k].index < calls[l].index,
        forall|i: int| 0 <= i < n ==> #[trigger] occurs(calls, i),
    ensures
        forall|k: int| 0 <= k < upto ==> (#[trigger] calls[k]).index == k,
    decreases upto,
{
    if upto > 0 {
        lemma_leading_indices(calls, n, upto - 1);
        let last = upto - 1;
        if last > 0 {
            assert(calls[last - 1].index < calls[last].index);
        }
        if calls[last].index > last {
            assert(occurs(calls, last));
            let k = choose|k: int| 0 <= k < calls.len() && (#[trigger] calls[k]).index == last;
            if k > last {
                assert(calls[last].index < calls[k].index);
            }
        }
    }
}

/// What held of the calls made for the values below `index` holds of the
/// calls made for the values up to `index`, where the value at `index` got
/// one more call or none.
proof fn lemma_calls_grow<R>(
    before: Seq<Descent<R>>,
    after: Seq<Descent<R>>,
    index: int,
)
    requires
        after == before || (after.len() == before.len() + 1 && after.drop_last() == before
            && after.last().index == index),
        forall|k: int| 0 <= k < before.len() ==> (#[trigger] before[k]).index < index,
    ensures
        forall|k: int| 0 <= k < before.len() ==> #[trigger] after[k] == before[k],
        forall|i: int| occurs(before, i) ==> occurs(after, i),
        after != before ==> occurs(after, index),
        forall|k: int, l: int|
            0 <= k < l < after.len() && l == before.len() ==> after[k].index < after[l].index,
{
    if after != before {
        assert(forall|k: int| 0 <= k < before.len() ==> after[k] == after.drop_last()[k]);
        assert(after[after.len() - 1].index == index);
        assert forall|i: int| occurs(before, i) implies occurs(after, i) by {
            let k = choose|k: int| 0 <= k < before.len() && (#[trigger] before[k]).index == i;
            assert(after[k].index == i);
        }
    }
}

/// A walk over the history recorded for one kind, from the latest value back
/// to the oldest.
#[derive(Debug)]
pub struct TraceIter<'s, R> {
    current: Option<&'s Rc<Trace<R>>>,
}

impl<'s, R> TraceIter<'s, R> {
    /// The values that the walk has yet to give, the next one first.
    pub closed spec fn remaining(self) -> Seq<R> {
        match self.current {
            Some(trace) => trace.history(),
            None => Seq::empty(),
        }
    }

    /// Gives the next value of the walk, if one is left, and steps past it.
    pub fn next(&mut self) -> (value: Option<&'s R>)
        ensures
            old(self).remaining().len() == 0 ==> value.is_none() && final(self).remaining()
                == old(self).remaining(),
            old(self).remaining().len() > 0 ==> value == Some(&old(self).remaining()[0])
                && final(self).remaining() == old(self).remaining().drop_first(),
    {
        match self.current {
            Some(trace) => {
                self.current = trace.previous.as_ref();
                assert(trace.history().drop_first() =~= self.remaining());
                Some(&trace.value)
            },
            None => None,
        }
    }
}

} // verus!
