use crate::access::{
    observe_change_at, on_change_at, CloneReactiveState, Observable, ObserveChangeReactiveState,
};
use crate::graph::Edge;
use crate::key::StorageKey;
use crate::reactive_state_functions::{
    read_reactive_state_with_id, reactive_state_exists_for_id, remove_reactive_state_with_id,
};
use crate::store::{ReactiveContext, Recompute, Store};
use crate::undo::entry;
use std::marker::PhantomData;
use vstd::prelude::*;

verus! {

/// A handle on a entry whose value a body computes from other entries.
#[derive(Debug)]
pub struct Reaction<T> {
    pub id: StorageKey,
    pub _phantom_data_stored_type: PhantomData<T>,
}

impl<T> Clone for Reaction<T> {
    fn clone(&self) -> (r: Self)
        ensures
            r == *self,
    {
        Reaction { id: self.id, _phantom_data_stored_type: PhantomData }
    }
}

impl<T> Copy for Reaction<T> {

}

impl<T: Copy> Reaction<T> {
    pub fn new(id: StorageKey) -> (r: Reaction<T>)
        ensures
            r.id == id,
    {
        Reaction { id, _phantom_data_stored_type: PhantomData }
    }

    /// Removes the value and hands it back, if there was one.
    pub fn remove<F: Recompute<T>>(self, store: &mut Store<T, F>) -> (r: Option<T>)
        requires
            old(store).wf(),
        ensures
            final(store).wf(),
            r == entry(old(store).values(), self.id),
            final(store).values() == old(store).values().remove(self.id),
            final(store).edges() == old(store).edges(),
            final(store).same_registrations(old(store)),
            final(store).recomputes() == old(store).recomputes(),
    {
        remove_reactive_state_with_id(store, self.id)
    }

    /// Removes the value.
    pub fn delete<F: Recompute<T>>(self, store: &mut Store<T, F>)
        requires
            old(store).wf(),
        ensures
            final(store).wf(),
            final(store).values() == old(store).values().remove(self.id),
            final(store).edges() == old(store).edges(),
            final(store).same_registrations(old(store)),
            final(store).recomputes() == old(store).recomputes(),
    {
        self.remove(store);
    }

    /// Runs the body now, with no propagation: the value and what the
    /// reaction reads are brought up to date.
    pub fn force_trigger<F: Recompute<T>>(&self, store: &mut Store<T, F>)
        requires
            old(store).wf(),
            old(store).funcs().contains_key(self.id),
        ensures
            Store::recomputed(*old(store), self.id, *final(store)),
    {
        store.recompute(&self.id);
    }

    /// Whether the entry holds a value.
    pub fn state_exists<F: Recompute<T>>(self, store: &Store<T, F>) -> (r: bool)
        requires
            store.wf(),
        ensures
            r == store.values().contains_key(self.id),
    {
        reactive_state_exists_for_id(store, self.id)
    }

    /// Reads the value on behalf of the recompute that `cx` records, so that
    /// it reruns when this reaction changes, and runs `func` on every call at
    /// `slot` but the first. The first call keeps the value it saw in `slot`.
    pub fn on_update<F: Recompute<T>, R, G: FnOnce() -> R>(
        &self,
        store: &mut Store<T, F>,
        cx: &mut ReactiveContext,
        slot: StorageKey,
        func: G,
    ) -> (r: Option<R>)
        requires
            old(store).wf(),
            old(store).values().contains_key(self.id),
            old(store).nodes().contains(old(cx).key),
            slot != self.id,
            func.requires(()),
        ensures
            r is None <==> !old(store).values().contains_key(slot),
            r matches Some(x) ==> func.ensures((), x),
            Self::first_call_recorded(*old(store), self.id, slot, *final(store)),
            forall|e: Edge|
                e.consumer != old(cx).key ==> (#[trigger] final(store).edges().contains(e)
                    <==> old(store).edges().contains(e)),
            final(store).has_edge(self.id, old(cx).key),
            final(cx).key == old(cx).key,
            final(cx).reactive_state_accessors@ == old(cx).reactive_state_accessors@.push(self.id),
    {
        let v = store.observe(&self.id, cx);
        if store.holds(&slot) {
            Some(func())
        } else {
            store.insert_inert(slot, v);
            None
        }
    }

    /// Whether a call at `slot` came before this one; the read is recorded in
    /// `cx`, and the first call keeps the value it saw in `slot`.
    pub fn has_updated<F: Recompute<T>>(
        &self,
        store: &mut Store<T, F>,
        cx: &mut ReactiveContext,
        slot: StorageKey,
    ) -> (r: bool)
        requires
            old(store).wf(),
            old(store).values().contains_key(self.id),
            old(store).nodes().contains(old(cx).key),
            slot != self.id,
        ensures
            r == old(store).values().contains_key(slot),
            Self::first_call_recorded(*old(store), self.id, slot, *final(store)),
            forall|e: Edge|
                e.consumer != old(cx).key ==> (#[trigger] final(store).edges().contains(e)
                    <==> old(store).edges().contains(e)),
            final(store).has_edge(self.id, old(cx).key),
            final(cx).key == old(cx).key,
            final(cx).reactive_state_accessors@ == old(cx).reactive_state_accessors@.push(self.id),
    {
        let v = store.observe(&self.id, cx);
        if store.holds(&slot) {
            true
        } else {
            store.insert_inert(slot, v);
            false
        }
    }

    /// `after` is `before` once a call at `slot` has been noted, but for
    /// edges: a first call stores the value of `k` under `slot`, a later one
    /// leaves the values as they were.
    pub open spec fn first_call_recorded<F: Recompute<T>>(
        before: Store<T, F>,
        k: StorageKey,
        slot: StorageKey,
        after: Store<T, F>,
    ) -> bool {
        &&& after.wf()
        &&& after.values() == (if before.values().contains_key(slot) {
            before.values()
        } else {
            before.values().insert(slot, before.values()[k])
        })
        &&& after.contexts() == before.contexts()
        &&& after.same_registrations(&before)
        &&& after.recomputes() == before.recomputes()
    }

    /// What `func` makes of the value, which must be there.
    pub fn get_with<F: Recompute<T>, R, G: FnOnce(&T) -> R>(&self, store: &Store<T, F>, func: G) -> (r:
        R)
        requires
            store.wf(),
            store.values().contains_key(self.id),
            func.requires((&store.values()[self.id],)),
        ensures
            func.ensures((&store.values()[self.id],), r),
    {
        read_reactive_state_with_id(store, self.id, func)
    }
}

impl<T: Copy> Observable<T> for Reaction<T> {
    open spec fn key(&self) -> StorageKey {
        self.id
    }

    fn id(&self) -> (r: StorageKey) {
        self.id
    }

    fn observe<F: Recompute<T>>(&self, store: &mut Store<T, F>, cx: &mut ReactiveContext) -> (r: T) {
        store.observe(&self.id, cx)
    }

    fn observe_with<F: Recompute<T>, R, G: FnOnce(&T) -> R>(
        &self,
        store: &mut Store<T, F>,
        cx: &mut ReactiveContext,
        func: G,
    ) -> (r: R) {
        let v = store.observe(&self.id, cx);
        func(&v)
    }
}

impl<T: Copy> CloneReactiveState<T> for Reaction<T> {
    open spec fn state_key(&self) -> StorageKey {
        self.id
    }

    fn get<F: Recompute<T>>(&self, store: &Store<T, F>) -> (r: T) {
        store.value(&self.id).unwrap()
    }

    fn soft_get<F: Recompute<T>>(&self, store: &Store<T, F>) -> (r: Option<T>) {
        store.value(&self.id)
    }
}

impl<T: Copy + PartialEq> ObserveChangeReactiveState<T> for Reaction<T> {
    open spec fn change_key(&self) -> StorageKey {
        self.id
    }

    fn observe_change<F: Recompute<T>>(&self, store: &mut Store<T, F>, slot: StorageKey) -> (r: (
        Option<T>,
        T,
    )) {
        observe_change_at(store, self.id, slot)
    }

    fn has_changed<F: Recompute<T>>(&self, store: &mut Store<T, F>, slot: StorageKey) -> (r: bool) {
        let seen = observe_change_at(store, self.id, slot);
        seen.0.is_some()
    }

    fn on_change<F: Recompute<T>, R, G: FnOnce(&T, &T) -> R>(
        &self,
        store: &mut Store<T, F>,
        prev_slot: StorageKey,
        last_slot: StorageKey,
        func: G,
    ) -> (r: R) {
        on_change_at(store, self.id, prev_slot, last_slot, func)
    }
}

} // verus!
