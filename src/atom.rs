use crate::access::{
    observe_change_at, on_change_at, CloneReactiveState, Observable, ObserveChangeReactiveState,
};
use crate::key::StorageKey;
use crate::reactive_state_functions::{
    read_reactive_state_with_id, reactive_state_exists_for_id, remove_reactive_state_with_id,
    set_atom_state_with_id, set_inert_atom_state_with_id, update_atom_state_with_id,
};
use crate::store::{PropagationError, ReactiveContext, Recompute, Store};
use crate::undo::entry;
use std::marker::PhantomData;
use crate::laws::ranked;
use vstd::prelude::*;

verus! {

/// A handle on a directly settable entry of a store.
#[derive(Debug)]
pub struct Atom<T> {
    pub id: StorageKey,
    pub _phantom_data_stored_type: PhantomData<T>,
}

impl<T> Clone for Atom<T> {
    fn clone(&self) -> (r: Self)
        ensures
            r == *self,
    {
        Atom { id: self.id, _phantom_data_stored_type: PhantomData }
    }
}

impl<T> Copy for Atom<T> {

}

impl<T: Copy> Atom<T> {
    pub fn new(id: StorageKey) -> (r: Atom<T>)
        ensures
            r.id == id,
    {
        Atom { id, _phantom_data_stored_type: PhantomData }
    }

    /// Stores `value` without telling the entries that read this one.
    pub fn inert_set<F: Recompute<T>>(self, store: &mut Store<T, F>, value: T)
        requires
            old(store).wf(),
        ensures
            Store::inert_written(*old(store), self.id, value, *final(store)),
    {
        set_inert_atom_state_with_id(store, value, self.id);
    }

    /// Stores `value` and propagates the change to the entries that read this one.
    pub fn set<F: Recompute<T>>(self, store: &mut Store<T, F>, value: T) -> (r: Result<
        (),
        PropagationError,
    >)
        requires
            old(store).wf(),
        ensures
            final(store).wf(),
            final(store).same_registrations(old(store)),
            final(store).agrees_on_sources(old(store), old(store).values().insert(self.id, value)),
            old(store).dependents(self.id).len() == 0 ==> r is Ok && final(store).values() == old(store).values().insert(self.id, value),
            Store::live_written(*old(store), self.id, value, *final(store), r is Ok),
        (exists|rank: Map<StorageKey, nat>| #[trigger]
            ranked(*old(store), rank, old(store).nodes().len() as nat)) ==> r is Ok
            && final(store).values().contains_key(self.id) && final(store).values()[self.id] == value,
    {
        set_atom_state_with_id(store, value, self.id)
    }

    /// Replaces the value by what `func` makes of it and propagates the change.
    pub fn update<F: Recompute<T>, G: FnOnce(T) -> T>(&self, store: &mut Store<T, F>, func: G) -> (r:
        Result<(), PropagationError>)
        requires
            old(store).wf(),
            old(store).values().contains_key(self.id),
            func.requires((old(store).values()[self.id],)),
        ensures
            final(store).wf(),
            final(store).same_registrations(old(store)),
            exists|n: T|
                {
                    &&& func.ensures((old(store).values()[self.id],), n)
                    &&& #[trigger] Store::live_written(*old(store), self.id, n, *final(store), r is Ok)
                    &&& final(store).agrees_on_sources(old(store), old(store).values().insert(self.id, n))
                    &&& old(store).dependents(self.id).len() == 0 ==> r is Ok && final(store).values()
                        == old(store).values().insert(self.id, n)
                },
        (exists|rank: Map<StorageKey, nat>| #[trigger]
            ranked(*old(store), rank, old(store).nodes().len() as nat)) ==> r is Ok,
    {
        update_atom_state_with_id(store, self.id, func)
    }

    /// Removes the value and hands it back, if there was one.
    pub fn remove<F: Recompute<T>>(self, store: &mut Store<T, F>) -> (r: Option<T>)
        requires
            old(store).wf(),
        ensures
            final(store).wf(),
            r == entry(old(store).values(), self.id),
            final(store).values() == old(store).values().remove(self.id),
            final(store).edges() == old(store).edges(),
            final(store).same_registrations(old(store)),
            final(store).recomputes() == old(store).recomputes(),
    {
        remove_reactive_state_with_id(store, self.id)
    }

    /// Removes the value.
    pub fn delete<F: Recompute<T>>(self, store: &mut Store<T, F>)
        requires
            old(store).wf(),
        ensures
            final(store).wf(),
            final(store).values() == old(store).values().remove(self.id),
            final(store).edges() == old(store).edges(),
            final(store).same_registrations(old(store)),
            final(store).recomputes() == old(store).recomputes(),
    {
        self.remove(store);
    }

    /// Runs the initialiser again and propagates the new value.
    pub fn reset_to_default<F: Recompute<T>>(&self, store: &mut Store<T, F>) -> (r: Result<
        (),
        PropagationError,
    >)
        requires
            old(store).wf(),
            old(store).funcs().contains_key(self.id),
        ensures
            final(store).wf(),
            final(store).same_registrations(old(store)),
            final(store).values().contains_key(self.id),
            r is Ok ==> exists|reset: Store<T, F>|
                Store::recomputed(*old(store), self.id, reset) && #[trigger] Store::propagated(
                    reset,
                    self.id,
                    *final(store),
                    old(store).nodes().len() as nat,
                ),
            r is Err ==> exists|reset: Store<T, F>|
                Store::recomputed(*old(store), self.id, reset) && #[trigger] Store::stalled(
                    reset,
                    self.id,
                    *final(store),
                    old(store).nodes().len() as nat,
                ),
            old(store).dependents(self.id).len() == 0 && (old(store).funcs()[self.id].reads_of(
                old(store).values(),
            ) matches Some(reads) && !reads.contains(self.id)) ==> r is Ok && Store::recomputed(
                *old(store),
                self.id,
                *final(store),
            ),
    {
        store.recompute(&self.id);
        let ghost reset = *store;
        let r = store.execute(&self.id);
        proof {
            if old(store).dependents(self.id).len() == 0 && (old(store).funcs()[self.id].reads_of(
                old(store).values(),
            ) matches Some(reads) && !reads.contains(self.id)) {
                crate::laws::lemma_recompute_keeps_no_dependents(*old(store), self.id, reset);
            }
        }
        r
    }

    /// Whether the entry holds a value.
    pub fn state_exists<F: Recompute<T>>(self, store: &Store<T, F>) -> (r: bool)
        requires
            store.wf(),
        ensures
            r == store.values().contains_key(self.id),
    {
        reactive_state_exists_for_id(store, self.id)
    }

    /// What `func` makes of the value, which must be there.
    pub fn get_with<F: Recompute<T>, R, G: FnOnce(&T) -> R>(&self, store: &Store<T, F>, func: G) -> (r:
        R)
        requires
            store.wf(),
            store.values().contains_key(self.id),
            func.requires((&store.values()[self.id],)),
        ensures
            func.ensures((&store.values()[self.id],), r),
    {
        read_reactive_state_with_id(store, self.id, func)
    }

    /// Reads the value on behalf of the recompute that `cx` records, so that
    /// it reruns when this atom changes, and runs `func`.
    pub fn on_update<F: Recompute<T>, R, G: FnOnce() -> R>(
        &self,
        store: &mut Store<T, F>,
        cx: &mut ReactiveContext,
        func: G,
    ) -> (r: Option<R>)
        requires
            old(store).wf(),
            old(store).values().contains_key(self.id),
            old(store).nodes().contains(old(cx).key),
            func.requires(()),
        ensures
            r matches Some(x) && func.ensures((), x),
            Store::read_during(*old(store), old(cx).key, *final(store)),
            final(store).has_edge(self.id, old(cx).key),
            final(cx).key == old(cx).key,
            final(cx).reactive_state_accessors@ == old(cx).reactive_state_accessors@.push(self.id),
    {
        store.observe(&self.id, cx);
        Some(func())
    }
}

impl<T: Copy> Observable<T> for Atom<T> {
    open spec fn key(&self) -> StorageKey {
        self.id
    }

    fn id(&self) -> (r: StorageKey) {
        self.id
    }

    fn observe<F: Recompute<T>>(&self, store: &mut Store<T, F>, cx: &mut ReactiveContext) -> (r: T) {
        store.observe(&self.id, cx)
    }

    fn observe_with<F: Recompute<T>, R, G: FnOnce(&T) -> R>(
        &self,
        store: &mut Store<T, F>,
        cx: &mut ReactiveContext,
        func: G,
    ) -> (r: R) {
        let v = store.observe(&self.id, cx);
        func(&v)
    }
}

impl<T: Copy> CloneReactiveState<T> for Atom<T> {
    open spec fn state_key(&self) -> StorageKey {
        self.id
    }

    fn get<F: Recompute<T>>(&self, store: &Store<T, F>) -> (r: T) {
        store.value(&self.id).unwrap()
    }

    fn soft_get<F: Recompute<T>>(&self, store: &Store<T, F>) -> (r: Option<T>) {
        store.value(&self.id)
    }
}

impl<T: Copy + PartialEq> ObserveChangeReactiveState<T> for Atom<T> {
    open spec fn change_key(&self) -> StorageKey {
        self.id
    }

    fn observe_change<F: Recompute<T>>(&self, store: &mut Store<T, F>, slot: StorageKey) -> (r: (
        Option<T>,
        T,
    )) {
        observe_change_at(store, self.id, slot)
    }

    fn has_changed<F: Recompute<T>>(&self, store: &mut Store<T, F>, slot: StorageKey) -> (r: bool) {
        let seen = observe_change_at(store, self.id, slot);
        seen.0.is_some()
    }

    fn on_change<F: Recompute<T>, R, G: FnOnce(&T, &T) -> R>(
        &self,
        store: &mut Store<T, F>,
        prev_slot: StorageKey,
        last_slot: StorageKey,
        func: G,
    ) -> (r: R) {
        on_change_at(store, self.id, prev_slot, last_slot, func)
    }
}

} // verus!
