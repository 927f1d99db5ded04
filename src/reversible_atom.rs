use crate::access::{CloneReactiveState, Observable};
use crate::key::StorageKey;
use crate::reactive_state_functions::{
    read_reactive_state_with_id, reactive_state_exists_for_id,
    remove_reactive_reversible_state_with_id, set_atom_reversible_state_with_id,
    set_inert_atom_reversible_state_with_id, update_atom_reversible_state_with_id,
};
use crate::store::{PropagationError, ReactiveContext, Recompute, Store};
use crate::undo::{entry, reversible_remove, reversible_write};
use std::marker::PhantomData;
use crate::laws::ranked;
use vstd::prelude::*;

verus! {

/// A handle on a directly settable entry whose writes go on the reversible queue.
#[derive(Debug)]
pub struct ReversibleAtom<T> {
    pub id: StorageKey,
    pub _phantom_data_stored_type: PhantomData<T>,
}

impl<T> Clone for ReversibleAtom<T> {
    fn clone(&self) -> (r: Self)
        ensures
            r == *self,
    {
        ReversibleAtom { id: self.id, _phantom_data_stored_type: PhantomData }
    }
}

impl<T> Copy for ReversibleAtom<T> {

}

impl<T: Copy> ReversibleAtom<T> {
    pub fn new(id: StorageKey) -> (r: ReversibleAtom<T>)
        ensures
            r.id == id,
    {
        ReversibleAtom { id, _phantom_data_stored_type: PhantomData }
    }

    /// Stores `value` without telling the entries that read this one, and
    /// records the write on the reversible queue.
    pub fn inert_set<F: Recompute<T>>(self, store: &mut Store<T, F>, value: T)
        requires
            old(store).wf(),
        ensures
            final(store).wf(),
            final(store).values() == old(store).values().insert(self.id, value),
            final(store).history() == reversible_write(old(store).history(), old(store).values(), self.id, value).0,
            final(store).edges() == old(store).edges(),
    {
        set_inert_atom_reversible_state_with_id(store, value, self.id);
    }

    /// Stores `value`, records the write on the reversible queue and
    /// propagates the change.
    pub fn set<F: Recompute<T>>(self, store: &mut Store<T, F>, value: T) -> (r: Result<
        (),
        PropagationError,
    >)
        requires
            old(store).wf(),
        ensures
            final(store).wf(),
            final(store).history() == reversible_write(old(store).history(), old(store).values(), self.id, value).0,
            exists|recorded: Store<T, F>|
                #[trigger] Store::rehistoried(
                    *old(store),
                    reversible_write(old(store).history(), old(store).values(), self.id, value).0,
                    recorded,
                ) && Store::live_written(recorded, self.id, value, *final(store), r is Ok),
            final(store).agrees_on_sources(
                old(store),
                reversible_write(old(store).history(), old(store).values(), self.id, value).1,
            ),
            old(store).dependents(self.id).len() == 0 ==> r is Ok && final(store).values() == old(store).values().insert(self.id, value),
        (exists|rank: Map<StorageKey, nat>| #[trigger]
            ranked(*old(store), rank, old(store).nodes().len() as nat)) ==> r is Ok
            && final(store).values().contains_key(self.id) && final(store).values()[self.id] == value,
    {
        set_atom_reversible_state_with_id(store, value, self.id)
    }

    /// Replaces the value by what `func` makes of it, records the write on
    /// the reversible queue and propagates the change.
    pub fn update<F: Recompute<T>, G: FnOnce(T) -> T>(&self, store: &mut Store<T, F>, func: G) -> (r:
        Result<(), PropagationError>)
        requires
            old(store).wf(),
            old(store).values().contains_key(self.id),
            func.requires((old(store).values()[self.id],)),
        ensures
            final(store).wf(),
            exists|n: T|
                {
                    &&& func.ensures((old(store).values()[self.id],), n)
                    &&& final(store).history() == reversible_write(
                        old(store).history(),
                        old(store).values(),
                        self.id,
                        n,
                    ).0
                    &&& exists|recorded: Store<T, F>|
                        #[trigger] Store::rehistoried(
                            *old(store),
                            reversible_write(old(store).history(), old(store).values(), self.id, n).0,
                            recorded,
                        ) && Store::live_written(recorded, self.id, n, *final(store), r is Ok)
                    &&& #[trigger] final(store).agrees_on_sources(
                        old(store),
                        reversible_write(old(store).history(), old(store).values(), self.id, n).1,
                    )
                    &&& old(store).dependents(self.id).len() == 0 ==> r is Ok && final(store).values()
                        == old(store).values().insert(self.id, n)
                },
    {
        update_atom_reversible_state_with_id(store, self.id, func)
    }

    /// Removes the value and hands it back, recording the removal on the
    /// reversible queue when there was a value.
    pub fn remove<F: Recompute<T>>(self, store: &mut Store<T, F>) -> (r: Option<T>)
        requires
            old(store).wf(),
        ensures
            final(store).wf(),
            r == entry(old(store).values(), self.id),
            final(store).history() == reversible_remove(old(store).history(), old(store).values(), self.id).0,
            final(store).values() == reversible_remove(old(store).history(), old(store).values(), self.id).1,
            final(store).edges() == old(store).edges(),
            final(store).recomputes() == old(store).recomputes(),
    {
        remove_reactive_reversible_state_with_id(store, self.id)
    }

    /// Removes the value, as `remove` does.
    pub fn delete<F: Recompute<T>>(self, store: &mut Store<T, F>)
        requires
            old(store).wf(),
        ensures
            final(store).wf(),
            final(store).values() == old(store).values().remove(self.id),
            final(store).history() == reversible_remove(old(store).history(), old(store).values(), self.id).0,
            final(store).recomputes() == old(store).recomputes(),
    {
        self.remove(store);
    }

    /// Runs the initialiser again and propagates the new value.
    pub fn reset_to_default<F: Recompute<T>>(&self, store: &mut Store<T, F>) -> (r: Result<
        (),
        PropagationError,
    >)
        requires
            old(store).wf(),
            old(store).funcs().contains_key(self.id),
        ensures
            final(store).wf(),
            final(store).same_registrations(old(store)),
            final(store).values().contains_key(self.id),
            r is Ok ==> exists|reset: Store<T, F>|
                Store::recomputed(*old(store), self.id, reset) && #[trigger] Store::propagated(
                    reset,
                    self.id,
                    *final(store),
                    old(store).nodes().len() as nat,
                ),
            r is Err ==> exists|reset: Store<T, F>|
                Store::recomputed(*old(store), self.id, reset) && #[trigger] Store::stalled(
                    reset,
                    self.id,
                    *final(store),
                    old(store).nodes().len() as nat,
                ),
            old(store).dependents(self.id).len() == 0 && (old(store).funcs()[self.id].reads_of(
                old(store).values(),
            ) matches Some(reads) && !reads.contains(self.id)) ==> r is Ok && Store::recomputed(
                *old(store),
                self.id,
                *final(store),
            ),
    {
        store.recompute(&self.id);
        let ghost reset = *store;
        let r = store.execute(&self.id);
        proof {
            if old(store).dependents(self.id).len() == 0 && (old(store).funcs()[self.id].reads_of(
                old(store).values(),
            ) matches Some(reads) && !reads.contains(self.id)) {
                crate::laws::lemma_recompute_keeps_no_dependents(*old(store), self.id, reset);
            }
        }
        r
    }

    /// Whether the entry holds a value.
    pub fn state_exists<F: Recompute<T>>(self, store: &Store<T, F>) -> (r: bool)
        requires
            store.wf(),
        ensures
            r == store.values().contains_key(self.id),
    {
        reactive_state_exists_for_id(store, self.id)
    }

    /// What `func` makes of the value, which must be there.
    pub fn get_with<F: Recompute<T>, R, G: FnOnce(&T) -> R>(&self, store: &Store<T, F>, func: G) -> (r:
        R)
        requires
            store.wf(),
            store.values().contains_key(self.id),
            func.requires((&store.values()[self.id],)),
        ensures
            func.ensures((&store.values()[self.id],), r),
    {
        read_reactive_state_with_id(store, self.id, func)
    }
}

impl<T: Copy> Observable<T> for ReversibleAtom<T> {
    open spec fn key(&self) -> StorageKey {
        self.id
    }

    fn id(&self) -> (r: StorageKey) {
        self.id
    }

    fn observe<F: Recompute<T>>(&self, store: &mut Store<T, F>, cx: &mut ReactiveContext) -> (r: T) {
        store.observe(&self.id, cx)
    }

    fn observe_with<F: Recompute<T>, R, G: FnOnce(&T) -> R>(
        &self,
        store: &mut Store<T, F>,
        cx: &mut ReactiveContext,
        func: G,
    ) -> (r: R) {
        let v = store.observe(&self.id, cx);
        func(&v)
    }
}

impl<T: Copy> CloneReactiveState<T> for ReversibleAtom<T> {
    open spec fn state_key(&self) -> StorageKey {
        self.id
    }

    fn get<F: Recompute<T>>(&self, store: &Store<T, F>) -> (r: T) {
        store.value(&self.id).unwrap()
    }

    fn soft_get<F: Recompute<T>>(&self, store: &Store<T, F>) -> (r: Option<T>) {
        store.value(&self.id)
    }
}

} // verus!
