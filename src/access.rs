use crate::key::StorageKey;
use crate::store::{ReactiveContext, Recompute, Store};
use crate::undo::entry;
use vstd::prelude::*;
use vstd::std_specs::cmp::PartialEqSpec;

verus! {

/// A handle whose entry a reaction can read and come to depend on.
pub trait Observable<T: Copy> {
    /// The key of the entry.
    spec fn key(&self) -> StorageKey;

    fn id(&self) -> (r: StorageKey)
        ensures
            r == self.key(),
    ;

    /// The entry's value, read on behalf of the recompute that `cx` records:
    /// the read is noted in `cx` and the edge from this entry to `cx.key` is
    /// added at once.
    fn observe<F: Recompute<T>>(&self, store: &mut Store<T, F>, cx: &mut ReactiveContext) -> (r: T)
        requires
            old(store).wf(),
            old(store).values().contains_key(self.key()),
            old(store).nodes().contains(old(cx).key),
        ensures
            r == old(store).values()[self.key()],
            Store::read_during(*old(store), old(cx).key, *final(store)),
            final(store).has_edge(self.key(), old(cx).key),
            final(cx).key == old(cx).key,
            final(cx).reactive_state_accessors@ == old(cx).reactive_state_accessors@.push(self.key()),
    ;

    /// What `func` makes of the entry's value, read as `observe` reads it.
    fn observe_with<F: Recompute<T>, R, G: FnOnce(&T) -> R>(
        &self,
        store: &mut Store<T, F>,
        cx: &mut ReactiveContext,
        func: G,
    ) -> (r: R)
        requires
            old(store).wf(),
            old(store).values().contains_key(self.key()),
            old(store).nodes().contains(old(cx).key),
            func.requires((&old(store).values()[self.key()],)),
        ensures
            func.ensures((&old(store).values()[self.key()],), r),
            Store::read_during(*old(store), old(cx).key, *final(store)),
            final(store).has_edge(self.key(), old(cx).key),
            final(cx).key == old(cx).key,
            final(cx).reactive_state_accessors@ == old(cx).reactive_state_accessors@.push(self.key()),
    ;
}

/// A handle whose entry can be copied out.
pub trait CloneReactiveState<T: Copy> {
    spec fn state_key(&self) -> StorageKey;

    /// The entry's value, which must be there.
    fn get<F: Recompute<T>>(&self, store: &Store<T, F>) -> (r: T)
        requires
            store.wf(),
            store.values().contains_key(self.state_key()),
        ensures
            r == store.values()[self.state_key()],
    ;

    /// The entry's value, or `None` when there is none.
    fn soft_get<F: Recompute<T>>(&self, store: &Store<T, F>) -> (r: Option<T>)
        requires
            store.wf(),
        ensures
            r == crate::undo::entry(store.values(), self.state_key()),
    ;
}

/// Whether `a` and `b` differ, by `T`'s own equality.
pub open spec fn differ<T: PartialEq>(a: T, b: T) -> bool {
    !a.eq_spec(&b)
}

/// The value `on_change` passes as the previous one, given what its two
/// slots held and the current value.
pub open spec fn previous_after<T: PartialEq>(prev: Option<T>, last: Option<T>, cur: T) -> T {
    match last {
        None => cur,
        Some(l) => if differ(l, cur) {
            l
        } else {
            match prev {
                Some(p) => p,
                None => cur,
            }
        },
    }
}

/// A handle whose changes can be followed from one call to the next. What a
/// call saw is kept in slots of the store, keys of the caller's choosing
/// (such as positional keys), so that the next call at the same place can
/// compare.
pub trait ObserveChangeReactiveState<T: Copy + PartialEq> {
    spec fn change_key(&self) -> StorageKey;

    /// The value, and the value seen at `slot` before it when the two differ.
    /// The first call at `slot` only records the value.
    fn observe_change<F: Recompute<T>>(&self, store: &mut Store<T, F>, slot: StorageKey) -> (r: (
        Option<T>,
        T,
    ))
        requires
            old(store).wf(),
            old(store).values().contains_key(self.change_key()),
            slot != self.change_key(),
            T::obeys_eq_spec(),
        ensures
            final(store).wf(),
            r.1 == old(store).values()[self.change_key()],
            r.0 == (match entry(old(store).values(), slot) {
                Some(p) => if differ(p, r.1) {
                    Some(p)
                } else {
                    None
                },
                None => None,
            }),
            final(store).values() == old(store).values().insert(slot, r.1),
            final(store).edges() == old(store).edges(),
            final(store).same_registrations(old(store)),
    ;

    /// Whether the value differs from the one seen at `slot` by the last call
    /// there (the first call at `slot` sees no change); the value is kept in
    /// `slot` for the next call.
    fn has_changed<F: Recompute<T>>(&self, store: &mut Store<T, F>, slot: StorageKey) -> (r: bool)
        requires
            old(store).wf(),
            old(store).values().contains_key(self.change_key()),
            slot != self.change_key(),
            T::obeys_eq_spec(),
        ensures
            final(store).wf(),
            r == (match entry(old(store).values(), slot) {
                Some(p) => differ(p, old(store).values()[self.change_key()]),
                None => false,
            }),
            final(store).values() == old(store).values().insert(
                slot,
                old(store).values()[self.change_key()],
            ),
            final(store).edges() == old(store).edges(),
            final(store).same_registrations(old(store)),
    ;

    /// What `func` makes of the value before the last change seen at these
    /// slots and the current value. `last_slot` keeps the value seen last,
    /// `prev_slot` the one before the last change.
    fn on_change<F: Recompute<T>, R, G: FnOnce(&T, &T) -> R>(
        &self,
        store: &mut Store<T, F>,
        prev_slot: StorageKey,
        last_slot: StorageKey,
        func: G,
    ) -> (r: R)
        requires
            old(store).wf(),
            old(store).values().contains_key(self.change_key()),
            prev_slot != self.change_key(),
            last_slot != self.change_key(),
            prev_slot != last_slot,
            T::obeys_eq_spec(),
            forall|p: T| func.requires((&p, &old(store).values()[self.change_key()])),
        ensures
            final(store).wf(),
            ({
                let cur = old(store).values()[self.change_key()];
                let p = previous_after(
                    entry(old(store).values(), prev_slot),
                    entry(old(store).values(), last_slot),
                    cur,
                );
                &&& func.ensures((&p, &cur), r)
                &&& final(store).values() == old(store).values().insert(last_slot, cur).insert(
                    prev_slot,
                    p,
                )
            }),
            final(store).edges() == old(store).edges(),
            final(store).same_registrations(old(store)),
    ;
}

/// `observe_change` for the entry under `k`.
pub fn observe_change_at<T: Copy + PartialEq, F: Recompute<T>>(
    store: &mut Store<T, F>,
    k: StorageKey,
    slot: StorageKey,
) -> (r: (Option<T>, T))
    requires
        old(store).wf(),
        old(store).values().contains_key(k),
        slot != k,
        T::obeys_eq_spec(),
    ensures
        final(store).wf(),
        r.1 == old(store).values()[k],
        r.0 == (match entry(old(store).values(), slot) {
            Some(p) => if differ(p, r.1) {
                Some(p)
            } else {
                None
            },
            None => None,
        }),
        final(store).values() == old(store).values().insert(slot, r.1),
        final(store).edges() == old(store).edges(),
        final(store).same_registrations(old(store)),
{
    let cur = store.value(&k).unwrap();
    let seen = store.value(&slot);
    store.insert_inert(slot, cur);
    match seen {
        Some(p) => {
            if p != cur {
                (Some(p), cur)
            } else {
                (None, cur)
            }
        },
        None => (None, cur),
    }
}

/// `on_change` for the entry under `k`.
pub fn on_change_at<T: Copy + PartialEq, F: Recompute<T>, R, G: FnOnce(&T, &T) -> R>(
    store: &mut Store<T, F>,
    k: StorageKey,
    prev_slot: StorageKey,
    last_slot: StorageKey,
    func: G,
) -> (r: R)
    requires
        old(store).wf(),
        old(store).values().contains_key(k),
        prev_slot != k,
        last_slot != k,
        prev_slot != last_slot,
        T::obeys_eq_spec(),
        forall|p: T| func.requires((&p, &old(store).values()[k])),
    ensures
        final(store).wf(),
        ({
            let cur = old(store).values()[k];
            let p = previous_after(
                entry(old(store).values(), prev_slot),
                entry(old(store).values(), last_slot),
                cur,
            );
            &&& func.ensures((&p, &cur), r)
            &&& final(store).values() == old(store).values().insert(last_slot, cur).insert(
                prev_slot,
                p,
            )
        }),
        final(store).edges() == old(store).edges(),
        final(store).same_registrations(old(store)),
{
    let cur = store.value(&k).unwrap();
    let prev = store.value(&prev_slot);
    let last = store.value(&last_slot);
    let p = match last {
        None => cur,
        Some(l) => {
            if l != cur {
                l
            } else {
                match prev {
                    Some(q) => q,
                    None => cur,
                }
            }
        },
    };
    store.insert_inert(last_slot, cur);
    store.insert_inert(prev_slot, p);
    func(&p, &cur)
}

} // verus!
