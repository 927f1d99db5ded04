use crate::atom::Atom;
use crate::key::{resolve_content_key, CallSite, StorageKey};
use crate::reaction::Reaction;
use crate::reversible_atom::ReversibleAtom;
use crate::store::{PropagationError, ReactiveContext, Recompute, Store};
use crate::graph::Edge;
use crate::laws::{lemma_pass_spares, lemma_ranked_same_graph, ranked, ranked_propagation_never_stalls};
use crate::undo::{entry, record, restore, reversible_remove, reversible_write, Action, Command};
use vstd::prelude::*;

verus! {

/// Declares an atom under `id`: the first time, `data_fn` is registered as
/// its initialiser and run once to give the atom its value; afterwards the
/// call changes nothing and only hands back the atom.
pub fn atom<V: Copy, F: Recompute<V>>(store: &mut Store<V, F>, id: StorageKey, data_fn: F) -> (r:
    Atom<V>)
    requires
        old(store).wf(),
    ensures
        final(store).wf(),
        r.id == id,
        final(store).values().contains_key(id),
        old(store).values().contains_key(id) ==> *final(store) == *old(store),
        !old(store).values().contains_key(id) ==> exists|reg: Store<V, F>, run: Store<V, F>|
            {
                &&& Store::registered(*old(store), id, data_fn, reg)
                &&& #[trigger] Store::recomputed(reg, id, run)
                &&& final(store).values() == run.values()
                &&& final(store).contexts() == run.contexts()
                &&& final(store).edges() == run.edges()
                &&& final(store).funcs() == run.funcs()
                &&& final(store).nodes() == run.nodes()
                &&& final(store).recomputes() == run.recomputes()
                &&& final(store).atoms() == old(store).atoms().insert(id)
                &&& final(store).history() == old(store).history()
            },
{
    if !store.holds(&id) {
        store.register_reaction_node(id, data_fn);
        let ghost reg = *store;
        store.recompute(&id);
        let ghost run = *store;
        store.add_atom(id);
        proof {
            assert(Store::registered(*old(store), id, data_fn, reg));
        }
    }
    Atom::new(id)
}

/// Declares a reversible atom under `id`: as `atom`, and the first time the
/// creation is recorded on the reversible queue as a command that runs the
/// initialiser again, undone by removing the value.
pub fn atom_reverse<V: Copy, F: Recompute<V>>(store: &mut Store<V, F>, id: StorageKey, data_fn: F) -> (r:
    ReversibleAtom<V>)
    requires
        old(store).wf(),
    ensures
        final(store).wf(),
        r.id == id,
        final(store).values().contains_key(id),
        old(store).values().contains_key(id) ==> *final(store) == *old(store),
        !old(store).values().contains_key(id) ==> exists|reg: Store<V, F>, run: Store<V, F>|
            {
                &&& Store::registered(*old(store), id, data_fn, reg)
                &&& #[trigger] Store::recomputed(reg, id, run)
                &&& final(store).values() == run.values()
                &&& final(store).contexts() == run.contexts()
                &&& final(store).edges() == run.edges()
                &&& final(store).funcs() == run.funcs()
                &&& final(store).nodes() == run.nodes()
                &&& final(store).recomputes() == run.recomputes()
                &&& final(store).atoms() == old(store).atoms().insert(id)
                &&& final(store).history() == record(
                    old(store).history(),
                    Command { do_cmd: Action::Init(id), reverse_cmd: Action::Remove(id) },
                )
            },
{
    if !store.holds(&id) {
        store.register_reaction_node(id, data_fn);
        let ghost reg = *store;
        store.recompute(&id);
        let ghost run = *store;
        store.record_command(Command::new(Action::Init(id), Action::Remove(id)));
        store.add_atom(id);
        proof {
            assert(Store::registered(*old(store), id, data_fn, reg));
        }
    }
    ReversibleAtom::new(id)
}

/// Declares a reaction under `id`: the first time, `data_fn` is registered as
/// its body and run once, which records what it reads; afterwards the call
/// changes nothing and only hands back the reaction.
pub fn reaction<V: Copy, F: Recompute<V>>(store: &mut Store<V, F>, id: StorageKey, data_fn: F) -> (r:
    Reaction<V>)
    requires
        old(store).wf(),
    ensures
        final(store).wf(),
        r.id == id,
        final(store).values().contains_key(id),
        old(store).values().contains_key(id) ==> *final(store) == *old(store),
        !old(store).values().contains_key(id) ==> exists|reg: Store<V, F>|
            Store::registered(*old(store), id, data_fn, reg) && #[trigger] Store::recomputed(
                reg,
                id,
                *final(store),
            ),
{
    if !store.holds(&id) {
        store.register_reaction_node(id, data_fn);
        let ghost reg = *store;
        store.recompute(&id);
        proof {
            assert(Store::registered(*old(store), id, data_fn, reg));
        }
    }
    Reaction::new(id)
}

/// Declares a reaction under `id` whose body is registered but not run: the
/// reaction has no value until it is first triggered.
pub fn reaction_start_suspended<V: Copy, F: Recompute<V>>(
    store: &mut Store<V, F>,
    id: StorageKey,
    data_fn: F,
) -> (r: Reaction<V>)
    requires
        old(store).wf(),
    ensures
        final(store).wf(),
        r.id == id,
        old(store).values().contains_key(id) ==> *final(store) == *old(store),
        !old(store).values().contains_key(id) ==> Store::registered(
            *old(store),
            id,
            data_fn,
            *final(store),
        ),
{
    if !store.holds(&id) {
        store.register_reaction_node(id, data_fn);
    }
    Reaction::new(id)
}

/// Ends a recompute: the keys `context` read become exactly those its key
/// depends on, and `context` is kept as what that key last read.
pub fn unlink_dead_links<V: Copy, F: Recompute<V>>(store: &mut Store<V, F>, context: ReactiveContext)
    requires
        old(store).wf(),
        old(store).nodes().contains(context.key),
    ensures
        final(store).wf(),
        forall|p: StorageKey| #[trigger]
            final(store).has_edge(p, context.key) <==> context.reactive_state_accessors@.contains(p),
        forall|e: Edge|
            e.consumer != context.key ==> (#[trigger] final(store).edges().contains(e)
                <==> old(store).edges().contains(e)),
        final(store).contexts() == old(store).contexts().insert(context.key, context),
        final(store).values() == old(store).values(),
        final(store).same_registrations(old(store)),
        final(store).recomputes() == old(store).recomputes(),
{
    store.unlink_dead_links(context);
}

/// Stores `data` under `id`, with no propagation.
pub fn set_inert_atom_state_with_id<V: Copy, F: Recompute<V>>(
    store: &mut Store<V, F>,
    data: V,
    id: StorageKey,
)
    requires
        old(store).wf(),
    ensures
        Store::inert_written(*old(store), id, data, *final(store)),
{
    store.insert_inert(id, data);
}

/// The command that records a write of `data` under `id`: its undo puts
/// back what `id` held, or removes it if it held nothing.
pub open spec fn write_command<V>(values: Map<StorageKey, V>, id: StorageKey, data: V) -> Command<V> {
    Command { do_cmd: Action::Write(id, data), reverse_cmd: restore(id, entry(values, id)) }
}

fn record_write<V: Copy, F: Recompute<V>>(store: &mut Store<V, F>, data: V, id: StorageKey)
    requires
        old(store).wf(),
    ensures
        Store::rehistoried(
            *old(store),
            reversible_write(old(store).history(), old(store).values(), id, data).0,
            *final(store),
        ),
{
    let undo = match store.value(&id) {
        Some(previous) => Action::Write(id, previous),
        None => Action::Remove(id),
    };
    store.record_command(Command::new(Action::Write(id, data), undo));
}

/// Stores `data` under `id`, with no propagation, and records the write on
/// the reversible queue (its undo puts back the old value, or removes the
/// key if it held none).
pub fn set_inert_atom_reversible_state_with_id<V: Copy, F: Recompute<V>>(
    store: &mut Store<V, F>,
    data: V,
    id: StorageKey,
)
    requires
        old(store).wf(),
    ensures
        final(store).wf(),
        final(store).values() == old(store).values().insert(id, data),
        final(store).history() == reversible_write(old(store).history(), old(store).values(), id, data).0,
        final(store).contexts() == old(store).contexts(),
        final(store).edges() == old(store).edges(),
        final(store).funcs() == old(store).funcs(),
        final(store).recomputes() == old(store).recomputes(),
{
    record_write(store, data, id);
    store.insert_inert(id, data);
}

/// Stores `data` under `id` and propagates the change to its dependents.
pub fn set_atom_state_with_id<V: Copy, F: Recompute<V>>(
    store: &mut Store<V, F>,
    data: V,
    id: StorageKey,
) -> (r: Result<(), PropagationError>)
    requires
        old(store).wf(),
    ensures
        final(store).wf(),
        final(store).same_registrations(old(store)),
        Store::live_written(*old(store), id, data, *final(store), r is Ok),
        (exists|rank: Map<StorageKey, nat>| #[trigger]
            ranked(*old(store), rank, old(store).nodes().len() as nat)) ==> r is Ok
            && final(store).values().contains_key(id) && final(store).values()[id] == data,
        final(store).agrees_on_sources(old(store), old(store).values().insert(id, data)),
        old(store).dependents(id).len() == 0 ==> {
            &&& r is Ok
            &&& final(store).values() == old(store).values().insert(id, data)
            &&& final(store).edges() == old(store).edges()
            &&& final(store).contexts() == old(store).contexts()
        },
{
    store.insert_inert(id, data);
    let ghost written = *store;
    let r = store.execute(&id);
    proof {
        if exists|rank: Map<StorageKey, nat>| #[trigger]
            ranked(*old(store), rank, old(store).nodes().len() as nat) {
            let rank = choose|rank: Map<StorageKey, nat>| #[trigger]
                ranked(*old(store), rank, old(store).nodes().len() as nat);
            lemma_ranked_same_graph(*old(store), written, rank, old(store).nodes().len() as nat);
            ranked_propagation_never_stalls(written, id, *store, rank);
            lemma_pass_spares(written, id, *store, old(store).nodes().len() as nat, rank, old(store).nodes().len() as nat, id);
        }
        assert(Store::inert_written(*old(store), id, data, written));
        assert forall|x: StorageKey| !#[trigger] old(store).reads_something(x) implies entry(
            store.values(),
            x,
        ) == entry(old(store).values().insert(id, data), x) && !store.reads_something(x) by {
            Store::lemma_same_edges_same_reads(&written, &*old(store), x);
        }
    }
    r
}

/// Stores `data` under `id`, records the write on the reversible queue (its
/// undo puts back the old value, or removes the key if it held none) and
/// propagates the change.
pub fn set_atom_reversible_state_with_id<V: Copy, F: Recompute<V>>(
    store: &mut Store<V, F>,
    data: V,
    id: StorageKey,
) -> (r: Result<(), PropagationError>)
    requires
        old(store).wf(),
    ensures
        final(store).wf(),
        final(store).history() == reversible_write(old(store).history(), old(store).values(), id, data).0,
        exists|recorded: Store<V, F>|
            #[trigger] Store::rehistoried(
                *old(store),
                reversible_write(old(store).history(), old(store).values(), id, data).0,
                recorded,
            ) && Store::live_written(recorded, id, data, *final(store), r is Ok),
        final(store).agrees_on_sources(
            old(store),
            reversible_write(old(store).history(), old(store).values(), id, data).1,
        ),
        final(store).funcs() == old(store).funcs(),
        old(store).dependents(id).len() == 0 ==> {
            &&& r is Ok
            &&& final(store).values() == old(store).values().insert(id, data)
            &&& final(store).edges() == old(store).edges()
            &&& final(store).contexts() == old(store).contexts()
        },
        (exists|rank: Map<StorageKey, nat>| #[trigger]
            ranked(*old(store), rank, old(store).nodes().len() as nat)) ==> r is Ok
            && final(store).values().contains_key(id) && final(store).values()[id] == data,
{
    record_write(store, data, id);
    let ghost recorded = *store;
    let r = set_atom_state_with_id(store, data, id);
    proof {
        if exists|rank: Map<StorageKey, nat>| #[trigger]
            ranked(*old(store), rank, old(store).nodes().len() as nat) {
            let rank = choose|rank: Map<StorageKey, nat>| #[trigger]
                ranked(*old(store), rank, old(store).nodes().len() as nat);
            lemma_ranked_same_graph(*old(store), recorded, rank, old(store).nodes().len() as nat);
        }
        assert forall|x: StorageKey| !#[trigger] old(store).reads_something(x) implies entry(
            store.values(),
            x,
        ) == entry(old(store).values().insert(id, data), x) && !store.reads_something(x) by {
            Store::lemma_same_edges_same_reads(&recorded, &*old(store), x);
        }
        assert(old(store).dependents(id) == recorded.dependents(id));
    }
    r
}

/// Whether a value is stored under `id`.
pub fn reactive_state_exists_for_id<V: Copy, F: Recompute<V>>(store: &Store<V, F>, id: StorageKey) -> (r:
    bool)
    requires
        store.wf(),
    ensures
        r == store.values().contains_key(id),
{
    store.holds(&id)
}

/// A copy of the value under `id`, if there is one.
pub fn clone_reactive_state_with_id<V: Copy, F: Recompute<V>>(store: &Store<V, F>, id: StorageKey) -> (r:
    Option<V>)
    requires
        store.wf(),
    ensures
        r == entry(store.values(), id),
{
    store.value(&id)
}

/// Removes the value under `id` and hands it back, if there was one.
pub fn remove_reactive_state_with_id<V: Copy, F: Recompute<V>>(
    store: &mut Store<V, F>,
    id: StorageKey,
) -> (r: Option<V>)
    requires
        old(store).wf(),
    ensures
        final(store).wf(),
        r == entry(old(store).values(), id),
        final(store).values() == old(store).values().remove(id),
        final(store).contexts() == old(store).contexts(),
        final(store).edges() == old(store).edges(),
        final(store).same_registrations(old(store)),
        final(store).recomputes() == old(store).recomputes(),
{
    store.remove(&id)
}

/// Removes the value under `id`, recording the removal on the reversible
/// queue when there was a value (its undo puts the value back).
pub fn remove_reactive_reversible_state_with_id<V: Copy, F: Recompute<V>>(
    store: &mut Store<V, F>,
    id: StorageKey,
) -> (r: Option<V>)
    requires
        old(store).wf(),
    ensures
        final(store).wf(),
        r == entry(old(store).values(), id),
        final(store).history() == reversible_remove(old(store).history(), old(store).values(), id).0,
        final(store).values() == reversible_remove(old(store).history(), old(store).values(), id).1,
        final(store).contexts() == old(store).contexts(),
        final(store).edges() == old(store).edges(),
        final(store).funcs() == old(store).funcs(),
        final(store).recomputes() == old(store).recomputes(),
{
    if let Some(previous) = store.value(&id) {
        store.record_command(Command::new(Action::Remove(id), Action::Write(id, previous)));
    }
    let r = store.remove(&id);
    proof {
        if !old(store).values().contains_key(id) {
            assert(old(store).values().remove(id) =~= old(store).values());
        }
    }
    r
}

/// Propagates a change of `id`: each dependent, in the order in which it
/// started to read `id`, is recomputed and then propagated from in turn. A
/// dependent reached by two paths is recomputed twice.
pub fn execute_reaction_nodes<V: Copy, F: Recompute<V>>(store: &mut Store<V, F>, id: &StorageKey) -> (r:
    Result<(), PropagationError>)
    requires
        old(store).wf(),
    ensures
        final(store).wf(),
        final(store).same_registrations(old(store)),
        final(store).keeps_sources(old(store)),
        old(store).dependents(*id).len() == 0 ==> r is Ok && *final(store) == *old(store),
        r is Ok ==> Store::propagated(*old(store), *id, *final(store), old(store).nodes().len() as nat),
        r is Err ==> Store::stalled(*old(store), *id, *final(store), old(store).nodes().len() as nat),
        (exists|rank: Map<StorageKey, nat>| #[trigger]
            ranked(*old(store), rank, old(store).nodes().len() as nat)) ==> r is Ok,
{
    let r = store.execute(id);
    proof {
        if exists|rank: Map<StorageKey, nat>| #[trigger]
            ranked(*old(store), rank, old(store).nodes().len() as nat) {
            let rank = choose|rank: Map<StorageKey, nat>| #[trigger]
                ranked(*old(store), rank, old(store).nodes().len() as nat);
            ranked_propagation_never_stalls(*old(store), *id, *store, rank);
        }
    }
    r
}

/// Replaces the value under `id` by what `func` makes of it, then propagates
/// the change. The key must hold a value.
pub fn update_atom_state_with_id<V: Copy, F: Recompute<V>, G: FnOnce(V) -> V>(
    store: &mut Store<V, F>,
    id: StorageKey,
    func: G,
) -> (r: Result<(), PropagationError>)
    requires
        old(store).wf(),
        old(store).values().contains_key(id),
        func.requires((old(store).values()[id],)),
    ensures
        final(store).wf(),
        final(store).same_registrations(old(store)),
        exists|n: V|
            {
                &&& func.ensures((old(store).values()[id],), n)
                &&& #[trigger] Store::live_written(*old(store), id, n, *final(store), r is Ok)
                &&& final(store).agrees_on_sources(old(store), old(store).values().insert(id, n))
                &&& old(store).dependents(id).len() == 0 ==> r is Ok && final(store).values()
                    == old(store).values().insert(id, n)
                &&& (exists|rank: Map<StorageKey, nat>| #[trigger]
                    ranked(*old(store), rank, old(store).nodes().len() as nat)) ==> final(store).values().contains_key(id) && final(store).values()[id] == n
            },
        (exists|rank: Map<StorageKey, nat>| #[trigger]
            ranked(*old(store), rank, old(store).nodes().len() as nat)) ==> r is Ok,
{
    let item = store.value(&id).unwrap();
    let n = func(item);
    let r = set_atom_state_with_id(store, n, id);
    proof {
        assert(Store::live_written(*old(store), id, n, *store, r is Ok));
    }
    r
}

/// As `update_atom_state_with_id`, and the change is recorded on the
/// reversible queue (its undo puts back the old value).
pub fn update_atom_reversible_state_with_id<V: Copy, F: Recompute<V>, G: FnOnce(V) -> V>(
    store: &mut Store<V, F>,
    id: StorageKey,
    func: G,
) -> (r: Result<(), PropagationError>)
    requires
        old(store).wf(),
        old(store).values().contains_key(id),
        func.requires((old(store).values()[id],)),
    ensures
        final(store).wf(),
        final(store).funcs() == old(store).funcs(),
        exists|n: V|
            {
                &&& func.ensures((old(store).values()[id],), n)
                &&& final(store).history() == reversible_write(
                    old(store).history(),
                    old(store).values(),
                    id,
                    n,
                ).0
                &&& exists|recorded: Store<V, F>|
                    #[trigger] Store::rehistoried(
                        *old(store),
                        reversible_write(old(store).history(), old(store).values(), id, n).0,
                        recorded,
                    ) && Store::live_written(recorded, id, n, *final(store), r is Ok)
                &&& #[trigger] final(store).agrees_on_sources(
                    old(store),
                    reversible_write(old(store).history(), old(store).values(), id, n).1,
                )
                &&& old(store).dependents(id).len() == 0 ==> r is Ok && final(store).values()
                    == old(store).values().insert(id, n)
                &&& (exists|rank: Map<StorageKey, nat>| #[trigger]
                    ranked(*old(store), rank, old(store).nodes().len() as nat)) ==> r is Ok
                    && final(store).values().contains_key(id) && final(store).values()[id] == n
            },
{
    let item = store.value(&id).unwrap();
    let n = func(item);
    let r = set_atom_reversible_state_with_id(store, n, id);
    proof {
        assert(store.agrees_on_sources(
            &*old(store),
            reversible_write(old(store).history(), old(store).values(), id, n).1,
        ));
    }
    r
}


/// What `func` makes of the value under `id`, which must be there.
pub fn read_reactive_state_with_id<V: Copy, F: Recompute<V>, R, G: FnOnce(&V) -> R>(
    store: &Store<V, F>,
    id: StorageKey,
    func: G,
) -> (r: R)
    requires
        store.wf(),
        store.values().contains_key(id),
        func.requires((&store.values()[id],)),
    ensures
        func.ensures((&store.values()[id],), r),
{
    let item = store.value(&id).unwrap();
    func(&item)
}

/// What `func` makes of the value under `id`, or `None` when there is none.
pub fn try_read_reactive_state_with_id<V: Copy, F: Recompute<V>, R, G: FnOnce(&V) -> R>(
    store: &Store<V, F>,
    id: StorageKey,
    func: G,
) -> (r: Option<R>)
    requires
        store.wf(),
        store.values().contains_key(id) ==> func.requires((&store.values()[id],)),
    ensures
        r is Some <==> store.values().contains_key(id),
        r matches Some(x) ==> func.ensures((&store.values()[id],), x),
{
    match store.value(&id) {
        Some(item) => Some(func(&item)),
        None => None,
    }
}

/// The content key of a call site and its arguments; the first time a key
/// comes up, the words it was made from are kept with it.
pub fn return_key_for_type_and_insert_if_required<V: Copy, F: Recompute<V>>(
    store: &mut Store<V, F>,
    call_site: CallSite,
    args: Vec<u64>,
) -> (r: StorageKey)
    requires
        old(store).wf(),
    ensures
        final(store).wf(),
        r == crate::key::content_key(call_site, args@),
        final(store).sources() == (if old(store).sources().contains_key(r) {
            old(store).sources()
        } else {
            old(store).sources().insert(r, args@)
        }),
        final(store).values() == old(store).values(),
        final(store).edges() == old(store).edges(),
        final(store).funcs() == old(store).funcs(),
        final(store).history() == old(store).history(),
{
    let key = resolve_content_key(call_site, &args);
    store.register_source(key, args);
    key
}

} // verus!
