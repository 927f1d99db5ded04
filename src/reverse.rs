use crate::key::StorageKey;
use crate::laws::{lemma_pass_keeps_rank, lemma_ranked_same_graph, ranked, ranked_propagation_never_stalls};
use crate::store::{PropagationError, Recompute, Store};
use crate::undo::{
    entry, init_target, lemma_apply_agrees, lemma_apply_other, no_init_between, step_back,
    step_forward, travel, back_n, forward_n, lemma_back_n_history, lemma_forward_n_history, Action,
};
use vstd::prelude::*;

verus! {

pub use crate::undo::{Command, UndoStore};

/// Why a jump through the reversible queue was refused or cut short.
#[derive(Clone, Copy, Debug, PartialEq, Eq, Structural)]
pub enum UndoError {
    /// The target is not strictly between 0 and the number of commands.
    CursorOutOfRange,
    /// A step's propagation stopped on a dependency cycle.
    Propagation(PropagationError),
}

/// The handle on a store's reversible queue.
#[derive(Clone, Copy, Debug, PartialEq, Eq, Structural)]
pub struct ReverseQueue;

/// The handle on the reversible queue of the store that a call is given.
pub fn global_reverse_queue() -> (r: ReverseQueue) {
    ReverseQueue
}

/// Where a jump from cursor `c` to `target` starts the commands it crosses.
pub open spec fn span_lo(c: int, target: int) -> int {
    if target < c {
        target
    } else {
        c
    }
}

/// Where a jump from cursor `c` to `target` ends the commands it crosses.
pub open spec fn span_hi(c: int, target: int) -> int {
    if target < c {
        c
    } else {
        target
    }
}

/// No key written by a command in `[lo, hi)`, either way, has dependents.
pub open spec fn writes_without_dependents<V: Copy, F: Recompute<V>>(
    store: Store<V, F>,
    lo: int,
    hi: int,
) -> bool {
    forall|i: int|
        lo <= i < hi ==> store.dependents(#[trigger] store.history().commands[i].do_cmd.key()).len()
            == 0 && store.dependents(store.history().commands[i].reverse_cmd.key()).len() == 0
}

/// Performs `a` with no propagation, then propagates from the key it wrote.
fn replay<V: Copy, F: Recompute<V>>(store: &mut Store<V, F>, a: Action<V>) -> (r: Result<
    (),
    PropagationError,
>)
    requires
        old(store).wf(),
    ensures
        final(store).wf(),
        final(store).funcs() == old(store).funcs(),
        final(store).history() == old(store).history(),
        final(store).agrees_on_sources_but(
            old(store),
            crate::undo::apply(old(store).values(), a),
            init_target(a),
        ),
        r is Ok ==> exists|applied: Store<V, F>|
            #[trigger] Store::acted(*old(store), a, applied) && Store::propagated(
                applied,
                a.key(),
                *final(store),
                old(store).nodes().len() as nat,
            ),
        r is Err ==> exists|applied: Store<V, F>|
            #[trigger] Store::acted(*old(store), a, applied) && Store::stalled(
                applied,
                a.key(),
                *final(store),
                old(store).nodes().len() as nat,
            ),
        !(a is Init) && old(store).dependents(a.key()).len() == 0 ==> r is Ok,
        !(a is Init) && (exists|rank: Map<StorageKey, nat>| #[trigger] ranked(*old(store), rank, old(store).nodes().len() as nat)) ==> r is Ok,
        final(store).nodes() == old(store).nodes(),
{
    let k = a.target();
    store.apply_action(a);
    let ghost applied = *store;
    let r = store.execute(&k);
    proof {
        assert(Store::acted(*old(store), a, applied));
        if !(a is Init) {
            assert(applied.dependents(k) == old(store).dependents(k));
            if (exists|rank: Map<StorageKey, nat>| #[trigger] ranked(*old(store), rank, old(store).nodes().len() as nat)) {
                let rank = choose|rank: Map<StorageKey, nat>| #[trigger] ranked(*old(store), rank, old(store).nodes().len() as nat);
                lemma_ranked_same_graph(*old(store), applied, rank, old(store).nodes().len() as nat);
                ranked_propagation_never_stalls(applied, k, *store, rank);
            }
        }
        assert forall|x: StorageKey|
            !#[trigger] old(store).reads_something(x) && init_target(a) != Some(x) implies entry(
            store.values(),
            x,
        ) == entry(crate::undo::apply(old(store).values(), a), x) && !store.reads_something(x) by {
            if x != k {
                lemma_apply_other(old(store).values(), a, x);
                assert(applied.reads_something(x) == old(store).reads_something(x));
            } else {
                Store::lemma_same_edges_same_reads(&applied, &*old(store), x);
            }
            assert(!applied.reads_something(x));
        }
    }
    r
}

/// Time travel over the reversible queue of a store. Each step performs one
/// action with no propagation and then propagates from the key it wrote, so
/// dependents recompute once per step.
pub trait GlobalUndo {
    /// Undoes the last applied command, if there is one.
    fn travel_backwards<V: Copy, F: Recompute<V>>(&self, store: &mut Store<V, F>) -> (r: Result<
        (),
        PropagationError,
    >)
        requires
            old(store).wf(),
        ensures
            final(store).wf(),
            final(store).funcs() == old(store).funcs(),
            final(store).history() == step_back(old(store).history(), old(store).values()).0,
            final(store).agrees_on_sources_but(
                old(store),
                step_back(old(store).history(), old(store).values()).1,
                if old(store).history().cursor > 0 {
                    init_target(old(store).history().commands[old(store).history().cursor - 1].reverse_cmd)
                } else {
                    None
                },
            ),
            old(store).history().cursor == 0 ==> r is Ok && *final(store) == *old(store),
            r is Ok ==> Store::stepped_back(*old(store), *final(store)),
            old(store).history().cursor > 0 && !(old(store).history().commands[old(store).history().cursor - 1].reverse_cmd is Init)
                && (exists|rank: Map<StorageKey, nat>| #[trigger] ranked(*old(store), rank, old(store).nodes().len() as nat)) ==> r is Ok,
            final(store).nodes() == old(store).nodes(),
            r is Err ==> Store::back_stalled(*old(store), *final(store)),
            old(store).history().cursor > 0 && !(old(store).history().commands[old(store).history().cursor
                - 1].reverse_cmd is Init) && old(store).dependents(
                old(store).history().commands[old(store).history().cursor - 1].reverse_cmd.key(),
            ).len() == 0 ==> r is Ok,
    ;

    /// Redoes the first undone command, if there is one.
    fn travel_forwards<V: Copy, F: Recompute<V>>(&self, store: &mut Store<V, F>) -> (r: Result<
        (),
        PropagationError,
    >)
        requires
            old(store).wf(),
        ensures
            final(store).wf(),
            final(store).funcs() == old(store).funcs(),
            final(store).history() == step_forward(old(store).history(), old(store).values()).0,
            final(store).agrees_on_sources_but(
                old(store),
                step_forward(old(store).history(), old(store).values()).1,
                if old(store).history().cursor < old(store).history().commands.len() {
                    init_target(old(store).history().commands[old(store).history().cursor].do_cmd)
                } else {
                    None
                },
            ),
            old(store).history().cursor == old(store).history().commands.len() ==> r is Ok
                && *final(store) == *old(store),
            r is Ok ==> Store::stepped_forward(*old(store), *final(store)),
            old(store).history().cursor < old(store).history().commands.len() && !(old(store).history().commands[old(store).history().cursor].do_cmd is Init)
                && (exists|rank: Map<StorageKey, nat>| #[trigger] ranked(*old(store), rank, old(store).nodes().len() as nat)) ==> r is Ok,
            final(store).nodes() == old(store).nodes(),
            r is Err ==> Store::forward_stalled(*old(store), *final(store)),
            old(store).history().cursor < old(store).history().commands.len() && !(old(store).history().commands[old(store).history().cursor].do_cmd is Init) && old(store).dependents(old(store).history().commands[old(store).history().cursor].do_cmd.key()).len()
                == 0 ==> r is Ok,
    ;

    /// The number of commands in the queue.
    fn len<V: Copy, F: Recompute<V>>(&self, store: &Store<V, F>) -> (r: usize)
        ensures
            r == store.history().commands.len(),
    ;

    /// Steps back or forward until the cursor is `cursor`, which must lie
    /// strictly between 0 and the number of commands.
    fn travel_to_cursor<V: Copy, F: Recompute<V>>(&self, store: &mut Store<V, F>, cursor: usize) -> (r:
        Result<(), UndoError>)
        requires
            old(store).wf(),
        ensures
            final(store).wf(),
            final(store).funcs() == old(store).funcs(),
            r == Err::<(), UndoError>(UndoError::CursorOutOfRange) <==> !(0 < cursor
                < old(store).history().commands.len()),
            !(0 < cursor < old(store).history().commands.len()) ==> *final(store) == *old(store),
            r is Ok ==> final(store).history() == travel(
                old(store).history(),
                old(store).values(),
                cursor as int,
            ).0,
            r is Ok && no_init_between(
                old(store).history(),
                if cursor < old(store).history().cursor {
                    cursor as int
                } else {
                    old(store).history().cursor
                },
                if cursor < old(store).history().cursor {
                    old(store).history().cursor
                } else {
                    cursor as int
                },
            ) ==> final(store).agrees_on_sources(
                old(store),
                travel(old(store).history(), old(store).values(), cursor as int).1,
            ),
            r is Ok && cursor <= old(store).history().cursor ==> Store::stepped_back_n(
                *old(store),
                *final(store),
                (old(store).history().cursor - cursor) as nat,
            ),
            r is Ok && cursor > old(store).history().cursor ==> Store::stepped_forward_n(
                *old(store),
                *final(store),
                (cursor - old(store).history().cursor) as nat,
            ),
            r matches Err(UndoError::Propagation(_)) && cursor < old(store).history().cursor
                ==> exists|mid: Store<V, F>, n: nat|
                n < old(store).history().cursor - cursor && #[trigger] Store::stepped_back_n(
                    *old(store),
                    mid,
                    n,
                ) && Store::back_stalled(mid, *final(store)),
            r matches Err(UndoError::Propagation(_)) && cursor > old(store).history().cursor
                ==> exists|mid: Store<V, F>, n: nat|
                n < cursor - old(store).history().cursor && #[trigger] Store::stepped_forward_n(
                    *old(store),
                    mid,
                    n,
                ) && Store::forward_stalled(mid, *final(store)),
            0 < cursor < old(store).history().commands.len() && no_init_between(
                old(store).history(),
                span_lo(old(store).history().cursor, cursor as int),
                span_hi(old(store).history().cursor, cursor as int),
            ) && writes_without_dependents(
                *old(store),
                span_lo(old(store).history().cursor, cursor as int),
                span_hi(old(store).history().cursor, cursor as int),
            ) ==> r is Ok,
            0 < cursor < old(store).history().commands.len() && (exists|rank: Map<StorageKey, nat>| #[trigger] ranked(*old(store), rank, old(store).nodes().len() as nat))
                && no_init_between(
                old(store).history(),
                if cursor < old(store).history().cursor {
                    cursor as int
                } else {
                    old(store).history().cursor
                },
                if cursor < old(store).history().cursor {
                    old(store).history().cursor
                } else {
                    cursor as int
                },
            ) ==> r is Ok,
    ;
}

impl GlobalUndo for ReverseQueue {
    fn travel_backwards<V: Copy, F: Recompute<V>>(&self, store: &mut Store<V, F>) -> (r: Result<
        (),
        PropagationError,
    >) {
        proof {
            old(store).lemma_history_wf();
        }
        let step = store.step_back();
        match step {
            None => Ok(()),
            Some(a) => {
                let ghost stepped = *store;
                let r = replay(store, a);
                proof {
                    if (exists|rank: Map<StorageKey, nat>| #[trigger] ranked(*old(store), rank, old(store).nodes().len() as nat)) {
                        let rank = choose|rank: Map<StorageKey, nat>| #[trigger] ranked(*old(store), rank, old(store).nodes().len() as nat);
                        lemma_ranked_same_graph(*old(store), stepped, rank, old(store).nodes().len() as nat);
                        assert(ranked(stepped, rank, stepped.nodes().len() as nat));
                    }
                    assert forall|x: StorageKey| !#[trigger] old(store).reads_something(x)
                        && init_target(a) != Some(x) implies entry(store.values(), x) == entry(
                        step_back(old(store).history(), old(store).values()).1,
                        x,
                    ) && !store.reads_something(x) by {
                        Store::lemma_same_edges_same_reads(&stepped, &*old(store), x);
                    }
                }
                r
            },
        }
    }

    fn travel_forwards<V: Copy, F: Recompute<V>>(&self, store: &mut Store<V, F>) -> (r: Result<
        (),
        PropagationError,
    >) {
        proof {
            old(store).lemma_history_wf();
        }
        let step = store.step_forward();
        match step {
            None => Ok(()),
            Some(a) => {
                let ghost stepped = *store;
                let r = replay(store, a);
                proof {
                    if (exists|rank: Map<StorageKey, nat>| #[trigger] ranked(*old(store), rank, old(store).nodes().len() as nat)) {
                        let rank = choose|rank: Map<StorageKey, nat>| #[trigger] ranked(*old(store), rank, old(store).nodes().len() as nat);
                        lemma_ranked_same_graph(*old(store), stepped, rank, old(store).nodes().len() as nat);
                        assert(ranked(stepped, rank, stepped.nodes().len() as nat));
                    }
                    assert forall|x: StorageKey| !#[trigger] old(store).reads_something(x)
                        && init_target(a) != Some(x) implies entry(store.values(), x) == entry(
                        step_forward(old(store).history(), old(store).values()).1,
                        x,
                    ) && !store.reads_something(x) by {
                        Store::lemma_same_edges_same_reads(&stepped, &*old(store), x);
                    }
                }
                r
            },
        }
    }

    fn len<V: Copy, F: Recompute<V>>(&self, store: &Store<V, F>) -> (r: usize) {
        store.history_len()
    }

    fn travel_to_cursor<V: Copy, F: Recompute<V>>(&self, store: &mut Store<V, F>, cursor: usize) -> (r:
        Result<(), UndoError>) {
        let len = store.history_len();
        if cursor == 0 || cursor >= len {
            return Err(UndoError::CursorOutOfRange);
        }
        let ghost h0 = old(store).history();
        let ghost m0 = old(store).values();
        let ghost lo: int = if cursor < h0.cursor { cursor as int } else { h0.cursor };
        let ghost hi: int = if cursor < h0.cursor { h0.cursor } else { cursor as int };
        let ghost plain = no_init_between(h0, lo, hi);
        let ghost free = writes_without_dependents(*old(store), lo, hi);
        let ghost n0 = old(store).nodes().len() as nat;
        let ghost has_rank = exists|rank: Map<StorageKey, nat>| #[trigger] ranked(*old(store), rank, n0);
        let ghost rank0 = choose|rank: Map<StorageKey, nat>| #[trigger] ranked(*old(store), rank, n0);
        proof {
            old(store).lemma_history_wf();
            assert(back_n(h0, m0, 0) == (h0, m0));
            assert(forward_n(h0, m0, 0) == (h0, m0));
            assert forall|x: StorageKey| !#[trigger] old(store).reads_something(x) implies entry(
                store.values(),
                x,
            ) == entry(m0, x) && !store.reads_something(x) by {}
        }
        if cursor < store.history_cursor() {
            while store.history_cursor() > cursor
                invariant
                    store.wf(),
                    h0.wf(),
                    h0 == old(store).history(),
                    m0 == old(store).values(),
                    store.funcs() == old(store).funcs(),
                    0 < cursor < len,
                    len == h0.commands.len(),
                    cursor <= store.history().cursor <= h0.cursor,
                    store.history() == back_n(h0, m0, (h0.cursor - store.history().cursor) as nat).0,
                    lo == cursor && hi == h0.cursor,
                    Store::stepped_back_n(*old(store), *store, (h0.cursor - store.history().cursor) as nat),
                    store.nodes() == old(store).nodes(),
                    n0 == old(store).nodes().len() as nat,
                    has_rank ==> ranked(*old(store), rank0, n0),
                    has_rank == (exists|rank: Map<StorageKey, nat>| #[trigger] ranked(*old(store), rank, n0)),
                    plain && has_rank ==> ranked(*store, rank0, n0),
                    free == writes_without_dependents(*old(store), lo, hi),
                    plain && free ==> store.edges() == old(store).edges(),
                    plain == no_init_between(h0, lo, hi),
                    plain ==> store.agrees_on_sources(
                        old(store),
                        back_n(h0, m0, (h0.cursor - store.history().cursor) as nat).1,
                    ),
                decreases store.history().cursor,
            {
                let ghost before = *store;
                let ghost j: nat = (h0.cursor - before.history().cursor) as nat;
                proof {
                    lemma_back_n_history(h0, m0, j);
                    lemma_back_n_history(h0, m0, j + 1);
                }
                match self.travel_backwards(store) {
                    Err(e) => {
                        proof {
                            if plain && has_rank {
                                let c = h0.commands[before.history().cursor - 1];
                                assert(!(c.do_cmd is Init));
                                assert(!(c.reverse_cmd is Init));
                                assert(ranked(before, rank0, before.nodes().len() as nat));
                            }
                        }
                        proof {
                            if plain && free {
                                let c = h0.commands[before.history().cursor - 1];
                                assert(!(c.do_cmd is Init));
                                assert(!(c.reverse_cmd is Init));
                                assert(old(store).dependents(c.do_cmd.key()).len() == 0);
                                assert(before.dependents(c.reverse_cmd.key()).len() == 0);
                            }
                        }
                        return Err(UndoError::Propagation(e));
                    },
                    Ok(()) => {},
                }
                proof {
                    assert(Store::stepped_back_n(*old(store), before, j));
                    assert(Store::stepped_back(before, *store));
                    if plain && free {
                        let a = h0.commands[before.history().cursor - 1].reverse_cmd;
                        let c = h0.commands[before.history().cursor - 1];
                        assert(!(c.do_cmd is Init));
                        assert(!(c.reverse_cmd is Init));
                        assert(old(store).dependents(c.do_cmd.key()).len() == 0);
                        let (moved, applied) = choose|moved: Store<V, F>, applied: Store<V, F>|
                            Store::rehistoried(before, step_back(before.history(), before.values()).0, moved)
                                && #[trigger] Store::acted(moved, a, applied) && Store::propagated(
                                applied,
                                a.key(),
                                *store,
                                before.nodes().len() as nat,
                            );
                        assert(applied.dependents(a.key()).len() == 0);
                    }
                    assert(Store::stepped_back_n(*old(store), *store, j + 1));
                    if plain && has_rank {
                        let a = h0.commands[before.history().cursor - 1].reverse_cmd;
                        let c = h0.commands[before.history().cursor - 1];
                        assert(!(c.do_cmd is Init));
                        assert(!(c.reverse_cmd is Init));
                        let (moved, applied) = choose|moved: Store<V, F>, applied: Store<V, F>|
                            Store::rehistoried(before, step_back(before.history(), before.values()).0, moved)
                                && #[trigger] Store::acted(moved, a, applied) && Store::propagated(
                                applied,
                                a.key(),
                                *store,
                                before.nodes().len() as nat,
                            );
                        lemma_ranked_same_graph(before, moved, rank0, n0);
                        lemma_ranked_same_graph(moved, applied, rank0, n0);
                        lemma_pass_keeps_rank(applied, a.key(), *store, n0, rank0, n0);
                    }
                    let a = h0.commands[before.history().cursor - 1].reverse_cmd;
                    assert(back_n(h0, m0, j + 1) == step_back(back_n(h0, m0, j).0, back_n(h0, m0, j).1));
                    if plain {
                        let c = h0.commands[before.history().cursor - 1];
                        assert(!(c.do_cmd is Init));
                        assert(!(c.reverse_cmd is Init));
                        assert forall|x: StorageKey| !#[trigger] old(store).reads_something(x) implies entry(
                            store.values(),
                            x,
                        ) == entry(back_n(h0, m0, j + 1).1, x) && !store.reads_something(x) by {
                            assert(!before.reads_something(x));
                            lemma_apply_agrees(before.values(), back_n(h0, m0, j).1, a, x);
                        }
                    }
                }
            }
        } else {
            while store.history_cursor() < cursor
                invariant
                    store.wf(),
                    h0.wf(),
                    h0 == old(store).history(),
                    m0 == old(store).values(),
                    store.funcs() == old(store).funcs(),
                    0 < cursor < len,
                    len == h0.commands.len(),
                    h0.cursor <= store.history().cursor <= cursor,
                    store.history() == forward_n(h0, m0, (store.history().cursor - h0.cursor) as nat).0,
                    lo == h0.cursor && hi == cursor,
                    Store::stepped_forward_n(*old(store), *store, (store.history().cursor - h0.cursor) as nat),
                    store.nodes() == old(store).nodes(),
                    n0 == old(store).nodes().len() as nat,
                    has_rank ==> ranked(*old(store), rank0, n0),
                    has_rank == (exists|rank: Map<StorageKey, nat>| #[trigger] ranked(*old(store), rank, n0)),
                    plain && has_rank ==> ranked(*store, rank0, n0),
                    free == writes_without_dependents(*old(store), lo, hi),
                    plain && free ==> store.edges() == old(store).edges(),
                    plain == no_init_between(h0, lo, hi),
                    plain ==> store.agrees_on_sources(
                        old(store),
                        forward_n(h0, m0, (store.history().cursor - h0.cursor) as nat).1,
                    ),
                decreases cursor - store.history().cursor,
            {
                let ghost before = *store;
                let ghost j: nat = (before.history().cursor - h0.cursor) as nat;
                proof {
                    lemma_forward_n_history(h0, m0, j);
                    lemma_forward_n_history(h0, m0, j + 1);
                }
                match self.travel_forwards(store) {
                    Err(e) => {
                        proof {
                            if plain && has_rank {
                                let c = h0.commands[before.history().cursor as int];
                                assert(!(c.do_cmd is Init));
                                assert(!(c.reverse_cmd is Init));
                                assert(ranked(before, rank0, before.nodes().len() as nat));
                            }
                        }
                        proof {
                            if plain && free {
                                let c = h0.commands[before.history().cursor as int];
                                assert(!(c.do_cmd is Init));
                                assert(!(c.reverse_cmd is Init));
                                assert(old(store).dependents(c.do_cmd.key()).len() == 0);
                                assert(before.dependents(c.do_cmd.key()).len() == 0);
                            }
                        }
                        return Err(UndoError::Propagation(e));
                    },
                    Ok(()) => {},
                }
                proof {
                    assert(Store::stepped_forward_n(*old(store), before, j));
                    assert(Store::stepped_forward(before, *store));
                    if plain && free {
                        let a = h0.commands[before.history().cursor as int].do_cmd;
                        let c = h0.commands[before.history().cursor as int];
                        assert(!(c.do_cmd is Init));
                        assert(!(c.reverse_cmd is Init));
                        assert(old(store).dependents(c.do_cmd.key()).len() == 0);
                        let (moved, applied) = choose|moved: Store<V, F>, applied: Store<V, F>|
                            Store::rehistoried(before, step_forward(before.history(), before.values()).0, moved)
                                && #[trigger] Store::acted(moved, a, applied) && Store::propagated(
                                applied,
                                a.key(),
                                *store,
                                before.nodes().len() as nat,
                            );
                        assert(applied.dependents(a.key()).len() == 0);
                    }
                    assert(Store::stepped_forward_n(*old(store), *store, j + 1));
                    if plain && has_rank {
                        let a = h0.commands[before.history().cursor as int].do_cmd;
                        let c = h0.commands[before.history().cursor as int];
                        assert(!(c.do_cmd is Init));
                        assert(!(c.reverse_cmd is Init));
                        let (moved, applied) = choose|moved: Store<V, F>, applied: Store<V, F>|
                            Store::rehistoried(before, step_forward(before.history(), before.values()).0, moved)
                                && #[trigger] Store::acted(moved, a, applied) && Store::propagated(
                                applied,
                                a.key(),
                                *store,
                                before.nodes().len() as nat,
                            );
                        lemma_ranked_same_graph(before, moved, rank0, n0);
                        lemma_ranked_same_graph(moved, applied, rank0, n0);
                        lemma_pass_keeps_rank(applied, a.key(), *store, n0, rank0, n0);
                    }
                    let a = h0.commands[before.history().cursor].do_cmd;
                    assert(forward_n(h0, m0, j + 1) == step_forward(forward_n(h0, m0, j).0, forward_n(h0, m0, j).1));
                    if plain {
                        let c = h0.commands[before.history().cursor as int];
                        assert(!(c.do_cmd is Init));
                        assert forall|x: StorageKey| !#[trigger] old(store).reads_something(x) implies entry(
                            store.values(),
                            x,
                        ) == entry(forward_n(h0, m0, j + 1).1, x) && !store.reads_something(x) by {
                            assert(!before.reads_something(x));
                            lemma_apply_agrees(before.values(), forward_n(h0, m0, j).1, a, x);
                        }
                    }
                }
            }
        }
        Ok(())
    }
}

} // verus!
