use crate::graph::{consumers_of, DependencyGraph, Edge};
use crate::key::StorageKey;
use crate::keymap::KeyMap;
use crate::undo::{Action, Command, History, UndoStore};
use vstd::prelude::*;

verus! {

/// The recording surface of one recompute: the key being recomputed and the
/// keys read so far, in order, with repeats.
#[derive(Clone, Debug)]
pub struct ReactiveContext {
    pub key: StorageKey,
    pub reactive_state_accessors: Vec<StorageKey>,
}

impl ReactiveContext {
    pub fn new(key: StorageKey) -> (r: ReactiveContext)
        ensures
            r.key == key,
            r.reactive_state_accessors@ == Seq::<StorageKey>::empty(),
    {
        ReactiveContext { key, reactive_state_accessors: Vec::new() }
    }

    /// Records a read of `k`.
    pub fn record(&mut self, k: StorageKey)
        ensures
            final(self).key == old(self).key,
            final(self).reactive_state_accessors@ == old(self).reactive_state_accessors@.push(k),
    {
        self.reactive_state_accessors.push(k);
    }
}

/// What recomputes the value of one entry: an atom's initialiser or a
/// reaction's body. It reads the store, records each read key in `cx`, and
/// returns the new value; the store keeps that value under the entry's key.
///
/// An implementation may state what it computes: `value_of` and `reads_of`
/// give, as functions of the stored values, the value it returns and the keys
/// it reads, in order. Where they are `None` (the default) nothing is claimed.
pub trait Recompute<V: Copy>: Sized {
    /// The value the body returns when the store holds `values`, if stated.
    open spec fn value_of(&self, values: Map<StorageKey, V>) -> Option<V> {
        None
    }

    /// The keys the body reads, in order, when the store holds `values`, if stated.
    open spec fn reads_of(&self, values: Map<StorageKey, V>) -> Option<Seq<StorageKey>> {
        None
    }

    /// Runs the body. It may read the store (`observe`, `get`, ...) but not
    /// write to it: only edges into `cx.key`, one for each read, may appear.
    fn run(&self, store: &mut Store<V, Self>, cx: &mut ReactiveContext) -> (r: V)
        requires
            old(store).wf(),
            old(store).nodes().contains(old(cx).key),
        ensures
            Store::read_during(*old(store), old(cx).key, *final(store)),
            self.value_of(old(store).values()) matches Some(v) ==> r == v,
            final(cx).key == old(cx).key,
            self.reads_of(old(store).values()) matches Some(reads) ==> final(cx).reactive_state_accessors@ == old(cx).reactive_state_accessors@ + reads,
    ;
}

/// Why a propagation pass stopped before it was done.
#[derive(Clone, Copy, Debug, PartialEq, Eq, Structural)]
pub enum PropagationError {
    /// The pass went deeper than there are registered nodes; since every
    /// consumer of an edge is a registered node, only a dependency cycle
    /// allows that.
    DependencyCycle,
}

/// The reactive store: values by key, the recompute function of each atom and
/// reaction, what each reaction read when it last ran, the dependency graph
/// and the reversible queue.
pub struct Store<V, F> {
    values: KeyMap<V>,
    funcs: KeyMap<F>,
    contexts: KeyMap<ReactiveContext>,
    atoms: KeyMap<()>,
    nodes: Vec<StorageKey>,
    graph: DependencyGraph,
    undo: UndoStore<V>,
    sources: KeyMap<Vec<u64>>,
    recomputed: Ghost<Seq<StorageKey>>,
}

impl<V: Copy, F> Store<V, F> {
    /// The recompute function registered for each atom and reaction.
    pub closed spec fn funcs(&self) -> Map<StorageKey, F> {
        self.funcs@
    }

    /// What each reaction read when it last recomputed.
    pub closed spec fn contexts(&self) -> Map<StorageKey, ReactiveContext> {
        self.contexts@
    }

    /// The keys marked as atoms.
    pub closed spec fn atoms(&self) -> Set<StorageKey> {
        self.atoms@.dom()
    }

    /// The dense table of graph nodes: a node's handle is its position.
    pub closed spec fn nodes(&self) -> Seq<StorageKey> {
        self.nodes@
    }

    /// The dependency edges, in the order in which they were added.
    pub closed spec fn edges(&self) -> Seq<Edge> {
        self.graph@
    }

    /// The reversible queue.
    pub closed spec fn history(&self) -> History<V> {
        self.undo@
    }

    /// The argument words recorded for each content key.
    pub closed spec fn sources(&self) -> Map<StorageKey, Seq<u64>> {
        Map::new(|k: StorageKey| self.sources@.contains_key(k), |k: StorageKey| self.sources@[k]@)
    }

    /// The keys whose recompute function has run, in the order they ran.
    pub closed spec fn recomputes(&self) -> Seq<StorageKey> {
        self.recomputed@
    }

    pub open spec fn has_edge(&self, p: StorageKey, c: StorageKey) -> bool {
        self.edges().contains(Edge { producer: p, consumer: c })
    }

    /// `after` is `before` while a body of `c` runs: nothing changes but that
    /// edges into `c` may be added.
    pub open spec fn read_during(before: Self, c: StorageKey, after: Self) -> bool {
        &&& after.wf()
        &&& after.values() == before.values()
        &&& after.contexts() == before.contexts()
        &&& after.funcs() == before.funcs()
        &&& after.atoms() == before.atoms()
        &&& after.nodes() == before.nodes()
        &&& after.history() == before.history()
        &&& after.sources() == before.sources()
        &&& after.recomputes() == before.recomputes()
        &&& forall|e: Edge|
            e.consumer != c ==> (#[trigger] after.edges().contains(e) <==> before.edges().contains(e))
        &&& forall|e: Edge| #[trigger] before.edges().contains(e) ==> after.edges().contains(e)
    }

    /// The stored values.
    pub closed spec fn values(&self) -> Map<StorageKey, V> {
        self.values@
    }

    pub closed spec fn wf(&self) -> bool {
        &&& self.values.wf()
        &&& self.funcs.wf()
        &&& self.contexts.wf()
        &&& self.atoms.wf()
        &&& self.graph.wf()
        &&& self.undo.wf()
        &&& self.sources.wf()
        &&& self.nodes@.no_duplicates()
        &&& forall|p: StorageKey, c: StorageKey| #[trigger]
            self.graph.has_edge(p, c) ==> self.nodes@.contains(c)
        &&& forall|k: StorageKey| #[trigger] self.funcs@.contains_key(k) ==> self.nodes@.contains(k)
    }
}

impl<V: Copy, F: Recompute<V>> Store<V, F> {









    /// Whether `c` read some entry when it last recomputed; only such an
    /// entry is ever recomputed by propagation.
    pub open spec fn reads_something(&self, c: StorageKey) -> bool {
        exists|p: StorageKey| self.has_edge(p, c)
    }

    /// The entries that read `p`, in the order in which their edges were added.
    pub open spec fn dependents(&self, p: StorageKey) -> Seq<StorageKey> {
        consumers_of(self.edges(), p)
    }

    /// Whether the two stores agree on everything but values, contexts and edges.
    pub open spec fn same_registrations(&self, other: &Self) -> bool {
        &&& self.funcs() == other.funcs()
        &&& self.atoms() == other.atoms()
        &&& self.nodes() == other.nodes()
        &&& self.history() == other.history()
        &&& self.sources() == other.sources()
    }


    pub proof fn lemma_edges_unique(&self)
        requires
            self.wf(),
        ensures
            self.edges().no_duplicates(),
    {
        self.graph.lemma_unique();
    }

    pub proof fn lemma_history_wf(&self)
        requires
            self.wf(),
        ensures
            self.history().wf(),
    {
    }

    pub fn new() -> (r: Self)
        ensures
            r.wf(),
            r.values() == Map::<StorageKey, V>::empty(),
            r.funcs() == Map::<StorageKey, F>::empty(),
            r.contexts() == Map::<StorageKey, ReactiveContext>::empty(),
            r.atoms() == Set::<StorageKey>::empty(),
            r.nodes() == Seq::<StorageKey>::empty(),
            r.edges() == Seq::<Edge>::empty(),
            r.history().commands == Seq::<crate::undo::Command<V>>::empty(),
            r.history().cursor == 0,
            r.sources() == Map::<StorageKey, Seq<u64>>::empty(),
            r.recomputes() == Seq::<StorageKey>::empty(),
    {
        let r = Store {
            values: KeyMap::new(),
            funcs: KeyMap::new(),
            contexts: KeyMap::new(),
            atoms: KeyMap::new(),
            nodes: Vec::new(),
            graph: DependencyGraph::new(),
            undo: UndoStore::new(),
            sources: KeyMap::new(),
            recomputed: Ghost(Seq::empty()),
        };
        proof {
            assert(r.atoms@.dom() =~= Set::<StorageKey>::empty());
            assert(r.sources() =~= Map::<StorageKey, Seq<u64>>::empty());
        }
        r
    }

    /// Whether a value is stored under `k`.
    pub fn holds(&self, k: &StorageKey) -> (r: bool)
        requires
            self.wf(),
        ensures
            r == self.values().contains_key(*k),
    {
        self.values.contains(k)
    }

    /// The value stored under `k`, if any.
    pub fn value(&self, k: &StorageKey) -> (r: Option<V>)
        requires
            self.wf(),
        ensures
            r == crate::undo::entry(self.values(), *k),
    {
        match self.values.get(k) {
            Some(v) => Some(*v),
            None => None,
        }
    }

    /// `after` is `before` with `v` stored under `k` and nothing else changed.
    pub open spec fn inert_written(before: Self, k: StorageKey, v: V, after: Self) -> bool {
        &&& after.wf()
        &&& after.values() == before.values().insert(k, v)
        &&& after.contexts() == before.contexts()
        &&& after.edges() == before.edges()
        &&& after.same_registrations(&before)
        &&& after.recomputes() == before.recomputes()
    }


    /// Reads the value under `k` on behalf of the recompute that `cx`
    /// records: the read is noted in `cx`, and the edge from `k` to `cx.key`
    /// is added at once.
    pub fn observe(&mut self, k: &StorageKey, cx: &mut ReactiveContext) -> (r: V)
        requires
            old(self).wf(),
            old(self).values().contains_key(*k),
            old(self).nodes().contains(old(cx).key),
        ensures
            r == old(self).values()[*k],
            Self::read_during(*old(self), old(cx).key, *final(self)),
            final(self).has_edge(*k, old(cx).key),
            final(self).edges() == (if old(self).has_edge(*k, old(cx).key) {
                old(self).edges()
            } else {
                old(self).edges().push(Edge { producer: *k, consumer: old(cx).key })
            }),
            final(cx).key == old(cx).key,
            final(cx).reactive_state_accessors@ == old(cx).reactive_state_accessors@.push(*k),
    {
        cx.record(*k);
        self.graph.add_edge(*k, cx.key);
        proof {
            assert forall|p: StorageKey, c: StorageKey| #[trigger]
                self.graph.has_edge(p, c) implies self.nodes@.contains(c) by {
                if !(p == *k && c == cx.key) {
                    if !old(self).has_edge(*k, cx.key) {
                        let i = choose|i: int| 0 <= i < self.graph@.len() && self.graph@[i] == (Edge { producer: p, consumer: c });
                        if i < old(self).graph@.len() {
                            assert(old(self).graph@[i] == Edge { producer: p, consumer: c });
                        }
                    }
                    assert(old(self).graph.has_edge(p, c));
                }
            }
            assert(self.graph@.contains(Edge { producer: *k, consumer: cx.key })) by {
                if !old(self).has_edge(*k, cx.key) {
                    assert(self.graph@[self.graph@.len() - 1] == Edge { producer: *k, consumer: cx.key });
                }
            }
            assert forall|e: Edge| #[trigger] old(self).edges().contains(e) implies self.edges().contains(e) by {
                if !old(self).has_edge(*k, cx.key) {
                    let i = choose|i: int| 0 <= i < old(self).edges().len() && old(self).edges()[i] == e;
                    assert(self.edges()[i] == e);
                }
            }
            assert forall|e: Edge| e.consumer != cx.key implies (#[trigger] self.edges().contains(e) <==> old(self).edges().contains(e)) by {
                if !old(self).has_edge(*k, cx.key) && self.edges().contains(e) {
                    let i = choose|i: int| 0 <= i < self.edges().len() && self.edges()[i] == e;
                    if i < old(self).edges().len() {
                        assert(old(self).edges()[i] == e);
                    }
                }
            }
        }
        *self.values.get(k).unwrap()
    }

    /// Stores `v` under `k`, with no propagation.
    pub fn insert_inert(&mut self, k: StorageKey, v: V)
        requires
            old(self).wf(),
        ensures
            final(self).wf(),
            Self::inert_written(*old(self), k, v, *final(self)),
    {
        self.values.insert(k, v);
    }

    /// Removes the value under `k` and hands it back, if there was one.
    pub fn remove(&mut self, k: &StorageKey) -> (r: Option<V>)
        requires
            old(self).wf(),
        ensures
            final(self).wf(),
            r == crate::undo::entry(old(self).values(), *k),
            final(self).values() == old(self).values().remove(*k),
            final(self).contexts() == old(self).contexts(),
            final(self).edges() == old(self).edges(),
            final(self).same_registrations(old(self)),
            final(self).recomputes() == old(self).recomputes(),
    {
        self.values.remove(k)
    }

    /// The keys that hold a value, each once.
    pub fn stored_keys(&self) -> (r: Vec<StorageKey>)
        requires
            self.wf(),
        ensures
            r@.no_duplicates(),
            forall|k: StorageKey| #[trigger] r@.contains(k) <==> self.values().contains_key(k),
    {
        proof {
            self.values.lemma_keys();
        }
        let mut r: Vec<StorageKey> = Vec::new();
        let mut i: usize = 0;
        while i < self.values.len()
            invariant
                self.values.wf(),
                i <= self.values.key_seq().len(),
                r@ == self.values.key_seq().subrange(0, i as int),
            decreases self.values.key_seq().len() - i,
        {
            r.push(self.values.key_at(i));
            i = i + 1;
            proof {
                assert(r@ =~= self.values.key_seq().subrange(0, i as int));
            }
        }
        proof {
            assert(r@ =~= self.values.key_seq());
        }
        r
    }

    /// Removes everything the store holds for `k`: its value, its recompute
    /// function, what it last read, its atom mark, and every edge from or to
    /// it. Its node keeps its handle.
    pub fn purge(&mut self, k: &StorageKey)
        requires
            old(self).wf(),
        ensures
            final(self).wf(),
            final(self).values() == old(self).values().remove(*k),
            final(self).funcs() == old(self).funcs().remove(*k),
            final(self).contexts() == old(self).contexts().remove(*k),
            final(self).atoms() == old(self).atoms().remove(*k),
            forall|e: Edge| #[trigger] final(self).edges().contains(e) <==> old(self).edges().contains(e)
                && e.producer != *k && e.consumer != *k,
            final(self).nodes() == old(self).nodes(),
            final(self).history() == old(self).history(),
            final(self).sources() == old(self).sources(),
    {
        self.values.remove(k);
        self.funcs.remove(k);
        self.contexts.remove(k);
        self.atoms.remove(k);
        self.graph.remove_key(k);
        proof {
            assert(self.atoms@.dom() =~= old(self).atoms@.dom().remove(*k));
            assert forall|p: StorageKey, c: StorageKey| #[trigger]
                self.graph.has_edge(p, c) implies self.nodes@.contains(c) by {
                assert(old(self).graph.has_edge(p, c));
            }
        }
    }

    /// Records `rx` as the recompute function of `k` and gives `k` a node of
    /// the graph, the one it had if it had one; returns the node's handle.
    /// `after` is `before` with `rx` registered as the recompute function of
    /// `k`, and `k` given a node of the graph if it had none.
    pub open spec fn registered(before: Self, k: StorageKey, rx: F, after: Self) -> bool {
        &&& after.wf()
        &&& after.funcs() == before.funcs().insert(k, rx)
        &&& before.nodes().contains(k) ==> after.nodes() == before.nodes()
        &&& !before.nodes().contains(k) ==> after.nodes() == before.nodes().push(k)
        &&& after.values() == before.values()
        &&& after.contexts() == before.contexts()
        &&& after.edges() == before.edges()
        &&& after.atoms() == before.atoms()
        &&& after.history() == before.history()
        &&& after.sources() == before.sources()
        &&& after.recomputes() == before.recomputes()
    }

    pub fn register_reaction_node(&mut self, k: StorageKey, rx: F) -> (r: usize)
        requires
            old(self).wf(),
        ensures
            Self::registered(*old(self), k, rx, *final(self)),
            r < final(self).nodes().len() && final(self).nodes()[r as int] == k,
    {
        let idx = match find_key(&self.nodes, &k) {
            Some(i) => i,
            None => {
                self.nodes.push(k);
                proof {
                    assert forall|a: int, b: int|
                        0 <= a < b < self.nodes.len() implies self.nodes@[a] != self.nodes@[b] by {
                        if b == self.nodes.len() - 1 {
                            assert(old(self).nodes@.contains(self.nodes@[a]));
                        }
                    }
                    assert(self.nodes@[self.nodes.len() - 1] == k);
                }
                self.nodes.len() - 1
            },
        };
        self.funcs.insert(k, rx);
        proof {
            assert(self.nodes@.contains(k)) by {
                assert(self.nodes@[idx as int] == k);
            }
            assert forall|x: StorageKey| old(self).nodes@.contains(x) implies self.nodes@.contains(x) by {
                let i = choose|i: int| 0 <= i < old(self).nodes@.len() && old(self).nodes@[i] == x;
                assert(self.nodes@[i] == x);
            }
            assert forall|p: StorageKey, c: StorageKey| #[trigger]
                self.graph.has_edge(p, c) implies self.nodes@.contains(c) by {
                assert(old(self).nodes@.contains(c));
            }
            assert forall|x: StorageKey| #[trigger] self.funcs@.contains_key(x) implies self.nodes@.contains(x) by {
                if x != k {
                    assert(old(self).funcs@.contains_key(x));
                    assert(old(self).nodes@.contains(x));
                }
            }
        }
        idx
    }

    /// Marks `k` as an atom.
    pub fn add_atom(&mut self, k: StorageKey)
        requires
            old(self).wf(),
        ensures
            final(self).wf(),
            final(self).atoms() == old(self).atoms().insert(k),
            final(self).values() == old(self).values(),
            final(self).contexts() == old(self).contexts(),
            final(self).edges() == old(self).edges(),
            final(self).funcs() == old(self).funcs(),
            final(self).nodes() == old(self).nodes(),
            final(self).history() == old(self).history(),
            final(self).sources() == old(self).sources(),
            final(self).recomputes() == old(self).recomputes(),
    {
        self.atoms.insert(k, ());
        proof {
            assert(self.atoms@.dom() =~= old(self).atoms@.dom().insert(k));
        }
    }

    /// Ends a recompute of `cx.key`: the keys it read become exactly the
    /// producers it depends on, and `cx` is kept as what it last read.
    pub fn unlink_dead_links(&mut self, cx: ReactiveContext)
        requires
            old(self).wf(),
            old(self).nodes().contains(cx.key),
        ensures
            final(self).wf(),
            forall|p: StorageKey| #[trigger]
                final(self).has_edge(p, cx.key) <==> cx.reactive_state_accessors@.contains(p),
            forall|e: Edge|
                e.consumer != cx.key ==> (#[trigger] final(self).edges().contains(e)
                    <==> old(self).edges().contains(e)),
            final(self).contexts() == old(self).contexts().insert(cx.key, cx),
            final(self).values() == old(self).values(),
            final(self).same_registrations(old(self)),
            final(self).recomputes() == old(self).recomputes(),
    {
        let k = cx.key;
        let ghost cx_reads = cx.reactive_state_accessors@;
        self.graph.reconcile(&k, &cx.reactive_state_accessors);
        self.contexts.insert(k, cx);
        proof {
            assert forall|p: StorageKey| #[trigger]
                self.has_edge(p, k) <==> cx_reads.contains(p) by {
                assert(self.graph.has_edge(p, k) <==> cx_reads.contains(p));
            }
            assert forall|p: StorageKey, c: StorageKey| #[trigger]
                self.graph.has_edge(p, c) implies self.nodes@.contains(c) by {
                if c != k {
                    assert(old(self).graph@.contains(Edge { producer: p, consumer: c }));
                    assert(old(self).graph.has_edge(p, c));
                }
            }
        }
    }

    /// `after` is `before` once the recompute function of `k` has run: `k`
    /// holds the value it returned, what it read is kept as its context and
    /// is exactly what `k` depends on, and nothing else changed.
    pub open spec fn recomputed(before: Self, k: StorageKey, after: Self) -> bool {
        &&& after.wf()
        &&& after.values() == before.values().insert(k, after.values()[k])
        &&& after.contexts() == before.contexts().insert(k, after.contexts()[k])
        &&& after.contexts()[k].key == k
        &&& before.funcs()[k].value_of(before.values()) matches Some(v) ==> after.values()[k] == v
        &&& before.funcs()[k].reads_of(before.values()) matches Some(reads)
            ==> after.contexts()[k].reactive_state_accessors@ == reads
        &&& forall|p: StorageKey| #[trigger]
            after.has_edge(p, k) <==> after.contexts()[k].reactive_state_accessors@.contains(p)
        &&& forall|e: Edge|
            e.consumer != k ==> (#[trigger] after.edges().contains(e) <==> before.edges().contains(e))
        &&& after.same_registrations(&before)
        &&& after.recomputes() == before.recomputes().push(k)
    }

    /// `after` is what a propagation pass from `id` makes of `before`: each
    /// dependent of `id`, in edge order, is recomputed (when it has a
    /// recompute function) and then propagated from in turn, no deeper than
    /// `depth`. A dependent reached by two paths is visited twice.
    pub open spec fn propagated(before: Self, id: StorageKey, after: Self, depth: nat) -> bool
        decreases depth,
    {
        let deps = before.dependents(id);
        if deps.len() == 0 {
            after == before
        } else if depth == 0 {
            false
        } else {
            exists|states: Seq<Self>, mids: Seq<Self>|
                {
                    &&& states.len() == deps.len() + 1
                    &&& mids.len() == deps.len()
                    &&& states[0] == before
                    &&& states[deps.len() as int] == after
                    &&& forall|i: int|
                        0 <= i < deps.len() ==> (if states[i].funcs().contains_key(deps[i]) {
                            Self::recomputed(states[i], deps[i], #[trigger] mids[i])
                        } else {
                            mids[i] == states[i]
                        }) && Self::propagated(mids[i], deps[i], states[i + 1], (depth - 1) as nat)
                }
        }
    }

    /// `after` is what a live write of `v` under `k` makes of `before`: `v`
    /// is stored with no propagation, then a pass propagates from `k`; `ok`
    /// tells whether the pass went through or stalled.
    pub open spec fn live_written(before: Self, k: StorageKey, v: V, after: Self, ok: bool) -> bool {
        exists|w: Self|
            #[trigger] Self::inert_written(before, k, v, w) && (if ok {
                Self::propagated(w, k, after, before.nodes().len() as nat)
            } else {
                Self::stalled(w, k, after, before.nodes().len() as nat)
            })
    }

    /// `after` is `before` with the queue's history replaced by `h`.
    pub open spec fn rehistoried(before: Self, h: History<V>, after: Self) -> bool {
        &&& after.wf()
        &&& after.history() == h
        &&& after.values() == before.values()
        &&& after.contexts() == before.contexts()
        &&& after.edges() == before.edges()
        &&& after.funcs() == before.funcs()
        &&& after.atoms() == before.atoms()
        &&& after.nodes() == before.nodes()
        &&& after.sources() == before.sources()
        &&& after.recomputes() == before.recomputes()
    }

    /// `after` is `before` once `a` has been performed with no propagation:
    /// a write or a removal changes the value of its key alone, and `Init`
    /// runs the key's recompute function if it has one.
    pub open spec fn acted(before: Self, a: Action<V>, after: Self) -> bool {
        match a {
            Action::Init(k) => if before.funcs().contains_key(k) {
                Self::recomputed(before, k, after)
            } else {
                after == before
            },
            _ => {
                &&& after.wf()
                &&& after.values() == crate::undo::apply(before.values(), a)
                &&& after.contexts() == before.contexts()
                &&& after.edges() == before.edges()
                &&& after.same_registrations(&before)
                &&& after.recomputes() == before.recomputes()
            },
        }
    }

    /// `after` is `before` once one step back in time has gone through: the
    /// cursor moves back over the last applied command, its undo action is
    /// performed with no propagation, and a pass propagates from the key it
    /// wrote.
    pub open spec fn stepped_back(before: Self, after: Self) -> bool {
        let h = before.history();
        if h.cursor > 0 {
            let a = h.commands[h.cursor - 1].reverse_cmd;
            exists|moved: Self, applied: Self|
                Self::rehistoried(before, crate::undo::step_back(h, before.values()).0, moved)
                    && #[trigger] Self::acted(moved, a, applied) && Self::propagated(
                    applied,
                    a.key(),
                    after,
                    before.nodes().len() as nat,
                )
        } else {
            after == before
        }
    }

    /// `after` is `before` once one step forward in time has gone through:
    /// the cursor moves past the first undone command, its action is
    /// performed with no propagation, and a pass propagates from the key it
    /// wrote.
    pub open spec fn stepped_forward(before: Self, after: Self) -> bool {
        let h = before.history();
        if h.cursor < h.commands.len() {
            let a = h.commands[h.cursor].do_cmd;
            exists|moved: Self, applied: Self|
                Self::rehistoried(before, crate::undo::step_forward(h, before.values()).0, moved)
                    && #[trigger] Self::acted(moved, a, applied) && Self::propagated(
                    applied,
                    a.key(),
                    after,
                    before.nodes().len() as nat,
                )
        } else {
            after == before
        }
    }

    /// `after` is what a step back makes of `before` when its propagation
    /// stalls: the cursor moves back, the undo action is performed, and the
    /// pass from the key it wrote stalls.
    pub open spec fn back_stalled(before: Self, after: Self) -> bool {
        let h = before.history();
        &&& h.cursor > 0
        &&& exists|moved: Self, applied: Self|
            Self::rehistoried(before, crate::undo::step_back(h, before.values()).0, moved)
                && #[trigger] Self::acted(moved, h.commands[h.cursor - 1].reverse_cmd, applied)
                && Self::stalled(
                applied,
                h.commands[h.cursor - 1].reverse_cmd.key(),
                after,
                before.nodes().len() as nat,
            )
    }

    /// `after` is what a step forward makes of `before` when its propagation
    /// stalls.
    pub open spec fn forward_stalled(before: Self, after: Self) -> bool {
        let h = before.history();
        &&& h.cursor < h.commands.len()
        &&& exists|moved: Self, applied: Self|
            Self::rehistoried(before, crate::undo::step_forward(h, before.values()).0, moved)
                && #[trigger] Self::acted(moved, h.commands[h.cursor].do_cmd, applied)
                && Self::stalled(
                applied,
                h.commands[h.cursor].do_cmd.key(),
                after,
                before.nodes().len() as nat,
            )
    }

    /// `after` is reached from `before` by `n` successful steps back.
    pub open spec fn stepped_back_n(before: Self, after: Self, n: nat) -> bool
        decreases n,
    {
        if n == 0 {
            after == before
        } else {
            exists|mid: Self| Self::stepped_back_n(before, mid, (n - 1) as nat) && #[trigger] Self::stepped_back(mid, after)
        }
    }

    /// `after` is reached from `before` by `n` successful steps forward.
    pub open spec fn stepped_forward_n(before: Self, after: Self, n: nat) -> bool
        decreases n,
    {
        if n == 0 {
            after == before
        } else {
            exists|mid: Self| Self::stepped_forward_n(before, mid, (n - 1) as nat) && #[trigger] Self::stepped_forward(mid, after)
        }
    }

    /// `after` is what a propagation pass from `id` makes of `before` when it
    /// gives up: it walks as `propagated` does, and some dependent lies
    /// deeper than `depth` on the path it walks.
    pub open spec fn stalled(before: Self, id: StorageKey, after: Self, depth: nat) -> bool
        decreases depth,
    {
        let deps = before.dependents(id);
        if deps.len() == 0 {
            false
        } else if depth == 0 {
            after == before
        } else {
            exists|states: Seq<Self>, mids: Seq<Self>, k: int|
                {
                    &&& 0 <= k < deps.len()
                    &&& states.len() == k + 1
                    &&& mids.len() == k + 1
                    &&& states[0] == before
                    &&& forall|i: int|
                        0 <= i <= k ==> (if states[i].funcs().contains_key(deps[i]) {
                            Self::recomputed(states[i], deps[i], #[trigger] mids[i])
                        } else {
                            mids[i] == states[i]
                        })
                    &&& forall|i: int|
                        0 <= i < k ==> Self::propagated(
                            #[trigger] mids[i],
                            deps[i],
                            states[i + 1],
                            (depth - 1) as nat,
                        )
                    &&& Self::stalled(mids[k], deps[k], after, (depth - 1) as nat)
                }
        }
    }

    /// Runs the recompute function of `k` with a fresh context, stores its
    /// result under `k` (with no propagation) and settles what `k` reads.
    pub fn recompute(&mut self, k: &StorageKey)
        requires
            old(self).wf(),
            old(self).funcs().contains_key(*k),
        ensures
            Self::recomputed(*old(self), *k, *final(self)),
    {
        let mut cx = ReactiveContext::new(*k);
        let f = self.funcs.remove(k).unwrap();
        proof {
            assert forall|x: StorageKey| #[trigger] self.funcs@.contains_key(x) implies self.nodes@.contains(x) by {
                assert(old(self).funcs@.contains_key(x));
            }
            assert(self.nodes().contains(*k));
        }
        let ghost lent = *self;
        let v = f.run(self, &mut cx);
        let ghost ran = *self;
        self.funcs.insert(*k, f);
        proof {
            assert(self.funcs() =~= old(self).funcs());
            assert forall|x: StorageKey| #[trigger] self.funcs@.contains_key(x) implies self.nodes@.contains(x) by {
                assert(old(self).funcs@.contains_key(x));
            }
            if f.reads_of(old(self).values()) is Some {
                assert(cx.reactive_state_accessors@ =~= f.reads_of(old(self).values())->0);
            }
        }
        self.values.insert(*k, v);
        cx.key = *k;
        self.unlink_dead_links(cx);
        let ghost settled = *self;
        self.recomputed = Ghost(self.recomputed@.push(*k));
        proof {
            assert forall|p: StorageKey| #[trigger]
                self.has_edge(p, *k) <==> self.contexts()[*k].reactive_state_accessors@.contains(p) by {
                assert(settled.has_edge(p, *k) == self.has_edge(p, *k));
            }
            assert forall|e: Edge|
                e.consumer != *k implies (#[trigger] self.edges().contains(e) <==> old(self).edges().contains(e)) by {
                assert(settled.edges() == self.edges());
                assert(ran.edges().contains(e) <==> lent.edges().contains(e));
                assert(lent.edges() == old(self).edges());
            }
            assert(self.wf());
            assert(self.values() == old(self).values().insert(*k, self.values()[*k]));
            assert(self.contexts() == old(self).contexts().insert(*k, self.contexts()[*k]));
            assert(self.same_registrations(&*old(self)));
            assert(self.recomputes() == old(self).recomputes().push(*k));
        }
    }

    /// Every entry that reads nothing keeps its value, and still reads nothing.
    pub open spec fn keeps_sources(&self, old: &Self) -> bool {
        forall|x: StorageKey|
            !#[trigger] old.reads_something(x) ==> crate::undo::entry(self.values(), x)
                == crate::undo::entry(old.values(), x) && !self.reads_something(x)
    }

    /// Keeps the words a content key was made from, unless the key has some already.
    pub fn register_source(&mut self, k: StorageKey, words: Vec<u64>)
        requires
            old(self).wf(),
        ensures
            final(self).wf(),
            final(self).sources() == (if old(self).sources().contains_key(k) {
                old(self).sources()
            } else {
                old(self).sources().insert(k, words@)
            }),
            final(self).values() == old(self).values(),
            final(self).contexts() == old(self).contexts(),
            final(self).edges() == old(self).edges(),
            final(self).funcs() == old(self).funcs(),
            final(self).atoms() == old(self).atoms(),
            final(self).nodes() == old(self).nodes(),
            final(self).history() == old(self).history(),
            final(self).recomputes() == old(self).recomputes(),
    {
        if !self.sources.contains(&k) {
            self.sources.insert(k, words);
            proof {
                assert(self.sources() =~= old(self).sources().insert(k, words@));
            }
        }
    }

    /// On every entry that read nothing in `old`, the store holds what `m` holds.
    pub open spec fn agrees_on_sources(&self, old: &Self, m: Map<StorageKey, V>) -> bool {
        forall|x: StorageKey|
            !#[trigger] old.reads_something(x) ==> crate::undo::entry(self.values(), x)
                == crate::undo::entry(m, x) && !self.reads_something(x)
    }

    pub proof fn lemma_same_edges_same_reads(a: &Self, b: &Self, x: StorageKey)
        requires
            a.edges() == b.edges(),
        ensures
            a.reads_something(x) == b.reads_something(x),
    {
        if a.reads_something(x) {
            let p = choose|p: StorageKey| a.has_edge(p, x);
            assert(b.has_edge(p, x));
        }
        if b.reads_something(x) {
            let p = choose|p: StorageKey| b.has_edge(p, x);
            assert(a.has_edge(p, x));
        }
    }

    /// As `agrees_on_sources`, but for the key `skip`, if there is one.
    pub open spec fn agrees_on_sources_but(
        &self,
        old: &Self,
        m: Map<StorageKey, V>,
        skip: Option<StorageKey>,
    ) -> bool {
        forall|x: StorageKey|
            !#[trigger] old.reads_something(x) && skip != Some(x) ==> crate::undo::entry(
                self.values(),
                x,
            ) == crate::undo::entry(m, x) && !self.reads_something(x)
    }

    /// Moves the cursor of the queue back over the last applied command and
    /// hands back the action that undoes it.
    pub fn step_back(&mut self) -> (r: Option<Action<V>>)
        requires
            old(self).wf(),
        ensures
            final(self).wf(),
            final(self).history() == crate::undo::step_back(old(self).history(), old(self).values()).0,
            old(self).history().cursor > 0 ==> r == Some(
                old(self).history().commands[old(self).history().cursor - 1].reverse_cmd,
            ),
            old(self).history().cursor == 0 ==> r is None && *final(self) == *old(self),
            Self::rehistoried(*old(self), crate::undo::step_back(old(self).history(), old(self).values()).0, *final(self)),
    {
        self.undo.step_back()
    }

    /// Moves the cursor of the queue forward over the first undone command and
    /// hands back the action that performs it.
    pub fn step_forward(&mut self) -> (r: Option<Action<V>>)
        requires
            old(self).wf(),
        ensures
            final(self).wf(),
            final(self).history() == crate::undo::step_forward(old(self).history(), old(self).values()).0,
            old(self).history().cursor < old(self).history().commands.len() ==> r == Some(
                old(self).history().commands[old(self).history().cursor].do_cmd,
            ),
            old(self).history().cursor == old(self).history().commands.len() ==> r is None
                && *final(self) == *old(self),
            Self::rehistoried(*old(self), crate::undo::step_forward(old(self).history(), old(self).values()).0, *final(self)),
    {
        self.undo.step_forward()
    }

    /// Records a reversible mutation on the queue.
    pub fn record_command(&mut self, c: Command<V>)
        requires
            old(self).wf(),
        ensures
            Self::rehistoried(*old(self), crate::undo::record(old(self).history(), c), *final(self)),
    {
        self.undo.push_command(c);
    }

    /// The number of commands in the queue.
    pub fn history_len(&self) -> (r: usize)
        ensures
            r == self.history().commands.len(),
    {
        self.undo.len()
    }

    /// The cursor of the queue.
    pub fn history_cursor(&self) -> (r: usize)
        ensures
            r == self.history().cursor,
    {
        self.undo.cursor
    }

    /// Performs an action of the queue, with no propagation.
    pub fn apply_action(&mut self, a: Action<V>)
        requires
            old(self).wf(),
        ensures
            final(self).wf(),
            final(self).same_registrations(old(self)),
            !(a is Init) ==> final(self).values() == crate::undo::apply(old(self).values(), a)
                && final(self).edges() == old(self).edges(),
            forall|x: StorageKey|
                x != a.key() ==> crate::undo::entry(final(self).values(), x) == crate::undo::entry(
                    old(self).values(),
                    x,
                ) && (#[trigger] final(self).reads_something(x) == old(self).reads_something(x)),
            Self::acted(*old(self), a, *final(self)),
    {
        let ghost start = *self;
        match a {
            Action::Write(k, v) => {
                self.insert_inert(k, v);
                proof {
                    assert forall|x: StorageKey| x != k implies crate::undo::entry(self.values(), x)
                        == crate::undo::entry(start.values(), x) && (#[trigger] self.reads_something(
                        x,
                    ) == start.reads_something(x)) by {
                        Self::lemma_same_edges_same_reads(&*self, &start, x);
                    }
                }
            },
            Action::Remove(k) => {
                self.remove(&k);
                proof {
                    assert forall|x: StorageKey| x != k implies crate::undo::entry(self.values(), x)
                        == crate::undo::entry(start.values(), x) && (#[trigger] self.reads_something(
                        x,
                    ) == start.reads_something(x)) by {
                        Self::lemma_same_edges_same_reads(&*self, &start, x);
                    }
                }
            },
            Action::Init(k) => {
                if self.funcs.contains(&k) {
                    let ghost before = *self;
                    self.recompute(&k);
                    proof {
                        assert forall|x: StorageKey| x != k implies #[trigger] self.reads_something(
                            x,
                        ) == before.reads_something(x) by {
                            if self.reads_something(x) {
                                let p = choose|p: StorageKey| self.has_edge(p, x);
                                assert(before.has_edge(p, x));
                            }
                            if before.reads_something(x) {
                                let p = choose|p: StorageKey| before.has_edge(p, x);
                                assert(self.has_edge(p, x));
                            }
                        }
                    }
                }
            },
        }
    }

    /// Depth-first: each dependent of `id`, in edge order, is recomputed and
    /// then propagated from; a dependent reached by two paths runs twice.
    /// Gives up, returning false, on a path deeper than `depth`.
    fn propagate(&mut self, id: &StorageKey, depth: usize) -> (r: bool)
        requires
            old(self).wf(),
        ensures
            final(self).wf(),
            final(self).same_registrations(old(self)),
            final(self).keeps_sources(old(self)),
            old(self).values().dom().subset_of(final(self).values().dom()),
            old(self).dependents(*id).len() == 0 ==> r && *final(self) == *old(self),
            r ==> Self::propagated(*old(self), *id, *final(self), depth as nat),
            !r ==> Self::stalled(*old(self), *id, *final(self), depth as nat),
        decreases depth,
    {
        let deps = self.graph.dependents(id);
        if deps.len() == 0 {
            return true;
        }
        if depth == 0 {
            return false;
        }
        let ghost start = *self;
        let ghost mut states: Seq<Self> = seq![*self];
        let ghost mut mids: Seq<Self> = Seq::empty();
        let mut i: usize = 0;
        while i < deps.len()
            invariant
                i <= deps.len(),
                depth > 0,
                states.len() == i + 1,
                mids.len() == i,
                states[0] == start,
                states[i as int] == *self,
                forall|j: int|
                    0 <= j < i ==> (if states[j].funcs().contains_key(deps@[j]) {
                        Self::recomputed(states[j], deps@[j], #[trigger] mids[j])
                    } else {
                        mids[j] == states[j]
                    }) && Self::propagated(mids[j], deps@[j], states[j + 1], (depth - 1) as nat),
                start == *old(self),
                deps@ == start.dependents(*id),
                start.wf(),
                self.wf(),
                self.same_registrations(&start),
                self.keeps_sources(&start),
                start.values().dom().subset_of(self.values().dom()),
            decreases deps.len() - i,
        {
            let d = deps[i];
            proof {
                crate::graph::lemma_consumers_are_edges(start.edges(), *id, i as int);
                assert(start.has_edge(*id, d));
            }
            if self.funcs.contains(&d) {
                let ghost before = *self;
                self.recompute(&d);
                proof {
                    assert forall|x: StorageKey| !start.reads_something(x) implies crate::undo::entry(
                        self.values(),
                        x,
                    ) == crate::undo::entry(start.values(), x) && !self.reads_something(x) by {
                        assert(x != d);
                        assert(!before.reads_something(x));
                        if self.reads_something(x) {
                            let p = choose|p: StorageKey| self.has_edge(p, x);
                            assert(before.has_edge(p, x));
                        }
                    }
                }
            }
            let ghost before = *self;
            let ok = self.propagate(&d, depth - 1);
            if !ok {
                proof {
                    let ghost mids_k = mids.push(before);
                    assert forall|j: int|
                        0 <= j <= i implies (if states[j].funcs().contains_key(deps@[j]) {
                            Self::recomputed(states[j], deps@[j], #[trigger] mids_k[j])
                        } else {
                            mids_k[j] == states[j]
                        }) by {
                        if j < i {
                            assert(mids_k[j] == mids[j]);
                        }
                    }
                    assert forall|j: int|
                        0 <= j < i implies Self::propagated(
                            #[trigger] mids_k[j],
                            deps@[j],
                            states[j + 1],
                            (depth - 1) as nat,
                        ) by {
                        assert(mids_k[j] == mids[j]);
                    }
                    assert(mids_k[i as int] == before);
                    let ghost k: int = i as int;
                    let ghost deps_s = start.dependents(*id);
                    assert(Self::stalled(mids_k[k], deps_s[k], *self, (depth - 1) as nat));
                    assert(0 <= k < deps_s.len() && states.len() == k + 1 && mids_k.len() == k + 1 && states[0] == start);
                    assert(Self::stalled(start, *id, *self, depth as nat));
                    assert forall|x: StorageKey| !start.reads_something(x) implies crate::undo::entry(
                        self.values(),
                        x,
                    ) == crate::undo::entry(start.values(), x) && !self.reads_something(x) by {
                        assert(!before.reads_something(x));
                    }
                }
                return false;
            }
            proof {
                let ghost prev_states = states;
                let ghost prev_mids = mids;
                states = states.push(*self);
                mids = mids.push(before);
                assert forall|j: int|
                    0 <= j < i + 1 implies (if states[j].funcs().contains_key(deps@[j]) {
                        Self::recomputed(states[j], deps@[j], #[trigger] mids[j])
                    } else {
                        mids[j] == states[j]
                    }) && Self::propagated(mids[j], deps@[j], states[j + 1], (depth - 1) as nat) by {
                    if j < i {
                        assert(states[j] == prev_states[j]);
                        assert(states[j + 1] == prev_states[j + 1]);
                        assert(mids[j] == prev_mids[j]);
                    } else {
                        assert(states[j] == prev_states[i as int]);
                        assert(mids[j] == before);
                        assert(states[j + 1] == *self);
                    }
                }
                assert forall|x: StorageKey| !start.reads_something(x) implies crate::undo::entry(
                    self.values(),
                    x,
                ) == crate::undo::entry(start.values(), x) && !self.reads_something(x) by {
                    assert(!before.reads_something(x));
                }
            }
            i = i + 1;
        }
        proof {
            assert(states[deps.len() as int] == *self);
        }
        true
    }

    /// Propagates a change of `id` to everything that depends on it,
    /// depth-first in edge order. A dependency cycle stops the pass with an
    /// error instead of recursing without end.
    pub fn execute(&mut self, id: &StorageKey) -> (r: Result<(), PropagationError>)
        requires
            old(self).wf(),
        ensures
            final(self).wf(),
            final(self).same_registrations(old(self)),
            final(self).keeps_sources(old(self)),
            old(self).values().dom().subset_of(final(self).values().dom()),
            old(self).dependents(*id).len() == 0 ==> r is Ok && *final(self) == *old(self),
            r is Ok ==> Self::propagated(*old(self), *id, *final(self), old(self).nodes().len() as nat),
            r is Err ==> Self::stalled(*old(self), *id, *final(self), old(self).nodes().len() as nat),
    {
        let depth = self.nodes.len();
        if self.propagate(id, depth) {
            Ok(())
        } else {
            Err(PropagationError::DependencyCycle)
        }
    }
}

/// Where `k` stands in `keys`, if it is there.
pub fn find_key(keys: &Vec<StorageKey>, k: &StorageKey) -> (r: Option<usize>)
    ensures
        r matches Some(i) ==> i < keys.len() && keys@[i as int] == *k,
        r is None ==> !keys@.contains(*k),
{
    let mut i: usize = 0;
    while i < keys.len()
        invariant
            i <= keys.len(),
            forall|j: int| 0 <= j < i ==> keys@[j] != *k,
        decreases keys.len() - i,
    {
        if crate::key::same_key(&keys[i], k) {
            return Some(i);
        }
        i = i + 1;
    }
    None
}

} // verus!
