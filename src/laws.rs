use crate::graph::{
    lemma_consumers_are_edges, lemma_consumers_contains, lemma_consumers_no_duplicates,
    lemma_edge_is_consumer, Edge,
};
use crate::key::{content_key, content_words, default_hash_of, CallSite, StorageKey};
use crate::store::{Recompute, Store};
use crate::undo::{
    back_n, entry, forward_n, lemma_back_n_history, lemma_forward_n_history, restore,
    reversible_write, step_forward, travel, write_all, Action, Command, History,
};
use vstd::prelude::*;

verus! {

/// Resolving a content key depends on the call site and the arguments alone:
/// the same pair always resolves to the same key, and two pairs whose words
/// hash apart resolve to different keys.
pub proof fn content_key_resolution_is_deterministic(
    cs1: CallSite,
    args1: Seq<u64>,
    cs2: CallSite,
    args2: Seq<u64>,
)
    ensures
        cs1 == cs2 && args1 == args2 ==> content_key(cs1, args1) == content_key(cs2, args2),
        default_hash_of(content_words(cs1, args1)) != default_hash_of(content_words(cs2, args2))
            ==> content_key(cs1, args1) != content_key(cs2, args2),
{
}

/// An inert write of `k` recomputes nothing: every other entry keeps its
/// value (a reaction that reads `k` still holds what it held before), every
/// entry keeps its dependents, and no recompute function runs.
pub proof fn inert_write_is_isolated<V: Copy, F: Recompute<V>>(
    before: Store<V, F>,
    after: Store<V, F>,
    k: StorageKey,
    v: V,
)
    requires
        Store::inert_written(before, k, v, after),
    ensures
        forall|x: StorageKey| x != k ==> entry(after.values(), x) == entry(before.values(), x),
        forall|x: StorageKey| #[trigger] after.dependents(x) == before.dependents(x),
        entry(after.values(), k) == Some(v),
        after.recomputes() == before.recomputes(),
{
}

/// After a recompute of `r` that did not read `b`, `b` has no edge to `r`,
/// so `r` is not among its dependents; and when `r` was the only entry that
/// read `b`, `b` now has no dependents at all, so a live write of `b`
/// recomputes nothing.
pub proof fn dead_links_are_pruned<V: Copy, F: Recompute<V>>(
    before: Store<V, F>,
    r: StorageKey,
    after: Store<V, F>,
    b: StorageKey,
)
    requires
        Store::recomputed(before, r, after),
        !after.contexts()[r].reactive_state_accessors@.contains(b),
    ensures
        !after.has_edge(b, r),
        !after.dependents(b).contains(r),
        (forall|c: StorageKey| #[trigger] before.has_edge(b, c) ==> c == r) ==> after.dependents(
            b,
        ).len() == 0,
{
    if after.dependents(b).contains(r) {
        let i = choose|i: int| 0 <= i < after.dependents(b).len() && after.dependents(b)[i] == r;
        lemma_consumers_are_edges(after.edges(), b, i);
        assert(after.has_edge(b, r));
    }
    if (forall|c: StorageKey| #[trigger] before.has_edge(b, c) ==> c == r) && after.dependents(
        b,
    ).len() > 0 {
        lemma_consumers_are_edges(after.edges(), b, 0);
        let c = after.dependents(b)[0];
        assert(after.has_edge(b, c));
        if c != r {
            assert(after.edges().contains(Edge { producer: b, consumer: c }));
            assert(before.has_edge(b, c));
        }
    }
}

/// A recompute of `k` that reads neither `k` itself leaves `k` with the
/// dependents it had; in particular one with none keeps none.
pub proof fn lemma_recompute_keeps_no_dependents<V: Copy, F: Recompute<V>>(
    before: Store<V, F>,
    k: StorageKey,
    after: Store<V, F>,
)
    requires
        Store::recomputed(before, k, after),
        before.dependents(k).len() == 0,
        !after.contexts()[k].reactive_state_accessors@.contains(k),
    ensures
        after.dependents(k).len() == 0,
{
    if after.dependents(k).len() > 0 {
        lemma_consumers_are_edges(after.edges(), k, 0);
        let c = after.dependents(k)[0];
        assert(after.has_edge(k, c));
        if c != k {
            assert(before.edges().contains(Edge { producer: k, consumer: c }));
            lemma_edge_is_consumer(before.edges(), k, c);
        }
    }
}

/// `after` is reached from `before` by running recompute functions only: the
/// registrations are the same and the recompute log has only grown.
pub open spec fn grown<V: Copy, F: Recompute<V>>(before: Store<V, F>, after: Store<V, F>) -> bool {
    &&& after.same_registrations(&before)
    &&& before.recomputes().is_prefix_of(after.recomputes())
}

proof fn lemma_grown_trans<V: Copy, F: Recompute<V>>(a: Store<V, F>, b: Store<V, F>, c: Store<V, F>)
    requires
        grown(a, b),
        grown(b, c),
    ensures
        grown(a, c),
{
    assert(a.recomputes() =~= c.recomputes().subrange(0, a.recomputes().len() as int)) by {
        assert forall|i: int| 0 <= i < a.recomputes().len() implies a.recomputes()[i]
            == c.recomputes()[i] by {
            assert(a.recomputes()[i] == b.recomputes().subrange(0, a.recomputes().len() as int)[i]);
            assert(b.recomputes()[i] == c.recomputes().subrange(0, b.recomputes().len() as int)[i]);
        }
    }
}

proof fn lemma_step_grows<V: Copy, F: Recompute<V>>(s: Store<V, F>, d: StorageKey, m: Store<V, F>)
    requires
        (if s.funcs().contains_key(d) {
            Store::recomputed(s, d, m)
        } else {
            m == s
        }),
    ensures
        grown(s, m),
{
    if s.funcs().contains_key(d) {
        assert(s.recomputes() =~= m.recomputes().subrange(0, s.recomputes().len() as int));
    } else {
        assert(s.recomputes() =~= m.recomputes().subrange(0, s.recomputes().len() as int));
    }
}

/// A propagation pass only runs recompute functions.
proof fn lemma_pass_grows<V: Copy, F: Recompute<V>>(
    before: Store<V, F>,
    id: StorageKey,
    after: Store<V, F>,
    depth: nat,
)
    requires
        Store::propagated(before, id, after, depth),
    ensures
        grown(before, after),
    decreases depth, before.dependents(id).len() + 1,
{
    let deps = before.dependents(id);
    if deps.len() == 0 {
        assert(before.recomputes() =~= after.recomputes().subrange(0, before.recomputes().len() as int));
    } else {
        let (states, mids) = choose|states: Seq<Store<V, F>>, mids: Seq<Store<V, F>>|
            {
                &&& states.len() == deps.len() + 1
                &&& mids.len() == deps.len()
                &&& states[0] == before
                &&& states[deps.len() as int] == after
                &&& forall|i: int|
                    0 <= i < deps.len() ==> (if states[i].funcs().contains_key(deps[i]) {
                        Store::recomputed(states[i], deps[i], #[trigger] mids[i])
                    } else {
                        mids[i] == states[i]
                    }) && Store::propagated(mids[i], deps[i], states[i + 1], (depth - 1) as nat)
            };
        lemma_states_grow(states, mids, deps, depth, 0, deps.len() as int);
    }
}

/// Along the states of one pass, each later state has grown from each earlier one.
proof fn lemma_states_grow<V: Copy, F: Recompute<V>>(
    states: Seq<Store<V, F>>,
    mids: Seq<Store<V, F>>,
    deps: Seq<StorageKey>,
    depth: nat,
    k: int,
    j: int,
)
    requires
        depth > 0,
        states.len() == deps.len() + 1,
        mids.len() == deps.len(),
        0 <= k <= j <= deps.len(),
        forall|i: int|
            0 <= i < deps.len() ==> (if states[i].funcs().contains_key(deps[i]) {
                Store::recomputed(states[i], deps[i], #[trigger] mids[i])
            } else {
                mids[i] == states[i]
            }) && Store::propagated(mids[i], deps[i], states[i + 1], (depth - 1) as nat),
    ensures
        grown(states[k], states[j]),
    decreases depth, j - k,
{
    if k == j {
        assert(states[k].recomputes() =~= states[j].recomputes().subrange(
            0,
            states[k].recomputes().len() as int,
        ));
    } else {
        lemma_states_grow(states, mids, deps, depth, k, j - 1);
        let i = j - 1;
        assert(Store::propagated(mids[i], deps[i], states[i + 1], (depth - 1) as nat));
        lemma_step_grows(states[i], deps[i], mids[i]);
        lemma_pass_grows(mids[i], deps[i], states[i + 1], (depth - 1) as nat);
        lemma_grown_trans(states[i], mids[i], states[j]);
        lemma_grown_trans(states[k], states[i], states[j]);
    }
}

/// In a chain A → R1 → R2, a propagation pass from A recomputes R1 first,
/// and R2 after it.
pub proof fn chain_recomputes_in_order<V: Copy, F: Recompute<V>>(
    s0: Store<V, F>,
    a: StorageKey,
    r1: StorageKey,
    r2: StorageKey,
    s1: Store<V, F>,
    depth: nat,
)
    requires
        Store::propagated(s0, a, s1, depth),
        s0.dependents(a) == seq![r1],
        s0.has_edge(r1, r2),
        r1 != r2,
        s0.funcs().contains_key(r1),
        s0.funcs().contains_key(r2),
    ensures
        s0.recomputes().len() < s1.recomputes().len(),
        s1.recomputes()[s0.recomputes().len() as int] == r1,
        exists|j: int|
            s0.recomputes().len() < j < s1.recomputes().len() && s1.recomputes()[j] == r2,
{
    let n = s0.recomputes().len();
    let deps = s0.dependents(a);
    let (states, mids) = choose|states: Seq<Store<V, F>>, mids: Seq<Store<V, F>>|
        {
            &&& states.len() == deps.len() + 1
            &&& mids.len() == deps.len()
            &&& states[0] == s0
            &&& states[deps.len() as int] == s1
            &&& forall|i: int|
                0 <= i < deps.len() ==> (if states[i].funcs().contains_key(deps[i]) {
                    Store::recomputed(states[i], deps[i], #[trigger] mids[i])
                } else {
                    mids[i] == states[i]
                }) && Store::propagated(mids[i], deps[i], states[i + 1], (depth - 1) as nat)
        };
    let m0 = mids[0];
    assert(Store::recomputed(s0, r1, m0));
    assert(Store::propagated(m0, r1, s1, (depth - 1) as nat));
    assert(m0.edges().contains(Edge { producer: r1, consumer: r2 }));
    lemma_edge_is_consumer(m0.edges(), r1, r2);
    let deps2 = m0.dependents(r1);
    let i = choose|i: int| 0 <= i < deps2.len() && deps2[i] == r2;
    let d2 = (depth - 1) as nat;
    let (states2, mids2) = choose|states: Seq<Store<V, F>>, mids: Seq<Store<V, F>>|
        {
            &&& states.len() == deps2.len() + 1
            &&& mids.len() == deps2.len()
            &&& states[0] == m0
            &&& states[deps2.len() as int] == s1
            &&& forall|i: int|
                0 <= i < deps2.len() ==> (if states[i].funcs().contains_key(deps2[i]) {
                    Store::recomputed(states[i], deps2[i], #[trigger] mids[i])
                } else {
                    mids[i] == states[i]
                }) && Store::propagated(mids[i], deps2[i], states[i + 1], (d2 - 1) as nat)
        };
    lemma_states_grow(states2, mids2, deps2, d2, 0, i);
    assert(Store::recomputed(states2[i], r2, mids2[i]));
    lemma_pass_grows(mids2[i], r2, states2[i + 1], (d2 - 1) as nat);
    lemma_states_grow(states2, mids2, deps2, d2, i + 1, deps2.len() as int);
    lemma_states_grow(states2, mids2, deps2, d2, 0, deps2.len() as int);
    let j = states2[i].recomputes().len() as int;
    lemma_grown_trans(mids2[i], states2[i + 1], s1);
    assert(s1.recomputes()[n as int] == m0.recomputes()[n as int]) by {
        assert(m0.recomputes()[n as int] == s1.recomputes().subrange(0, m0.recomputes().len() as int)[n as int]);
    }
    assert(states2[i].recomputes().len() >= m0.recomputes().len()) by {
        assert(grown(m0, states2[i]));
    }
    assert(s1.recomputes()[j] == r2) by {
        assert(mids2[i].recomputes()[j] == r2);
        assert(mids2[i].recomputes()[j] == s1.recomputes().subrange(0, mids2[i].recomputes().len() as int)[j]);
    }
}

/// What `k` held before the `j`-th of a run of reversible writes of `vs`.
pub open spec fn held_before<V>(m: Map<StorageKey, V>, k: StorageKey, vs: Seq<V>, j: int) -> Option<V> {
    if j == 0 {
        entry(m, k)
    } else {
        Some(vs[j - 1])
    }
}

proof fn lemma_write_all_shape<V>(h: History<V>, m: Map<StorageKey, V>, k: StorageKey, vs: Seq<V>)
    requires
        h.wf(),
    ensures
        ({
            let w = write_all(h, m, k, vs);
            &&& vs.len() > 0 ==> w.0.commands.len() == h.cursor + vs.len()
            &&& w.0.cursor == h.cursor + vs.len()
            &&& vs.len() == 0 ==> w.0 == h
            &&& forall|j: int|
                0 <= j < vs.len() ==> #[trigger] w.0.commands[h.cursor + j] == Command {
                    do_cmd: Action::Write(k, vs[j]),
                    reverse_cmd: restore(k, held_before(m, k, vs, j)),
                }
            &&& entry(w.1, k) == held_before(m, k, vs, vs.len() as int)
        }),
    decreases vs.len(),
{
    if vs.len() > 0 {
        let d = vs.drop_last();
        lemma_write_all_shape(h, m, k, d);
        let p = write_all(h, m, k, d);
        let w = write_all(h, m, k, vs);
        if d.len() > 0 {
            assert(p.0.commands.subrange(0, p.0.cursor) =~= p.0.commands);
        }
        assert forall|j: int| 0 <= j < vs.len() implies #[trigger] w.0.commands[h.cursor + j]
            == Command {
            do_cmd: Action::Write(k, vs[j]),
            reverse_cmd: restore(k, held_before(m, k, vs, j)),
        } by {
            if j < d.len() {
                assert(w.0.commands[h.cursor + j] == p.0.commands[h.cursor + j]);
                assert(d[j] == vs[j]);
                if j > 0 {
                    assert(d[j - 1] == vs[j - 1]);
                }
            } else {
                if j > 0 {
                    assert(d[j - 1] == vs[j - 1]);
                }
            }
        }
    }
}

/// Undoing as many reversible writes of `k` as were just made gives `k` back
/// what it held before them (a value, or nothing) with the cursor where it
/// started; redoing as many then gives `k` the last value written, and the
/// queue is as the writes left it.
pub proof fn undo_redo_round_trip<V>(h: History<V>, m: Map<StorageKey, V>, k: StorageKey, vs: Seq<V>)
    requires
        h.wf(),
    ensures
        ({
            let w = write_all(h, m, k, vs);
            let b = back_n(w.0, w.1, vs.len());
            let f = forward_n(b.0, b.1, vs.len());
            &&& entry(b.1, k) == entry(m, k)
            &&& b.0.cursor == h.cursor
            &&& vs.len() > 0 ==> entry(f.1, k) == Some(vs.last())
            &&& f.0 == w.0
        }),
{
    let n = vs.len();
    let w = write_all(h, m, k, vs);
    lemma_write_all_shape(h, m, k, vs);
    lemma_back_steps(h, m, k, vs, n);
    let b = back_n(w.0, w.1, n);
    lemma_forward_steps(h, m, k, vs, n);
}

proof fn lemma_back_steps<V>(h: History<V>, m: Map<StorageKey, V>, k: StorageKey, vs: Seq<V>, i: nat)
    requires
        h.wf(),
        i <= vs.len(),
    ensures
        ({
            let w = write_all(h, m, k, vs);
            &&& back_n(w.0, w.1, i).0 == (History { commands: w.0.commands, cursor: h.cursor + vs.len() - i })
            &&& entry(back_n(w.0, w.1, i).1, k) == held_before(m, k, vs, vs.len() - i)
        }),
    decreases i,
{
    let w = write_all(h, m, k, vs);
    lemma_write_all_shape(h, m, k, vs);
    if i > 0 {
        lemma_back_steps(h, m, k, vs, (i - 1) as nat);
        let j = vs.len() - i;
        assert(w.0.commands[h.cursor + j] == Command {
            do_cmd: Action::Write(k, vs[j]),
            reverse_cmd: restore(k, held_before(m, k, vs, j)),
        });
    }
}

proof fn lemma_forward_steps<V>(h: History<V>, m: Map<StorageKey, V>, k: StorageKey, vs: Seq<V>, i: nat)
    requires
        h.wf(),
        i <= vs.len(),
    ensures
        ({
            let w = write_all(h, m, k, vs);
            let b = back_n(w.0, w.1, vs.len());
            &&& forward_n(b.0, b.1, i).0 == (History { commands: w.0.commands, cursor: h.cursor + i })
            &&& entry(forward_n(b.0, b.1, i).1, k) == held_before(m, k, vs, i as int)
        }),
    decreases i,
{
    let w = write_all(h, m, k, vs);
    lemma_write_all_shape(h, m, k, vs);
    lemma_back_steps(h, m, k, vs, vs.len());
    if i > 0 {
        lemma_forward_steps(h, m, k, vs, (i - 1) as nat);
        let j = i - 1;
        assert(w.0.commands[h.cursor + j] == Command {
            do_cmd: Action::Write(k, vs[j]),
            reverse_cmd: restore(k, held_before(m, k, vs, j)),
        });
    }
}

/// A reversible write made after undoing drops the undone commands: the
/// queue ends with the new command, so a step forward changes nothing.
pub proof fn write_after_undo_drops_redo_branch<V>(h: History<V>, m: Map<StorageKey, V>, k: StorageKey, v: V)
    requires
        h.wf(),
    ensures
        ({
            let w = reversible_write(h, m, k, v);
            &&& w.0.commands.len() == h.cursor + 1
            &&& w.0.cursor == w.0.commands.len()
            &&& w.0.commands.subrange(0, h.cursor) == h.commands.subrange(0, h.cursor)
            &&& step_forward(w.0, w.1) == w
        }),
{
    let w = reversible_write(h, m, k, v);
    assert(w.0.commands.subrange(0, h.cursor) =~= h.commands.subrange(0, h.cursor));
}

/// Travelling to a cursor inside the queue lands on it, and is the same as
/// stepping back or forward there one step at a time.
pub proof fn travel_is_stepwise<V>(h: History<V>, m: Map<StorageKey, V>, target: int)
    requires
        h.wf(),
        0 <= target <= h.commands.len(),
    ensures
        travel(h, m, target).0 == (History { commands: h.commands, cursor: target }),
        target <= h.cursor ==> travel(h, m, target) == back_n(h, m, (h.cursor - target) as nat),
        target > h.cursor ==> travel(h, m, target) == forward_n(h, m, (target - h.cursor) as nat),
{
    if target <= h.cursor {
        lemma_back_n_history(h, m, (h.cursor - target) as nat);
    } else {
        lemma_forward_n_history(h, m, (target - h.cursor) as nat);
    }
}

/// A ranking of the keys below `bound` that every dependency edge climbs,
/// and that the stated reads of every recompute function climb too.
pub open spec fn ranked<V: Copy, F: Recompute<V>>(
    s: Store<V, F>,
    rank: Map<StorageKey, nat>,
    bound: nat,
) -> bool {
    &&& s.wf()
    &&& forall|p: StorageKey, c: StorageKey| #[trigger]
        s.has_edge(p, c) ==> rank.contains_key(p) && rank.contains_key(c) && rank[p] < rank[c]
            && rank[c] < bound
    &&& forall|c: StorageKey| #[trigger]
        s.funcs().contains_key(c) ==> rank.contains_key(c) && rank[c] < bound
    &&& forall|c: StorageKey, values: Map<StorageKey, V>|
        s.funcs().contains_key(c) ==> (#[trigger] s.funcs()[c].reads_of(values) matches Some(reads)
            && forall|i: int|
            0 <= i < reads.len() ==> rank.contains_key(#[trigger] reads[i]) && rank[reads[i]]
                < rank[c])
}

/// A ranking only looks at the graph and the recompute functions.
pub proof fn lemma_ranked_same_graph<V: Copy, F: Recompute<V>>(
    a: Store<V, F>,
    b: Store<V, F>,
    rank: Map<StorageKey, nat>,
    bound: nat,
)
    requires
        ranked(a, rank, bound),
        b.wf(),
        b.edges() == a.edges(),
        b.funcs() == a.funcs(),
    ensures
        ranked(b, rank, bound),
{
    assert forall|p: StorageKey, c: StorageKey| #[trigger]
        b.has_edge(p, c) implies rank.contains_key(p) && rank.contains_key(c) && rank[p] < rank[c]
        && rank[c] < bound by {
        assert(a.has_edge(p, c));
    }
    assert forall|c: StorageKey| #[trigger]
        b.funcs().contains_key(c) implies rank.contains_key(c) && rank[c] < bound by {
        assert(a.funcs().contains_key(c));
    }
}

proof fn lemma_ranked_step<V: Copy, F: Recompute<V>>(
    s: Store<V, F>,
    d: StorageKey,
    m: Store<V, F>,
    rank: Map<StorageKey, nat>,
    bound: nat,
)
    requires
        ranked(s, rank, bound),
        (if s.funcs().contains_key(d) {
            Store::recomputed(s, d, m)
        } else {
            m == s
        }),
    ensures
        ranked(m, rank, bound),
{
    if s.funcs().contains_key(d) {
        let reads = s.funcs()[d].reads_of(s.values())->0;
        assert forall|p: StorageKey, c: StorageKey| #[trigger]
            m.has_edge(p, c) implies rank.contains_key(p) && rank.contains_key(c) && rank[p]
            < rank[c] && rank[c] < bound by {
            if c == d {
                assert(m.contexts()[d].reactive_state_accessors@ == reads);
                let i = choose|i: int| 0 <= i < reads.len() && reads[i] == p;
                assert(rank.contains_key(reads[i]) && rank[reads[i]] < rank[d]);
            } else {
                assert(m.edges().contains(Edge { producer: p, consumer: c }));
                assert(s.has_edge(p, c));
            }
        }
    }
}

/// A propagation pass keeps a ranking that its recompute functions' reads climb.
pub proof fn lemma_pass_keeps_rank<V: Copy, F: Recompute<V>>(
    before: Store<V, F>,
    id: StorageKey,
    after: Store<V, F>,
    depth: nat,
    rank: Map<StorageKey, nat>,
    bound: nat,
)
    requires
        Store::propagated(before, id, after, depth),
        ranked(before, rank, bound),
    ensures
        ranked(after, rank, bound),
    decreases depth, before.dependents(id).len() + 1,
{
    let deps = before.dependents(id);
    if deps.len() > 0 {
        let (states, mids) = choose|states: Seq<Store<V, F>>, mids: Seq<Store<V, F>>|
            {
                &&& states.len() == deps.len() + 1
                &&& mids.len() == deps.len()
                &&& states[0] == before
                &&& states[deps.len() as int] == after
                &&& forall|i: int|
                    0 <= i < deps.len() ==> (if states[i].funcs().contains_key(deps[i]) {
                        Store::recomputed(states[i], deps[i], #[trigger] mids[i])
                    } else {
                        mids[i] == states[i]
                    }) && Store::propagated(mids[i], deps[i], states[i + 1], (depth - 1) as nat)
            };
        lemma_states_keep_rank(states, mids, deps, depth, deps.len() as int, rank, bound);
    }
}

proof fn lemma_states_keep_rank<V: Copy, F: Recompute<V>>(
    states: Seq<Store<V, F>>,
    mids: Seq<Store<V, F>>,
    deps: Seq<StorageKey>,
    depth: nat,
    j: int,
    rank: Map<StorageKey, nat>,
    bound: nat,
)
    requires
        depth > 0,
        states.len() >= j + 1,
        mids.len() >= j,
        deps.len() >= j,
        0 <= j,
        ranked(states[0], rank, bound),
        forall|i: int|
            0 <= i < j ==> (if states[i].funcs().contains_key(deps[i]) {
                Store::recomputed(states[i], deps[i], #[trigger] mids[i])
            } else {
                mids[i] == states[i]
            }) && Store::propagated(mids[i], deps[i], states[i + 1], (depth - 1) as nat),
    ensures
        ranked(states[j], rank, bound),
    decreases depth, j,
{
    if j > 0 {
        lemma_states_keep_rank(states, mids, deps, depth, j - 1, rank, bound);
        let i = j - 1;
        assert(Store::propagated(mids[i], deps[i], states[i + 1], (depth - 1) as nat));
        lemma_ranked_step(states[i], deps[i], mids[i], rank, bound);
        lemma_pass_keeps_rank(mids[i], deps[i], states[i + 1], (depth - 1) as nat, rank, bound);
    }
}

proof fn lemma_no_stall<V: Copy, F: Recompute<V>>(
    before: Store<V, F>,
    id: StorageKey,
    after: Store<V, F>,
    depth: nat,
    rank: Map<StorageKey, nat>,
    bound: nat,
)
    requires
        ranked(before, rank, bound),
        rank.contains_key(id) ==> rank[id] + depth >= bound,
    ensures
        !Store::stalled(before, id, after, depth),
    decreases depth,
{
    let deps = before.dependents(id);
    if deps.len() > 0 {
        lemma_consumers_are_edges(before.edges(), id, 0);
        assert(before.has_edge(id, deps[0]));
        let c0 = deps[0];
        if depth == 0 {
            assert(rank[id] < rank[c0]);
        }
        if depth > 0 && Store::stalled(before, id, after, depth) {
            let (states, mids, k) = choose|states: Seq<Store<V, F>>, mids: Seq<Store<V, F>>, k: int|
                {
                    &&& 0 <= k < deps.len()
                    &&& states.len() == k + 1
                    &&& mids.len() == k + 1
                    &&& states[0] == before
                    &&& forall|i: int|
                        0 <= i <= k ==> (if states[i].funcs().contains_key(deps[i]) {
                            Store::recomputed(states[i], deps[i], #[trigger] mids[i])
                        } else {
                            mids[i] == states[i]
                        })
                    &&& forall|i: int|
                        0 <= i < k ==> Store::propagated(
                            #[trigger] mids[i],
                            deps[i],
                            states[i + 1],
                            (depth - 1) as nat,
                        )
                    &&& Store::stalled(mids[k], deps[k], after, (depth - 1) as nat)
                };
            lemma_states_keep_rank(states, mids, deps, depth, k, rank, bound);
            lemma_ranked_step(states[k], deps[k], mids[k], rank, bound);
            lemma_consumers_are_edges(before.edges(), id, k);
            assert(before.has_edge(id, deps[k]));
            assert(rank.contains_key(id) && rank[id] < rank[deps[k]]);
            lemma_no_stall(mids[k], deps[k], after, (depth - 1) as nat, rank, bound);
        }
    }
}

/// Where a ranking below the number of nodes climbs along every dependency
/// edge and along the stated reads of every recompute function (so no pass
/// can create a cycle), a propagation pass never stalls: a live write then
/// propagates in full.
pub proof fn ranked_propagation_never_stalls<V: Copy, F: Recompute<V>>(
    before: Store<V, F>,
    id: StorageKey,
    after: Store<V, F>,
    rank: Map<StorageKey, nat>,
)
    requires
        ranked(before, rank, before.nodes().len() as nat),
    ensures
        !Store::stalled(before, id, after, before.nodes().len() as nat),
{
    lemma_no_stall(before, id, after, before.nodes().len() as nat, rank, before.nodes().len() as nat);
}

/// Under a ranking, a pass from `id` recomputes only keys ranked above
/// `id`: every key not ranked above it keeps what it held.
pub proof fn lemma_pass_spares<V: Copy, F: Recompute<V>>(
    before: Store<V, F>,
    id: StorageKey,
    after: Store<V, F>,
    depth: nat,
    rank: Map<StorageKey, nat>,
    bound: nat,
    x: StorageKey,
)
    requires
        Store::propagated(before, id, after, depth),
        ranked(before, rank, bound),
        rank.contains_key(id) && rank.contains_key(x) ==> rank[x] <= rank[id],
        !rank.contains_key(id) ==> x == id,
    ensures
        entry(after.values(), x) == entry(before.values(), x),
    decreases depth, before.dependents(id).len() + 1,
{
    let deps = before.dependents(id);
    if deps.len() > 0 {
        lemma_consumers_are_edges(before.edges(), id, 0);
        assert(before.has_edge(id, deps[0]));
        let (states, mids) = choose|states: Seq<Store<V, F>>, mids: Seq<Store<V, F>>|
            {
                &&& states.len() == deps.len() + 1
                &&& mids.len() == deps.len()
                &&& states[0] == before
                &&& states[deps.len() as int] == after
                &&& forall|i: int|
                    0 <= i < deps.len() ==> (if states[i].funcs().contains_key(deps[i]) {
                        Store::recomputed(states[i], deps[i], #[trigger] mids[i])
                    } else {
                        mids[i] == states[i]
                    }) && Store::propagated(mids[i], deps[i], states[i + 1], (depth - 1) as nat)
            };
        lemma_states_spare(before, id, states, mids, deps, depth, deps.len() as int, rank, bound, x);
    }
}

proof fn lemma_states_spare<V: Copy, F: Recompute<V>>(
    before: Store<V, F>,
    id: StorageKey,
    states: Seq<Store<V, F>>,
    mids: Seq<Store<V, F>>,
    deps: Seq<StorageKey>,
    depth: nat,
    j: int,
    rank: Map<StorageKey, nat>,
    bound: nat,
    x: StorageKey,
)
    requires
        depth > 0,
        deps == before.dependents(id),
        states.len() >= j + 1,
        mids.len() >= j,
        deps.len() >= j,
        0 <= j,
        states[0] == before,
        ranked(before, rank, bound),
        rank.contains_key(id),
        rank.contains_key(x) ==> rank[x] <= rank[id],
        forall|i: int|
            0 <= i < j ==> (if states[i].funcs().contains_key(deps[i]) {
                Store::recomputed(states[i], deps[i], #[trigger] mids[i])
            } else {
                mids[i] == states[i]
            }) && Store::propagated(mids[i], deps[i], states[i + 1], (depth - 1) as nat),
    ensures
        entry(states[j].values(), x) == entry(before.values(), x),
    decreases depth, j,
{
    if j > 0 {
        lemma_states_spare(before, id, states, mids, deps, depth, j - 1, rank, bound, x);
        let i = j - 1;
        lemma_states_keep_rank(states, mids, deps, depth, i, rank, bound);
        lemma_consumers_are_edges(before.edges(), id, i);
        assert(before.has_edge(id, deps[i]));
        assert(rank.contains_key(deps[i]) && rank[id] < rank[deps[i]]);
        assert(deps[i] != x);
        assert(Store::propagated(mids[i], deps[i], states[i + 1], (depth - 1) as nat));
        lemma_ranked_step(states[i], deps[i], mids[i], rank, bound);
        lemma_pass_spares(mids[i], deps[i], states[i + 1], (depth - 1) as nat, rank, bound, x);
    }
}

proof fn lemma_only_dependent<V: Copy, F: Recompute<V>>(s: Store<V, F>, p: StorageKey, c: StorageKey)
    requires
        s.wf(),
        forall|x: StorageKey| #[trigger] s.has_edge(p, x) <==> x == c,
    ensures
        s.dependents(p) == seq![c],
{
    s.lemma_edges_unique();
    lemma_consumers_no_duplicates(s.edges(), p);
    let d = s.dependents(p);
    lemma_consumers_contains(s.edges(), p, c);
    assert(s.has_edge(p, c));
    assert forall|i: int| 0 <= i < d.len() implies d[i] == c by {
        lemma_consumers_are_edges(s.edges(), p, i);
        assert(s.has_edge(p, d[i]));
    }
    let i = choose|i: int| 0 <= i < d.len() && d[i] == c;
    if d.len() > 1 {
        assert(d[0] == d[1]);
    }
    assert(d =~= seq![c]);
}

proof fn lemma_no_dependents<V: Copy, F: Recompute<V>>(s: Store<V, F>, p: StorageKey)
    requires
        forall|x: StorageKey| !#[trigger] s.has_edge(p, x),
    ensures
        s.dependents(p).len() == 0,
{
    if s.dependents(p).len() > 0 {
        lemma_consumers_are_edges(s.edges(), p, 0);
        assert(s.has_edge(p, s.dependents(p)[0]));
    }
}

/// Under a ranking (so no pass creates a cycle), a live write at the head of
/// a chain A -> R1 -> R2 recomputes R1 and then R2, each exactly once, and
/// nothing else.
pub proof fn ranked_chain_recomputes_each_link_once<V: Copy, F: Recompute<V>>(
    s0: Store<V, F>,
    a: StorageKey,
    r1: StorageKey,
    r2: StorageKey,
    s1: Store<V, F>,
    rank: Map<StorageKey, nat>,
)
    requires
        ranked(s0, rank, s0.nodes().len() as nat),
        Store::propagated(s0, a, s1, s0.nodes().len() as nat),
        s0.dependents(a) == seq![r1],
        s0.dependents(r1) == seq![r2],
        s0.dependents(r2).len() == 0,
        s0.funcs().contains_key(r1),
        s0.funcs().contains_key(r2),
    ensures
        s1.recomputes() == s0.recomputes().push(r1).push(r2),
{
    let n = s0.nodes().len() as nat;
    let deps = s0.dependents(a);
    lemma_consumers_are_edges(s0.edges(), r1, 0);
    assert(s0.has_edge(r1, r2));
    assert(rank[r1] < rank[r2]);
    let (states, mids) = choose|states: Seq<Store<V, F>>, mids: Seq<Store<V, F>>|
        {
            &&& states.len() == deps.len() + 1
            &&& mids.len() == deps.len()
            &&& states[0] == s0
            &&& states[deps.len() as int] == s1
            &&& forall|i: int|
                0 <= i < deps.len() ==> (if states[i].funcs().contains_key(deps[i]) {
                    Store::recomputed(states[i], deps[i], #[trigger] mids[i])
                } else {
                    mids[i] == states[i]
                }) && Store::propagated(mids[i], deps[i], states[i + 1], (n - 1) as nat)
        };
    let m0 = mids[0];
    assert(Store::recomputed(s0, r1, m0));
    let reads1 = s0.funcs()[r1].reads_of(s0.values())->0;
    assert(m0.contexts()[r1].reactive_state_accessors@ == reads1);
    assert forall|x: StorageKey| #[trigger] m0.has_edge(r1, x) <==> x == r2 by {
        if x == r1 {
            if m0.has_edge(r1, r1) {
                let i = choose|i: int| 0 <= i < reads1.len() && reads1[i] == r1;
                assert(rank[reads1[i]] < rank[r1]);
            }
        } else {
            assert(m0.edges().contains(Edge { producer: r1, consumer: x }) <==> s0.edges().contains(
                Edge { producer: r1, consumer: x },
            ));
            lemma_consumers_contains(s0.edges(), r1, x);
        }
    }
    lemma_only_dependent(m0, r1, r2);
    assert(Store::propagated(m0, r1, s1, (n - 1) as nat));
    let deps2 = m0.dependents(r1);
    let (states2, mids2) = choose|states: Seq<Store<V, F>>, mids: Seq<Store<V, F>>|
        {
            &&& states.len() == deps2.len() + 1
            &&& mids.len() == deps2.len()
            &&& states[0] == m0
            &&& states[deps2.len() as int] == s1
            &&& forall|i: int|
                0 <= i < deps2.len() ==> (if states[i].funcs().contains_key(deps2[i]) {
                    Store::recomputed(states[i], deps2[i], #[trigger] mids[i])
                } else {
                    mids[i] == states[i]
                }) && Store::propagated(mids[i], deps2[i], states[i + 1], ((n - 1) as nat - 1) as nat)
        };
    let m1 = mids2[0];
    assert(Store::recomputed(m0, r2, m1));
    let reads2 = m0.funcs()[r2].reads_of(m0.values())->0;
    assert(m1.contexts()[r2].reactive_state_accessors@ == reads2);
    assert forall|x: StorageKey| !#[trigger] m1.has_edge(r2, x) by {
        if x == r2 {
            if m1.has_edge(r2, r2) {
                let i = choose|i: int| 0 <= i < reads2.len() && reads2[i] == r2;
                assert(rank[reads2[i]] < rank[r2]);
            }
        } else if x == r1 {
            assert(m1.edges().contains(Edge { producer: r2, consumer: r1 }) <==> m0.edges().contains(
                Edge { producer: r2, consumer: r1 },
            ));
            if m0.has_edge(r2, r1) {
                let i = choose|i: int| 0 <= i < reads1.len() && reads1[i] == r2;
                assert(rank[reads1[i]] < rank[r1]);
            }
        } else {
            assert(m1.edges().contains(Edge { producer: r2, consumer: x }) <==> m0.edges().contains(
                Edge { producer: r2, consumer: x },
            ));
            assert(m0.edges().contains(Edge { producer: r2, consumer: x }) <==> s0.edges().contains(
                Edge { producer: r2, consumer: x },
            ));
            lemma_consumers_contains(s0.edges(), r2, x);
        }
    }
    lemma_no_dependents(m1, r2);
    assert(Store::propagated(m1, r2, s1, ((n - 1) as nat - 1) as nat));
    assert(s1 == m1);
}

/// The body of `k` reads, whatever the stored values, exactly the keys
/// that `reads` allows.
pub open spec fn reads_exactly<V: Copy, F: Recompute<V>>(
    s: Store<V, F>,
    k: StorageKey,
    reads: spec_fn(StorageKey) -> bool,
) -> bool {
    &&& s.funcs().contains_key(k)
    &&& forall|values: Map<StorageKey, V>|
        #[trigger] s.funcs()[k].reads_of(values) matches Some(rs) && forall|p: StorageKey|
            rs.contains(p) <==> reads(p)
}

/// The shape of a diamond A -> {R1, R2} -> R3 seen from its reactions' side.
pub open spec fn diamond_shape<V: Copy, F: Recompute<V>>(
    t: Store<V, F>,
    r1: StorageKey,
    r2: StorageKey,
    r3: StorageKey,
) -> bool {
    &&& t.wf()
    &&& forall|x: StorageKey| #[trigger] t.has_edge(r1, x) <==> x == r3
    &&& forall|x: StorageKey| #[trigger] t.has_edge(r2, x) <==> x == r3
    &&& forall|x: StorageKey| !#[trigger] t.has_edge(r3, x)
}

proof fn lemma_diamond_step<V: Copy, F: Recompute<V>>(
    t: Store<V, F>,
    k: StorageKey,
    u: Store<V, F>,
    a: StorageKey,
    r1: StorageKey,
    r2: StorageKey,
    r3: StorageKey,
)
    requires
        diamond_shape(t, r1, r2, r3),
        Store::recomputed(t, k, u),
        k == r1 || k == r2 || k == r3,
        a != r1 && a != r2 && a != r3 && r1 != r2 && r1 != r3 && r2 != r3,
        reads_exactly(t, r1, |p: StorageKey| p == a),
        reads_exactly(t, r2, |p: StorageKey| p == a),
        reads_exactly(t, r3, |p: StorageKey| p == r1 || p == r2),
    ensures
        diamond_shape(u, r1, r2, r3),
        reads_exactly(u, r1, |p: StorageKey| p == a),
        reads_exactly(u, r2, |p: StorageKey| p == a),
        reads_exactly(u, r3, |p: StorageKey| p == r1 || p == r2),
{
    let rs = t.funcs()[k].reads_of(t.values())->0;
    assert(u.contexts()[k].reactive_state_accessors@ == rs);
    assert forall|p: StorageKey, x: StorageKey|
        (p == r1 || p == r2 || p == r3) implies (#[trigger] u.has_edge(p, x) <==> (if x == k {
            rs.contains(p)
        } else {
            t.has_edge(p, x)
        })) by {
        if x != k {
            assert(u.edges().contains(Edge { producer: p, consumer: x }) <==> t.edges().contains(
                Edge { producer: p, consumer: x },
            ));
        }
    }
    assert forall|x: StorageKey| #[trigger] u.has_edge(r1, x) <==> x == r3 by {
        assert(u.has_edge(r1, x) <==> (if x == k { rs.contains(r1) } else { t.has_edge(r1, x) }));
    }
    assert forall|x: StorageKey| #[trigger] u.has_edge(r2, x) <==> x == r3 by {
        assert(u.has_edge(r2, x) <==> (if x == k { rs.contains(r2) } else { t.has_edge(r2, x) }));
    }
    assert forall|x: StorageKey| !#[trigger] u.has_edge(r3, x) by {
        assert(u.has_edge(r3, x) <==> (if x == k { rs.contains(r3) } else { t.has_edge(r3, x) }));
    }
}

proof fn lemma_unfold_one<V: Copy, F: Recompute<V>>(
    t: Store<V, F>,
    p: StorageKey,
    after: Store<V, F>,
    depth: nat,
) -> (m: Store<V, F>)
    requires
        Store::propagated(t, p, after, depth),
        t.dependents(p).len() == 1,
    ensures
        depth > 0,
        (if t.funcs().contains_key(t.dependents(p)[0]) {
            Store::recomputed(t, t.dependents(p)[0], m)
        } else {
            m == t
        }),
        Store::propagated(m, t.dependents(p)[0], after, (depth - 1) as nat),
{
    let deps = t.dependents(p);
    let (states, mids) = choose|states: Seq<Store<V, F>>, mids: Seq<Store<V, F>>|
        {
            &&& states.len() == deps.len() + 1
            &&& mids.len() == deps.len()
            &&& states[0] == t
            &&& states[deps.len() as int] == after
            &&& forall|i: int|
                0 <= i < deps.len() ==> (if states[i].funcs().contains_key(deps[i]) {
                    Store::recomputed(states[i], deps[i], #[trigger] mids[i])
                } else {
                    mids[i] == states[i]
                }) && Store::propagated(mids[i], deps[i], states[i + 1], (depth - 1) as nat)
        };
    assert(Store::propagated(mids[0], deps[0], states[1], (depth - 1) as nat));
    mids[0]
}

/// A diamond A -> {R1, R2} -> R3 whose bodies always read the same keys (R1
/// and R2 read A, R3 reads R1 and R2): a live write of A recomputes R1, R3,
/// R2 and R3 again, in that order: the join runs once per path.
pub proof fn diamond_recomputes_join_per_path<V: Copy, F: Recompute<V>>(
    s0: Store<V, F>,
    a: StorageKey,
    r1: StorageKey,
    r2: StorageKey,
    r3: StorageKey,
    s1: Store<V, F>,
    depth: nat,
)
    requires
        s0.wf(),
        Store::propagated(s0, a, s1, depth),
        s0.dependents(a) == seq![r1, r2],
        diamond_shape(s0, r1, r2, r3),
        a != r1 && a != r2 && a != r3 && r1 != r2 && r1 != r3 && r2 != r3,
        reads_exactly(s0, r1, |p: StorageKey| p == a),
        reads_exactly(s0, r2, |p: StorageKey| p == a),
        reads_exactly(s0, r3, |p: StorageKey| p == r1 || p == r2),
    ensures
        s1.recomputes() == s0.recomputes().push(r1).push(r3).push(r2).push(r3),
{
    let deps = s0.dependents(a);
    let (states, mids) = choose|states: Seq<Store<V, F>>, mids: Seq<Store<V, F>>|
        {
            &&& states.len() == deps.len() + 1
            &&& mids.len() == deps.len()
            &&& states[0] == s0
            &&& states[deps.len() as int] == s1
            &&& forall|i: int|
                0 <= i < deps.len() ==> (if states[i].funcs().contains_key(deps[i]) {
                    Store::recomputed(states[i], deps[i], #[trigger] mids[i])
                } else {
                    mids[i] == states[i]
                }) && Store::propagated(mids[i], deps[i], states[i + 1], (depth - 1) as nat)
        };
    // first path: R1, then R3
    let m0 = mids[0];
    assert(Store::recomputed(s0, r1, m0));
    lemma_diamond_step(s0, r1, m0, a, r1, r2, r3);
    lemma_only_dependent(m0, r1, r3);
    let m1 = lemma_unfold_one(m0, r1, states[1], (depth - 1) as nat);
    lemma_diamond_step(m0, r3, m1, a, r1, r2, r3);
    lemma_no_dependents(m1, r3);
    assert(states[1] == m1);
    // second path: R2, then R3
    assert(states[1].funcs() == s0.funcs());
    let m2 = mids[1];
    assert(Store::recomputed(states[1], r2, m2));
    lemma_diamond_step(states[1], r2, m2, a, r1, r2, r3);
    lemma_only_dependent(m2, r2, r3);
    let m3 = lemma_unfold_one(m2, r2, s1, (depth - 1) as nat);
    lemma_diamond_step(m2, r3, m3, a, r1, r2, r3);
    lemma_no_dependents(m3, r3);
    assert(s1 == m3);
}

} // verus!
