use crate::key::{same_key, StorageKey};
use vstd::prelude::*;

verus! {

/// A dependency: `consumer` read `producer` when it last recomputed.
#[derive(Clone, Copy, Debug, PartialEq, Eq, Hash)]
pub struct Edge {
    pub producer: StorageKey,
    pub consumer: StorageKey,
}

/// The consumers of `p`, in the order in which their edges were added.
pub open spec fn consumers_of(edges: Seq<Edge>, p: StorageKey) -> Seq<StorageKey>
    decreases edges.len(),
{
    if edges.len() == 0 {
        Seq::empty()
    } else {
        let rest = consumers_of(edges.drop_last(), p);
        if edges.last().producer == p {
            rest.push(edges.last().consumer)
        } else {
            rest
        }
    }
}

/// The edges that stay when `c` is found to read exactly `observed`: those of
/// other consumers, and those of `c` from a key in `observed`.
pub open spec fn pruned(edges: Seq<Edge>, c: StorageKey, observed: Seq<StorageKey>) -> Seq<Edge>
    decreases edges.len(),
{
    if edges.len() == 0 {
        Seq::empty()
    } else {
        let rest = pruned(edges.drop_last(), c, observed);
        let e = edges.last();
        if e.consumer != c || observed.contains(e.producer) {
            rest.push(e)
        } else {
            rest
        }
    }
}

/// Each consumer of `p` has its edge from `p`.
pub proof fn lemma_consumers_are_edges(edges: Seq<Edge>, p: StorageKey, i: int)
    requires
        0 <= i < consumers_of(edges, p).len(),
    ensures
        edges.contains(Edge { producer: p, consumer: consumers_of(edges, p)[i] }),
    decreases edges.len(),
{
    if edges.len() > 0 {
        let rest = consumers_of(edges.drop_last(), p);
        if i < rest.len() {
            lemma_consumers_are_edges(edges.drop_last(), p, i);
            let j = choose|j: int| 0 <= j < edges.len() - 1 && #[trigger] edges.drop_last()[j] == (Edge { producer: p, consumer: rest[i] });
            assert(edges[j] == edges.drop_last()[j]);
        } else {
            assert(edges[edges.len() - 1] == edges.last());
        }
    }
}

/// The consumer of each edge from `p` is among the consumers of `p`.
pub proof fn lemma_edge_is_consumer(edges: Seq<Edge>, p: StorageKey, c: StorageKey)
    requires
        edges.contains(Edge { producer: p, consumer: c }),
    ensures
        consumers_of(edges, p).contains(c),
    decreases edges.len(),
{
    let e = Edge { producer: p, consumer: c };
    let d = edges.drop_last();
    let rest = consumers_of(d, p);
    if edges.last() == e {
        assert(rest.push(c)[rest.len() as int] == c);
    } else {
        let j = choose|j: int| 0 <= j < edges.len() && #[trigger] edges[j] == e;
        assert(d[j] == e);
        lemma_edge_is_consumer(d, p, c);
        let i = choose|i: int| 0 <= i < rest.len() && #[trigger] rest[i] == c;
        if edges.last().producer == p {
            assert(rest.push(edges.last().consumer)[i] == c);
        }
    }
}

/// `c` is a consumer of `p` exactly when there is an edge from `p` to `c`.
pub proof fn lemma_consumers_contains(edges: Seq<Edge>, p: StorageKey, c: StorageKey)
    ensures
        consumers_of(edges, p).contains(c) <==> edges.contains(Edge { producer: p, consumer: c }),
{
    if consumers_of(edges, p).contains(c) {
        let i = choose|i: int| 0 <= i < consumers_of(edges, p).len() && consumers_of(edges, p)[i] == c;
        lemma_consumers_are_edges(edges, p, i);
    }
    if edges.contains(Edge { producer: p, consumer: c }) {
        lemma_edge_is_consumer(edges, p, c);
    }
}

/// With no repeated edge, no consumer of `p` is repeated.
pub proof fn lemma_consumers_no_duplicates(edges: Seq<Edge>, p: StorageKey)
    requires
        edges.no_duplicates(),
    ensures
        consumers_of(edges, p).no_duplicates(),
    decreases edges.len(),
{
    if edges.len() > 0 {
        let d = edges.drop_last();
        assert(d.no_duplicates()) by {
            assert forall|a: int, b: int| 0 <= a < b < d.len() implies d[a] != d[b] by {
                assert(d[a] == edges[a] && d[b] == edges[b]);
            }
        }
        lemma_consumers_no_duplicates(d, p);
        let last = edges.last();
        if last.producer == p {
            lemma_consumers_contains(d, p, last.consumer);
            if d.contains(last) {
                let j = choose|j: int| 0 <= j < d.len() && #[trigger] d[j] == last;
                assert(edges[j] == edges[edges.len() - 1]);
            }
            let rest = consumers_of(d, p);
            assert forall|a: int, b: int| 0 <= a < b < rest.len() + 1 implies rest.push(last.consumer)[a]
                != rest.push(last.consumer)[b] by {
                if b == rest.len() {
                    assert(rest.contains(rest[a]));
                }
            }
        }
    }
}

proof fn lemma_pruned_contains(edges: Seq<Edge>, c: StorageKey, observed: Seq<StorageKey>, e: Edge)
    ensures
        pruned(edges, c, observed).contains(e) <==> edges.contains(e) && (e.consumer != c
            || observed.contains(e.producer)),
    decreases edges.len(),
{
    if edges.len() > 0 {
        lemma_pruned_contains(edges.drop_last(), c, observed, e);
        let rest = pruned(edges.drop_last(), c, observed);
        if edges.contains(e) {
            let i = choose|i: int| 0 <= i < edges.len() && edges[i] == e;
            if i < edges.len() - 1 {
                assert(edges.drop_last()[i] == e);
            }
        }
        if edges.drop_last().contains(e) {
            let i = choose|i: int| 0 <= i < edges.len() - 1 && edges.drop_last()[i] == e;
            assert(edges[i] == e);
        }
        if rest.contains(e) {
            let i = choose|i: int| 0 <= i < rest.len() && rest[i] == e;
            assert(rest.push(edges.last())[i] == e);
        }
        assert(rest.push(edges.last())[rest.len() as int] == edges.last());
    }
}

proof fn lemma_pruned_no_duplicates(edges: Seq<Edge>, c: StorageKey, observed: Seq<StorageKey>)
    requires
        edges.no_duplicates(),
    ensures
        pruned(edges, c, observed).no_duplicates(),
    decreases edges.len(),
{
    if edges.len() > 0 {
        let d = edges.drop_last();
        assert(d.no_duplicates()) by {
            assert forall|a: int, b: int| 0 <= a < b < d.len() implies d[a] != d[b] by {
                assert(d[a] == edges[a] && d[b] == edges[b]);
            }
        }
        lemma_pruned_no_duplicates(d, c, observed);
        lemma_pruned_contains(d, c, observed, edges.last());
        if d.contains(edges.last()) {
            let i = choose|i: int| 0 <= i < d.len() && d[i] == edges.last();
            assert(edges[i] == edges[edges.len() - 1]);
        }
    }
}

/// Which reactions read which entries: an edge from producer to consumer for
/// each read, kept in the order in which the edges were added.
pub struct DependencyGraph {
    edges: Vec<Edge>,
}

impl DependencyGraph {
    pub closed spec fn wf(&self) -> bool {
        self.edges@.no_duplicates()
    }

    pub closed spec fn view(&self) -> Seq<Edge> {
        self.edges@
    }

    pub open spec fn has_edge(&self, p: StorageKey, c: StorageKey) -> bool {
        self@.contains(Edge { producer: p, consumer: c })
    }

    /// Whether some entry is recorded as read by `c`.
    pub open spec fn has_producer(&self, c: StorageKey) -> bool {
        exists|p: StorageKey| self.has_edge(p, c)
    }

    pub proof fn lemma_unique(&self)
        requires
            self.wf(),
        ensures
            self@.no_duplicates(),
    {
    }

    pub fn new() -> (r: Self)
        ensures
            r.wf(),
            r@ == Seq::<Edge>::empty(),
    {
        DependencyGraph { edges: Vec::new() }
    }

    fn contains_edge(&self, e: &Edge) -> (r: bool)
        ensures
            r == self@.contains(*e),
    {
        let mut i: usize = 0;
        while i < self.edges.len()
            invariant
                i <= self.edges.len(),
                forall|j: int| 0 <= j < i ==> self.edges@[j] != *e,
            decreases self.edges.len() - i,
        {
            if same_key(&self.edges[i].producer, &e.producer) && same_key(
                &self.edges[i].consumer,
                &e.consumer,
            ) {
                return true;
            }
            i = i + 1;
        }
        false
    }

    /// Records that `c` reads `p`; an edge that is already there stays where it is.
    pub fn add_edge(&mut self, p: StorageKey, c: StorageKey)
        requires
            old(self).wf(),
        ensures
            final(self).wf(),
            final(self)@ == (if old(self).has_edge(p, c) {
                old(self)@
            } else {
                old(self)@.push(Edge { producer: p, consumer: c })
            }),
    {
        let e = Edge { producer: p, consumer: c };
        if !self.contains_edge(&e) {
            self.edges.push(e);
            proof {
                assert forall|a: int, b: int|
                    0 <= a < b < self.edges.len() implies self.edges@[a] != self.edges@[b] by {
                    if b == self.edges.len() - 1 {
                        assert(old(self).edges@.contains(self.edges@[a]));
                    }
                }
            }
        }
    }

    /// The consumers that read `p`, in the order in which they started to.
    pub fn dependents(&self, p: &StorageKey) -> (r: Vec<StorageKey>)
        ensures
            r@ == consumers_of(self@, *p),
    {
        let mut r: Vec<StorageKey> = Vec::new();
        let mut i: usize = 0;
        while i < self.edges.len()
            invariant
                i <= self.edges.len(),
                r@ == consumers_of(self.edges@.subrange(0, i as int), *p),
            decreases self.edges.len() - i,
        {
            proof {
                assert(self.edges@.subrange(0, i + 1).drop_last() =~= self.edges@.subrange(
                    0,
                    i as int,
                ));
            }
            if same_key(&self.edges[i].producer, p) {
                r.push(self.edges[i].consumer);
            }
            i = i + 1;
        }
        proof {
            assert(self.edges@.subrange(0, self.edges.len() as int) =~= self.edges@);
        }
        r
    }

    /// Drops the edges into `c` from keys that `observed` does not hold.
    pub fn retain_observed(&mut self, c: &StorageKey, observed: &Vec<StorageKey>)
        requires
            old(self).wf(),
        ensures
            final(self).wf(),
            final(self)@ == pruned(old(self)@, *c, observed@),
    {
        let mut kept: Vec<Edge> = Vec::new();
        let mut i: usize = 0;
        while i < self.edges.len()
            invariant
                i <= self.edges.len(),
                kept@ == pruned(self.edges@.subrange(0, i as int), *c, observed@),
            decreases self.edges.len() - i,
        {
            proof {
                assert(self.edges@.subrange(0, i + 1).drop_last() =~= self.edges@.subrange(
                    0,
                    i as int,
                ));
            }
            let e = self.edges[i];
            if !same_key(&e.consumer, c) || contains_key(observed, &e.producer) {
                kept.push(e);
            }
            i = i + 1;
        }
        proof {
            assert(self.edges@.subrange(0, self.edges.len() as int) =~= self.edges@);
            lemma_pruned_no_duplicates(self.edges@, *c, observed@);
        }
        self.edges = kept;
    }

    /// Makes the keys that `c` reads exactly those of `observed`: edges into `c`
    /// from other keys are dropped, missing ones are added, and the edges of
    /// other consumers stay as they were.
    pub fn reconcile(&mut self, c: &StorageKey, observed: &Vec<StorageKey>)
        requires
            old(self).wf(),
        ensures
            final(self).wf(),
            forall|p: StorageKey| #[trigger] final(self).has_edge(p, *c) <==> observed@.contains(p),
            forall|e: Edge|
                e.consumer != *c ==> (#[trigger] final(self)@.contains(e) <==> old(self)@.contains(
                    e,
                )),
    {
        self.retain_observed(c, observed);
        proof {
            assert forall|e: Edge| #[trigger] self@.contains(e) <==> old(self)@.contains(e) && (
            e.consumer != *c || observed@.contains(e.producer)) by {
                lemma_pruned_contains(old(self)@, *c, observed@, e);
            }
        }
        let mut i: usize = 0;
        while i < observed.len()
            invariant
                i <= observed.len(),
                self.wf(),
                forall|e: Edge|
                    #[trigger] self@.contains(e) <==> old(self)@.contains(e) && (e.consumer != *c
                        || observed@.contains(e.producer)) || (e.consumer == *c
                        && observed@.subrange(0, i as int).contains(e.producer)),
            decreases observed.len() - i,
        {
            let ghost before = self@;
            self.add_edge(observed[i], *c);
            proof {
                assert forall|e: Edge| #[trigger] self@.contains(e) <==> before.contains(e) || e
                    == (Edge { producer: observed@[i as int], consumer: *c }) by {
                    if self@ != before {
                        assert(self@ == before.push(Edge { producer: observed@[i as int], consumer: *c }));
                        if self@.contains(e) && e != (Edge { producer: observed@[i as int], consumer: *c }) {
                            let j = choose|j: int| 0 <= j < self@.len() && self@[j] == e;
                            assert(before[j] == e);
                        }
                        if before.contains(e) {
                            let j = choose|j: int| 0 <= j < before.len() && before[j] == e;
                            assert(self@[j] == e);
                        }
                        assert(self@[before.len() as int] == Edge { producer: observed@[i as int], consumer: *c });
                    }
                }
                assert forall|p: StorageKey| observed@.subrange(0, i + 1).contains(p) <==> observed@.subrange(0, i as int).contains(p) || p == observed@[i as int] by {
                    lemma_prefix_contains(observed@, i as int, p);
                }
            }
            i = i + 1;
        }
        proof {
            assert(observed@.subrange(0, observed.len() as int) =~= observed@);
        }
    }

    /// Drops every edge from or to `k`.
    pub fn remove_key(&mut self, k: &StorageKey)
        requires
            old(self).wf(),
        ensures
            final(self).wf(),
            forall|e: Edge| #[trigger] final(self)@.contains(e) <==> old(self)@.contains(e)
                && e.producer != *k && e.consumer != *k,
    {
        let mut kept: Vec<Edge> = Vec::new();
        let mut i: usize = 0;
        while i < self.edges.len()
            invariant
                i <= self.edges.len(),
                self.wf(),
                kept@.no_duplicates(),
                forall|e: Edge| #[trigger] kept@.contains(e) <==> self.edges@.subrange(0, i as int).contains(e)
                    && e.producer != *k && e.consumer != *k,
            decreases self.edges.len() - i,
        {
            let e = self.edges[i];
            proof {
                assert forall|x: Edge| self.edges@.subrange(0, i + 1).contains(x) <==> self.edges@.subrange(0, i as int).contains(x) || x == e by {
                    lemma_prefix_contains(self.edges@, i as int, x);
                }
                if self.edges@.subrange(0, i as int).contains(e) {
                    let j = choose|j: int| 0 <= j < i && #[trigger] self.edges@.subrange(0, i as int)[j] == e;
                    assert(self.edges@[j] == self.edges@[i as int]);
                }
            }
            if !same_key(&e.producer, k) && !same_key(&e.consumer, k) {
                let ghost before = kept@;
                kept.push(e);
                proof {
                    assert forall|a: int, b: int| 0 <= a < b < kept.len() implies kept@[a] != kept@[b] by {
                        if b == kept.len() - 1 {
                            assert(before.contains(kept@[a]));
                            assert(!self.edges@.subrange(0, i as int).contains(e));
                        }
                    }
                    assert forall|x: Edge| #[trigger] kept@.contains(x) <==> before.contains(x) || x == e by {
                        if kept@.contains(x) && x != e {
                            let j = choose|j: int| 0 <= j < kept.len() && kept@[j] == x;
                            assert(before[j] == x);
                        }
                        if before.contains(x) {
                            let j = choose|j: int| 0 <= j < before.len() && before[j] == x;
                            assert(kept@[j] == x);
                        }
                        assert(kept@[before.len() as int] == e);
                    }
                }
            }
            i = i + 1;
        }
        proof {
            assert(self.edges@.subrange(0, self.edges.len() as int) =~= self.edges@);
        }
        self.edges = kept;
    }
}

/// A prefix one longer holds what the shorter one holds and the next item.
pub proof fn lemma_prefix_contains<A>(s: Seq<A>, i: int, x: A)
    requires
        0 <= i < s.len(),
    ensures
        s.subrange(0, i + 1).contains(x) <==> s.subrange(0, i).contains(x) || x == s[i],
{
    let long = s.subrange(0, i + 1);
    let short = s.subrange(0, i);
    if long.contains(x) {
        let j = choose|j: int| 0 <= j < long.len() && #[trigger] long[j] == x;
        if j < i {
            assert(short[j] == x);
        }
    }
    if short.contains(x) {
        let j = choose|j: int| 0 <= j < short.len() && #[trigger] short[j] == x;
        assert(long[j] == x);
    }
    assert(long[i] == s[i]);
}

/// Whether `k` is one of `keys`.
pub fn contains_key(keys: &Vec<StorageKey>, k: &StorageKey) -> (r: bool)
    ensures
        r == keys@.contains(*k),
{
    let mut i: usize = 0;
    while i < keys.len()
        invariant
            i <= keys.len(),
            forall|j: int| 0 <= j < i ==> keys@[j] != *k,
        decreases keys.len() - i,
    {
        if same_key(&keys[i], k) {
            return true;
        }
        i = i + 1;
    }
    false
}

} // verus!
