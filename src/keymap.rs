use crate::key::{same_key, StorageKey};
use vstd::prelude::*;

verus! {

/// Where a key stands in a sequence of keys that holds it.
pub open spec fn position_of(keys: Seq<StorageKey>, k: StorageKey) -> int {
    choose|i: int| 0 <= i < keys.len() && keys[i] == k
}

proof fn lemma_position_of(keys: Seq<StorageKey>, i: int)
    requires
        keys.no_duplicates(),
        0 <= i < keys.len(),
    ensures
        position_of(keys, keys[i]) == i,
{
    let k = keys[i];
    assert(0 <= i < keys.len() && keys[i] == k);
    let j = position_of(keys, k);
    assert(0 <= j < keys.len() && keys[j] == k);
}

/// A table from keys to values, one value per key.
pub struct KeyMap<V> {
    keys: Vec<StorageKey>,
    vals: Vec<V>,
}

impl<V> KeyMap<V> {
    pub closed spec fn wf(&self) -> bool {
        &&& self.keys.len() == self.vals.len()
        &&& self.keys@.no_duplicates()
    }

    pub closed spec fn view(&self) -> Map<StorageKey, V> {
        Map::new(
            |k: StorageKey| self.keys@.contains(k),
            |k: StorageKey| self.vals@[position_of(self.keys@, k)],
        )
    }

    /// The keys, in the order in which they were first inserted.
    pub closed spec fn key_seq(&self) -> Seq<StorageKey> {
        self.keys@
    }

    pub proof fn lemma_keys(&self)
        requires
            self.wf(),
        ensures
            self.key_seq().no_duplicates(),
            forall|k: StorageKey| self@.contains_key(k) <==> self.key_seq().contains(k),
    {
    }

    pub fn new() -> (r: Self)
        ensures
            r.wf(),
            r@ == Map::<StorageKey, V>::empty(),
    {
        let r = KeyMap { keys: Vec::new(), vals: Vec::new() };
        assert(r@ =~= Map::<StorageKey, V>::empty());
        r
    }

    pub fn len(&self) -> (r: usize)
        requires
            self.wf(),
        ensures
            r == self.key_seq().len(),
    {
        self.keys.len()
    }

    /// The key at a position of the insertion order.
    pub fn key_at(&self, i: usize) -> (r: StorageKey)
        requires
            self.wf(),
            i < self.key_seq().len(),
        ensures
            r == self.key_seq()[i as int],
    {
        self.keys[i]
    }

    fn find(&self, k: &StorageKey) -> (r: Option<usize>)
        requires
            self.wf(),
        ensures
            r matches Some(i) ==> i < self.keys.len() && self.keys@[i as int] == *k,
            r is None ==> !self.keys@.contains(*k),
    {
        let mut i: usize = 0;
        while i < self.keys.len()
            invariant
                i <= self.keys.len(),
                forall|j: int| 0 <= j < i ==> self.keys@[j] != *k,
            decreases self.keys.len() - i,
        {
            if same_key(&self.keys[i], k) {
                return Some(i);
            }
            i = i + 1;
        }
        None
    }

    pub fn contains(&self, k: &StorageKey) -> (r: bool)
        requires
            self.wf(),
        ensures
            r == self@.contains_key(*k),
    {
        self.find(k).is_some()
    }

    pub fn get(&self, k: &StorageKey) -> (r: Option<&V>)
        requires
            self.wf(),
        ensures
            r == (if self@.contains_key(*k) {
                Some(&self@[*k])
            } else {
                None
            }),
    {
        match self.find(k) {
            Some(i) => {
                proof {
                    lemma_position_of(self.keys@, i as int);
                }
                Some(&self.vals[i])
            },
            None => None,
        }
    }

    pub fn insert(&mut self, k: StorageKey, v: V)
        requires
            old(self).wf(),
        ensures
            final(self).wf(),
            final(self)@ == old(self)@.insert(k, v),
            old(self)@.contains_key(k) ==> final(self).key_seq() == old(self).key_seq(),
            !old(self)@.contains_key(k) ==> final(self).key_seq() == old(self).key_seq().push(k),
    {
        match self.find(&k) {
            Some(i) => {
                self.vals.set(i, v);
                proof {
                    assert forall|x: StorageKey| #[trigger] self@.contains_key(x) implies self@[x]
                        == old(self)@.insert(k, v)[x] by {
                        let j = position_of(self.keys@, x);
                        lemma_position_of(self.keys@, j);
                    }
                    assert(self@ =~= old(self)@.insert(k, v));
                }
            },
            None => {
                self.keys.push(k);
                self.vals.push(v);
                proof {
                    assert forall|a: int, b: int|
                        0 <= a < b < self.keys.len() implies self.keys@[a] != self.keys@[b] by {
                        if b == self.keys.len() - 1 {
                            assert(old(self).keys@.contains(self.keys@[a]));
                        }
                    }
                    assert forall|x: StorageKey| #[trigger] self@.contains_key(x) implies self@[x]
                        == old(self)@.insert(k, v)[x] by {
                        let j = position_of(self.keys@, x);
                        lemma_position_of(self.keys@, j);
                        if x != k {
                            let j0 = position_of(old(self).keys@, x);
                            lemma_position_of(old(self).keys@, j0);
                            lemma_position_of(self.keys@, j0);
                        } else {
                            lemma_position_of(self.keys@, self.keys.len() - 1);
                        }
                    }
                    assert forall|x: StorageKey| #[trigger] self@.contains_key(x) <==> old(self)@.insert(
                        k,
                        v,
                    ).contains_key(x) by {
                        if x != k && self.keys@.contains(x) {
                            let a = choose|a: int| 0 <= a < self.keys.len() && self.keys@[a] == x;
                            assert(old(self).keys@[a] == x);
                        }
                        if old(self).keys@.contains(x) {
                            let a = choose|a: int| 0 <= a < old(self).keys.len() && old(self).keys@[a] == x;
                            assert(self.keys@[a] == x);
                        }
                        if x == k {
                            assert(self.keys@[self.keys.len() - 1] == k);
                        }
                    }
                    assert(self@ =~= old(self)@.insert(k, v));
                }
            },
        }
    }

    pub fn remove(&mut self, k: &StorageKey) -> (r: Option<V>)
        requires
            old(self).wf(),
        ensures
            final(self).wf(),
            final(self)@ == old(self)@.remove(*k),
            r == (if old(self)@.contains_key(*k) {
                Some(old(self)@[*k])
            } else {
                None
            }),
            final(self).key_seq().to_set() == old(self).key_seq().to_set().remove(*k),
    {
        match self.find(k) {
            Some(i) => {
                proof {
                    lemma_position_of(self.keys@, i as int);
                }
                self.keys.remove(i);
                let v = self.vals.remove(i);
                proof {
                    let ok = old(self).keys@;
                    assert forall|a: int, b: int|
                        0 <= a < b < self.keys.len() implies self.keys@[a] != self.keys@[b] by {
                        let a0 = if a < i { a } else { a + 1 };
                        let b0 = if b < i { b } else { b + 1 };
                        assert(self.keys@[a] == ok[a0]);
                        assert(self.keys@[b] == ok[b0]);
                    }
                    assert forall|x: StorageKey| self.keys@.contains(x) <==> ok.contains(x) && x
                        != *k by {
                        if self.keys@.contains(x) {
                            let a = choose|a: int| 0 <= a < self.keys.len() && self.keys@[a] == x;
                            let a0 = if a < i { a } else { a + 1 };
                            assert(ok[a0] == x);
                            assert(a0 != i);
                        }
                        if ok.contains(x) && x != *k {
                            let a0 = choose|a: int| 0 <= a < ok.len() && ok[a] == x;
                            assert(a0 != i);
                            let a = if a0 < i { a0 } else { a0 - 1 };
                            assert(self.keys@[a] == x);
                        }
                    }
                    assert forall|x: StorageKey| #[trigger] self@.contains_key(x) implies self@[x]
                        == old(self)@.remove(*k)[x] by {
                        let a = position_of(self.keys@, x);
                        lemma_position_of(self.keys@, a);
                        let a0 = if a < i { a } else { a + 1 };
                        assert(ok[a0] == x);
                        lemma_position_of(ok, a0);
                    }
                    assert(self@ =~= old(self)@.remove(*k));
                    assert(self.keys@.to_set() =~= ok.to_set().remove(*k));
                }
                Some(v)
            },
            None => {
                proof {
                    assert(self@ =~= old(self)@.remove(*k));
                    assert(self.keys@.to_set() =~= self.keys@.to_set().remove(*k));
                }
                None
            },
        }
    }
}

} // verus!
