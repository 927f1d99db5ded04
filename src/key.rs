use std::collections::hash_map::DefaultHasher;
use std::hash::{BuildHasher, BuildHasherDefault};
use vstd::prelude::*;

verus! {

/// The position of a call in topo's tree of nested calls, as topo identifies it.
#[verifier::external_type_specification]
#[verifier::external_body]
pub struct ExCallId(topo::CallId);

/// A value unique to the source location where it is created.
#[derive(Clone, Copy, Debug, PartialEq, Eq, Hash, Structural)]
pub struct CallSite {
    pub location: u64,
}

impl CallSite {
    /// A call site for the given source location.
    pub fn at(location: u64) -> (r: CallSite)
        ensures
            r.location == location,
    {
        CallSite { location }
    }
}

/// A key derived from the current position in the tree of nested calls.
#[derive(Clone, Copy, Debug, PartialEq, Eq, Hash)]
pub struct TopoKey {
    pub id: topo::CallId,
}

/// A key derived from the content hash of a call site and its arguments, with
/// a disambiguation slot.
#[derive(Clone, Copy, Debug, PartialEq, Eq, Hash, Structural)]
pub struct SlottedKey {
    pub location: u64,
    pub slot: u32,
}

/// The address of one entry of a store.
#[derive(Clone, Copy, Debug, PartialEq, Eq, Hash)]
pub enum StorageKey {
    TopoKey(TopoKey),
    SlottedKey(SlottedKey),
}

/// Relies on `topo::CallId::current`: the identity of the innermost call of
/// topo's call tree that is running now (the root when none is).
#[verifier::external_body]
fn current_call_id() -> (r: topo::CallId) {
    topo::CallId::current()
}

/// Relies on the `PartialEq` that `topo::CallId` derives: two ids compare
/// equal exactly when they are the same id.
#[verifier::external_body]
fn same_call_id(a: &topo::CallId, b: &topo::CallId) -> (r: bool)
    ensures
        r == (*a == *b),
{
    *a == *b
}

/// The identity of the position in topo's call tree that is running now.
#[derive(Clone, Copy, Debug, PartialEq, Eq, Hash)]
pub struct Local(pub topo::CallId);

impl Local {
    pub fn new() -> (r: Local) {
        Local(current_call_id())
    }
}

/// Whether two keys address the same entry.
pub fn same_key(a: &StorageKey, b: &StorageKey) -> (r: bool)
    ensures
        r == (*a == *b),
{
    match (a, b) {
        (StorageKey::TopoKey(x), StorageKey::TopoKey(y)) => same_call_id(&x.id, &y.id),
        (StorageKey::SlottedKey(x), StorageKey::SlottedKey(y)) => x.location == y.location
            && x.slot == y.slot,
        _ => false,
    }
}

/// The positional key of the call that is running now.
pub fn resolve_positional_key() -> (r: StorageKey)
    ensures
        r is TopoKey,
{
    StorageKey::TopoKey(TopoKey { id: current_call_id() })
}

/// The 64-bit hash that std's `DefaultHasher` gives a sequence of words.
pub uninterp spec fn default_hash_of(words: Seq<u64>) -> u64;

/// Relies on `BuildHasher::hash_one` with `BuildHasherDefault<DefaultHasher>`:
/// every hasher it builds is `DefaultHasher::new()`, which always starts from
/// the same state, so the same words always hash to the same value.
#[verifier::external_body]
fn hash_words(words: &Vec<u64>) -> (r: u64)
    ensures
        r == default_hash_of(words@),
{
    BuildHasherDefault::<DefaultHasher>::default().hash_one(words)
}

/// The words that identify a call site together with its arguments.
pub open spec fn content_words(call_site: CallSite, args: Seq<u64>) -> Seq<u64> {
    seq![call_site.location].add(args)
}

/// The content key of a call site and its arguments: their hash, in slot 0.
pub open spec fn content_key(call_site: CallSite, args: Seq<u64>) -> StorageKey {
    StorageKey::SlottedKey(
        SlottedKey { location: default_hash_of(content_words(call_site, args)), slot: 0 },
    )
}

/// The content key of a call site and its arguments.
pub fn resolve_content_key(call_site: CallSite, args: &Vec<u64>) -> (r: StorageKey)
    ensures
        r == content_key(call_site, args@),
{
    let mut words: Vec<u64> = Vec::new();
    words.push(call_site.location);
    let mut i: usize = 0;
    while i < args.len()
        invariant
            i <= args.len(),
            words@ == seq![call_site.location].add(args@.subrange(0, i as int)),
        decreases args.len() - i,
    {
        words.push(args[i]);
        i = i + 1;
        proof {
            assert(words@ =~= seq![call_site.location].add(args@.subrange(0, i as int)));
        }
    }
    proof {
        assert(args@.subrange(0, args.len() as int) =~= args@);
    }
    let h = hash_words(&words);
    StorageKey::SlottedKey(SlottedKey { location: h, slot: 0 })
}

} // verus!
