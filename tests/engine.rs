use atomic_hooks::{
    atom, atom_reverse, clone_reactive_state_with_id, execute_reaction_nodes,
    global_reverse_queue, reaction, reaction_start_suspended, reactive_state_exists_for_id,
    read_reactive_state_with_id, remove_reactive_reversible_state_with_id,
    remove_reactive_state_with_id, resolve_content_key, resolve_positional_key,
    return_key_for_type_and_insert_if_required, same_key, set_atom_reversible_state_with_id,
    set_atom_state_with_id, set_inert_atom_reversible_state_with_id,
    set_inert_atom_state_with_id, try_read_reactive_state_with_id, unlink_dead_links,
    update_atom_reversible_state_with_id, update_atom_state_with_id, Atom, CallSite,
    CloneReactiveState, GlobalUndo, Local, Observable, PropagationError, ReactiveContext, Reaction,
    Recompute, StorageKey, Store, UndoError,
};

#[derive(Clone, Copy, Debug)]
enum Body {
    Seven,
    /// Counts its own recomputes, reading the entry at the given site.
    CountReading(u64),
    /// Counts its own recomputes, reading the entries at both sites.
    CountReadingBoth(u64, u64),
    /// Counts its own recomputes; reads the first site, and the second one
    /// only while the first is not zero.
    CountReadingWhen(u64, u64),
    /// Reads itself.
    Loop(u64),
}

fn key(site: u64) -> StorageKey {
    resolve_content_key(CallSite::at(site), &vec![])
}

fn own_count(store: &Store<i64, Body>, cx: &ReactiveContext) -> i64 {
    Reaction::<i64>::new(cx.key).soft_get(store).unwrap_or(0)
}

impl Recompute<i64> for Body {
    fn run(&self, store: &mut Store<i64, Body>, cx: &mut ReactiveContext) -> i64 {
        match self {
            Body::Seven => 7,
            Body::CountReading(x) => {
                Atom::<i64>::new(key(*x)).observe(store, cx);
                own_count(store, cx) + 1
            }
            Body::CountReadingBoth(x, y) => {
                Atom::<i64>::new(key(*x)).observe(store, cx);
                Atom::<i64>::new(key(*y)).observe(store, cx);
                own_count(store, cx) + 1
            }
            Body::CountReadingWhen(x, y) => {
                if Atom::<i64>::new(key(*x)).observe(store, cx) != 0 {
                    Atom::<i64>::new(key(*y)).observe(store, cx);
                }
                own_count(store, cx) + 1
            }
            Body::Loop(x) => {
                Atom::<i64>::new(key(*x)).observe(store, cx);
                cx.record(cx.key);
                own_count(store, cx) + 1
            }
        }
    }
}

fn declare_atom(store: &mut Store<i64, Body>, site: u64) -> Atom<i64> {
    let id = return_key_for_type_and_insert_if_required(store, CallSite::at(site), vec![]);
    atom(store, id, Body::Seven)
}

fn declare_reaction(store: &mut Store<i64, Body>, site: u64, body: Body) -> Reaction<i64> {
    let id = return_key_for_type_and_insert_if_required(store, CallSite::at(site), vec![]);
    reaction(store, id, body)
}

#[test]
fn chain_recomputes_each_reaction_once() {
    let mut s = Store::new();
    let a = declare_atom(&mut s, 1);
    let r1 = declare_reaction(&mut s, 2, Body::CountReading(1));
    let r2 = declare_reaction(&mut s, 3, Body::CountReading(2));
    assert_eq!((r1.get(&s), r2.get(&s)), (1, 1));
    a.set(&mut s, 5).unwrap();
    assert_eq!((r1.get(&s), r2.get(&s)), (2, 2));
}

#[test]
fn diamond_recomputes_the_join_twice() {
    let mut s = Store::new();
    let a = declare_atom(&mut s, 1);
    let r1 = declare_reaction(&mut s, 2, Body::CountReading(1));
    let r2 = declare_reaction(&mut s, 3, Body::CountReading(1));
    let r3 = declare_reaction(&mut s, 4, Body::CountReadingBoth(2, 3));
    a.set(&mut s, 5).unwrap();
    assert_eq!((r1.get(&s), r2.get(&s)), (2, 2));
    assert_eq!(r3.get(&s), 3);
}

#[test]
fn inert_write_recomputes_nothing() {
    let mut s = Store::new();
    let a = declare_atom(&mut s, 1);
    let r = declare_reaction(&mut s, 2, Body::CountReading(1));
    a.inert_set(&mut s, 100);
    assert_eq!(r.get(&s), 1);
    assert_eq!(a.get(&s), 100);
    set_inert_atom_state_with_id(&mut s, 3, a.id);
    assert_eq!(r.get(&s), 1);
    set_atom_state_with_id(&mut s, 4, a.id).unwrap();
    assert_eq!(r.get(&s), 2);
}

#[test]
fn unread_entry_no_longer_triggers_reaction() {
    let mut s = Store::new();
    let flag = declare_atom(&mut s, 1);
    let b = declare_atom(&mut s, 2);
    let r = declare_reaction(&mut s, 3, Body::CountReadingWhen(1, 2));
    b.set(&mut s, 1).unwrap();
    assert_eq!(r.get(&s), 2);
    flag.set(&mut s, 0).unwrap();
    assert_eq!(r.get(&s), 3);
    b.set(&mut s, 2).unwrap();
    assert_eq!(r.get(&s), 3);
    flag.set(&mut s, 1).unwrap();
    assert_eq!(r.get(&s), 4);
    b.set(&mut s, 3).unwrap();
    assert_eq!(r.get(&s), 5);
}

#[test]
fn undo_then_redo_round_trip() {
    let mut s = Store::new();
    let id = key(1);
    let k = atom_reverse(&mut s, id, Body::Seven);
    let q = global_reverse_queue();
    k.set(&mut s, 1).unwrap();
    k.set(&mut s, 2).unwrap();
    k.set(&mut s, 3).unwrap();
    for _ in 0..3 {
        q.travel_backwards(&mut s).unwrap();
    }
    assert_eq!(k.get(&s), 7);
    for _ in 0..3 {
        q.travel_forwards(&mut s).unwrap();
    }
    assert_eq!(k.get(&s), 3);
    q.travel_forwards(&mut s).unwrap();
    assert_eq!(k.get(&s), 3);
}

#[test]
fn travel_to_cursor_matches_single_steps() {
    let mut s = Store::new();
    let k = atom_reverse(&mut s, key(1), Body::Seven);
    let q = global_reverse_queue();
    for v in [1, 2, 3, 4] {
        k.set(&mut s, v).unwrap();
    }
    assert_eq!(q.len(&s), 5);
    q.travel_to_cursor(&mut s, 3).unwrap();
    assert_eq!(k.get(&s), 2);
    q.travel_to_cursor(&mut s, 4).unwrap();
    assert_eq!(k.get(&s), 3);
    q.travel_to_cursor(&mut s, 2).unwrap();
    assert_eq!(k.get(&s), 1);
    q.travel_to_cursor(&mut s, 1).unwrap();
    assert_eq!(k.get(&s), 7);
}

#[test]
fn travel_to_cursor_rejects_the_bounds() {
    let mut s = Store::new();
    let k = atom_reverse(&mut s, key(1), Body::Seven);
    let q = global_reverse_queue();
    k.set(&mut s, 1).unwrap();
    k.set(&mut s, 2).unwrap();
    assert_eq!(q.travel_to_cursor(&mut s, 0), Err(UndoError::CursorOutOfRange));
    assert_eq!(q.travel_to_cursor(&mut s, 3), Err(UndoError::CursorOutOfRange));
    assert_eq!(k.get(&s), 2);
}

#[test]
fn write_after_undo_drops_the_redo_branch() {
    let mut s = Store::new();
    let k = atom_reverse(&mut s, key(1), Body::Seven);
    let q = global_reverse_queue();
    k.set(&mut s, 1).unwrap();
    k.set(&mut s, 2).unwrap();
    q.travel_backwards(&mut s).unwrap();
    assert_eq!(k.get(&s), 1);
    k.set(&mut s, 5).unwrap();
    assert_eq!(q.len(&s), 3);
    q.travel_forwards(&mut s).unwrap();
    assert_eq!(k.get(&s), 5);
    q.travel_backwards(&mut s).unwrap();
    assert_eq!(k.get(&s), 1);
}

#[test]
fn undo_reaches_dependents() {
    let mut s = Store::new();
    let k = atom_reverse(&mut s, key(1), Body::Seven);
    let r = declare_reaction(&mut s, 2, Body::CountReading(1));
    k.set(&mut s, 1).unwrap();
    assert_eq!(r.get(&s), 2);
    global_reverse_queue().travel_backwards(&mut s).unwrap();
    assert_eq!(k.get(&s), 7);
    assert_eq!(r.get(&s), 3);
}

#[test]
fn dependency_cycle_is_reported() {
    let mut s = Store::new();
    let a = declare_atom(&mut s, 1);
    declare_reaction(&mut s, 2, Body::Loop(1));
    assert_eq!(a.set(&mut s, 2), Err(PropagationError::DependencyCycle));
}

#[test]
fn content_keys_are_deterministic() {
    let first = resolve_content_key(CallSite::at(9), &vec![1, 2]);
    let again = resolve_content_key(CallSite::at(9), &vec![1, 2]);
    let other = resolve_content_key(CallSite::at(9), &vec![2, 1]);
    assert!(same_key(&first, &again));
    assert!(!same_key(&first, &other));
    match first {
        StorageKey::SlottedKey(k) => {
            assert_eq!(k.slot, 0);
            assert_ne!(k.location, 9);
        }
        StorageKey::TopoKey(_) => panic!("a content key is slotted"),
    }
}

#[test]
fn content_key_keeps_its_arguments() {
    let mut s: Store<i64, Body> = Store::new();
    let k1 = return_key_for_type_and_insert_if_required(&mut s, CallSite::at(9), vec![4]);
    let k2 = return_key_for_type_and_insert_if_required(&mut s, CallSite::at(9), vec![4]);
    assert!(same_key(&k1, &k2));
    assert!(same_key(&k1, &resolve_content_key(CallSite::at(9), &vec![4])));
}

#[test]
fn positional_keys_match_at_one_position() {
    let p1 = resolve_positional_key();
    let p2 = resolve_positional_key();
    assert!(same_key(&p1, &p2));
    assert!(!same_key(&p1, &key(1)));
}

#[test]
fn reads_and_removals() {
    let mut s: Store<i64, Body> = Store::new();
    let id = key(1);
    assert_eq!(clone_reactive_state_with_id(&s, id), None);
    assert_eq!(try_read_reactive_state_with_id(&s, id, |v| *v + 1), None);
    assert!(!reactive_state_exists_for_id(&s, id));
    set_inert_atom_state_with_id(&mut s, 41, id);
    assert_eq!(read_reactive_state_with_id(&s, id, |v| *v + 1), 42);
    assert_eq!(try_read_reactive_state_with_id(&s, id, |v| *v + 1), Some(42));
    update_atom_state_with_id(&mut s, id, |v| v * 2).unwrap();
    assert_eq!(clone_reactive_state_with_id(&s, id), Some(82));
    assert_eq!(remove_reactive_state_with_id(&mut s, id), Some(82));
    assert_eq!(remove_reactive_state_with_id(&mut s, id), None);
}

#[test]
fn suspended_reaction_waits_for_a_trigger() {
    let mut s = Store::new();
    declare_atom(&mut s, 1);
    let id = key(2);
    let r = reaction_start_suspended(&mut s, id, Body::CountReading(1));
    assert!(!r.state_exists(&s));
    r.force_trigger(&mut s);
    assert_eq!(r.get(&s), 1);
    declare_atom(&mut s, 1).set(&mut s, 3).unwrap();
    assert_eq!(r.get(&s), 2);
}

#[test]
fn settling_a_context_replaces_what_it_read() {
    let mut s = Store::new();
    let a = declare_atom(&mut s, 1);
    let r = declare_reaction(&mut s, 2, Body::CountReading(1));
    unlink_dead_links(&mut s, ReactiveContext::new(r.id));
    a.set(&mut s, 9).unwrap();
    assert_eq!(r.get(&s), 1);
    execute_reaction_nodes(&mut s, &a.id).unwrap();
    assert_eq!(r.get(&s), 1);
}

#[test]
fn reversible_writes_and_removals() {
    let mut s: Store<i64, Body> = Store::new();
    let id = key(1);
    let q = global_reverse_queue();
    set_inert_atom_reversible_state_with_id(&mut s, 1, id);
    assert_eq!(q.len(&s), 1);
    set_inert_atom_reversible_state_with_id(&mut s, 2, id);
    assert_eq!(q.len(&s), 2);
    set_atom_reversible_state_with_id(&mut s, 3, id).unwrap();
    update_atom_reversible_state_with_id(&mut s, id, |v| v + 10).unwrap();
    assert_eq!(clone_reactive_state_with_id(&s, id), Some(13));
    assert_eq!(remove_reactive_reversible_state_with_id(&mut s, id), Some(13));
    assert_eq!(q.len(&s), 5);
    q.travel_backwards(&mut s).unwrap();
    assert_eq!(clone_reactive_state_with_id(&s, id), Some(13));
    q.travel_backwards(&mut s).unwrap();
    assert_eq!(clone_reactive_state_with_id(&s, id), Some(3));
    q.travel_backwards(&mut s).unwrap();
    assert_eq!(clone_reactive_state_with_id(&s, id), Some(2));
    q.travel_backwards(&mut s).unwrap();
    assert_eq!(clone_reactive_state_with_id(&s, id), Some(1));
    q.travel_backwards(&mut s).unwrap();
    assert!(!reactive_state_exists_for_id(&s, id));
}

#[test]
fn first_reversible_write_undoes_to_absence() {
    let mut s: Store<i64, Body> = Store::new();
    let id = key(1);
    set_atom_reversible_state_with_id(&mut s, 5, id).unwrap();
    global_reverse_queue().travel_backwards(&mut s).unwrap();
    assert!(!reactive_state_exists_for_id(&s, id));
    global_reverse_queue().travel_forwards(&mut s).unwrap();
    assert_eq!(clone_reactive_state_with_id(&s, id), Some(5));
}

#[test]
fn purge_drops_an_entry_and_its_edges() {
    let mut s = Store::new();
    let a = declare_atom(&mut s, 1);
    let r = declare_reaction(&mut s, 2, Body::CountReading(1));
    let keys = s.stored_keys();
    assert_eq!(keys.len(), 2);
    assert!(keys.iter().any(|k| same_key(k, &a.id)));
    s.purge(&r.id);
    assert!(!r.state_exists(&s));
    assert_eq!(s.stored_keys().len(), 1);
    assert_eq!(a.set(&mut s, 4), Ok(()));
    assert!(!r.state_exists(&s));
}

#[test]
fn local_identity_is_stable_at_one_position() {
    assert_eq!(Local::new(), Local::new());
}

#[test]
fn creation_is_undoable() {
    let mut s = Store::new();
    let k = atom_reverse(&mut s, key(1), Body::Seven);
    let q = global_reverse_queue();
    assert_eq!(q.len(&s), 1);
    q.travel_backwards(&mut s).unwrap();
    assert!(!k.state_exists(&s));
    q.travel_forwards(&mut s).unwrap();
    assert_eq!(k.get(&s), 7);
    k.set(&mut s, 2).unwrap();
    assert_eq!(q.len(&s), 2);
}

#[test]
fn reaction_update_hook_skips_the_first_call() {
    let mut s = Store::new();
    declare_atom(&mut s, 1);
    let r = declare_reaction(&mut s, 2, Body::CountReading(1));
    let slot = key(50);
    let reader = declare_reaction(&mut s, 3, Body::Seven);
    let mut cx = ReactiveContext::new(reader.id);
    assert_eq!(r.on_update(&mut s, &mut cx, slot, || 10), None);
    assert_eq!(r.on_update(&mut s, &mut cx, slot, || 10), Some(10));
    assert!(r.has_updated(&mut s, &mut cx, slot));
    assert!(!r.has_updated(&mut s, &mut cx, key(51)));
    assert_eq!(cx.reactive_state_accessors.len(), 4);
}
