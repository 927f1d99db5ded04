use atomic_hooks::{
    atom, reaction, resolve_content_key, return_key_for_type_and_insert_if_required, Atom,
    CallSite, CloneReactiveState, Observable, ObserveChangeReactiveState, ReactiveContext,
    Reaction, Recompute, StorageKey, Store,
};

const A: u64 = 1;
const B: u64 = 2;
const C: u64 = 3;
const SUB: u64 = 4;
const COUNT: u64 = 5;
const PREV: u64 = 6;
const LAST: u64 = 7;

#[derive(Clone, Copy, Debug)]
enum Body {
    Zero,
    ABSubtraction,
    CountAUpdates,
}

fn key(site: u64) -> StorageKey {
    resolve_content_key(CallSite::at(site), &vec![])
}

impl Recompute<i32> for Body {
    fn run(&self, store: &mut Store<i32, Body>, cx: &mut ReactiveContext) -> i32 {
        match self {
            Body::Zero => 0,
            Body::ABSubtraction => {
                let a = Atom::<i32>::new(key(A)).observe(store, cx);
                let b = Atom::<i32>::new(key(B)).observe(store, cx);
                a - b
            }
            Body::CountAUpdates => {
                let count = Reaction::<i32>::new(cx.key).soft_get(store).unwrap_or(0);
                Atom::<i32>::new(key(A)).on_update(store, cx, || count + 1).unwrap_or(count)
            }
        }
    }
}

fn declare_atom(store: &mut Store<i32, Body>, site: u64) -> Atom<i32> {
    let id = return_key_for_type_and_insert_if_required(store, CallSite::at(site), vec![]);
    atom(store, id, Body::Zero)
}

fn a(store: &mut Store<i32, Body>) -> Atom<i32> {
    declare_atom(store, A)
}

fn b(store: &mut Store<i32, Body>) -> Atom<i32> {
    declare_atom(store, B)
}

fn c(store: &mut Store<i32, Body>) -> Atom<i32> {
    declare_atom(store, C)
}

fn a_b_subtraction(store: &mut Store<i32, Body>) -> Reaction<i32> {
    a(store);
    b(store);
    let id = return_key_for_type_and_insert_if_required(store, CallSite::at(SUB), vec![]);
    reaction(store, id, Body::ABSubtraction)
}

fn count_print_when_update(store: &mut Store<i32, Body>) -> Reaction<i32> {
    a(store);
    let id = return_key_for_type_and_insert_if_required(store, CallSite::at(COUNT), vec![]);
    reaction(store, id, Body::CountAUpdates)
}

#[test]
fn test_set_atom() {
    let mut s = Store::new();
    let a = a(&mut s);
    assert_eq!(a.get(&s), 0, "we should get 0 as init value");
    a.set(&mut s, 8).unwrap();
    assert_eq!(a.get(&s), 8, "We should get 8 as new value inserted with set")
}

#[test]
fn atom_test_inert_set() {
    let mut s = Store::new();
    let a_b_subtraction = a_b_subtraction(&mut s);
    a(&mut s).set(&mut s, 0).unwrap();
    b(&mut s).set(&mut s, 0).unwrap();
    a(&mut s).inert_set(&mut s, 165);
    assert_eq!(
        a_b_subtraction.get(&s),
        0,
        "We should get 0 for subtraction because inert setting"
    );
    assert_eq!(a(&mut s).get(&s), 165, "We should get 165");
}

#[test]
fn atom_test_update() {
    let mut s = Store::new();
    a(&mut s).update(&mut s, |_| 40).unwrap();
    assert_eq!(a(&mut s).get(&s), 40, "We should get 40 as value for a");
}

#[test]
fn atom_test_get_with() {
    let mut s = Store::new();
    a(&mut s).set(&mut s, 3).unwrap();
    b(&mut s).set(&mut s, 5).unwrap();
    a(&mut s).get_with(&s, |v| assert_eq!(v, &3, "We should get 3"));
    b(&mut s).get_with(&s, |v| assert_eq!(v, &5, "We should get 5"));
}

#[test]
fn test_on_update() {
    let mut s = Store::new();
    let print = count_print_when_update(&mut s);
    a(&mut s).update(&mut s, |_| 32).unwrap();
    a(&mut s).set(&mut s, 2).unwrap();
    a(&mut s).set(&mut s, 25).unwrap();
    a(&mut s).set(&mut s, 1).unwrap();
    println!("{:?}", print.get(&s));
    assert_eq!(print.get(&s), 5)
}

#[test]
fn atom_test_delete() {
    let mut s = Store::new();
    let a = a(&mut s);
    a.delete(&mut s);
    assert_eq!(a.state_exists(&s), false, "The a state should not exist");
}

#[test]
fn test_reset_to_default() {
    let mut s = Store::new();
    a(&mut s).set(&mut s, 8).unwrap();
    assert_eq!(a(&mut s).get(&s), 8);
    a(&mut s).reset_to_default(&mut s).unwrap();
    assert_eq!(a(&mut s).get(&s), 0, "We should get 0 as it is init value");
}

#[test]
fn test_observe_on_atom() {
    let mut s = Store::new();
    let slot = key(PREV);
    let a = a(&mut s);
    let change = a.observe_change(&mut s, slot);
    println!("{:?}", change.0);
    println!("{:?}", change.1);
    assert_eq!(change.0.is_none(), true);
    assert_eq!(change.1, 0);
    a.set(&mut s, 1).unwrap();
    let change2 = a.observe_change(&mut s, slot);
    println!("{:?}", change2.0);
    println!("{:?}", change2.1);
    assert_eq!(change2.0.unwrap(), 0);
    assert_eq!(change2.1, 1);
}

#[test]
fn test_on_changes_on_atom() {
    let mut s = Store::new();
    let (prev_slot, last_slot) = (key(PREV), key(LAST));
    let a = a(&mut s);
    let mut previous = 99;
    let mut current = 99;
    a.on_change(&mut s, prev_slot, last_slot, |p, c| {
        previous = *p;
        current = *c;
    });
    assert_eq!(previous, 0);
    assert_eq!(current, 0);
    a.set(&mut s, 1).unwrap();
    a.on_change(&mut s, prev_slot, last_slot, |p, c| {
        previous = *p;
        current = *c;
    });
    assert_eq!(previous, 0);
    assert_eq!(current, 1);
    a.set(&mut s, 1).unwrap();
    a.on_change(&mut s, prev_slot, last_slot, |p, c| {
        previous = *p;
        current = *c;
    });
    assert_eq!(previous, 0);
    assert_eq!(current, 1);
    a.set(&mut s, 2).unwrap();
    a.on_change(&mut s, prev_slot, last_slot, |p, c| {
        previous = *p;
        current = *c;
    });
    assert_eq!(previous, 1, "we should get 1");
    assert_eq!(current, 2, "we should get 2");
}

#[test]
fn test_copy_atom() {
    let mut s = Store::new();
    let a = a(&mut s);
    a.set(&mut s, 8).unwrap();
    assert_eq!(a.get(&s), 8, "We should get 8 as value");
    let a_1 = a;
    assert_eq!(a_1.get(&s), 8, "We should get 8 as value on the copy as well")
}

#[test]
fn test_clone_atom() {
    let mut s = Store::new();
    let a = a(&mut s);
    a.set(&mut s, 8).unwrap();
    assert_eq!(a.get(&s), 8, "We should get 8 as value");
    let a_1 = a.clone();
    assert_eq!(a_1.get(&s), 8, "We should get 8 as value on the copy as well")
}

#[test]
fn unused_atom_keeps_its_initial_value() {
    let mut s = Store::new();
    let c = c(&mut s);
    a(&mut s).set(&mut s, 7).unwrap();
    assert_eq!(c.get(&s), 0);
    assert_eq!(c.soft_get(&s), Some(0));
}

#[test]
fn has_changed_compares_with_the_last_call() {
    let mut s = Store::new();
    let slot = key(PREV);
    let a = a(&mut s);
    assert!(!a.has_changed(&mut s, slot));
    a.set(&mut s, 2).unwrap();
    assert!(a.has_changed(&mut s, slot));
    assert!(!a.has_changed(&mut s, slot));
}
