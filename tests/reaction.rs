use atomic_hooks::{
    atom, atom_reverse, global_reverse_queue, reaction, resolve_content_key,
    return_key_for_type_and_insert_if_required, Atom, CallSite, CloneReactiveState, GlobalUndo,
    Observable, ObserveChangeReactiveState, ReactiveContext, Reaction, Recompute, ReversibleAtom,
    StorageKey, Store,
};

const A: u64 = 11;
const B: u64 = 12;
const A_REV: u64 = 13;
const B_REV: u64 = 14;
const SUB: u64 = 15;
const REV_SUB: u64 = 16;
const PREV: u64 = 17;
const LAST: u64 = 18;

#[derive(Clone, Copy, Debug)]
enum Body {
    Zero,
    Difference(u64, u64),
}

fn key(site: u64) -> StorageKey {
    resolve_content_key(CallSite::at(site), &vec![])
}

impl Recompute<i32> for Body {
    fn run(&self, store: &mut Store<i32, Body>, cx: &mut ReactiveContext) -> i32 {
        match self {
            Body::Zero => 0,
            Body::Difference(x, y) => {
                let a = Atom::<i32>::new(key(*x)).observe(store, cx);
                let b = Atom::<i32>::new(key(*y)).observe(store, cx);
                a - b
            }
        }
    }
}

fn declare_atom(store: &mut Store<i32, Body>, site: u64) -> Atom<i32> {
    let id = return_key_for_type_and_insert_if_required(store, CallSite::at(site), vec![]);
    atom(store, id, Body::Zero)
}

fn declare_reversible(store: &mut Store<i32, Body>, site: u64) -> ReversibleAtom<i32> {
    let id = return_key_for_type_and_insert_if_required(store, CallSite::at(site), vec![]);
    atom_reverse(store, id, Body::Zero)
}

fn a(store: &mut Store<i32, Body>) -> Atom<i32> {
    declare_atom(store, A)
}

fn b(store: &mut Store<i32, Body>) -> Atom<i32> {
    declare_atom(store, B)
}

fn a_reversible(store: &mut Store<i32, Body>) -> ReversibleAtom<i32> {
    declare_reversible(store, A_REV)
}

fn b_reversible(store: &mut Store<i32, Body>) -> ReversibleAtom<i32> {
    declare_reversible(store, B_REV)
}

fn a_b_subtraction(store: &mut Store<i32, Body>) -> Reaction<i32> {
    a(store);
    b(store);
    let id = return_key_for_type_and_insert_if_required(store, CallSite::at(SUB), vec![]);
    reaction(store, id, Body::Difference(A, B))
}

fn a_b_reversible_subtraction(store: &mut Store<i32, Body>) -> Reaction<i32> {
    a_reversible(store);
    b_reversible(store);
    let id = return_key_for_type_and_insert_if_required(store, CallSite::at(REV_SUB), vec![]);
    reaction(store, id, Body::Difference(A_REV, B_REV))
}

#[test]
fn test_on_changes_on_reaction() {
    let mut s = Store::new();
    let (prev_slot, last_slot) = (key(PREV), key(LAST));
    let a_b_subtraction = a_b_subtraction(&mut s);
    let mut previous = 99;
    let mut current = 99;
    a_b_subtraction.on_change(&mut s, prev_slot, last_slot, |p, c| {
        previous = *p;
        current = *c;
    });
    assert_eq!(previous, 0);
    assert_eq!(current, 0);
    a(&mut s).set(&mut s, 1).unwrap();
    a_b_subtraction.on_change(&mut s, prev_slot, last_slot, |p, c| {
        previous = *p;
        current = *c;
    });
    assert_eq!(previous, 0);
    assert_eq!(current, 1);
    a(&mut s).set(&mut s, 2).unwrap();
    a_b_subtraction.on_change(&mut s, prev_slot, last_slot, |p, c| {
        previous = *p;
        current = *c;
    });
    assert_eq!(previous, 1);
    assert_eq!(current, 2);
}

#[test]
fn reaction_test_get_with() {
    let mut s = Store::new();
    let a_b_reversible_subtraction = a_b_reversible_subtraction(&mut s);
    a_reversible(&mut s).set(&mut s, 3).unwrap();
    b_reversible(&mut s).set(&mut s, 5).unwrap();
    a_reversible(&mut s).get_with(&s, |v| assert_eq!(v, &3, "We should get 3"));
    b_reversible(&mut s).get_with(&s, |v| assert_eq!(v, &5, "We should get 5"));
    a_b_reversible_subtraction.get_with(&s, |v| assert_eq!(v, &-2, "We should get -2"));
}

#[test]
fn reaction_test_inert_set() {
    let mut s = Store::new();
    a_reversible(&mut s).inert_set(&mut s, 155);
    assert_eq!(a_reversible(&mut s).get(&s), 155, "We should get 155");
    let a_b_subtraction = a_b_subtraction(&mut s);
    a(&mut s).set(&mut s, 0).unwrap();
    b(&mut s).set(&mut s, 0).unwrap();
    a(&mut s).inert_set(&mut s, 165);
    assert_eq!(
        a_b_subtraction.get(&s),
        0,
        "We should get 0 for subtraction because inert setting"
    );
    assert_eq!(a(&mut s).get(&s), 165, "We should get 165");
}

#[test]
fn reaction_test_delete() {
    let mut s = Store::new();
    let subtraction_reaction = a_b_subtraction(&mut s);
    subtraction_reaction.delete(&mut s);
    assert_eq!(
        subtraction_reaction.state_exists(&s),
        false,
        "The state  a_b_subtraction should not exist"
    );
}

#[test]
fn test_reaction() {
    let mut s = Store::new();
    let a_b_subtraction = a_b_subtraction(&mut s);
    a(&mut s).set(&mut s, 0).unwrap();
    b(&mut s).set(&mut s, 0).unwrap();
    a(&mut s).update(&mut s, |_| 40).unwrap();
    assert_eq!(a(&mut s).get(&s), 40, "We should get 40 as value for a");
    assert_eq!(
        a_b_subtraction.get(&s),
        40,
        "We should get 40 for subtraction because setting"
    );
    b(&mut s).set(&mut s, 10).unwrap();
    assert_eq!(
        a_b_subtraction.get(&s),
        30,
        "We should get 40 for subtraction because setting"
    );
    b(&mut s).inert_set(&mut s, 0);
    assert_eq!(
        a_b_subtraction.get(&s),
        30,
        "We should get 30 for subtraction because setting inert"
    );
    b(&mut s).set(&mut s, 20).unwrap();
    assert_eq!(
        a_b_subtraction.get(&s),
        20,
        "We should get 20 for subtraction because setting"
    );
}

#[test]
fn test_reversible_reaction() {
    let mut s = Store::new();
    let a_b_reversible_subtraction = a_b_reversible_subtraction(&mut s);
    a_reversible(&mut s).set(&mut s, 0).unwrap();
    b_reversible(&mut s).set(&mut s, 0).unwrap();
    a_reversible(&mut s).update(&mut s, |_| 40).unwrap();
    assert_eq!(a_reversible(&mut s).get(&s), 40, "We should get 40 as value for a");
    assert_eq!(
        a_b_reversible_subtraction.get(&s),
        40,
        "We should get 40 for subtraction because setting"
    );
    global_reverse_queue().travel_backwards(&mut s).unwrap();
    assert_eq!(
        a_reversible(&mut s).get(&s),
        0,
        "We should get 0 on a because back in time"
    );
    assert_eq!(
        a_b_reversible_subtraction.get(&s),
        0,
        "We should get 0 as result for subtraction because back in time"
    );
    b_reversible(&mut s).inert_set(&mut s, 0);
    assert_eq!(
        a_b_reversible_subtraction.get(&s),
        0,
        "We should get 0 for subtraction because setting inert"
    );
    a_reversible(&mut s).set(&mut s, 20).unwrap();
    assert_eq!(
        a_b_reversible_subtraction.get(&s),
        20,
        "We should get 20 for subtraction because setting"
    );
}
