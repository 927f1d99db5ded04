use atomic_hooks::{
    atom_reverse, global_reverse_queue, reaction, resolve_content_key,
    return_key_for_type_and_insert_if_required, CallSite, CloneReactiveState, GlobalUndo,
    Observable, ReactiveContext, Reaction, Recompute, ReversibleAtom, StorageKey, Store,
};

const A_REV: u64 = 21;
const B_REV: u64 = 22;
const REV_SUB: u64 = 23;

#[derive(Clone, Copy, Debug)]
enum Body {
    Zero,
    ABSubtraction,
}

fn key(site: u64) -> StorageKey {
    resolve_content_key(CallSite::at(site), &vec![])
}

impl Recompute<i32> for Body {
    fn run(&self, store: &mut Store<i32, Body>, cx: &mut ReactiveContext) -> i32 {
        match self {
            Body::Zero => 0,
            Body::ABSubtraction => {
                let a = ReversibleAtom::<i32>::new(key(A_REV)).observe(store, cx);
                let b = ReversibleAtom::<i32>::new(key(B_REV)).observe(store, cx);
                a - b
            }
        }
    }
}

fn declare_reversible(store: &mut Store<i32, Body>, site: u64) -> ReversibleAtom<i32> {
    let id = return_key_for_type_and_insert_if_required(store, CallSite::at(site), vec![]);
    atom_reverse(store, id, Body::Zero)
}

fn a_reversible(store: &mut Store<i32, Body>) -> ReversibleAtom<i32> {
    declare_reversible(store, A_REV)
}

fn b_reversible(store: &mut Store<i32, Body>) -> ReversibleAtom<i32> {
    declare_reversible(store, B_REV)
}

fn a_b_reversible_subtraction(store: &mut Store<i32, Body>) -> Reaction<i32> {
    a_reversible(store);
    b_reversible(store);
    let id = return_key_for_type_and_insert_if_required(store, CallSite::at(REV_SUB), vec![]);
    reaction(store, id, Body::ABSubtraction)
}

#[test]
fn reversible_atom_test_get_with() {
    let mut s = Store::new();
    a_reversible(&mut s).set(&mut s, 3).unwrap();
    b_reversible(&mut s).set(&mut s, 5).unwrap();
    a_reversible(&mut s).get_with(&s, |v| assert_eq!(v, &3, "We should get 3"));
    b_reversible(&mut s).get_with(&s, |v| assert_eq!(v, &5, "We should get 5"));
}

#[test]
fn test_undo() {
    let mut s = Store::new();
    b_reversible(&mut s);
    a_reversible(&mut s).set(&mut s, 3).unwrap();
    a_reversible(&mut s).set(&mut s, 5).unwrap();
    b_reversible(&mut s).set(&mut s, 10).unwrap();
    a_reversible(&mut s).set(&mut s, 4).unwrap();
    assert_eq!(a_reversible(&mut s).get(&s), 4, "We should get 4 as value for a");
    global_reverse_queue().travel_backwards(&mut s).unwrap();
    assert_eq!(b_reversible(&mut s).get(&s), 10, "We should get 10 as value for b");
    global_reverse_queue().travel_backwards(&mut s).unwrap();
    assert_eq!(a_reversible(&mut s).get(&s), 5, "We should get 5 as value for a");
    global_reverse_queue().travel_backwards(&mut s).unwrap();
    assert_eq!(a_reversible(&mut s).get(&s), 3, "We should get 3 as value for a");
    global_reverse_queue().travel_backwards(&mut s).unwrap();
    assert_eq!(a_reversible(&mut s).get(&s), 0, "We should get 0 as value for a");
}

#[test]
fn reversible_atom_test_update() {
    let mut s = Store::new();
    a_reversible(&mut s).set(&mut s, 10).unwrap();
    b_reversible(&mut s).set(&mut s, 10).unwrap();
    a_reversible(&mut s).update(&mut s, |_| 45).unwrap();
    assert_eq!(a_reversible(&mut s).get(&s), 45, "We should get 45 as value for a");
}

#[test]
fn reversible_atom_test_inert_set() {
    let mut s = Store::new();
    let a_b_reversible_subtraction = a_b_reversible_subtraction(&mut s);
    a_reversible(&mut s).inert_set(&mut s, 155);
    assert_eq!(a_reversible(&mut s).get(&s), 155, "We should get 155");
    assert_eq!(
        a_b_reversible_subtraction.get(&s),
        0,
        "We should get 0 since a & b are set to 0"
    );
}

#[test]
fn reversible_atom_test_delete() {
    let mut s = Store::new();
    let a = a_reversible(&mut s);
    a.delete(&mut s);
    assert_eq!(
        a.state_exists(&s),
        false,
        "The state  a_reversible should not exist"
    );
}
