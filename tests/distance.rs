use atomic_hooks::{
    atom_reverse, reaction, resolve_content_key, return_key_for_type_and_insert_if_required,
    CallSite, CloneReactiveState, Observable, ReactiveContext, Reaction, Recompute,
    ReversibleAtom, StorageKey, Store,
};

const A_POS: u64 = 31;
const B_POS: u64 = 32;
const DISTANCE: u64 = 33;

#[derive(Clone, Copy, Debug)]
enum Val {
    Pos(f64, f64),
    Len(f64),
}

impl Val {
    fn pos(self) -> (f64, f64) {
        match self {
            Val::Pos(x, y) => (x, y),
            Val::Len(_) => panic!("not a position"),
        }
    }

    fn len(self) -> f64 {
        match self {
            Val::Len(l) => l,
            Val::Pos(..) => panic!("not a length"),
        }
    }
}

impl Val {
    fn describe(self) -> String {
        match self {
            Val::Pos(x, y) => format!("({},{})", x, y),
            Val::Len(l) => format!("{}", l),
        }
    }
}

#[derive(Clone, Copy, Debug)]
enum Body {
    Origin,
    Distance,
}

fn key(site: u64) -> StorageKey {
    resolve_content_key(CallSite::at(site), &vec![])
}

impl Recompute<Val> for Body {
    fn run(&self, store: &mut Store<Val, Body>, cx: &mut ReactiveContext) -> Val {
        match self {
            Body::Origin => Val::Pos(0., 0.),
            Body::Distance => {
                let a = ReversibleAtom::<Val>::new(key(A_POS)).observe(store, cx).pos();
                let b = ReversibleAtom::<Val>::new(key(B_POS)).observe(store, cx).pos();
                Val::Len(((a.0 - b.0).powi(2) + (a.1 - b.1).powi(2)).sqrt())
            }
        }
    }
}

fn declare_pos(store: &mut Store<Val, Body>, site: u64) -> ReversibleAtom<Val> {
    let id = return_key_for_type_and_insert_if_required(store, CallSite::at(site), vec![]);
    atom_reverse(store, id, Body::Origin)
}

fn a_b_distance(store: &mut Store<Val, Body>) -> Reaction<Val> {
    declare_pos(store, A_POS);
    declare_pos(store, B_POS);
    let id = return_key_for_type_and_insert_if_required(store, CallSite::at(DISTANCE), vec![]);
    reaction(store, id, Body::Distance)
}

#[test]
fn test_atome_reversible() {
    let mut s = Store::new();
    let a_pos = declare_pos(&mut s, A_POS);
    let b_pos = declare_pos(&mut s, B_POS);
    let a_b_distance = a_b_distance(&mut s);

    println!("A is at : {}", a_pos.get(&s).describe());
    println!("B is at : {}", b_pos.get(&s).describe());
    println!("The distance between them is : {}", a_b_distance.get(&s).describe());
    assert!((a_b_distance.get(&s).len() - 0.0).abs() < std::f64::EPSILON);

    a_pos.update(&mut s, |_| Val::Pos(4., 5.)).unwrap();
    b_pos.update(&mut s, |_| Val::Pos(1., 1.)).unwrap();
    println!("moving a to {} and b to {}", a_pos.get(&s).describe(), b_pos.get(&s).describe());
    println!("The distance between them is now : {}", a_b_distance.get(&s).describe());

    assert!((a_b_distance.get(&s).len() - 5.0).abs() < std::f64::EPSILON);
}
