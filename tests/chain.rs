use dyn_bundle::{Component, DynBundle, EntityComponents, IntoDynBundle};

const A: u64 = 1;
const B: u64 = 2;
const C: u64 = 3;

fn comp(kind: u64, value: u64) -> Component {
    Component { kind, value }
}

fn spawn_from(chain: &DynBundle) -> EntityComponents {
    let mut e = EntityComponents::new();
    chain.apply(&mut e);
    e
}

#[test]
fn root_gives_exactly_its_bundle() {
    let chain = DynBundle::new_add(vec![comp(A, 10), comp(B, 20)]);
    let e = spawn_from(&chain);
    assert_eq!(e.len(), 2);
    assert_eq!(e.get(A), Some(10));
    assert_eq!(e.get(B), Some(20));
}

#[test]
fn empty_chain_gives_nothing() {
    assert_eq!(spawn_from(&DynBundle::new()).len(), 0);
    assert_eq!(spawn_from(&DynBundle::default()).len(), 0);
}

#[test]
fn insert_adds_and_remove_takes_away() {
    let base = DynBundle::new_add(vec![comp(A, 1), comp(B, 2)]);
    let added = base.add(vec![comp(C, 3)]);
    let e = spawn_from(&added);
    assert_eq!(e.len(), 3);
    assert_eq!(e.get(C), Some(3));
    let removed = base.del(vec![A]);
    let e = spawn_from(&removed);
    assert_eq!(e.len(), 1);
    assert_eq!(e.get(A), None);
    assert_eq!(e.get(B), Some(2));
}

#[test]
fn removing_an_absent_kind_changes_nothing() {
    let chain = DynBundle::new_add(vec![comp(A, 1)]).del(vec![C]);
    let e = spawn_from(&chain);
    assert_eq!(e.len(), 1);
    assert_eq!(e.get(A), Some(1));
}

#[test]
fn insert_then_remove_lacks_the_component() {
    let x = DynBundle::new_add(vec![]).add(vec![comp(A, 5)]).del(vec![A]);
    assert!(!spawn_from(&x).contains(A));
}

#[test]
fn remove_then_insert_has_the_component() {
    let y = DynBundle::new_add(vec![]).add(vec![comp(A, 5)]).del(vec![A]);
    let z = y.add(vec![comp(A, 6)]);
    let e = spawn_from(&z);
    assert!(e.contains(A));
    assert_eq!(e.get(A), Some(6));
}

#[test]
fn later_insert_overwrites_earlier_value() {
    let chain = DynBundle::new_add(vec![comp(A, 1)]).add(vec![comp(A, 2)]);
    let e = spawn_from(&chain);
    assert_eq!(e.len(), 1);
    assert_eq!(e.get(A), Some(2));
}

#[test]
fn children_of_one_base_are_isolated() {
    let base = DynBundle::new_add(vec![comp(A, 1)]);
    let child1 = base.add(vec![comp(B, 2)]);
    let child2 = base.add(vec![comp(C, 3)]);
    let e1 = spawn_from(&child1);
    let e2 = spawn_from(&child2);
    let e0 = spawn_from(&base);
    assert_eq!(e1.len(), 2);
    assert_eq!(e1.get(A), Some(1));
    assert_eq!(e1.get(B), Some(2));
    assert_eq!(e2.len(), 2);
    assert_eq!(e2.get(A), Some(1));
    assert_eq!(e2.get(C), Some(3));
    assert_eq!(e0.len(), 1);
    assert_eq!(e0.get(A), Some(1));
}

#[test]
fn append_runs_the_other_chain_first() {
    let other = DynBundle::new_add(vec![comp(C, 3)]).del(vec![C]);
    let chain = DynBundle::new_add(vec![comp(A, 1)]).add(vec![comp(B, 2)]);
    let e = spawn_from(&chain.append(other));
    assert_eq!(e.len(), 2);
    assert_eq!(e.get(A), Some(1));
    assert_eq!(e.get(B), Some(2));
}

#[test]
fn append_lets_the_receiver_win() {
    let other = DynBundle::new_add(vec![comp(A, 100)]);
    let chain = DynBundle::new_add(vec![comp(A, 1)]);
    assert_eq!(spawn_from(&chain.append(other)).get(A), Some(1));
    let remover = DynBundle::new().del(vec![A]);
    let chain = DynBundle::new_add(vec![comp(A, 1)]);
    assert_eq!(spawn_from(&chain.append(remover)).get(A), Some(1));
    let chain = DynBundle::new().del(vec![A]);
    let other = DynBundle::new_add(vec![comp(A, 1)]);
    assert_eq!(spawn_from(&chain.append(other)).get(A), None);
}

#[test]
fn append_accepts_a_bundle() {
    let chain = DynBundle::new().del(vec![A]);
    let e = spawn_from(&chain.append(vec![comp(A, 1), comp(B, 2)]));
    assert_eq!(e.len(), 1);
    assert_eq!(e.get(B), Some(2));
    let e = spawn_from(&DynBundle::new().append(comp(C, 9)));
    assert_eq!(e.get(C), Some(9));
}

#[test]
fn append_some_is_identity_when_absent() {
    let chain = DynBundle::new_add(vec![comp(A, 1)]);
    let same = chain.append_some(None::<DynBundle>);
    let e = spawn_from(&same);
    assert_eq!(e.len(), 1);
    assert_eq!(e.get(A), Some(1));
    let more = chain.append_some(Some(vec![comp(B, 2)]));
    let e = spawn_from(&more);
    assert_eq!(e.len(), 2);
    assert_eq!(e.get(B), Some(2));
}

#[test]
fn append_many_puts_later_items_first() {
    let first = DynBundle::new_add(vec![comp(A, 1)]);
    let second = DynBundle::new_add(vec![comp(A, 2)]);
    let chain = DynBundle::new().append_many(vec![first, second]);
    assert_eq!(spawn_from(&chain).get(A), Some(1));
    let many = DynBundle::new_many(vec![vec![comp(A, 1)], vec![comp(B, 2)]]);
    let e = spawn_from(&many);
    assert_eq!(e.len(), 2);
    let none = DynBundle::new_many(Vec::<DynBundle>::new());
    assert_eq!(spawn_from(&none).len(), 0);
}

#[test]
fn new_del_removes_from_what_it_is_applied_to() {
    let chain = DynBundle::new().new_del(vec![A, B]);
    let mut e = EntityComponents::new();
    e.insert(comp(A, 1));
    e.insert(comp(B, 2));
    e.insert(comp(C, 3));
    chain.apply(&mut e);
    assert_eq!(e.len(), 1);
    assert_eq!(e.get(C), Some(3));
}

#[test]
fn chain_applies_on_top_of_existing_components() {
    let mut e = EntityComponents::new();
    e.insert(comp(A, 1));
    e.insert(comp(B, 1));
    DynBundle::new_add(vec![comp(B, 7)]).apply(&mut e);
    assert_eq!(e.get(A), Some(1));
    assert_eq!(e.get(B), Some(7));
    assert_eq!(e.remove(A), Some(1));
    assert_eq!(e.remove(A), None);
}

#[test]
fn into_dynb_keeps_a_chain() {
    let chain = DynBundle::new_add(vec![comp(A, 4)]).into_dynb();
    assert_eq!(spawn_from(&chain).get(A), Some(4));
    let cloned = chain.clone();
    assert_eq!(spawn_from(&cloned).get(A), Some(4));
}

#[test]
fn nested_chain_runs_at_its_point() {
    let inner = DynBundle::new_add(vec![comp(A, 2)]).del(vec![B]);
    let chain = DynBundle::new_add(vec![comp(A, 1), comp(B, 1)])
        .add_chain(inner)
        .add(vec![comp(C, 3)]);
    let e = spawn_from(&chain);
    assert_eq!(e.len(), 2);
    assert_eq!(e.get(A), Some(2));
    assert_eq!(e.get(B), None);
    assert_eq!(e.get(C), Some(3));
    let ops = chain.ops();
    assert_eq!(ops.len(), 6);
}
