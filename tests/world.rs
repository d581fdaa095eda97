use dyn_bundle::{insert_hook, replace_hook, Command, Component, DynBundle, Side, StaleReference, World};

const A: u64 = 1;
const B: u64 = 2;
const C: u64 = 3;

fn comp(kind: u64, value: u64) -> Component {
    Component { kind, value }
}

fn count(world: &World, side: Side) -> usize {
    let mut n = 0;
    for e in 0..world.len() {
        if world.relation(side, e).is_some() {
            n += 1;
        }
    }
    n
}

#[test]
fn relation_is_mirrored_after_flush() {
    let mut w = World::new();
    let x = w.spawn();
    let y = w.spawn();
    w.insert_relation(Side::Target, x, y);
    assert_eq!(w.pending(), vec![Command::Write { side: Side::TargetBy, on: y, to: x }]);
    assert!(w.flush().is_empty());
    assert_eq!(w.relation(Side::Target, x), Some(y));
    assert_eq!(w.relation(Side::TargetBy, y), Some(x));
    w.insert_relation(Side::Target, x, y);
    assert!(w.pending().is_empty());
    assert!(w.flush().is_empty());
    assert_eq!(count(&w, Side::Target), 1);
    assert_eq!(count(&w, Side::TargetBy), 1);
}

#[test]
fn replacing_a_relation_moves_the_mirror() {
    let mut w = World::new();
    let x = w.spawn();
    let y = w.spawn();
    let z = w.spawn();
    w.insert_relation(Side::Target, x, y);
    w.flush();
    w.insert_relation(Side::Target, x, z);
    assert!(w.flush().is_empty());
    assert_eq!(w.relation(Side::TargetBy, y), None);
    assert_eq!(w.relation(Side::TargetBy, z), Some(x));
    assert_eq!(w.relation(Side::Target, x), Some(z));
    assert!(w.pending().is_empty());
}

#[test]
fn removing_a_relation_removes_the_mirror() {
    let mut w = World::new();
    let x = w.spawn();
    let y = w.spawn();
    w.insert_relation(Side::Target, x, y);
    w.flush();
    w.remove_relation(Side::Target, x);
    assert!(w.flush().is_empty());
    assert_eq!(w.relation(Side::TargetBy, y), None);
    assert_eq!(w.relation(Side::Target, x), None);
}

#[test]
fn removing_the_mirror_side_removes_the_relation() {
    let mut w = World::new();
    let x = w.spawn();
    let y = w.spawn();
    w.insert_relation(Side::TargetBy, y, x);
    w.flush();
    assert_eq!(w.relation(Side::Target, x), Some(y));
    w.remove_relation(Side::TargetBy, y);
    w.flush();
    assert_eq!(w.relation(Side::Target, x), None);
}

#[test]
fn mutually_consistent_pair_settles_once() {
    let mut w = World::new();
    let a = w.spawn();
    let b = w.spawn();
    w.insert_relation(Side::Target, a, b);
    w.insert_relation(Side::TargetBy, b, a);
    assert_eq!(w.pending().len(), 1);
    assert!(w.flush().is_empty());
    assert!(w.pending().is_empty());
    assert_eq!(count(&w, Side::Target), 1);
    assert_eq!(count(&w, Side::TargetBy), 1);
    assert_eq!(w.relation(Side::Target, a), Some(b));
    assert_eq!(w.relation(Side::TargetBy, b), Some(a));
}

#[test]
fn self_reference_needs_one_write() {
    let mut w = World::new();
    let x = w.spawn();
    w.insert_relation(Side::Target, x, x);
    assert_eq!(w.pending().len(), 1);
    w.flush();
    assert_eq!(w.relation(Side::TargetBy, x), Some(x));
    assert!(w.pending().is_empty());
}

#[test]
fn hooks_decide_from_the_mirror() {
    assert_eq!(insert_hook(Side::Target, 1, 2, Some(1)), None);
    assert_eq!(
        insert_hook(Side::Target, 1, 2, None),
        Some(Command::Write { side: Side::TargetBy, on: 2, to: 1 })
    );
    assert_eq!(
        insert_hook(Side::TargetBy, 1, 2, Some(3)),
        Some(Command::Write { side: Side::Target, on: 2, to: 1 })
    );
    assert_eq!(
        replace_hook(Side::Target, 2),
        Command::Remove { side: Side::TargetBy, on: 2 }
    );
    assert_eq!(
        replace_hook(Side::TargetBy, 5),
        Command::Remove { side: Side::Target, on: 5 }
    );
}

#[test]
fn children_are_spawned_in_order() {
    let mut w = World::new();
    let p = w.spawn();
    let chains = vec![
        DynBundle::new_add(vec![comp(A, 1)]),
        DynBundle::new_add(vec![comp(B, 2), comp(C, 3)]),
        DynBundle::new_add(vec![comp(A, 1)]).del(vec![A]),
    ];
    w.attach_children(p, chains);
    assert_eq!(w.len(), 1);
    assert!(w.flush().is_empty());
    assert_eq!(w.len(), 4);
    for c in 1..4 {
        assert_eq!(w.parent(c), Some(p));
    }
    assert_eq!(w.component_count(1), 1);
    assert_eq!(w.get_component(1, A), Some(1));
    assert_eq!(w.component_count(2), 2);
    assert_eq!(w.get_component(2, B), Some(2));
    assert_eq!(w.get_component(2, C), Some(3));
    assert_eq!(w.component_count(3), 0);
    assert_eq!(w.parent(p), None);
    assert!(w.pending().is_empty());
}

#[test]
fn no_children_spawns_nothing() {
    let mut w = World::new();
    let p = w.spawn();
    w.attach_children(p, vec![]);
    assert!(w.flush().is_empty());
    assert_eq!(w.len(), 1);
}

#[test]
fn attached_chain_is_applied_at_flush() {
    let mut w = World::new();
    let e = w.spawn();
    w.insert_components(e, vec![comp(C, 9)]);
    w.attach(e, DynBundle::new_add(vec![comp(A, 1)]).del(vec![C]));
    assert_eq!(w.get_component(e, A), None);
    assert_eq!(w.pending(), vec![Command::ApplyChain(e)]);
    assert!(w.flush().is_empty());
    assert_eq!(w.get_component(e, A), Some(1));
    assert_eq!(w.get_component(e, C), None);
    assert_eq!(w.component_count(e), 1);
}

#[test]
fn second_marker_replaces_the_first() {
    let mut w = World::new();
    let e = w.spawn();
    w.attach(e, DynBundle::new_add(vec![comp(A, 1)]));
    w.attach(e, DynBundle::new_add(vec![comp(B, 2)]));
    assert_eq!(w.pending().len(), 1);
    w.flush();
    assert_eq!(w.get_component(e, A), None);
    assert_eq!(w.get_component(e, B), Some(2));
}

#[test]
fn task_for_a_despawned_entity_is_stale() {
    let mut w = World::new();
    let e = w.spawn();
    w.attach(e, DynBundle::new_add(vec![comp(A, 1)]));
    w.despawn(e);
    assert!(!w.is_alive(e));
    assert_eq!(w.flush(), vec![StaleReference { entity: e }]);
    assert_eq!(w.get_component(e, A), None);
}

#[test]
fn despawn_clears_the_mirror() {
    let mut w = World::new();
    let x = w.spawn();
    let y = w.spawn();
    w.insert_relation(Side::Target, x, y);
    w.flush();
    w.despawn(x);
    assert!(w.flush().is_empty());
    assert_eq!(w.relation(Side::TargetBy, y), None);
}

#[test]
fn relation_write_on_a_despawned_entity_is_stale() {
    let mut w = World::new();
    let x = w.spawn();
    let y = w.spawn();
    w.insert_relation(Side::Target, x, y);
    w.despawn(y);
    assert_eq!(w.flush(), vec![StaleReference { entity: y }]);
    assert_eq!(w.relation(Side::Target, x), Some(y));
}

#[test]
fn taking_over_a_target_clears_its_previous_holder() {
    let mut w = World::new();
    let x = w.spawn();
    let y = w.spawn();
    let v = w.spawn();
    let z = w.spawn();
    w.insert_relation(Side::Target, x, y);
    w.insert_relation(Side::Target, v, z);
    w.flush();
    w.insert_relation(Side::Target, x, z);
    assert!(w.flush().is_empty());
    assert_eq!(w.relation(Side::Target, x), Some(z));
    assert_eq!(w.relation(Side::TargetBy, z), Some(x));
    assert_eq!(w.relation(Side::Target, v), None);
    assert_eq!(w.relation(Side::TargetBy, y), None);
    assert_eq!(count(&w, Side::Target), 1);
    assert_eq!(count(&w, Side::TargetBy), 1);
}

#[test]
fn replacing_before_a_flush_queues_the_removal() {
    let mut w = World::new();
    let x = w.spawn();
    let y = w.spawn();
    let z = w.spawn();
    w.insert_relation(Side::Target, x, y);
    w.insert_relation(Side::Target, x, z);
    assert_eq!(
        w.pending(),
        vec![
            Command::Write { side: Side::TargetBy, on: y, to: x },
            Command::Remove { side: Side::TargetBy, on: y },
            Command::Write { side: Side::TargetBy, on: z, to: x },
        ]
    );
    assert!(w.flush().is_empty());
    assert!(w.pending().is_empty());
    assert_eq!(count(&w, Side::Target), 1);
    assert_eq!(count(&w, Side::TargetBy), 1);
    let t = w.relation(Side::Target, x).unwrap();
    assert_eq!(w.relation(Side::TargetBy, t), Some(x));
}

#[test]
fn replacing_the_mirror_side_queues_removal_of_the_old_link() {
    let mut w = World::new();
    let s = w.spawn();
    let y = w.spawn();
    let q = w.spawn();
    w.insert_relation(Side::TargetBy, y, s);
    w.flush();
    assert_eq!(w.relation(Side::Target, s), Some(y));
    w.insert_relation(Side::TargetBy, y, q);
    assert_eq!(
        w.pending(),
        vec![
            Command::Remove { side: Side::Target, on: s },
            Command::Write { side: Side::Target, on: q, to: y },
        ]
    );
    w.flush();
    assert_eq!(w.relation(Side::Target, s), None);
    assert_eq!(w.relation(Side::Target, q), Some(y));
    assert_eq!(w.relation(Side::TargetBy, y), Some(q));
}

#[test]
fn mirror_removal_fires_no_hook() {
    let mut w = World::new();
    let x = w.spawn();
    let y = w.spawn();
    w.insert_relation(Side::Target, x, y);
    w.flush();
    w.remove_relation(Side::Target, x);
    assert_eq!(w.pending(), vec![Command::Remove { side: Side::TargetBy, on: y }]);
    w.flush();
    assert!(w.pending().is_empty());
    assert_eq!(count(&w, Side::Target), 0);
    assert_eq!(count(&w, Side::TargetBy), 0);
}
