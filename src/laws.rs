//! Properties of chains, of deferred attachment and of the relationship mirror,
//! stated over the models that the contracts use.

use vstd::prelude::*;
use crate::chain::{apply_edits, insert_all, lemma_apply_edits_concat, remove_all, Component, Edit};
use crate::world::{fresh_entity, Command, Side, WorldView};

verus! {

/// The chain that the empty chain begins with: one insert of nothing.
pub open spec fn empty_edits() -> Seq<Edit> {
    seq![Edit::Insert(Seq::<Component>::empty())]
}

/// The edits of `DynBundle::new_add(cs)`.
pub open spec fn root_edits(cs: Seq<Component>) -> Seq<Edit> {
    empty_edits().push(Edit::Insert(cs))
}

/// No two components of the bundle share a kind.
pub open spec fn distinct_kinds(cs: Seq<Component>) -> bool {
    forall|i: int, j: int| 0 <= i < j < cs.len() ==> cs[i].kind != cs[j].kind
}

proof fn lemma_insert_all_dom(m: Map<u64, u64>, cs: Seq<Component>)
    ensures
        insert_all(m, cs).dom() == m.dom().union(
            Set::new(|k: u64| exists|i: int| 0 <= i < cs.len() && cs[i].kind == k),
        ),
    decreases cs.len(),
{
    if cs.len() > 0 {
        lemma_insert_all_dom(m, cs.drop_last());
        let s = Set::new(|k: u64| exists|i: int| 0 <= i < cs.len() && cs[i].kind == k);
        let s0 = Set::new(|k: u64| exists|i: int| 0 <= i < cs.drop_last().len() && cs.drop_last()[i].kind == k);
        assert forall|k: u64| s.contains(k) <==> s0.insert(cs.last().kind).contains(k) by {
            if s.contains(k) {
                let i = choose|i: int| 0 <= i < cs.len() && cs[i].kind == k;
                if i < cs.len() - 1 {
                    assert(cs.drop_last()[i].kind == k);
                }
            }
            if s0.contains(k) {
                let i = choose|i: int| 0 <= i < cs.drop_last().len() && cs.drop_last()[i].kind == k;
                assert(cs[i].kind == k);
            }
            if k == cs.last().kind {
                assert(cs[cs.len() - 1].kind == k);
            }
        }
        assert(s =~= s0.insert(cs.last().kind));
        assert(insert_all(m, cs).dom() =~= m.dom().union(s));
    }
}

proof fn lemma_insert_all_value(m: Map<u64, u64>, cs: Seq<Component>, i: int)
    requires
        distinct_kinds(cs),
        0 <= i < cs.len(),
    ensures
        insert_all(m, cs).contains_key(cs[i].kind),
        insert_all(m, cs)[cs[i].kind] == cs[i].value,
    decreases cs.len(),
{
    if i < cs.len() - 1 {
        lemma_insert_all_value(m, cs.drop_last(), i);
    }
}

/// Inserting a bundle after other edits gives the components from before plus the
/// bundle's; removing kinds gives the components from before minus those kinds.
pub proof fn law_insert_and_remove(es: Seq<Edit>, cs: Seq<Component>, ks: Seq<u64>)
    ensures
        apply_edits(Map::empty(), es.push(Edit::Insert(cs))) == insert_all(
            apply_edits(Map::empty(), es),
            cs,
        ),
        apply_edits(Map::empty(), es.push(Edit::Remove(ks))) == remove_all(
            apply_edits(Map::empty(), es),
            ks,
        ),
        forall|i: int| 0 <= i < ks.len() ==> !apply_edits(Map::empty(), es.push(Edit::Remove(ks))).contains_key(#[trigger] ks[i]),
        forall|k: u64| !ks.contains(k) ==> (apply_edits(Map::empty(), es.push(Edit::Remove(ks))).contains_key(k)
            <==> apply_edits(Map::empty(), es).contains_key(k)),
{
    assert(es.push(Edit::Insert(cs)).drop_last() =~= es);
    assert(es.push(Edit::Remove(ks)).drop_last() =~= es);
    lemma_remove_all(apply_edits(Map::empty(), es), ks);
}

proof fn lemma_remove_all(m: Map<u64, u64>, ks: Seq<u64>)
    ensures
        forall|i: int| 0 <= i < ks.len() ==> !remove_all(m, ks).contains_key(#[trigger] ks[i]),
        forall|k: u64| !ks.contains(k) ==> (remove_all(m, ks).contains_key(k) <==> m.contains_key(k)),
    decreases ks.len(),
{
    if ks.len() > 0 {
        lemma_remove_all(m, ks.drop_last());
        assert forall|i: int| 0 <= i < ks.len() implies !remove_all(m, ks).contains_key(#[trigger] ks[i]) by {
            if i < ks.len() - 1 {
                assert(ks.drop_last()[i] == ks[i]);
            }
        }
        assert forall|k: u64| !ks.contains(k) implies (remove_all(m, ks).contains_key(k) <==> m.contains_key(k)) by {
            if ks.drop_last().contains(k) {
                let j = choose|j: int| 0 <= j < ks.drop_last().len() && ks.drop_last()[j] == k;
                assert(ks[j] == k);
            }
            assert(ks[ks.len() - 1] == ks.last());
        }
    }
}

/// A chain made from one bundle gives a fresh entity exactly the bundle's components.
pub proof fn law_root_gives_bundle(cs: Seq<Component>)
    requires
        distinct_kinds(cs),
    ensures
        apply_edits(Map::empty(), root_edits(cs)).dom() == Set::new(
            |k: u64| exists|i: int| 0 <= i < cs.len() && cs[i].kind == k,
        ),
        forall|i: int| 0 <= i < cs.len() ==> #[trigger] apply_edits(Map::empty(), root_edits(cs))[cs[i].kind] == cs[i].value,
{
    assert(root_edits(cs).drop_last() =~= empty_edits());
    assert(empty_edits().drop_last() =~= Seq::<Edit>::empty());
    assert(insert_all(Map::<u64, u64>::empty(), Seq::<Component>::empty()) == Map::<u64, u64>::empty());
    assert(apply_edits(Map::<u64, u64>::empty(), Seq::<Edit>::empty()) == Map::<u64, u64>::empty());
    assert(apply_edits(Map::empty(), empty_edits()) == Map::<u64, u64>::empty());
    lemma_insert_all_dom(Map::empty(), cs);
    assert(Map::<u64, u64>::empty().dom().union(Set::new(|k: u64| exists|i: int| 0 <= i < cs.len() && cs[i].kind == k))
        =~= Set::new(|k: u64| exists|i: int| 0 <= i < cs.len() && cs[i].kind == k));
    assert forall|i: int| 0 <= i < cs.len() implies #[trigger] apply_edits(Map::empty(), root_edits(cs))[cs[i].kind] == cs[i].value by {
        lemma_insert_all_value(Map::empty(), cs, i);
    }
}


proof fn lemma_insert_one(m: Map<u64, u64>, x: Component)
    ensures
        insert_all(m, seq![x]) == m.insert(x.kind, x.value),
{
    assert(seq![x].drop_last() =~= Seq::<Component>::empty());
    assert(insert_all(m, Seq::<Component>::empty()) == m);
}

proof fn lemma_remove_one(m: Map<u64, u64>, k: u64)
    ensures
        remove_all(m, seq![k]) == m.remove(k),
{
    assert(seq![k].drop_last() =~= Seq::<u64>::empty());
    assert(remove_all(m, Seq::<u64>::empty()) == m);
}

proof fn lemma_root_one(x: Component)
    ensures
        apply_edits(Map::empty(), root_edits(seq![x])) == map![x.kind => x.value],
{
    assert(root_edits(seq![x]).drop_last() =~= empty_edits());
    assert(empty_edits().drop_last() =~= Seq::<Edit>::empty());
    assert(apply_edits(Map::<u64, u64>::empty(), Seq::<Edit>::empty()) == Map::<u64, u64>::empty());
    assert(insert_all(Map::<u64, u64>::empty(), Seq::<Component>::empty()) == Map::<u64, u64>::empty());
    assert(apply_edits(Map::empty(), empty_edits()) == Map::<u64, u64>::empty());
    assert(seq![x].drop_last() =~= Seq::<Component>::empty());
    assert(insert_all(Map::empty(), seq![x]) =~= map![x.kind => x.value]);
}

/// Edits run in order and the last write of a kind wins: a removal after an insert
/// leaves the removed kinds absent, and an insert after a removal leaves the inserted
/// components present.
pub proof fn law_last_write_wins(es: Seq<Edit>, cs: Seq<Component>, ks: Seq<u64>)
    requires
        distinct_kinds(cs),
    ensures
        forall|i: int| 0 <= i < ks.len() ==> !apply_edits(
            Map::empty(),
            es.push(Edit::Insert(cs)).push(Edit::Remove(ks)),
        ).contains_key(#[trigger] ks[i]),
        forall|i: int| 0 <= i < cs.len() ==> apply_edits(
            Map::empty(),
            es.push(Edit::Remove(ks)).push(Edit::Insert(cs)),
        ).contains_key(#[trigger] cs[i].kind),
        forall|i: int| 0 <= i < cs.len() ==> apply_edits(
            Map::empty(),
            es.push(Edit::Remove(ks)).push(Edit::Insert(cs)),
        )[#[trigger] cs[i].kind] == cs[i].value,
{
    law_insert_and_remove(es.push(Edit::Insert(cs)), cs, ks);
    law_insert_and_remove(es.push(Edit::Remove(ks)), cs, ks);
    assert forall|i: int| 0 <= i < cs.len() implies apply_edits(
        Map::empty(),
        es.push(Edit::Remove(ks)).push(Edit::Insert(cs)),
    ).contains_key(#[trigger] cs[i].kind) && apply_edits(
        Map::empty(),
        es.push(Edit::Remove(ks)).push(Edit::Insert(cs)),
    )[cs[i].kind] == cs[i].value by {
        lemma_insert_all_value(apply_edits(Map::empty(), es.push(Edit::Remove(ks))), cs, i);
    }
}

/// Chains built on one base do not see each other, and the base is left as it was:
/// `a` then `b`, `a` then `c`, and `a` alone give exactly those components.
pub proof fn law_shared_base(a: Component, b: Component, c: Component)
    requires
        a.kind != b.kind,
        a.kind != c.kind,
    ensures
        apply_edits(Map::empty(), root_edits(seq![a]).push(Edit::Insert(seq![b]))) == map![
            a.kind => a.value,
            b.kind => b.value
        ],
        apply_edits(Map::empty(), root_edits(seq![a]).push(Edit::Insert(seq![c]))) == map![
            a.kind => a.value,
            c.kind => c.value
        ],
        apply_edits(Map::empty(), root_edits(seq![a])) == map![a.kind => a.value],
{
    lemma_root_one(a);
    law_insert_and_remove(root_edits(seq![a]), seq![b], Seq::empty());
    law_insert_and_remove(root_edits(seq![a]), seq![c], Seq::empty());
    assert(seq![b].drop_last() =~= Seq::<Component>::empty());
    assert(seq![c].drop_last() =~= Seq::<Component>::empty());
    lemma_insert_one(map![a.kind => a.value], b);
    lemma_insert_one(map![a.kind => a.value], c);
    assert(map![a.kind => a.value].insert(b.kind, b.value) =~= map![a.kind => a.value, b.kind => b.value]);
    assert(map![a.kind => a.value].insert(c.kind, c.value) =~= map![a.kind => a.value, c.kind => c.value]);
}

/// Appending runs the appended chain first: with `other` inserting then removing `c`,
/// and `chain` inserting `a` then `b`, `chain.append(other)` gives exactly `a` and `b`.
pub proof fn law_append_runs_other_first(a: Component, b: Component, c: Component)
    requires
        a.kind != b.kind,
    ensures
        apply_edits(
            Map::empty(),
            root_edits(seq![c]).push(Edit::Remove(seq![c.kind])) + root_edits(seq![a]).push(
                Edit::Insert(seq![b]),
            ),
        ) == map![a.kind => a.value, b.kind => b.value],
{
    let other = root_edits(seq![c]).push(Edit::Remove(seq![c.kind]));
    let chain = root_edits(seq![a]).push(Edit::Insert(seq![b]));
    lemma_apply_edits_concat(Map::empty(), other, chain);
    lemma_root_one(c);
    law_insert_and_remove(root_edits(seq![c]), Seq::empty(), seq![c.kind]);
    assert(seq![c.kind].drop_last() =~= Seq::<u64>::empty());
    lemma_remove_one(map![c.kind => c.value], c.kind);
    assert(map![c.kind => c.value].remove(c.kind) =~= Map::<u64, u64>::empty());
    law_shared_base(a, b, b);
}

/// Children: after a flush, a children marker of `n` chains on `p` has become `n` new
/// entities, in the order of the chains, each a child of `p` holding exactly what its
/// own chain gives a fresh entity; `p` and every other entity are as they were.
pub proof fn law_children_spawned(w: WorldView, p: usize, chains: Seq<Seq<Edit>>)
    requires
        w.live(p),
        w.queue.len() == 0,
        w.entities[p as int].children_marker is None,
    ensures
        ({
            let f = w.attach_children(p, chains).drain(usize::MAX as nat);
            &&& f.queue.len() == 0
            &&& f.entities.len() == w.entities.len() + chains.len()
            &&& forall|i: int| 0 <= i < chains.len() ==> #[trigger] f.entities[w.entities.len() + i]
                == fresh_entity(apply_edits(Map::empty(), chains[i]), Some(p))
            &&& forall|e: int| 0 <= e < w.entities.len() ==> #[trigger] f.entities[e] == w.entities[e]
        }),
{
    let a = w.attach_children(p, chains);
    assert(a.queue =~= seq![Command::SpawnChildren(p)]);
    assert(a.popped().queue =~= Seq::<Command>::empty());
    let s = a.step();
    assert(a.drain(usize::MAX as nat) == s.drain((usize::MAX - 1) as nat));
    assert(s.queue.len() == 0);
    assert(s.drain((usize::MAX - 1) as nat) == s);
    let cleared = a.popped().with_entity(
        p,
        crate::world::EntityView { children_marker: None, ..a.entities[p as int] },
    );
    assert(cleared.entities =~= w.entities);
}

/// Children, one task at a time and whatever else is queued: when the task of a
/// children marker of `n` chains on `p` runs, `n` new entities follow the existing
/// ones, in the order of the chains, each a child of `p` holding exactly what its own
/// chain gives a fresh entity; `p` has lost the marker and is otherwise unchanged,
/// every other entity is as it was, and the rest of the queue is left as it was.
pub proof fn law_children_task(w: WorldView, p: usize, chains: Seq<Seq<Edit>>)
    requires
        w.queue.len() > 0,
        w.queue[0] == Command::SpawnChildren(p),
        w.live(p),
        w.entities[p as int].children_marker == Some(chains),
    ensures
        ({
            let f = w.step();
            &&& f.queue == w.queue.drop_first()
            &&& f.entities.len() == w.entities.len() + chains.len()
            &&& forall|i: int| 0 <= i < chains.len() ==> #[trigger] f.entities[w.entities.len() + i]
                == fresh_entity(apply_edits(Map::empty(), chains[i]), Some(p))
            &&& f.entities[p as int] == (crate::world::EntityView {
                children_marker: None,
                ..w.entities[p as int]
            })
            &&& forall|e: int| 0 <= e < w.entities.len() && e != p ==> #[trigger] f.entities[e]
                == w.entities[e]
        }),
{
}

/// Deferred application: after a flush, a chain marker on `e` has been taken and
/// applied to `e`'s components; every other entity is as it was.
pub proof fn law_attached_chain_applied(w: WorldView, e: usize, chain: Seq<Edit>)
    requires
        w.live(e),
        w.queue.len() == 0,
        w.entities[e as int].chain_marker is None,
    ensures
        ({
            let f = w.attach_chain(e, chain).drain(usize::MAX as nat);
            &&& f.queue.len() == 0
            &&& f.entities == w.entities.update(
                e as int,
                crate::world::EntityView {
                    components: apply_edits(w.entities[e as int].components, chain),
                    ..w.entities[e as int]
                },
            )
        }),
{
    let a = w.attach_chain(e, chain);
    assert(a.queue =~= seq![Command::ApplyChain(e)]);
    assert(a.popped().queue =~= Seq::<Command>::empty());
    let s = a.step();
    assert(a.drain(usize::MAX as nat) == s.drain((usize::MAX - 1) as nat));
    assert(s.drain((usize::MAX - 1) as nat) == s);
    assert(s.entities =~= w.entities.update(
        e as int,
        crate::world::EntityView {
            components: apply_edits(w.entities[e as int].components, chain),
            ..w.entities[e as int]
        },
    ));
}


proof fn lemma_drain_step(w: WorldView, n: nat)
    requires
        n > 0,
        w.queue.len() > 0,
    ensures
        w.drain(n) == w.step().drain((n - 1) as nat),
{
}

proof fn lemma_drain_done(w: WorldView, n: nat)
    requires
        w.queue.len() == 0,
    ensures
        w.drain(n) == w,
{
}

/// Inserting `Target = y` on an `x` that holds no `Target`, in a mirrored store with
/// nothing queued: after a flush `y` holds `TargetBy = x` and nothing is left queued;
/// inserting the same `Target = y` again then changes nothing and queues nothing.
pub proof fn law_relation_mirrored(w: WorldView, x: usize, y: usize)
    requires
        w.live(x),
        w.live(y),
        w.queue.len() == 0,
        w.mirrored(),
        w.get(Side::Target, x) is None,
    ensures
        ({
            let f = w.write(Side::Target, x, Some(y)).drain(usize::MAX as nat);
            &&& f.get(Side::Target, x) == Some(y)
            &&& f.get(Side::TargetBy, y) == Some(x)
            &&& f.queue.len() == 0
            &&& f.write(Side::Target, x, Some(y)) == f
        }),
{
    lemma_write_settles(w, Side::Target, x, Some(y));
    let f = w.write(Side::Target, x, Some(y)).drain(usize::MAX as nat);
    assert(f.get(Side::Target, x) == Some(y));
    assert(f.get(Side::TargetBy, y) == Some(x));
}

/// Replacing `Target = y` by `Target = z` on `x`, in a mirrored store with nothing
/// queued: after a flush `y` holds no `TargetBy`, `z` holds `TargetBy = x`, and
/// nothing is left queued.
pub proof fn law_relation_replaced(w: WorldView, x: usize, y: usize, z: usize)
    requires
        w.live(x),
        w.live(z),
        y != z,
        w.queue.len() == 0,
        w.mirrored(),
        w.get(Side::Target, x) == Some(y),
    ensures
        ({
            let f = w.write(Side::Target, x, Some(z)).drain(usize::MAX as nat);
            &&& f.get(Side::Target, x) == Some(z)
            &&& f.get(Side::TargetBy, y) is None
            &&& f.get(Side::TargetBy, z) == Some(x)
            &&& f.queue.len() == 0
        }),
{
    lemma_write_settles(w, Side::Target, x, Some(z));
    let f = w.write(Side::Target, x, Some(z)).drain(usize::MAX as nat);
    assert(f.get(Side::Target, x) == Some(z));
    assert(f.get(Side::TargetBy, y) is None);
    assert(f.get(Side::TargetBy, z) == Some(x));
}

/// Removing `Target` from `x`, in a mirrored store with nothing queued: after a flush
/// the entity it pointed at holds no `TargetBy`, and nothing is left queued.
pub proof fn law_relation_removed(w: WorldView, x: usize, y: usize)
    requires
        w.live(x),
        w.queue.len() == 0,
        w.mirrored(),
        w.get(Side::Target, x) == Some(y),
    ensures
        ({
            let f = w.write(Side::Target, x, None).drain(usize::MAX as nat);
            &&& f.get(Side::Target, x) is None
            &&& f.get(Side::TargetBy, y) is None
            &&& f.queue.len() == 0
        }),
{
    lemma_write_settles(w, Side::Target, x, None);
    let f = w.write(Side::Target, x, None).drain(usize::MAX as nat);
    assert(f.get(Side::Target, x) is None);
    assert(f.get(Side::TargetBy, y) is None);
}

/// Inserting `Target(a) = b` and `TargetBy(b) = a` directly, one after the other, in a
/// store that holds no relation and has nothing queued: the pair queues one command
/// only, and after a flush exactly one `Target` and one `TargetBy` exist, the pair.
pub proof fn law_mutual_pair(w: WorldView, a: usize, b: usize)
    requires
        w.live(a),
        w.live(b),
        w.queue.len() == 0,
        forall|e: usize| #[trigger] w.get(Side::Target, e) is None,
        forall|e: usize| #[trigger] w.get(Side::TargetBy, e) is None,
    ensures
        w.write(Side::Target, a, Some(b)).write(Side::TargetBy, b, Some(a)).queue.len() == 1,
        ({
            let f = w.write(Side::Target, a, Some(b)).write(Side::TargetBy, b, Some(a)).drain(
                usize::MAX as nat,
            );
            &&& f.queue.len() == 0
            &&& forall|e: usize| #[trigger] f.get(Side::Target, e) == (if e == a {
                Some(b)
            } else {
                None
            })
            &&& forall|e: usize| #[trigger] f.get(Side::TargetBy, e) == (if e == b {
                Some(a)
            } else {
                None
            })
        }),
{
    let m = usize::MAX as nat;
    let w1 = w.write(Side::Target, a, Some(b));
    assert(w.get(Side::Target, a) is None);
    assert(w.get(Side::TargetBy, b) is None);
    assert(w1.queue =~= seq![Command::Write { side: Side::TargetBy, on: b, to: a }]);
    let w2 = w1.write(Side::TargetBy, b, Some(a));
    assert(w1.get(Side::TargetBy, b) is None);
    assert(w1.get(Side::Target, a) == Some(b));
    assert(w2.queue =~= seq![Command::Write { side: Side::TargetBy, on: b, to: a }]);
    lemma_drain_step(w2, m);
    let s1 = w2.step();
    assert(w2.popped().queue =~= Seq::<Command>::empty());
    assert(s1 == w2.popped());
    lemma_drain_done(s1, (m - 1) as nat);
    assert forall|e: usize| #[trigger] s1.get(Side::Target, e) == (if e == a {
        Some(b)
    } else {
        None
    }) by {
        assert(w.get(Side::Target, e) is None);
    }
    assert forall|e: usize| #[trigger] s1.get(Side::TargetBy, e) == (if e == b {
        Some(a)
    } else {
        None
    }) by {
        assert(w.get(Side::TargetBy, e) is None);
    }
}


/// Half of the steady-state invariant: every `side` link is mirrored.
pub open spec fn mirrored_side(w: WorldView, side: Side) -> bool {
    forall|x: usize| #[trigger] w.get(side, x) is Some ==> w.get(
        side.spec_other(),
        w.get(side, x).unwrap(),
    ) == Some(x)
}

proof fn lemma_mirrored_sides(w: WorldView, side: Side)
    ensures
        w.mirrored() <==> (mirrored_side(w, side) && mirrored_side(w, side.spec_other())),
{
}

/// The field `side` after a write of `side = v` on `x` has settled: `x` holds `v`, and
/// the entity that mirrored the new target before, if any, has lost its link.
pub open spec fn settled_same(w: WorldView, side: Side, x: usize, v: Option<usize>, e: usize) -> Option<usize> {
    if e == x {
        v
    } else if v is Some && w.get(side.spec_other(), v.unwrap()) == Some(e) {
        None
    } else {
        w.get(side, e)
    }
}

/// The mirror field after a write of `side = v` on `x` has settled: the new target
/// points back at `x`, and the old target no longer does.
pub open spec fn settled_other(w: WorldView, side: Side, x: usize, v: Option<usize>, e: usize) -> Option<usize> {
    if v == Some(e) {
        Some(x)
    } else if w.get(side, x) == Some(e) {
        None
    } else {
        w.get(side.spec_other(), e)
    }
}

proof fn lemma_write_settles(w: WorldView, side: Side, x: usize, v: Option<usize>)
    requires
        w.live(x),
        w.queue.len() == 0,
        w.mirrored(),
        v matches Some(t) ==> w.live(t),
        w.get(side, x) != v,
    ensures
        ({
            let f = w.write(side, x, v).drain(usize::MAX as nat);
            &&& f.queue.len() == 0
            &&& forall|e: usize| #[trigger] f.get(side, e) == settled_same(w, side, x, v, e)
            &&& forall|e: usize| #[trigger] f.get(side.spec_other(), e) == settled_other(w, side, x, v, e)
            &&& forall|e: usize| #[trigger] f.live(e) == w.live(e)
        }),
{
    let m = usize::MAX as nat;
    let o_side = side.spec_other();
    lemma_mirrored_sides(w, side);
    let w1 = w.write(side, x, v);
    match w.get(side, x) {
        Some(o) => {
            assert(w.get(o_side, o) == Some(x));
            match v {
                None => {
                    assert(w1.queue =~= seq![Command::Remove { side: o_side, on: o }]);
                    lemma_drain_step(w1, m);
                    let s1 = w1.step();
                    assert(w1.popped().queue =~= Seq::<Command>::empty());
                    assert(s1.queue.len() == 0);
                    lemma_drain_done(s1, (m - 1) as nat);
                    assert forall|e: usize| #[trigger] s1.get(side, e) == settled_same(w, side, x, v, e) by {}
                    assert forall|e: usize| #[trigger] s1.get(o_side, e) == settled_other(w, side, x, v, e) by {}
                },
                Some(t) => {
                    assert(w.get(o_side, t) != Some(x));
                    assert(w1.queue =~= seq![
                        Command::Remove { side: o_side, on: o },
                        Command::Write { side: o_side, on: t, to: x },
                    ]);
                    lemma_drain_step(w1, m);
                    let s1 = w1.step();
                    assert(w1.popped().queue =~= seq![Command::Write { side: o_side, on: t, to: x }]);
                    assert(s1.queue =~= seq![Command::Write { side: o_side, on: t, to: x }]);
                    lemma_drain_step(s1, (m - 1) as nat);
                    let s2 = s1.step();
                    assert(s1.popped().queue =~= Seq::<Command>::empty());
                    match w.get(o_side, t) {
                        None => {
                            assert(s2.queue.len() == 0);
                            lemma_drain_done(s2, (m - 2) as nat);
                            assert forall|e: usize| #[trigger] s2.get(side, e) == settled_same(w, side, x, v, e) by {}
                            assert forall|e: usize| #[trigger] s2.get(o_side, e) == settled_other(w, side, x, v, e) by {}
                        },
                        Some(u) => {
                            assert(w.get(side, u) == Some(t));
                            assert(u != x);
                            assert(s2.queue =~= seq![Command::Remove { side, on: u }]);
                            lemma_drain_step(s2, (m - 2) as nat);
                            let s3 = s2.step();
                            assert(s2.popped().queue =~= Seq::<Command>::empty());
                            assert(s3.queue.len() == 0);
                            lemma_drain_done(s3, (m - 3) as nat);
                            assert forall|e: usize| #[trigger] s3.get(side, e) == settled_same(w, side, x, v, e) by {}
                            assert forall|e: usize| #[trigger] s3.get(o_side, e) == settled_other(w, side, x, v, e) by {}
                        },
                    }
                },
            }
        },
        None => {
            let t = v.unwrap();
            assert(w.get(o_side, t) != Some(x));
            assert(w1.queue =~= seq![Command::Write { side: o_side, on: t, to: x }]);
            lemma_drain_step(w1, m);
            let s1 = w1.step();
            assert(w1.popped().queue =~= Seq::<Command>::empty());
            match w.get(o_side, t) {
                None => {
                    assert(s1.queue.len() == 0);
                    lemma_drain_done(s1, (m - 1) as nat);
                    assert forall|e: usize| #[trigger] s1.get(side, e) == settled_same(w, side, x, v, e) by {}
                    assert forall|e: usize| #[trigger] s1.get(o_side, e) == settled_other(w, side, x, v, e) by {}
                },
                Some(u) => {
                    assert(w.get(side, u) == Some(t));
                    assert(u != x);
                    assert(s1.queue =~= seq![Command::Remove { side, on: u }]);
                    lemma_drain_step(s1, (m - 1) as nat);
                    let s2 = s1.step();
                    assert(s1.popped().queue =~= Seq::<Command>::empty());
                    assert(s2.queue.len() == 0);
                    lemma_drain_done(s2, (m - 2) as nat);
                    assert forall|e: usize| #[trigger] s2.get(side, e) == settled_same(w, side, x, v, e) by {}
                    assert forall|e: usize| #[trigger] s2.get(o_side, e) == settled_other(w, side, x, v, e) by {}
                },
            }
        },
    }
}


/// Convergence: in a mirrored store with nothing queued, one direct write of either
/// relationship field on a live entity (an insert naming a live entity, or a removal)
/// followed by a flush leaves the store mirrored again, with nothing queued.
pub proof fn law_flush_restores_mirror(w: WorldView, side: Side, x: usize, v: Option<usize>)
    requires
        w.live(x),
        w.queue.len() == 0,
        w.mirrored(),
        v matches Some(t) ==> w.live(t),
    ensures
        ({
            let f = w.write(side, x, v).drain(usize::MAX as nat);
            &&& f.queue.len() == 0
            &&& f.mirrored()
        }),
{
    let f = w.write(side, x, v).drain(usize::MAX as nat);
    let o_side = side.spec_other();
    if w.get(side, x) == v {
        assert(w.write(side, x, v) == w);
        lemma_drain_done(w, usize::MAX as nat);
    } else {
        lemma_write_settles(w, side, x, v);
        lemma_mirrored_sides(w, side);
        assert forall|e: usize| #[trigger] f.get(side, e) is Some implies f.get(
            o_side,
            f.get(side, e).unwrap(),
        ) == Some(e) by {
            let y = f.get(side, e).unwrap();
            assert(f.get(o_side, y) == settled_other(w, side, x, v, y));
            if e != x {
                assert(w.get(side, e) == Some(y));
                assert(w.get(o_side, y) == Some(e));
            }
        }
        assert forall|e: usize| #[trigger] f.get(o_side, e) is Some implies f.get(
            side,
            f.get(o_side, e).unwrap(),
        ) == Some(e) by {
            let y = f.get(o_side, e).unwrap();
            assert(f.get(side, y) == settled_same(w, side, x, v, y));
            if v != Some(e) {
                assert(w.get(o_side, e) == Some(y));
                assert(w.get(side, y) == Some(e));
            }
        }
        assert(mirrored_side(f, side));
        assert(mirrored_side(f, o_side));
        lemma_mirrored_sides(f, side);
    }
}


/// One direct write of a relationship field: `Some`: insert, `None`: removal.
pub struct RelationWrite {
    pub side: Side,
    pub on: usize,
    pub value: Option<usize>,
}

/// Every entity that the write names is alive.
pub open spec fn names_live(w: WorldView, r: RelationWrite) -> bool {
    &&& w.live(r.on)
    &&& (r.value matches Some(t) ==> w.live(t))
}

/// The store after each write in turn, with a flush after each.
pub open spec fn write_each_flushed(w: WorldView, ws: Seq<RelationWrite>) -> WorldView
    decreases ws.len(),
{
    if ws.len() == 0 {
        w
    } else {
        let r = ws.last();
        write_each_flushed(w, ws.drop_last()).write(r.side, r.on, r.value).drain(usize::MAX as nat)
    }
}

/// Convergence over any finite sequence of direct writes of either field, each on
/// live entities and each followed by a flush: from a mirrored store with nothing
/// queued, the store is mirrored after every flush, with nothing queued, and the
/// same entities are alive.
pub proof fn law_flushes_keep_mirror(w: WorldView, ws: Seq<RelationWrite>)
    requires
        w.queue.len() == 0,
        w.mirrored(),
        forall|i: int| 0 <= i < ws.len() ==> names_live(w, #[trigger] ws[i]),
    ensures
        write_each_flushed(w, ws).queue.len() == 0,
        write_each_flushed(w, ws).mirrored(),
        forall|e: usize| #[trigger] write_each_flushed(w, ws).live(e) == w.live(e),
    decreases ws.len(),
{
    if ws.len() > 0 {
        let front = ws.drop_last();
        assert forall|i: int| 0 <= i < front.len() implies names_live(w, #[trigger] front[i]) by {
            assert(front[i] == ws[i]);
        }
        law_flushes_keep_mirror(w, front);
        let p = write_each_flushed(w, front);
        let r = ws.last();
        assert(names_live(w, ws[ws.len() - 1]));
        assert(p.live(r.on));
        if let Some(t) = r.value {
            assert(p.live(t));
        }
        law_flush_restores_mirror(p, r.side, r.on, r.value);
        if p.get(r.side, r.on) == r.value {
            assert(p.write(r.side, r.on, r.value) == p);
            lemma_drain_done(p, usize::MAX as nat);
        } else {
            lemma_write_settles(p, r.side, r.on, r.value);
        }
    }
}

} // verus!
