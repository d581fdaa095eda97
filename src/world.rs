//! The host store: entities, the deferred-task queue and its flush, the one-shot
//! markers that defer chain application and child spawning, and the relationship
//! mirror that keeps `Target` and `TargetBy` consistent through hooks.

use vstd::prelude::*;
use crate::chain::{apply_edits, insert_all, Component, DynBundle, Edit, Op};
use crate::entity::EntityComponents;

verus! {

/// One of the two mirrored relationship fields.
#[derive(Clone, Copy, Debug, PartialEq, Eq, Structural)]
pub enum Side {
    Target,
    TargetBy,
}

impl Side {
    pub open spec fn spec_other(self) -> Side {
        match self {
            Side::Target => Side::TargetBy,
            Side::TargetBy => Side::Target,
        }
    }

    /// The field that mirrors this one.
    #[verifier::when_used_as_spec(spec_other)]
    pub fn other(self) -> (r: Side)
        ensures
            r == self.spec_other(),
    {
        match self {
            Side::Target => Side::TargetBy,
            Side::TargetBy => Side::Target,
        }
    }
}

/// A deferred task, run at the next flush.
#[derive(Clone, Copy, Debug, PartialEq, Eq, Structural)]
pub enum Command {
    /// Take the chain marker of the entity and apply it to the entity.
    ApplyChain(usize),
    /// Take the children marker of the entity and spawn one child per chain.
    SpawnChildren(usize),
    /// Write `side = to` on entity `on`.
    Write { side: Side, on: usize, to: usize },
    /// Remove the field `side` from entity `on`.
    Remove { side: Side, on: usize },
}

/// A deferred task found its entity, or the marker it expected, gone.
#[derive(Clone, Copy, Debug, PartialEq, Eq, Structural)]
pub struct StaleReference {
    pub entity: usize,
}

/// What the insert hook of `side` asks for when `x` gets `side = t`, given the
/// mirror field of `t` as it stands: nothing if `t` already points back at `x`.
pub open spec fn insert_action(side: Side, x: usize, t: usize, mirror: Option<usize>) -> Option<Command> {
    if mirror == Some(x) {
        None
    } else {
        Some(Command::Write { side: side.spec_other(), on: t, to: x })
    }
}

/// What the replace hook of `side` asks for when an entity loses `side = old_t`: the
/// removal of the mirror field from `old_t`, unconditionally. Only the entity that
/// holds `side = old_t` writes that mirror, so the removal is not checked again.
pub open spec fn replace_action(side: Side, old_t: usize) -> Command {
    Command::Remove { side: side.spec_other(), on: old_t }
}

pub fn insert_hook(side: Side, x: usize, t: usize, mirror: Option<usize>) -> (r: Option<Command>)
    ensures
        r == insert_action(side, x, t, mirror),
{
    if mirror == Some(x) {
        None
    } else {
        Some(Command::Write { side: side.other(), on: t, to: x })
    }
}

pub fn replace_hook(side: Side, old_t: usize) -> (r: Command)
    ensures
        r == replace_action(side, old_t),
{
    Command::Remove { side: side.other(), on: old_t }
}

/// What an entity holds, as the contracts see it.
pub struct EntityView {
    pub alive: bool,
    pub components: Map<u64, u64>,
    pub chain_marker: Option<Seq<Edit>>,
    pub children_marker: Option<Seq<Seq<Edit>>>,
    pub target: Option<usize>,
    pub target_by: Option<usize>,
    pub parent: Option<usize>,
}

/// The whole store, as the contracts see it: entities by id, and the deferred queue.
pub struct WorldView {
    pub entities: Seq<EntityView>,
    pub queue: Seq<Command>,
}

pub open spec fn field(e: EntityView, side: Side) -> Option<usize> {
    match side {
        Side::Target => e.target,
        Side::TargetBy => e.target_by,
    }
}

pub open spec fn with_field(e: EntityView, side: Side, v: Option<usize>) -> EntityView {
    match side {
        Side::Target => EntityView { target: v, ..e },
        Side::TargetBy => EntityView { target_by: v, ..e },
    }
}

pub open spec fn push_some(q: Seq<Command>, c: Option<Command>) -> Seq<Command> {
    match c {
        Some(c) => q.push(c),
        None => q,
    }
}

pub open spec fn fresh_entity(components: Map<u64, u64>, parent: Option<usize>) -> EntityView {
    EntityView {
        alive: true,
        components,
        chain_marker: None,
        children_marker: None,
        target: None,
        target_by: None,
        parent,
    }
}

impl WorldView {
    pub open spec fn live(self, e: usize) -> bool {
        e < self.entities.len() && self.entities[e as int].alive
    }

    /// The field `side` of entity `e`; nothing for an entity that does not exist.
    pub open spec fn get(self, side: Side, e: usize) -> Option<usize> {
        if self.live(e) {
            field(self.entities[e as int], side)
        } else {
            None
        }
    }

    /// The steady-state invariant: `x` holds `Target = y` exactly when `y` holds
    /// `TargetBy = x`.
    pub open spec fn mirrored(self) -> bool {
        &&& forall|x: usize| #[trigger] self.get(Side::Target, x) is Some ==> self.get(
            Side::TargetBy,
            self.get(Side::Target, x).unwrap(),
        ) == Some(x)
        &&& forall|y: usize| #[trigger] self.get(Side::TargetBy, y) is Some ==> self.get(
            Side::Target,
            self.get(Side::TargetBy, y).unwrap(),
        ) == Some(y)
    }

    pub open spec fn with_entity(self, e: usize, v: EntityView) -> WorldView {
        WorldView { entities: self.entities.update(e as int, v), queue: self.queue }
    }

    /// A direct write of the field `side` on the live entity `x` (`Some`: insert,
    /// `None`: removal), with the hooks it fires. Writing the value already held
    /// changes nothing. Otherwise the replace hook sees the old value and queues the
    /// removal of its mirror; the insert hook sees the new value and may queue the
    /// write of its mirror.
    pub open spec fn write(self, side: Side, x: usize, v: Option<usize>) -> WorldView {
        let old_v = field(self.entities[x as int], side);
        if old_v == v {
            self
        } else {
            let q1 = match old_v {
                Some(o) => self.queue.push(replace_action(side, o)),
                None => self.queue,
            };
            let q2 = match v {
                Some(t) => push_some(q1, insert_action(side, x, t, self.get(side.spec_other(), t))),
                None => q1,
            };
            WorldView {
                entities: self.entities.update(
                    x as int,
                    with_field(self.entities[x as int], side, v),
                ),
                queue: q2,
            }
        }
    }

    /// Puts a chain marker on the live entity `e`. The hook that queues its task runs
    /// only when the entity did not hold one; a second marker replaces the first and
    /// the one queued task applies it.
    pub open spec fn attach_chain(self, e: usize, chain: Seq<Edit>) -> WorldView {
        let ev = self.entities[e as int];
        WorldView {
            entities: self.entities.update(e as int, EntityView { chain_marker: Some(chain), ..ev }),
            queue: if ev.chain_marker is Some {
                self.queue
            } else {
                self.queue.push(Command::ApplyChain(e))
            },
        }
    }

    /// Puts a children marker on the live entity `e`, as `attach_chain` does.
    pub open spec fn attach_children(self, e: usize, chains: Seq<Seq<Edit>>) -> WorldView {
        let ev = self.entities[e as int];
        WorldView {
            entities: self.entities.update(
                e as int,
                EntityView { children_marker: Some(chains), ..ev },
            ),
            queue: if ev.children_marker is Some {
                self.queue
            } else {
                self.queue.push(Command::SpawnChildren(e))
            },
        }
    }

    /// Removes both relationship fields of the live entity `e`, hooks included, then
    /// everything else it holds.
    pub open spec fn despawn(self, e: usize) -> WorldView {
        let w = self.write(Side::Target, e, None).write(Side::TargetBy, e, None);
        w.with_entity(
            e,
            EntityView {
                alive: false,
                components: Map::empty(),
                chain_marker: None,
                children_marker: None,
                target: None,
                target_by: None,
                parent: None,
            },
        )
    }

    /// New entities after the existing ones, children of `p`, one per chain in order,
    /// each holding what its chain gives a fresh entity.
    pub open spec fn with_children(self, p: usize, chains: Seq<Seq<Edit>>) -> WorldView {
        WorldView {
            entities: self.entities + Seq::new(
                chains.len(),
                |i: int| fresh_entity(apply_edits(Map::empty(), chains[i]), Some(p)),
            ),
            queue: self.queue,
        }
    }

    /// The removal of the field `side` from the live entity `e` that a mirror task
    /// performs: the terminal case of the protocol, which fires no hook.
    pub open spec fn clear(self, side: Side, e: usize) -> WorldView {
        self.with_entity(e, with_field(self.entities[e as int], side, None))
    }

    /// The entity that a task names.
    pub open spec fn subject(c: Command) -> usize {
        match c {
            Command::ApplyChain(e) => e,
            Command::SpawnChildren(e) => e,
            Command::Write { on, .. } => on,
            Command::Remove { on, .. } => on,
        }
    }

    /// A task is stale when its entity is gone, or the marker it takes is not there.
    pub open spec fn stale(self, c: Command) -> bool {
        let e = WorldView::subject(c);
        ||| !self.live(e)
        ||| (c is ApplyChain && self.entities[e as int].chain_marker is None)
        ||| (c is SpawnChildren && self.entities[e as int].children_marker is None)
    }

    /// Runs one task; a stale one changes nothing.
    pub open spec fn run(self, c: Command) -> WorldView {
        if self.stale(c) {
            self
        } else {
            match c {
                Command::ApplyChain(e) => {
                    let ev = self.entities[e as int];
                    self.with_entity(
                        e,
                        EntityView {
                            chain_marker: None,
                            components: apply_edits(ev.components, ev.chain_marker.unwrap()),
                            ..ev
                        },
                    )
                },
                Command::SpawnChildren(e) => {
                    let ev = self.entities[e as int];
                    self.with_entity(e, EntityView { children_marker: None, ..ev }).with_children(
                        e,
                        ev.children_marker.unwrap(),
                    )
                },
                Command::Write { side, on, to } => self.write(side, on, Some(to)),
                Command::Remove { side, on } => self.clear(side, on),
            }
        }
    }

    pub open spec fn popped(self) -> WorldView {
        WorldView { entities: self.entities, queue: self.queue.drop_first() }
    }

    /// Takes the first task off the queue and runs it.
    pub open spec fn step(self) -> WorldView {
        self.popped().run(self.queue[0])
    }

    /// Runs tasks first in, first out, those that they queue included, until the
    /// queue is empty or `fuel` tasks have run.
    pub open spec fn drain(self, fuel: nat) -> WorldView
        decreases fuel,
    {
        if fuel == 0 || self.queue.len() == 0 {
            self
        } else {
            self.step().drain((fuel - 1) as nat)
        }
    }

    /// The stale tasks that `drain` meets, in order.
    pub open spec fn drain_stale(self, fuel: nat) -> Seq<StaleReference>
        decreases fuel,
    {
        if fuel == 0 || self.queue.len() == 0 {
            Seq::empty()
        } else {
            let c = self.queue[0];
            let here = if self.popped().stale(c) {
                seq![StaleReference { entity: WorldView::subject(c) }]
            } else {
                Seq::empty()
            };
            here + self.step().drain_stale((fuel - 1) as nat)
        }
    }
}

struct EntityRecord {
    alive: bool,
    components: EntityComponents,
    chain_marker: Option<DynBundle>,
    children_marker: Option<Vec<DynBundle>>,
    target: Option<usize>,
    target_by: Option<usize>,
    parent: Option<usize>,
}

pub open spec fn chains_view(v: Seq<DynBundle>) -> Seq<Seq<Edit>> {
    Seq::new(v.len(), |i: int| v[i]@)
}

impl View for EntityRecord {
    type V = EntityView;

    closed spec fn view(&self) -> EntityView {
        EntityView {
            alive: self.alive,
            components: self.components@,
            chain_marker: match self.chain_marker {
                Some(b) => Some(b@),
                None => None,
            },
            children_marker: match self.children_marker {
                Some(v) => Some(chains_view(v@)),
                None => None,
            },
            target: self.target,
            target_by: self.target_by,
            parent: self.parent,
        }
    }
}

/// The host store: entities by id (ids are never reused), their components, the
/// transient markers, the two relationship fields, the hierarchy, and the queue of
/// deferred tasks that `flush` drains.
pub struct World {
    entities: Vec<EntityRecord>,
    queue: Vec<Command>,
}

impl View for World {
    type V = WorldView;

    closed spec fn view(&self) -> WorldView {
        WorldView {
            entities: Seq::new(self.entities@.len(), |i: int| self.entities@[i]@),
            queue: self.queue@,
        }
    }
}

impl World {
    /// A store with no entities and nothing queued.
    pub fn new() -> (r: Self)
        ensures
            r@.entities.len() == 0,
            r@.queue.len() == 0,
    {
        let r = World { entities: Vec::new(), queue: Vec::new() };
        assert(r@.entities =~= Seq::<EntityView>::empty());
        r
    }

    /// The number of entities ever spawned; ids run from zero below it.
    pub fn len(&self) -> (r: usize)
        ensures
            r == self@.entities.len(),
    {
        self.entities.len()
    }

    pub fn is_alive(&self, e: usize) -> (r: bool)
        ensures
            r == self@.live(e),
    {
        e < self.entities.len() && self.entities[e].alive
    }

    /// A new entity with nothing on it.
    pub fn spawn(&mut self) -> (r: usize)
        ensures
            r == old(self)@.entities.len(),
            final(self)@ == (WorldView {
                entities: old(self)@.entities.push(fresh_entity(Map::empty(), None)),
                queue: old(self)@.queue,
            }),
    {
        self.spawn_with(EntityComponents::new(), None)
    }

    fn spawn_with(&mut self, components: EntityComponents, parent: Option<usize>) -> (r: usize)
        ensures
            r == old(self)@.entities.len(),
            final(self)@ == (WorldView {
                entities: old(self)@.entities.push(fresh_entity(components@, parent)),
                queue: old(self)@.queue,
            }),
    {
        let r = self.entities.len();
        let rec = EntityRecord {
            alive: true,
            components,
            chain_marker: None,
            children_marker: None,
            target: None,
            target_by: None,
            parent,
        };
        self.entities.push(rec);
        assert(self@.entities =~= old(self)@.entities.push(fresh_entity(components@, parent)));
        r
    }

    /// The value of the component of this kind on `e`, if `e` is alive and holds one.
    pub fn get_component(&self, e: usize, kind: u64) -> (r: Option<u64>)
        ensures
            r == (if self@.live(e) && self@.entities[e as int].components.contains_key(kind) {
                Some(self@.entities[e as int].components[kind])
            } else {
                None::<u64>
            }),
    {
        if self.is_alive(e) {
            self.entities[e].components.get(kind)
        } else {
            None
        }
    }

    /// The number of components on `e`; zero if `e` is not alive.
    pub fn component_count(&self, e: usize) -> (r: usize)
        ensures
            r == (if self@.live(e) { self@.entities[e as int].components.len() } else { 0 }),
    {
        if self.is_alive(e) {
            self.entities[e].components.len()
        } else {
            0
        }
    }

    /// The relationship field `side` of `e`.
    pub fn relation(&self, side: Side, e: usize) -> (r: Option<usize>)
        ensures
            r == self@.get(side, e),
    {
        if self.is_alive(e) {
            match side {
                Side::Target => self.entities[e].target,
                Side::TargetBy => self.entities[e].target_by,
            }
        } else {
            None
        }
    }

    /// The parent of `e` in the hierarchy.
    pub fn parent(&self, e: usize) -> (r: Option<usize>)
        ensures
            r == (if self@.live(e) { self@.entities[e as int].parent } else { None }),
    {
        if self.is_alive(e) {
            self.entities[e].parent
        } else {
            None
        }
    }

    /// The deferred tasks, first to run first.
    pub fn pending(&self) -> (r: Vec<Command>)
        ensures
            r@ == self@.queue,
    {
        let mut r: Vec<Command> = Vec::new();
        let mut i: usize = 0;
        while i < self.queue.len()
            invariant
                i <= self.queue@.len(),
                r@ == self.queue@.subrange(0, i as int),
            decreases self.queue@.len() - i,
        {
            r.push(self.queue[i]);
            i = i + 1;
            assert(r@ =~= self.queue@.subrange(0, i as int));
        }
        assert(self.queue@.subrange(0, i as int) =~= self.queue@);
        r
    }

    fn enqueue(&mut self, c: Option<Command>)
        ensures
            final(self)@ == (WorldView { entities: old(self)@.entities, queue: push_some(old(self)@.queue, c) }),
    {
        match c {
            Some(c) => self.queue.push(c),
            None => {},
        }
    }

    /// Writes the relationship field and runs its hooks; `x` must be alive.
    fn write_field(&mut self, side: Side, x: usize, v: Option<usize>)
        requires
            old(self)@.live(x),
        ensures
            final(self)@ == old(self)@.write(side, x, v),
    {
        let xi = x;
        let old_v = match side {
            Side::Target => self.entities[xi].target,
            Side::TargetBy => self.entities[xi].target_by,
        };
        if old_v == v {
            return;
        }
        let ghost w0 = self@;
        let other = side.other();
        match old_v {
            Some(o) => {
                let c = replace_hook(side, o);
                self.queue.push(c);
            },
            None => {},
        }
        match v {
            Some(t) => {
                let mirror = self.relation(other, t);
                assert(self@.get(other, t) == w0.get(other, t));
                let c = insert_hook(side, x, t, mirror);
                self.enqueue(c);
            },
            None => {},
        }
        match side {
            Side::Target => {
                self.entities[xi].target = v;
            },
            Side::TargetBy => {
                self.entities[xi].target_by = v;
            },
        }
        assert(self@.entities =~= w0.entities.update(x as int, with_field(w0.entities[x as int], side, v)));
    }

    /// Inserts `side = t` on the live entity `x`, running the hooks.
    pub fn insert_relation(&mut self, side: Side, x: usize, t: usize)
        requires
            old(self)@.live(x),
        ensures
            final(self)@ == old(self)@.write(side, x, Some(t)),
    {
        self.write_field(side, x, Some(t));
    }

    /// Removes the field `side` from the live entity `x`, running the hooks.
    pub fn remove_relation(&mut self, side: Side, x: usize)
        requires
            old(self)@.live(x),
        ensures
            final(self)@ == old(self)@.write(side, x, None),
    {
        self.write_field(side, x, None);
    }

    /// Inserts the components on the live entity `e`, in order.
    pub fn insert_components(&mut self, e: usize, bundle: Vec<Component>)
        requires
            old(self)@.live(e),
        ensures
            final(self)@ == old(self)@.with_entity(
                e,
                EntityView {
                    components: insert_all(old(self)@.entities[e as int].components, bundle@),
                    ..old(self)@.entities[e as int]
                },
            ),
    {
        let op = Op::Insert(bundle);
        op.apply(&mut self.entities[e].components);
        assert(self@.entities =~= old(self)@.with_entity(
            e,
            EntityView {
                components: insert_all(old(self)@.entities[e as int].components, bundle@),
                ..old(self)@.entities[e as int]
            },
        ).entities);
    }

    /// Attaches a chain to the live entity `e`, to be applied to it at the next flush.
    pub fn attach(&mut self, e: usize, chain: DynBundle)
        requires
            old(self)@.live(e),
        ensures
            final(self)@ == old(self)@.attach_chain(e, chain@),
    {
        let had = self.entities[e].chain_marker.is_some();
        self.entities[e].chain_marker = Some(chain);
        if !had {
            self.queue.push(Command::ApplyChain(e));
        }
        assert(self@.entities =~= old(self)@.attach_chain(e, chain@).entities);
    }

    /// Attaches chains to the live entity `e`: at the next flush, one child of `e` is
    /// spawned per chain, in order, each built by its chain.
    pub fn attach_children(&mut self, e: usize, chains: Vec<DynBundle>)
        requires
            old(self)@.live(e),
        ensures
            final(self)@ == old(self)@.attach_children(e, chains_view(chains@)),
    {
        let ghost cv = chains_view(chains@);
        let had = self.entities[e].children_marker.is_some();
        self.entities[e].children_marker = Some(chains);
        if !had {
            self.queue.push(Command::SpawnChildren(e));
        }
        assert(self@.entities =~= old(self)@.attach_children(e, cv).entities);
    }

    /// Despawns the live entity `e`: its relationship fields are removed first, with
    /// their hooks, then all it holds.
    pub fn despawn(&mut self, e: usize)
        requires
            old(self)@.live(e),
        ensures
            final(self)@ == old(self)@.despawn(e),
    {
        self.write_field(Side::Target, e, None);
        self.write_field(Side::TargetBy, e, None);
        assert(self@.entities.len() == old(self)@.entities.len());
        self.entities.set(e, EntityRecord {
            alive: false,
            components: EntityComponents::new(),
            chain_marker: None,
            children_marker: None,
            target: None,
            target_by: None,
            parent: None,
        });
        assert(self@.entities =~= old(self)@.despawn(e).entities);
    }

    /// Runs one task that has been taken off the queue.
    fn run_command(&mut self, c: Command) -> (r: Result<(), StaleReference>)
        ensures
            final(self)@ == old(self)@.run(c),
            r is Err <==> old(self)@.stale(c),
            r matches Err(s) ==> s.entity == WorldView::subject(c),
    {
        match c {
            Command::ApplyChain(e) => {
                if !self.is_alive(e) {
                    return Err(StaleReference { entity: e });
                }
                let marker = self.entities[e].chain_marker.take();
                match marker {
                    None => {
                        assert(self@.entities =~= old(self)@.entities);
                        Err(StaleReference { entity: e })
                    },
                    Some(chain) => {
                        chain.apply(&mut self.entities[e].components);
                        assert(self@.entities =~= old(self)@.run(c).entities);
                        Ok(())
                    },
                }
            },
            Command::SpawnChildren(e) => {
                if !self.is_alive(e) {
                    return Err(StaleReference { entity: e });
                }
                let marker = self.entities[e].children_marker.take();
                match marker {
                    None => {
                        assert(self@.entities =~= old(self)@.entities);
                        Err(StaleReference { entity: e })
                    },
                    Some(chains) => {
                        let ghost w1 = self@;
                        assert(w1.entities =~= old(self)@.with_entity(
                            e,
                            EntityView { children_marker: None, ..old(self)@.entities[e as int] },
                        ).entities);
                        self.spawn_children(e, &chains);
                        assert(old(self)@.entities[e as int].children_marker == Some(chains_view(chains@)));
                        Ok(())
                    },
                }
            },
            Command::Write { side, on, to } => {
                if !self.is_alive(on) {
                    return Err(StaleReference { entity: on });
                }
                self.write_field(side, on, Some(to));
                Ok(())
            },
            Command::Remove { side, on } => {
                if !self.is_alive(on) {
                    return Err(StaleReference { entity: on });
                }
                match side {
                    Side::Target => {
                        self.entities[on].target = None;
                    },
                    Side::TargetBy => {
                        self.entities[on].target_by = None;
                    },
                }
                assert(self@.entities =~= old(self)@.clear(side, on).entities);
                Ok(())
            },
        }
    }

    fn spawn_children(&mut self, p: usize, chains: &Vec<DynBundle>)
        ensures
            final(self)@ == old(self)@.with_children(p, chains_view(chains@)),
    {
        let ghost base = old(self)@;
        let ghost cv = chains_view(chains@);
        let mut i: usize = 0;
        while i < chains.len()
            invariant
                i <= chains@.len(),
                cv == chains_view(chains@),
                self@ == base.with_children(p, cv.subrange(0, i as int)),
            decreases chains@.len() - i,
        {
            let mut comps = EntityComponents::new();
            chains[i].apply(&mut comps);
            self.spawn_with(comps, Some(p));
            proof {
                assert(cv.subrange(0, i + 1).last() == cv[i as int]);
                assert(self@.entities =~= base.with_children(p, cv.subrange(0, i + 1)).entities);
            }
            i = i + 1;
        }
        assert(cv.subrange(0, i as int) =~= cv);
    }

    /// Drains the queue first in, first out: the tasks that running tasks queue run in
    /// the same flush. Stale tasks are dropped and returned, in order. A cascade that
    /// never settles is cut off after `usize::MAX` tasks.
    pub fn flush(&mut self) -> (r: Vec<StaleReference>)
        ensures
            final(self)@ == old(self)@.drain(usize::MAX as nat),
            r@ == old(self)@.drain_stale(usize::MAX as nat),
    {
        let mut stale: Vec<StaleReference> = Vec::new();
        let mut fuel: usize = usize::MAX;
        while fuel > 0 && self.queue.len() > 0
            invariant
                self@.drain(fuel as nat) == old(self)@.drain(usize::MAX as nat),
                stale@ + self@.drain_stale(fuel as nat) == old(self)@.drain_stale(usize::MAX as nat),
            decreases fuel,
        {
            let ghost w = self@;
            let ghost s0 = stale@;
            let c = self.queue.remove(0);
            assert(self@ == w.popped());
            let res = self.run_command(c);
            match res {
                Ok(()) => {},
                Err(s) => {
                    stale.push(s);
                },
            }
            fuel = fuel - 1;
            proof {
                let here = if w.popped().stale(c) {
                    seq![StaleReference { entity: WorldView::subject(c) }]
                } else {
                    Seq::<StaleReference>::empty()
                };
                assert(self@ == w.step());
                assert(w.drain_stale((fuel + 1) as nat) == here + self@.drain_stale(fuel as nat));
                assert(stale@ =~= s0 + here);
                assert(s0 + (here + self@.drain_stale(fuel as nat)) =~= stale@ + self@.drain_stale(
                    fuel as nat,
                ));
            }
        }
        stale
    }
}

} // verus!
