//! Prototype chains: persistent, shareable sequences of component edits, and the
//! applicator that runs one on an entity, root first.

use std::sync::Arc;
use vstd::prelude::*;
use crate::entity::EntityComponents;

verus! {

/// One component value: its type descriptor and its payload.
#[derive(Clone, Copy, Debug, PartialEq, Eq, Structural)]
pub struct Component {
    pub kind: u64,
    pub value: u64,
}

/// One edit of an entity's components.
#[derive(Debug)]
pub enum Op {
    Insert(Vec<Component>),
    Remove(Vec<u64>),
}

/// The meaning of an `Op`.
pub enum Edit {
    Insert(Seq<Component>),
    Remove(Seq<u64>),
}

impl View for Op {
    type V = Edit;

    open spec fn view(&self) -> Edit {
        match self {
            Op::Insert(cs) => Edit::Insert(cs@),
            Op::Remove(ks) => Edit::Remove(ks@),
        }
    }
}

/// Inserts the components in order; a later one of the same kind overwrites an earlier one.
pub open spec fn insert_all(m: Map<u64, u64>, cs: Seq<Component>) -> Map<u64, u64>
    decreases cs.len(),
{
    if cs.len() == 0 {
        m
    } else {
        insert_all(m, cs.drop_last()).insert(cs.last().kind, cs.last().value)
    }
}

/// Removes the components of the given kinds, where present.
pub open spec fn remove_all(m: Map<u64, u64>, ks: Seq<u64>) -> Map<u64, u64>
    decreases ks.len(),
{
    if ks.len() == 0 {
        m
    } else {
        remove_all(m, ks.drop_last()).remove(ks.last())
    }
}

pub open spec fn apply_edit(m: Map<u64, u64>, e: Edit) -> Map<u64, u64> {
    match e {
        Edit::Insert(cs) => insert_all(m, cs),
        Edit::Remove(ks) => remove_all(m, ks),
    }
}

fn copy_vec<T: Copy>(v: &Vec<T>) -> (r: Vec<T>)
    ensures
        r@ == v@,
{
    let mut r: Vec<T> = Vec::new();
    let mut i: usize = 0;
    while i < v.len()
        invariant
            i <= v@.len(),
            r@ == v@.subrange(0, i as int),
        decreases v@.len() - i,
    {
        r.push(v[i]);
        i = i + 1;
        assert(r@ =~= v@.subrange(0, i as int));
    }
    assert(v@.subrange(0, i as int) =~= v@);
    r
}

impl Clone for Op {
    fn clone(&self) -> (r: Self)
        ensures
            r@ == self@,
    {
        match self {
            Op::Insert(cs) => Op::Insert(copy_vec(cs)),
            Op::Remove(ks) => Op::Remove(copy_vec(ks)),
        }
    }
}

impl Op {
    /// Performs this edit on one entity.
    pub fn apply(&self, entity: &mut EntityComponents)
        ensures
            final(entity)@ == apply_edit(old(entity)@, self@),
    {
        match self {
            Op::Insert(cs) => {
                let mut i: usize = 0;
                while i < cs.len()
                    invariant
                        i <= cs@.len(),
                        entity@ == insert_all(old(entity)@, cs@.subrange(0, i as int)),
                    decreases cs@.len() - i,
                {
                    proof {
                        assert(cs@.subrange(0, i + 1).drop_last() =~= cs@.subrange(0, i as int));
                    }
                    entity.insert(cs[i]);
                    i = i + 1;
                }
                assert(cs@.subrange(0, i as int) =~= cs@);
            },
            Op::Remove(ks) => {
                let mut i: usize = 0;
                while i < ks.len()
                    invariant
                        i <= ks@.len(),
                        entity@ == remove_all(old(entity)@, ks@.subrange(0, i as int)),
                    decreases ks@.len() - i,
                {
                    proof {
                        assert(ks@.subrange(0, i + 1).drop_last() =~= ks@.subrange(0, i as int));
                    }
                    entity.remove(ks[i]);
                    i = i + 1;
                }
                assert(ks@.subrange(0, i as int) =~= ks@);
            },
        }
    }
}

/// Runs the edits first to last.
pub open spec fn apply_edits(m: Map<u64, u64>, es: Seq<Edit>) -> Map<u64, u64>
    decreases es.len(),
{
    if es.len() == 0 {
        m
    } else {
        apply_edit(apply_edits(m, es.drop_last()), es.last())
    }
}

/// Running two lists of edits one after the other is running their concatenation.
pub proof fn lemma_apply_edits_concat(m: Map<u64, u64>, a: Seq<Edit>, b: Seq<Edit>)
    ensures
        apply_edits(m, a + b) == apply_edits(apply_edits(m, a), b),
    decreases b.len(),
{
    if b.len() == 0 {
        assert(a + b =~= a);
    } else {
        lemma_apply_edits_concat(m, a, b.drop_last());
        assert((a + b).drop_last() =~= a + b.drop_last());
    }
}

/// Relies on `Arc::clone`: the new pointer shares the allocation, so it points to the same value.
#[verifier::external_body]
fn share<T>(a: &Arc<T>) -> (r: Arc<T>)
    ensures
        r == *a,
{
    Arc::clone(a)
}

/// What can stand as a chain: a chain itself, or a bundle of components.
pub trait IntoDynBundle: Sized {
    /// The edits of the chain that this value becomes.
    spec fn dynb_edits(&self) -> Seq<Edit>;

    fn into_dynb(self) -> (r: DynBundle)
        ensures
            r@ == self.dynb_edits(),
    ;
}

/// The edits of `base` with each item's edits put before it in turn, first item first.
pub open spec fn prepend_each<B: IntoDynBundle>(base: Seq<Edit>, items: Seq<B>) -> Seq<Edit>
    decreases items.len(),
{
    if items.len() == 0 {
        base
    } else {
        items.last().dynb_edits() + prepend_each(base, items.drop_last())
    }
}

/// A persistent chain of edits. The parent's edits run before this node's own edit;
/// building a new chain never changes an existing one, it shares it as a parent.
pub struct DynBundle {
    op: Arc<Op>,
    parent: Option<Arc<DynBundle>>,
}

impl View for DynBundle {
    type V = Seq<Edit>;

    /// The edits of the chain, root first.
    closed spec fn view(&self) -> Seq<Edit>
        decreases self,
    {
        match self.parent {
            Some(p) => (*p).view().push(self.op@),
            None => seq![self.op@],
        }
    }
}

impl Clone for DynBundle {
    fn clone(&self) -> (r: Self)
        ensures
            r == *self,
    {
        let parent = match &self.parent {
            Some(p) => Some(share(p)),
            None => None,
        };
        DynBundle { op: share(&self.op), parent }
    }
}

impl DynBundle {
    /// The empty chain: one insert of no components, and no parent.
    pub fn new() -> (r: Self)
        ensures
            r@ == seq![Edit::Insert(Seq::<Component>::empty())],
    {
        let r = DynBundle { op: Arc::new(Op::Insert(Vec::new())), parent: None };
        assert(r.op@ == Edit::Insert(Seq::<Component>::empty()));
        r
    }

    /// A new chain on top of this one that inserts `bundle`.
    pub fn add(&self, bundle: Vec<Component>) -> (r: Self)
        ensures
            r@ == self@.push(Edit::Insert(bundle@)),
    {
        DynBundle { op: Arc::new(Op::Insert(bundle)), parent: Some(Arc::new(self.clone())) }
    }

    /// A new chain on top of this one whose next edits are those of the nested chain
    /// `inner`, performed at this point of the order.
    pub fn add_chain(&self, inner: DynBundle) -> (r: Self)
        ensures
            r@ == self@ + inner@,
    {
        inner.append_chain(self.clone())
    }

    /// A new chain on top of this one that removes the components of the given kinds.
    pub fn del(&self, kinds: Vec<u64>) -> (r: Self)
        ensures
            r@ == self@.push(Edit::Remove(kinds@)),
    {
        DynBundle { op: Arc::new(Op::Remove(kinds)), parent: Some(Arc::new(self.clone())) }
    }

    /// A chain that inserts `bundle` on top of the empty chain.
    pub fn new_add(bundle: Vec<Component>) -> (r: Self)
        ensures
            r@ == seq![Edit::Insert(Seq::<Component>::empty()), Edit::Insert(bundle@)],
    {
        let r = DynBundle::new().add(bundle);
        assert(r@ =~= seq![Edit::Insert(Seq::<Component>::empty()), Edit::Insert(bundle@)]);
        r
    }

    /// A chain that removes the given kinds, on top of the empty chain. It does not
    /// depend on `self`.
    pub fn new_del(&self, kinds: Vec<u64>) -> (r: Self)
        ensures
            r@ == seq![Edit::Insert(Seq::<Component>::empty()), Edit::Remove(kinds@)],
    {
        let r = DynBundle::new().del(kinds);
        assert(r@ =~= seq![Edit::Insert(Seq::<Component>::empty()), Edit::Remove(kinds@)]);
        r
    }

    /// The empty chain with each item appended in turn (see `append_many`).
    pub fn new_many<B: IntoDynBundle>(items: Vec<B>) -> (r: Self)
        ensures
            r@ == prepend_each(seq![Edit::Insert(Seq::<Component>::empty())], items@),
    {
        DynBundle::new().append_many(items)
    }

    /// A new chain whose edits are those of `other` followed by those of this chain,
    /// so that this chain's edits win where both touch a kind.
    pub fn append<B: IntoDynBundle>(&self, other: B) -> (r: Self)
        ensures
            r@ == other.dynb_edits() + self@,
    {
        let other = other.into_dynb();
        self.append_chain(other)
    }

    /// `append` when `other` is present; otherwise a chain with the same edits as this one.
    pub fn append_some<B: IntoDynBundle>(&self, other: Option<B>) -> (r: Self)
        ensures
            r@ == (match other {
                Some(b) => b.dynb_edits() + self@,
                None => self@,
            }),
    {
        match other {
            Some(b) => self.append(b),
            None => self.clone(),
        }
    }

    /// Appends each item in turn, first to last: each appended item's edits run
    /// before those of everything appended earlier, and this chain's edits run last.
    pub fn append_many<B: IntoDynBundle>(&self, items: Vec<B>) -> (r: Self)
        ensures
            r@ == prepend_each(self@, items@),
    {
        let ghost all = items@;
        let n: usize = items.len();
        let mut items = items;
        let mut acc = self.clone();
        let mut k: usize = 0;
        while items.len() > 0
            invariant
                k + items@.len() == all.len(),
                all.len() == n,
                items@ == all.subrange(k as int, all.len() as int),
                acc@ == prepend_each(self@, all.subrange(0, k as int)),
            decreases items@.len(),
        {
            let item = items.remove(0);
            proof {
                assert(item == all[k as int]);
                assert(all.subrange(0, k + 1).drop_last() =~= all.subrange(0, k as int));
                assert(items@ =~= all.subrange(k + 1, all.len() as int));
            }
            acc = acc.append(item);
            k = k + 1;
        }
        assert(all.subrange(0, k as int) =~= all);
        acc
    }

    fn append_chain(&self, other: DynBundle) -> (r: Self)
        ensures
            r@ == other@ + self@,
        decreases self,
    {
        let parent = match &self.parent {
            Some(p) => {
                let q: &DynBundle = p;
                q.append_chain(other)
            },
            None => other,
        };
        let r = DynBundle { op: share(&self.op), parent: Some(Arc::new(parent)) };
        assert(r@ =~= other@ + self@);
        r
    }

    /// The edits of the chain, root first: the order in which `apply` performs them.
    pub fn ops(&self) -> (r: Vec<Op>)
        ensures
            r@.len() == self@.len(),
            forall|i: int| 0 <= i < r@.len() ==> (#[trigger] r@[i])@ == self@[i],
        decreases self,
    {
        let mut r = match &self.parent {
            Some(p) => {
                let q: &DynBundle = p;
                q.ops()
            },
            None => Vec::new(),
        };
        let ghost before = r@;
        let op: &Op = &self.op;
        r.push(op.clone());
        proof {
            assert(self@.last() == self.op@);
            assert(self@.drop_last() =~= (match self.parent {
                Some(p) => (*p)@,
                None => Seq::<Edit>::empty(),
            }));
            assert forall|i: int| 0 <= i < r@.len() implies (#[trigger] r@[i])@ == self@[i] by {
                if i < r@.len() - 1 {
                    assert(r@[i] == before[i]);
                    assert(self@[i] == self@.drop_last()[i]);
                }
            }
        }
        r
    }

    /// Applies the chain to one entity: the parent first, then this node's edit.
    pub fn apply(&self, entity: &mut EntityComponents)
        ensures
            final(entity)@ == apply_edits(old(entity)@, self@),
        decreases self,
    {
        let ghost before = entity@;
        match &self.parent {
            Some(p) => {
                let q: &DynBundle = p;
                q.apply(entity);
            },
            None => {},
        }
        proof {
            assert(self@.last() == self.op@);
            assert(self@.drop_last() =~= (match self.parent {
                Some(p) => (*p)@,
                None => Seq::<Edit>::empty(),
            }));
            assert(entity@ == apply_edits(before, self@.drop_last()));
        }
        self.op.apply(entity);
    }
}

impl Default for DynBundle {
    fn default() -> (r: Self)
        ensures
            r@ == seq![Edit::Insert(Seq::<Component>::empty())],
    {
        DynBundle::new()
    }
}

impl IntoDynBundle for DynBundle {
    open spec fn dynb_edits(&self) -> Seq<Edit> {
        self@
    }

    fn into_dynb(self) -> (r: DynBundle) {
        self
    }
}

impl IntoDynBundle for Vec<Component> {
    open spec fn dynb_edits(&self) -> Seq<Edit> {
        seq![Edit::Insert(Seq::<Component>::empty()), Edit::Insert(self@)]
    }

    fn into_dynb(self) -> (r: DynBundle) {
        DynBundle::new_add(self)
    }
}

impl IntoDynBundle for Component {
    open spec fn dynb_edits(&self) -> Seq<Edit> {
        seq![Edit::Insert(Seq::<Component>::empty()), Edit::Insert(seq![*self])]
    }

    fn into_dynb(self) -> (r: DynBundle) {
        let bundle = vec![self];
        assert(bundle@ =~= seq![self]);
        DynBundle::new_add(bundle)
    }
}

} // verus!
