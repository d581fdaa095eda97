//! The components held by one entity.

use std::collections::HashMap;
use vstd::prelude::*;
use crate::chain::Component;

verus! {

broadcast use vstd::std_specs::hash::group_hash_axioms;

/// The components that one entity holds, by kind; at most one value per kind.
pub struct EntityComponents {
    map: HashMap<u64, u64>,
}

impl View for EntityComponents {
    type V = Map<u64, u64>;

    closed spec fn view(&self) -> Map<u64, u64> {
        self.map@
    }
}

impl EntityComponents {
    /// An entity with no components.
    pub fn new() -> (r: Self)
        ensures
            r@ == Map::<u64, u64>::empty(),
    {
        EntityComponents { map: HashMap::new() }
    }

    /// The value of the component of this kind, if the entity holds one.
    pub fn get(&self, kind: u64) -> (r: Option<u64>)
        ensures
            r == (if self@.contains_key(kind) { Some(self@[kind]) } else { None::<u64> }),
    {
        match self.map.get(&kind) {
            Some(v) => Some(*v),
            None => None,
        }
    }

    pub fn contains(&self, kind: u64) -> (r: bool)
        ensures
            r == self@.contains_key(kind),
    {
        self.map.contains_key(&kind)
    }

    /// The number of components held.
    pub fn len(&self) -> (r: usize)
        ensures
            r == self@.len(),
    {
        self.map.len()
    }

    /// Inserts a component, overwriting one of the same kind.
    pub fn insert(&mut self, c: Component)
        ensures
            final(self)@ == old(self)@.insert(c.kind, c.value),
    {
        self.map.insert(c.kind, c.value);
    }

    /// Removes the component of this kind and returns its value, if there was one.
    pub fn remove(&mut self, kind: u64) -> (r: Option<u64>)
        ensures
            final(self)@ == old(self)@.remove(kind),
            r == (if old(self)@.contains_key(kind) { Some(old(self)@[kind]) } else { None::<u64> }),
    {
        self.map.remove(&kind)
    }
}

} // verus!
