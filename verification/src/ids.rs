//! Pet numbers mapped to where the pet stands in a list, kept in a
//! `BTreeMap`.
use std::collections::BTreeMap;
use vstd::prelude::*;

verus! {

/// Which place of a list each pet number has.
pub struct IdIndex {
    map: BTreeMap<i32, usize>,
}

impl View for IdIndex {
    type V = Map<i32, usize>;

    closed spec fn view(&self) -> Map<i32, usize> {
        self.map@
    }
}

impl IdIndex {
    /// No numbers yet.
    pub fn new() -> (r: Self)
        ensures
            r@ == Map::<i32, usize>::empty(),
    {
        IdIndex { map: BTreeMap::new() }
    }

    /// The place of number `id`, if it has one.
    pub fn place_of(&self, id: i32) -> (r: Option<usize>)
        ensures
            match r {
                Some(i) => self@.contains_key(id) && self@[id] == i,
                None => !self@.contains_key(id),
            },
    {
        broadcast use vstd::laws_cmp::group_laws_cmp;
        match self.map.get(&id) {
            Some(i) => Some(*i),
            None => None,
        }
    }

    /// Number `id` now has place `i`.
    pub fn set_place(&mut self, id: i32, i: usize)
        ensures
            final(self)@ == old(self)@.insert(id, i),
    {
        broadcast use vstd::laws_cmp::group_laws_cmp;
        self.map.insert(id, i);
    }
}

} // verus!
