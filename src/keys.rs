use vstd::prelude::*;

use std::collections::HashMap;

use crate::types::{ColKey, FrameId};

verus! {

broadcast use vstd::std_specs::hash::group_hash_axioms;

/// The frame's map from user keys to the colliders that carry them.
pub struct KeyIndex {
    map: HashMap<u64, FrameId>,
}

impl KeyIndex {
    /// The keys registered this frame and their colliders.
    pub closed spec fn view(&self) -> Map<ColKey, FrameId> {
        self.map@
    }

    /// An index with no key.
    pub fn new() -> (r: Self)
        ensures
            r@ == Map::<ColKey, FrameId>::empty(),
    {
        KeyIndex { map: HashMap::new() }
    }

    /// Forgets every key.
    pub fn clear(&mut self)
        ensures
            final(self)@ == Map::<ColKey, FrameId>::empty(),
    {
        self.map.clear();
    }

    /// Registers `key` for collider `id`; returns whether the key was new
    /// this frame. A repeated key now names `id`.
    pub fn insert(&mut self, key: ColKey, id: FrameId) -> (fresh: bool)
        ensures
            fresh == !old(self)@.contains_key(key),
            final(self)@ == old(self)@.insert(key, id),
    {
        let prev = self.map.insert(key, id);
        prev.is_none()
    }

    /// The collider registered for `key` this frame.
    pub fn get(&self, key: ColKey) -> (r: Option<FrameId>)
        ensures
            r == (if self@.contains_key(key) {
                Some(self@[key])
            } else {
                None
            }),
    {
        match self.map.get(&key) {
            Some(id) => Some(*id),
            None => None,
        }
    }
}

} // verus!
