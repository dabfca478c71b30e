//! A write-once memoization table from node identifiers to handles.

use vstd::prelude::*;
use std::collections::HashMap;
use crate::id::{lemma_raw_bounded, lemma_raw_injective, NodeId};

verus! {

broadcast use vstd::std_specs::hash::group_hash_axioms;

/// Maps node identifiers, by their raw value, to handles. An entry, once
/// inserted, is never overwritten or removed.
pub struct MemoTable {
    map: HashMap<u32, usize>,
}

impl MemoTable {
    pub closed spec fn view(&self) -> Map<NodeId, usize> {
        Map::new(|k: NodeId| self.map@.contains_key(k.raw() as u32), |k: NodeId| self.map@[k.raw() as u32])
    }

    pub fn new() -> (r: MemoTable)
        ensures
            r@ == Map::<NodeId, usize>::empty(),
    {
        let r = MemoTable { map: HashMap::new() };
        proof {
            assert(r@ =~= Map::<NodeId, usize>::empty());
        }
        r
    }

    pub fn get(&self, k: NodeId) -> (r: Option<usize>)
        ensures
            r == (if self@.contains_key(k) { Some(self@[k]) } else { None::<usize> }),
    {
        match self.map.get(&k.as_u32()) {
            Some(v) => Some(*v),
            None => None,
        }
    }

    /// Inserts an entry for a key that has none yet.
    pub fn insert(&mut self, k: NodeId, v: usize)
        requires
            !old(self)@.contains_key(k),
        ensures
            final(self)@ == old(self)@.insert(k, v),
    {
        self.map.insert(k.as_u32(), v);
        proof {
            assert forall|q: NodeId| #[trigger] self@.contains_key(q) == old(self)@.insert(k, v).contains_key(q) by {
                if q.raw() as u32 == k.raw() as u32 {
                    lemma_raw_bounded(q);
                    lemma_raw_bounded(k);
                    lemma_raw_injective(q, k);
                }
            }
            assert forall|q: NodeId| #[trigger] self@.contains_key(q) implies self@[q] == old(self)@.insert(k, v)[q] by {
                if q.raw() as u32 == k.raw() as u32 {
                    lemma_raw_bounded(q);
                    lemma_raw_bounded(k);
                    lemma_raw_injective(q, k);
                }
            }
            assert(self@ =~= old(self)@.insert(k, v));
        }
    }
}

} // verus!
