//! The descent protocol: a method looks at one node and says where to go.

use vstd::prelude::*;
use crate::hamt::{Handle, HAMT};
use crate::slot::{calculate_slot, hash_key, key_hash, slot_of, N_BUCKETS};

verus! {

/// What a method decides at one node.
#[derive(Debug, PartialEq, Eq, Structural)]
pub enum SearchResult {
    /// Nothing under this node.
    NotFound,
    /// The target is the leaf in this bucket.
    Leaf(usize),
    /// Descend through this bucket.
    Path(usize),
}

/// A stateful descender, asked once at each node it visits.
pub trait Method<V> {
    fn select(&mut self, node: &HAMT<V>) -> SearchResult;
}

/// The method that picks the lowest bucket holding a leaf or a node.
pub struct First;

impl First {
    /// The lowest bucket of `node` that is not empty.
    pub fn first_occupied<V>(node: &HAMT<V>) -> (r: Option<usize>)
        ensures
            r matches Some(i) ==> i < node.slots@.len() && !(node.slots@[i as int] is Empty),
            forall|j: int|
                0 <= j < node.slots@.len() && (r is None || j < r->0) ==> #[trigger] node.slots@[j] is Empty,
    {
        let mut i: usize = 0;
        while i < node.slots.len()
            invariant
                i <= node.slots@.len(),
                forall|j: int| 0 <= j < i ==> #[trigger] node.slots@[j] is Empty,
            decreases node.slots@.len() - i,
        {
            match &node.slots[i] {
                Handle::Empty => {},
                _ => {
                    return Some(i);
                },
            }
            i = i + 1;
        }
        None
    }
}

impl<V> Method<V> for First {
    /// The lowest non-empty bucket: `Leaf` when it holds a leaf, `Path` when
    /// it holds a subtree; `NotFound` when every bucket is empty.
    fn select(&mut self, node: &HAMT<V>) -> (r: SearchResult)
        ensures
            r is NotFound <==> forall|j: int| 0 <= j < node.slots@.len() ==> #[trigger] node.slots@[j] is Empty,
            r matches SearchResult::Leaf(i) ==> i < node.slots@.len() && node.slots@[i as int] is Leaf,
            r matches SearchResult::Path(i) ==> i < node.slots@.len() && node.slots@[i as int] is Node,
            r matches SearchResult::Leaf(i) ==> forall|j: int| 0 <= j < i ==> #[trigger] node.slots@[j] is Empty,
            r matches SearchResult::Path(i) ==> forall|j: int| 0 <= j < i ==> #[trigger] node.slots@[j] is Empty,
    {
        match First::first_occupied(node) {
            Some(i) => match &node.slots[i] {
                Handle::Leaf(_, _) => SearchResult::Leaf(i),
                _ => SearchResult::Path(i),
            },
            None => SearchResult::NotFound,
        }
    }
}

/// Descends towards the leaf of one key, one level per call.
pub struct HAMTSearch {
    pub hash: u64,
    pub key: u64,
    pub depth: usize,
}

impl HAMTSearch {
    /// A search for `key`, starting at the root.
    pub fn from(key: &u64) -> (r: Self)
        ensures
            r.hash == key_hash(*key),
            r.key == *key,
            r.depth == 0,
    {
        HAMTSearch { hash: hash_key(*key), key: *key, depth: 0 }
    }

    /// The bucket at the current depth, which is then advanced: `Leaf` when
    /// that bucket holds the key, else `Path`.
    pub fn next_slot<V>(&mut self, node: &HAMT<V>) -> (r: SearchResult)
        requires
            old(self).depth < usize::MAX,
            node.slots@.len() == N_BUCKETS,
        ensures
            final(self).hash == old(self).hash,
            final(self).key == old(self).key,
            final(self).depth == old(self).depth + 1,
            ({
                let s = slot_of(old(self).hash, old(self).depth as nat);
                r == if node.slots@[s as int].is_leaf_with(old(self).key) {
                    SearchResult::Leaf(s as usize)
                } else {
                    SearchResult::Path(s as usize)
                }
            }),
    {
        let slot = calculate_slot(self.hash, self.depth);
        self.depth = self.depth + 1;
        match &node.slots[slot] {
            Handle::Leaf(k, _) => {
                if *k == self.key {
                    SearchResult::Leaf(slot)
                } else {
                    SearchResult::Path(slot)
                }
            },
            _ => SearchResult::Path(slot),
        }
    }
}

impl<V> Method<V> for HAMTSearch {
    /// `next_slot` when the depth can still grow and the node has sixteen
    /// buckets; `NotFound` otherwise, with the search left as it was.
    fn select(&mut self, node: &HAMT<V>) -> (r: SearchResult)
        ensures
            old(self).depth < usize::MAX && node.slots@.len() == N_BUCKETS ==> {
                let s = slot_of(old(self).hash, old(self).depth as nat);
                &&& final(self).hash == old(self).hash
                &&& final(self).key == old(self).key
                &&& final(self).depth == old(self).depth + 1
                &&& r == if node.slots@[s as int].is_leaf_with(old(self).key) {
                    SearchResult::Leaf(s as usize)
                } else {
                    SearchResult::Path(s as usize)
                }
            },
            !(old(self).depth < usize::MAX && node.slots@.len() == N_BUCKETS) ==> r is NotFound && *final(self) == *old(self),
    {
        if self.depth == usize::MAX || node.slots.len() != N_BUCKETS {
            return SearchResult::NotFound;
        }
        self.next_slot(node)
    }
}

} // verus!
