//! Tree-shaped containers and the key-value pairs stored in their leaves.

use vstd::prelude::*;
use crate::hamt::{Handle, HAMT};

verus! {

/// A tree-like structure whose nodes expose their buckets.
pub trait Compound<V> {
    /// The buckets of this node.
    fn children(&self) -> &[Handle<V>];
}

impl<V> Compound<V> for HAMT<V> {
    fn children(&self) -> (r: &[Handle<V>])
        ensures
            r@ == self.slots@,
    {
        self.slots.as_slice()
    }
}

/// Access to the key and the value of a stored pair.
pub trait KVPair<K, V> {
    fn key(&self) -> &K;

    fn val(&self) -> &V;

    fn val_mut(&mut self) -> &mut V;

    fn into_val(self) -> V;
}

impl<K, V> KVPair<K, V> for (K, V) {
    fn key(&self) -> (r: &K)
        ensures
            r == &self.0,
    {
        &self.0
    }

    fn val(&self) -> (r: &V)
        ensures
            r == &self.1,
    {
        &self.1
    }

    fn val_mut(&mut self) -> (r: &mut V)
        ensures
            *r == old(self).1,
            final(self).0 == old(self).0,
            final(self).1 == *final(r),
    {
        &mut self.1
    }

    fn into_val(self) -> (r: V)
        ensures
            r == self.1,
    {
        self.1
    }
}

} // verus!
