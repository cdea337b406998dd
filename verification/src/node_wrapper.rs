//! The node that `insert` or `remove` takes out of the map.
use std::ops::Deref;
use vstd::prelude::*;

use crate::Node;

verus! {

/// Wraps a node removed from the map. It dereferences to the value that the node held.
#[derive(Debug)]
pub struct NodeWrapper<K, V> {
    inner: Box<Node<K, V>>,
}

impl<K, V> View for NodeWrapper<K, V> {
    type V = (K, V);

    /// The entry that the removed node held.
    closed spec fn view(&self) -> (K, V) {
        self.inner.entry()
    }
}

impl<K, V> NodeWrapper<K, V> {
    pub(crate) fn new(inner: Box<Node<K, V>>) -> (wrapper: Self)
        ensures
            wrapper@ == inner.entry(),
    {
        NodeWrapper { inner }
    }

    /// The key of the removed node.
    pub fn key(&self) -> (r: &K)
        ensures
            *r == self@.0,
    {
        self.inner.key()
    }
}

impl<K, V> Deref for NodeWrapper<K, V> {
    type Target = V;

    fn deref(&self) -> (r: &V)
        ensures
            *r == self@.1,
    {
        self.inner.value()
    }
}

} // verus!
