//! A node marking a contracted path: a read-only wrapper of the one
//! singleton node left under it.

use crate::node::singleton::SingletonNode;
use crate::{Key, Value};
use vstd::prelude::*;

verus! {

/// An immutable wrapper of a singleton node, signalling that the enclosing
/// indirection node must be contracted away by its parent.
pub struct TombNode<K, V> {
    pub snode: SingletonNode<K, V>,
}

impl<K: Key, V: Value> TombNode<K, V> {
    /// Wraps a singleton node into a tomb.
    pub fn new(snode: SingletonNode<K, V>) -> (t: Self)
        ensures
            t.snode == snode,
    {
        Self { snode }
    }

    /// The singleton node the tomb wraps, revived as a plain leaf.
    pub fn untombed(&self) -> (s: SingletonNode<K, V>)
        ensures
            s == self.snode,
    {
        self.snode.duplicate()
    }
}

} // verus!
