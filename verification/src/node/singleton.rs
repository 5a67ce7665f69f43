//! A node that represents a single entry of the trie.

use crate::{Key, Value};
use vstd::prelude::*;

verus! {

/// An immutable key/value leaf.
pub struct SingletonNode<K, V> {
    pub key: K,
    pub value: V,
}

impl<K, V> SingletonNode<K, V> {
    /// Creates a new singleton node with the given key and value.
    pub fn new(key: K, value: V) -> (s: Self)
        ensures
            s.key == key,
            s.value == value,
    {
        Self { key, value }
    }

    /// Returns the key of the singleton node.
    pub fn key(&self) -> (k: &K)
        ensures
            *k == self.key,
    {
        &self.key
    }

    /// Returns the value of the singleton node.
    pub fn value(&self) -> (v: &V)
        ensures
            *v == self.value,
    {
        &self.value
    }
}

impl<K: Key, V: Value> SingletonNode<K, V> {
    /// A copy equal to the original.
    pub fn duplicate(&self) -> (s: Self)
        ensures
            s == *self,
    {
        Self { key: self.key.key_clone(), value: self.value.val_clone() }
    }
}

} // verus!
