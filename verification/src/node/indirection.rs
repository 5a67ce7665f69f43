//! The indirection node: the only mutable node of the trie. It holds the
//! main node of its subtree and the generation token of the tree version
//! it belongs to.

use crate::node::main::{main_sim, MainNode};
use crate::{Generation, Key, Value};
use vstd::prelude::*;

verus! {

/// An indirection node: a slot holding a main node, tagged with a
/// generation. Under exclusive access the atomic slot of the concurrent
/// protocol becomes a plain owned field; the generation-compare-and-swap
/// functions are the only writers.
pub struct IndirectionNode<K, V> {
    pub main: MainNode<K, V>,
    pub generation: Generation,
}

impl<K: Key, V: Value> IndirectionNode<K, V> {
    /// Creates an indirection node over the given main node, in the given
    /// generation.
    pub fn new(main: MainNode<K, V>, generation: Generation) -> (r: Self)
        ensures
            r.main == main,
            r.generation == generation,
    {
        Self { main, generation }
    }

    /// A copy of the indirection node, similar to the original.
    pub fn duplicate(&self, Ghost(lvl): Ghost<nat>) -> (r: Self)
        ensures
            r.generation == self.generation,
            main_sim(r.main, self.main, lvl),
        decreases *self,
    {
        Self { main: self.main.duplicate(Ghost(lvl)), generation: self.generation }
    }

    /// A copy of the indirection node re-tagged with `generation`; its
    /// main node holds the same entries as the original's.
    pub fn copy_to_gen(&self, generation: Generation, Ghost(lvl): Ghost<nat>) -> (r: Self)
        ensures
            r.generation == generation,
            main_sim(r.main, self.main, lvl),
    {
        Self { main: self.main.duplicate(Ghost(lvl)), generation }
    }

    /// The generation the indirection node belongs to.
    pub fn generation(&self) -> (g: &Generation)
        ensures
            *g == self.generation,
    {
        &self.generation
    }

    /// Reads the main node.
    pub fn load_main(&self) -> (m: &MainNode<K, V>)
        ensures
            *m == self.main,
    {
        &self.main
    }

    /// Replaces the main node. The compare step of the concurrent
    /// protocol cannot fail under exclusive access, so the swap always
    /// succeeds.
    pub fn cas_main(&mut self, new: MainNode<K, V>) -> (swapped: bool)
        ensures
            swapped,
            final(self).main == new,
            final(self).generation == old(self).generation,
    {
        self.main = new;
        true
    }

    /// Publishes `new` as this node's main through the
    /// generation-compare-and-swap protocol.
    pub fn gcas_main(
        &mut self,
        new: MainNode<K, V>,
        root_generation: crate::Generation,
        read_only: bool,
        guard: &crossbeam::epoch::Guard,
    ) -> (committed: bool)
        requires
            old(self).main.prev is None,
            !(old(self).main.kind is Failed),
            new.prev is None,
        ensures
            committed == (old(self).generation == root_generation && !read_only),
            final(self).generation == old(self).generation,
            final(self).main.prev is None,
            committed ==> final(self).main == new,
            !committed ==> final(self).main == old(self).main,
    {
        crate::gcas::gcas(self, new, root_generation, read_only, guard)
    }

    /// Reads this node's main through the protocol's read path.
    pub fn gcas_read_main<'g>(&'g self, guard: &'g crossbeam::epoch::Guard) -> (main: &'g MainNode<
        K,
        V,
    >)
        requires
            self.main.prev is None,
        ensures
            *main == self.main,
    {
        crate::gcas::gcas_read(self, guard)
    }

    /// Settles a pending generation-compare-and-swap on this node: a
    /// settled slot is left as it stands; a failed marker restores the
    /// value it wraps; a pending proposal commits exactly when the node
    /// still belongs to the root's generation and the trie is writable,
    /// and is otherwise restored.
    pub fn gcas_commit(
        &mut self,
        root_generation: crate::Generation,
        read_only: bool,
        guard: &crossbeam::epoch::Guard,
    ) -> (committed: bool)
        requires
            crate::gcas::commit_pre(*old(self)),
        ensures
            final(self).generation == old(self).generation,
            final(self).main.prev is None,
            match old(self).main.prev {
                None => committed && *final(self) == *old(self),
                Some(p) => if p.kind is Failed {
                    !committed && final(self).main == *(p.prev->0)
                } else if old(self).generation == root_generation && !read_only {
                    committed && final(self).main.kind == old(self).main.kind
                } else {
                    !committed && final(self).main == *p
                },
            },
    {
        crate::gcas::gcas_commit(self, root_generation, read_only, guard)
    }
}

} // verus!
