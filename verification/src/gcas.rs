//! The generation-compare-and-swap protocol: the only writer of an
//! indirection node's main slot. A proposed value is published together
//! with the value it replaces; the commit step then either settles the
//! proposal, or — when the root generation moved on or the trie is
//! read-only — marks it failed and restores the previous value.

use crate::node::indirection::IndirectionNode;
use crate::node::main::{MainNode, MainNodeKind};
use crate::{Generation, Key, Value};
use crossbeam::epoch::Guard;
use vstd::prelude::*;

verus! {

/// The states the previous-value slot can be in while a
/// generation-compare-and-swap is settled: empty, a proposed previous
/// value (itself settled), or a failed marker wrapping the settled value
/// to restore.
pub open spec fn commit_pre<K: Key, V: Value>(inode: IndirectionNode<K, V>) -> bool {
    match inode.main.prev {
        None => true,
        Some(p) => match p.kind {
            MainNodeKind::Failed => p.prev is Some && p.prev->0.prev is None && !(p.prev->0.kind
                is Failed),
            _ => p.prev is None,
        },
    }
}

/// How many commit steps are left for the slot's state: a settled slot
/// needs none, a failed marker one restore, a pending proposal at most a
/// wrap and a restore.
pub open spec fn commit_measure<K: Key, V: Value>(inode: IndirectionNode<K, V>) -> int {
    match inode.main.prev {
        None => 0,
        Some(p) => if p.kind is Failed {
            1int
        } else {
            2int
        },
    }
}

/// Settles a pending generation-compare-and-swap on `inode`: clears the
/// previous-value slot when the indirection node still belongs to the
/// root's generation and the trie is writable, and otherwise wraps the
/// proposal in a failed marker and restores the previous value.
pub fn gcas_commit<K: Key, V: Value>(
    inode: &mut IndirectionNode<K, V>,
    root_generation: Generation,
    read_only: bool,
    guard: &Guard,
) -> (committed: bool)
    requires
        commit_pre(*old(inode)),
    ensures
        final(inode).generation == old(inode).generation,
        final(inode).main.prev is None,
        match old(inode).main.prev {
            None => committed && *final(inode) == *old(inode),
            Some(p) => if p.kind is Failed {
                !committed && final(inode).main == *(p.prev->0)
            } else if old(inode).generation == root_generation && !read_only {
                committed && final(inode).main.kind == old(inode).main.kind
            } else {
                !committed && final(inode).main == *p
            },
        },
    decreases commit_measure(*inode),
{
    // take the previous value out of the slot; an empty slot means the
    // proposal is already committed
    let mut prev_opt: Option<Box<MainNode<K, V>>> = None;
    core::mem::swap(&mut inode.main.prev, &mut prev_opt);
    match prev_opt {
        None => true,
        Some(p) => {
            let MainNode { kind: pk, prev: pp } = *p;
            match pk {
                MainNodeKind::Failed => {
                    // a failed proposal: reset the main to the value the
                    // failed marker holds
                    match pp {
                        Some(p0) => {
                            inode.main = *p0;
                            false
                        },
                        None => unreached(),
                    }
                },
                other => {
                    if inode.generation == root_generation && !read_only {
                        // the generations match: the proposal stands and
                        // the cleared slot publishes it
                        true
                    } else {
                        // the update is stale: wrap the previous value in
                        // a failed marker, publish the marker, and settle
                        // again
                        let restored = MainNode { kind: other, prev: pp };
                        inode.main.prev = Some(
                            Box::new(MainNode::failed(Some(Box::new(restored)))),
                        );
                        gcas_commit(inode, root_generation, read_only, guard)
                    }
                },
            }
        },
    }
}

/// Publishes `new` as the main node of `inode`, keeping the current value
/// in the previous-value slot, and settles the proposal: it commits
/// exactly when the indirection node still belongs to the root's
/// generation and the trie is writable, and otherwise the previous value
/// is restored.
pub fn gcas<K: Key, V: Value>(
    inode: &mut IndirectionNode<K, V>,
    new: MainNode<K, V>,
    root_generation: Generation,
    read_only: bool,
    guard: &Guard,
) -> (committed: bool)
    requires
        old(inode).main.prev is None,
        !(old(inode).main.kind is Failed),
        new.prev is None,
    ensures
        committed == (old(inode).generation == root_generation && !read_only),
        final(inode).generation == old(inode).generation,
        final(inode).main.prev is None,
        committed ==> final(inode).main == new,
        !committed ==> final(inode).main == old(inode).main,
{
    // install the proposed value, publishing the replaced value as its
    // previous value
    let mut tmp = new;
    core::mem::swap(&mut inode.main, &mut tmp);
    inode.main.prev = Some(Box::new(tmp));
    gcas_commit(inode, root_generation, read_only, guard)
}

/// Reads the main node of an indirection node. A pending previous value
/// would first be settled by helping the writer; under exclusive access
/// the slot is already settled, which the caller warrants.
pub fn gcas_read<'g, K: Key, V: Value>(
    inode: &'g IndirectionNode<K, V>,
    guard: &'g Guard,
) -> (main: &'g MainNode<K, V>)
    requires
        inode.main.prev is None,
    ensures
        *main == inode.main,
{
    &inode.main
}

} // verus!
