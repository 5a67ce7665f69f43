//! The envelope an indirection node points at: a tagged union of the
//! interior and leaf node kinds, paired with the previous-value slot used
//! by the generation-compare-and-swap protocol.

use crate::bits::{hash_index, pcount};
use crate::node::ctrie::{cnode_lookup, Branch, CtrieNode};
use crate::node::indirection::IndirectionNode;
use crate::node::list::{distinct_keys, list_entries, list_find, ListNode};
use crate::node::singleton::SingletonNode;
use crate::node::tomb::TombNode;
use crate::{Generation, Key, Value, LAST_W_BITS, W};
use vstd::prelude::*;

verus! {

/// The kinds of payload a main node can carry.
pub enum MainNodeKind<K, V> {
    Ctrie(CtrieNode<K, V>),
    List(ListNode<K, V>),
    Tomb(TombNode<K, V>),
    Failed,
}

/// A main node: the payload of an indirection node, together with the
/// `prev` slot that holds the proposed previous value while a
/// generation-compare-and-swap is in flight. In the steady state `prev`
/// is empty.
pub struct MainNode<K, V> {
    pub kind: MainNodeKind<K, V>,
    pub prev: Option<Box<MainNode<K, V>>>,
}

impl<K: Key, V: Value> MainNode<K, V> {
    /// The value this main node holds for key `k`, when it stands at
    /// `lvl` of the trie.
    pub open spec fn lookup_at(self, k: K, lvl: nat) -> Option<V>
        decreases 66 - lvl, 2int,
    {
        match self.kind {
            MainNodeKind::Ctrie(c) => if lvl <= 66 {
                cnode_lookup(c, k, lvl)
            } else {
                None
            },
            MainNodeKind::List(l) => list_find(list_entries(l), k),
            MainNodeKind::Tomb(t) => if t.snode.key == k {
                Some(t.snode.value)
            } else {
                None
            },
            MainNodeKind::Failed => None,
        }
    }

    /// Well-formedness of a main node standing at `lvl`: no pending
    /// previous value, a well-formed C-node above the maximal depth, or a
    /// list of at least two distinct-keyed entries at the maximal depth.
    /// Tombs and failed markers are transient and never well formed.
    pub open spec fn wf_at(self, lvl: nat) -> bool
        decreases 66 - lvl, 2int,
    {
        &&& self.prev is None
        &&& match self.kind {
            MainNodeKind::Ctrie(c) => if lvl <= 66 {
                c.wf_at(lvl)
            } else {
                false
            },
            MainNodeKind::List(l) => lvl == 66 && list_entries(l).len() >= 2 && distinct_keys(
                list_entries(l),
            ) && crate::node::list::hashes_equal(list_entries(l)),
            MainNodeKind::Tomb(t) => false,
            MainNodeKind::Failed => false,
        }
    }
}

/// Two main nodes are similar at `lvl` when they are equally well
/// formed, hold the same keys and values, and agree on the transient
/// markers. A copy of a main node is similar to its original.
pub open spec fn main_sim<K: Key, V: Value>(m1: MainNode<K, V>, m2: MainNode<K, V>, lvl: nat) -> bool {
    &&& (m1.prev is None <==> m2.prev is None)
    &&& (m1.kind is Tomb <==> m2.kind is Tomb)
    &&& (m1.kind is Tomb ==> m1.kind->Tomb_0 == m2.kind->Tomb_0)
    &&& m1.wf_at(lvl) == m2.wf_at(lvl)
    &&& forall|k: K| #[trigger] m1.lookup_at(k, lvl) == m2.lookup_at(k, lvl)
}

impl<K: Key, V: Value> MainNode<K, V> {
    /// Builds the smallest structure that separates two singleton nodes
    /// whose keys differ, starting at `level`: a chain of C-nodes while
    /// their six-bit hash slices coincide, and a list node at the maximal
    /// depth once the full hashes coincide.
    pub fn new(
        x: SingletonNode<K, V>,
        x_hash: u64,
        y: SingletonNode<K, V>,
        y_hash: u64,
        level: usize,
        generation: Generation,
    ) -> (r: Self)
        requires
            x_hash == x.key.hash_spec(),
            y_hash == y.key.hash_spec(),
            x.key != y.key,
            crate::bits::hash_agrees_below(x_hash, y_hash, level as nat),
            level % 6 == 0,
            level <= 66,
        ensures
            r.wf_at(level as nat),
            level < 64 ==> r.kind is Ctrie && r.kind->Ctrie_0.generation == generation
                && r.kind->Ctrie_0.bitmap == (crate::bits::flag_of(x_hash, level as nat)
                | crate::bits::flag_of(y_hash, level as nat)),
            level < 64 && hash_index(x_hash, level as nat) < hash_index(y_hash, level as nat)
                ==> r.kind->Ctrie_0.array@ == seq![
                Branch::Singleton(x),
                Branch::Singleton(y),
            ],
            level < 64 && hash_index(y_hash, level as nat) < hash_index(x_hash, level as nat)
                ==> r.kind->Ctrie_0.array@ == seq![
                Branch::Singleton(y),
                Branch::Singleton(x),
            ],
            level < 64 && hash_index(x_hash, level as nat) == hash_index(y_hash, level as nat)
                ==> r.kind->Ctrie_0.array@.len() == 1 && r.kind->Ctrie_0.array@[0] is Indirection
                && r.kind->Ctrie_0.array@[0]->Indirection_0.generation == generation,
            level >= 64 ==> r.kind is List && list_entries(r.kind->List_0) == seq![
                (x.key, x.value),
                (y.key, y.value),
            ],
            forall|k: K|
                #[trigger] r.lookup_at(k, level as nat) == (if k == x.key {
                    Some(x.value)
                } else if k == y.key {
                    Some(y.value)
                } else {
                    None::<V>
                }),
        decreases 66 - level,
    {
        if level < 64 {
            let x_index = (x_hash >> (level as u64)) & LAST_W_BITS;
            let y_index = (y_hash >> (level as u64)) & LAST_W_BITS;
            proof {
                crate::bits::lemma_hash_index_bound(x_hash, level as nat);
                crate::bits::lemma_hash_index_bound(y_hash, level as nat);
            }
            let x_flag = 1u64 << x_index;
            let y_flag = 1u64 << y_index;
            let bitmap = x_flag | y_flag;

            if x_index < y_index {
                let c = CtrieNode::new(
                    bitmap,
                    vec![Branch::Singleton(x), Branch::Singleton(y)],
                    generation,
                );
                let r = Self { kind: MainNodeKind::Ctrie(c), prev: None };
                proof {
                    lemma_two_slot_cnode::<K, V>(c, x_index, y_index, level as nat);
                    Self::lemma_wrap_cnode(r, c, level as nat);
                }
                r
            } else if y_index < x_index {
                let c = CtrieNode::new(
                    bitmap,
                    vec![Branch::Singleton(y), Branch::Singleton(x)],
                    generation,
                );
                let r = Self { kind: MainNodeKind::Ctrie(c), prev: None };
                proof {
                    assert(x_flag | y_flag == y_flag | x_flag) by (bit_vector);
                    lemma_two_slot_cnode::<K, V>(c, y_index, x_index, level as nat);
                    Self::lemma_wrap_cnode(r, c, level as nat);
                }
                r
            } else {
                // the slices coincide: split one level further down
                let ghost xk = x.key;
                let ghost yk = y.key;
                proof {
                    crate::bits::lemma_agree_extend(x_hash, y_hash, level as nat);
                }
                let main = Self::new(x, x_hash, y, y_hash, level + W, generation);
                let inode = IndirectionNode::new(main, generation);
                let c = CtrieNode::new(bitmap, vec![Branch::Indirection(inode)], generation);
                proof {
                    assert(x_flag | y_flag == x_flag) by (bit_vector)
                        requires
                            x_flag == y_flag,
                    ;
                    assert forall|k: K|
                        (#[trigger] c.array@[0]->Indirection_0.main.lookup_at(
                            k,
                            ((level as nat) + 6) as nat,
                        )) is Some implies hash_index(k.hash_spec(), level as nat) == x_index by {
                        assert(k == xk || k == yk);
                    }
                    lemma_one_slot_cnode::<K, V>(c, x_index, level as nat);
                }
                let r = Self { kind: MainNodeKind::Ctrie(c), prev: None };
                proof {
                    Self::lemma_wrap_cnode(r, c, level as nat);
                }
                r
            }
        } else {
            // the full 64-bit hashes coincide after maximal descent: the
            // two entries share a list node
            let ghost xg = x;
            let ghost yg = y;
            let l = ListNode {
                head: x,
                tail: Some(Box::new(ListNode { head: y, tail: None })),
            };
            proof {
                let e = list_entries(l);
                crate::node::list::lemma_list_entries_unfold(l);
                crate::node::list::lemma_list_entries_unfold(*(l.tail->0));
                assert(e =~= seq![(xg.key, xg.value), (yg.key, yg.value)]);
                crate::bits::lemma_agree_full(x_hash, y_hash, level as nat);
                assert(crate::node::list::hashes_equal(e));
                assert forall|k: K|
                    #[trigger] list_find(e, k) == (if k == xg.key {
                        Some(xg.value)
                    } else if k == yg.key {
                        Some(yg.value)
                    } else {
                        None::<V>
                    }) by {
                    assert(e[0] == (xg.key, xg.value));
                    assert(e.drop_first() =~= seq![(yg.key, yg.value)]);
                    if k == xg.key {
                        assert(list_find(e, k) == Some(xg.value));
                    } else {
                        assert(list_find(e, k) == list_find(e.drop_first(), k));
                        if k == yg.key {
                            assert(list_find(e.drop_first(), k) == Some(yg.value));
                        } else {
                            assert(list_find(e.drop_first(), k) == list_find(
                                e.drop_first().drop_first(),
                                k,
                            ));
                            assert(e.drop_first().drop_first().len() == 0);
                            assert(list_find(e.drop_first().drop_first(), k) is None);
                        }
                    }
                }
            }
            let r = Self { kind: MainNodeKind::List(l), prev: None };
            proof {
                assert forall|k: K|
                    #[trigger] r.lookup_at(k, level as nat) == list_find(list_entries(l), k) by {}
            }
            r
        }
    }


    /// The returned node is a steady C-node wrapper, so its entries are
    /// those of the C-node.
    proof fn lemma_wrap_cnode(r: Self, c: CtrieNode<K, V>, lvl: nat)
        requires
            r.kind == MainNodeKind::Ctrie(c),
            r.prev is None,
            lvl <= 66,
            c.wf_at(lvl),
        ensures
            r.wf_at(lvl),
            forall|k: K| #[trigger] r.lookup_at(k, lvl) == cnode_lookup(c, k, lvl),
    {
        assert forall|k: K| #[trigger] r.lookup_at(k, lvl) == cnode_lookup(c, k, lvl) by {
            assert(r.lookup_at(k, lvl) == cnode_lookup(c, k, lvl));
        }
    }

    /// A failed marker wrapping the given previous value.
    pub fn failed(prev: Option<Box<MainNode<K, V>>>) -> (r: Self)
        ensures
            r.kind is Failed,
            r.prev == prev,
    {
        Self { kind: MainNodeKind::Failed, prev }
    }

    /// Wraps a C-node into a steady main node.
    pub fn from_ctrie_node(cnode: CtrieNode<K, V>) -> (r: Self)
        ensures
            r.kind == MainNodeKind::Ctrie(cnode),
            r.prev is None,
    {
        Self { kind: MainNodeKind::Ctrie(cnode), prev: None }
    }

    /// Wraps a list node into a steady main node.
    pub fn from_list_node(lnode: ListNode<K, V>) -> (r: Self)
        ensures
            r.kind == MainNodeKind::List(lnode),
            r.prev is None,
    {
        Self { kind: MainNodeKind::List(lnode), prev: None }
    }

    /// Wraps a tomb node into a steady main node.
    pub fn from_tomb_node(tnode: TombNode<K, V>) -> (r: Self)
        ensures
            r.kind == MainNodeKind::Tomb(tnode),
            r.prev is None,
    {
        Self { kind: MainNodeKind::Tomb(tnode), prev: None }
    }

    /// The payload of the main node.
    pub fn kind(&self) -> (k: &MainNodeKind<K, V>)
        ensures
            *k == self.kind,
    {
        &self.kind
    }

    /// The previous-value slot of the main node.
    pub fn prev(&self) -> (p: &Option<Box<MainNode<K, V>>>)
        ensures
            *p == self.prev,
    {
        &self.prev
    }

    /// A copy of the main node, similar to the original.
    pub fn duplicate(&self, Ghost(lvl): Ghost<nat>) -> (r: Self)
        ensures
            main_sim(r, *self, lvl),
        decreases *self,
    {
        let prev = match &self.prev {
            None => None,
            Some(p) => Some(Box::new(p.duplicate(Ghost(lvl)))),
        };
        match &self.kind {
            MainNodeKind::Ctrie(c) => {
                let c2 = c.duplicate(Ghost(lvl));
                let r = MainNode { kind: MainNodeKind::Ctrie(c2), prev };
                proof {
                    crate::node::ctrie::lemma_cnode_sim(c2, *c, lvl);
                    assert forall|k: K| #[trigger] r.lookup_at(k, lvl) == self.lookup_at(k, lvl) by {
                        assert(cnode_lookup(c2, k, lvl) == cnode_lookup(*c, k, lvl));
                    }
                }
                r
            },
            MainNodeKind::List(l) => MainNode { kind: MainNodeKind::List(l.duplicate()), prev },
            MainNodeKind::Tomb(t) => MainNode {
                kind: MainNodeKind::Tomb(TombNode::new(t.untombed())),
                prev,
            },
            MainNodeKind::Failed => MainNode { kind: MainNodeKind::Failed, prev },
        }
    }
}

/// A C-node holding two singleton leaves under their own hash slices is
/// well formed and holds exactly their two entries.
proof fn lemma_two_slot_cnode<K: Key, V: Value>(c: CtrieNode<K, V>, lo: u64, hi: u64, lvl: nat)
    requires
        lo < hi < 64,
        c.bitmap == (1u64 << lo) | (1u64 << hi),
        c.array@.len() == 2,
        c.array@[0] is Singleton,
        c.array@[1] is Singleton,
        hash_index(c.array@[0]->Singleton_0.key.hash_spec(), lvl) == lo,
        hash_index(c.array@[1]->Singleton_0.key.hash_spec(), lvl) == hi,
        c.array@[0]->Singleton_0.key != c.array@[1]->Singleton_0.key,
        lvl % 6 == 0,
        lvl <= 60,
    ensures
        c.wf_at(lvl),
        forall|k: K|
            #[trigger] cnode_lookup(c, k, lvl) == (if k == c.array@[0]->Singleton_0.key {
                Some(c.array@[0]->Singleton_0.value)
            } else if k == c.array@[1]->Singleton_0.key {
                Some(c.array@[1]->Singleton_0.value)
            } else {
                None::<V>
            }),
{
    let b = c.bitmap;
    let x = c.array@[0]->Singleton_0;
    let y = c.array@[1]->Singleton_0;
    assert((1u64 << lo) & (1u64 << hi) == 0u64 && ((1u64 << lo) | (1u64 << hi)) & (1u64 << lo)
        != 0u64 && ((1u64 << lo) | (1u64 << hi)) & (1u64 << hi) != 0u64) by (bit_vector)
        requires
            lo < hi < 64,
    ;
    assert(0u64 & (1u64 << lo) == 0u64 && (1u64 << lo) & (1u64 << hi) == 0u64) by (bit_vector)
        requires
            lo < hi < 64,
    ;
    crate::bits::lemma_pcount_zero(64);
    crate::bits::lemma_pcount_zero(lo as nat);
    crate::bits::lemma_pcount_zero(hi as nat);
    crate::bits::lemma_pcount_or(0u64, lo, 64);
    crate::bits::lemma_pcount_or(0u64, lo, lo as nat);
    crate::bits::lemma_pcount_or(0u64, lo, hi as nat);
    crate::bits::lemma_pcount_or(1u64 << lo, hi, 64);
    crate::bits::lemma_pcount_or(1u64 << lo, hi, lo as nat);
    crate::bits::lemma_pcount_or(1u64 << lo, hi, hi as nat);
    assert(0u64 | (1u64 << lo) == (1u64 << lo)) by (bit_vector);
    assert(pcount(b, 64) == 2);
    assert(pcount(b, lo as nat) == 0);
    assert(pcount(b, hi as nat) == 1);
    assert forall|j: u64| j < 64 && b & (1u64 << j) != 0u64 implies crate::node::ctrie::branch_wf_at(
        c.array@[pcount(c.bitmap, j as nat) as int],
        lvl,
        j,
    ) by {
        assert(j != lo && j != hi && j < 64 && lo < 64 && hi < 64 ==> ((1u64 << lo) | (1u64 << hi))
            & (1u64 << j) == 0u64) by (bit_vector);
        if j == lo {
        } else if j == hi {
        }
    }
    assert forall|k: K|
        #[trigger] cnode_lookup(c, k, lvl) == (if k == x.key {
            Some(x.value)
        } else if k == y.key {
            Some(y.value)
        } else {
            None::<V>
        }) by {
        let j = hash_index(k.hash_spec(), lvl);
        crate::bits::lemma_hash_index_bound(k.hash_spec(), lvl);
        assert(j != lo && j != hi && j < 64 && lo < 64 && hi < 64 ==> ((1u64 << lo) | (1u64 << hi))
            & (1u64 << j) == 0u64) by (bit_vector);
    }
}

/// A C-node holding one indirection branch under one hash slice, all of
/// whose keys have that slice, is well formed and holds exactly the
/// entries of that branch.
proof fn lemma_one_slot_cnode<K: Key, V: Value>(c: CtrieNode<K, V>, j0: u64, lvl: nat)
    requires
        j0 < 64,
        c.bitmap == (1u64 << j0),
        c.array@.len() == 1,
        c.array@[0] is Indirection,
        c.array@[0]->Indirection_0.main.wf_at((lvl + 6) as nat),
        forall|k: K|
            (#[trigger] c.array@[0]->Indirection_0.main.lookup_at(k, (lvl + 6) as nat)) is Some
                ==> hash_index(k.hash_spec(), lvl) == j0,
        lvl % 6 == 0,
        lvl <= 60,
    ensures
        c.wf_at(lvl),
        forall|k: K|
            #[trigger] cnode_lookup(c, k, lvl) == c.array@[0]->Indirection_0.main.lookup_at(
                k,
                (lvl + 6) as nat,
            ),
{
    let b = c.bitmap;
    assert(b & (1u64 << j0) != 0u64) by (bit_vector)
        requires
            j0 < 64 && b == (1u64 << j0),
    ;
    assert(0u64 & (1u64 << j0) == 0u64) by (bit_vector);
    crate::bits::lemma_pcount_zero(64);
    crate::bits::lemma_pcount_zero(j0 as nat);
    crate::bits::lemma_pcount_or(0u64, j0, 64);
    crate::bits::lemma_pcount_or(0u64, j0, j0 as nat);
    assert(0u64 | (1u64 << j0) == (1u64 << j0)) by (bit_vector);
    assert(pcount(b, 64) == 1);
    assert(pcount(b, j0 as nat) == 0);
    assert forall|j: u64| j < 64 && b & (1u64 << j) != 0u64 implies crate::node::ctrie::branch_wf_at(
        c.array@[pcount(c.bitmap, j as nat) as int],
        lvl,
        j,
    ) by {
        assert(j != j0 && j < 64 && j0 < 64 ==> (1u64 << j0) & (1u64 << j) == 0u64) by (bit_vector);
        assert(j == j0);
    }
    assert forall|k: K|
        #[trigger] cnode_lookup(c, k, lvl) == c.array@[0]->Indirection_0.main.lookup_at(
            k,
            (lvl + 6) as nat,
        ) by {
        let j = hash_index(k.hash_spec(), lvl);
        crate::bits::lemma_hash_index_bound(k.hash_spec(), lvl);
        assert(j != j0 && j < 64 && j0 < 64 ==> (1u64 << j0) & (1u64 << j) == 0u64) by (bit_vector);
        if j != j0 {
            assert(cnode_lookup(c, k, lvl) is None);
            if c.array@[0]->Indirection_0.main.lookup_at(k, (lvl + 6) as nat) is Some {
                assert(hash_index(k.hash_spec(), lvl) == j0);
            }
        }
    }
}

} // verus!
