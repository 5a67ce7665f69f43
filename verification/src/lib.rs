//! A hash trie map: a tree of bitmapped sparse nodes indexed by six-bit
//! slices of a key's hash, supporting insert, lookup, remove and
//! generation-tagged snapshots with copy-on-write updates.

pub mod bits;
pub mod epoch;
pub mod gcas;
pub mod keys;
pub mod node;

use crate::bits::{
    count_bits_below, flag_of, hash_index, lemma_hash_index_bound, lemma_pcount_lt,
    lemma_pcount_mono, lemma_pcount_zero, pcount, pos_of,
};
use crate::gcas::{gcas, gcas_read};
use crate::node::ctrie::{
    branch_lookup, branch_sim, branch_wf_at, cnode_lookup, cnode_sim, lemma_cnode_inserted,
    lemma_cnode_sim, lemma_cnode_updated, Branch, CtrieNode,
};
use crate::node::indirection::IndirectionNode;
use crate::node::list::{distinct_keys, lemma_list_removed, list_entries, list_find,
    list_removed, ListNode};
use crate::node::main::{MainNode, MainNodeKind};
use crate::node::singleton::SingletonNode;
use crate::node::tomb::TombNode;
use crossbeam::epoch::Guard;
use vstd::pervasive::unreached;
use vstd::prelude::*;

verus! {

/// Number of hash bits consumed per level of the trie.
pub const W: usize = 6;

/// Mask extracting the low `W` bits of a hash.
pub const LAST_W_BITS: u64 = 0x3f;

/// A key of the trie: hashable, comparable and clonable, with the hash and
/// the copy pinned down in specifications so that the trie's contracts can
/// speak about them.
pub trait Key: Sized {
    /// The hash of the key, as a mathematical function of its value.
    spec fn hash_spec(&self) -> u64;

    /// Computes the hash that `hash_spec` describes.
    fn key_hash(&self) -> (h: u64)
        ensures
            h == self.hash_spec(),
    ;

    /// Equality test agreeing with mathematical equality of the values.
    fn key_eq(&self, other: &Self) -> (r: bool)
        ensures
            r == (*self == *other),
    ;

    /// A copy equal to the original.
    fn key_clone(&self) -> (r: Self)
        ensures
            r == *self,
    ;
}

/// A value of the trie: clonable, since updates copy entries rather than
/// mutate shared nodes in place.
pub trait Value: Sized {
    /// A copy equal to the original.
    fn val_clone(&self) -> (r: Self)
        ensures
            r == *self,
    ;
}

/// A token tagging the tree version an indirection node belongs to.
/// Tokens are compared by identity, never by any meaning of their value:
/// a trie draws each new token from a counter it owns and keeps strictly
/// above every token it has handed out, so a token minted by a snapshot
/// equals no token minted before it. The counter cannot wrap: minting
/// requires headroom below the greatest representable value, which no
/// run can exhaust.
#[derive(Clone, Copy, PartialEq, Eq, Structural)]
pub struct Generation {
    pub id: u64,
}

impl Generation {
    /// The initial generation of a fresh trie: the one token that exists
    /// before any snapshot has minted another. It makes no freshness
    /// claim; fresh tokens come from the trie's counter.
    pub(crate) fn new() -> (g: Generation)
        ensures
            g.id == 0,
    {
        Generation { id: 0 }
    }
}

/// Computes the bitmap flag for the six-bit slice of `hash` at `level`, and
/// the array position of the corresponding branch: the number of set bits of
/// `bitmap` below the flag.
pub fn flag_and_position(hash: u64, level: usize, bitmap: u64) -> (r: (u64, usize))
    requires
        level < 64,
    ensures
        r.0 == flag_of(hash, level as nat),
        r.1 == pos_of(bitmap, hash, level as nat),
{
    // extract W = 6 bits from the hash, skipping the first level bits
    let index = (hash >> (level as u64)) & LAST_W_BITS;
    proof {
        lemma_hash_index_bound(hash, level as nat);
    }
    // flag is the position in the bitmap corresponding to the index;
    // index is less than 2^W = 64, so the shift cannot overflow
    let flag = 1u64 << index;

    // the array position is the number of 1's in the bitmap that precede index
    let position = count_bits_below(bitmap, index);

    (flag, position)
}

/// Wraps a singleton node into a tomb main node, marking the enclosing
/// indirection node for contraction by its parent.
pub fn entomb<K: Key, V: Value>(snode: SingletonNode<K, V>) -> (m: MainNode<K, V>)
    ensures
        m.prev is None,
        m.kind is Tomb,
        m.kind->Tomb_0.snode == snode,
{
    MainNode::from_tomb_node(TombNode::new(snode))
}

/// Revives a branch whose indirection node was entombed: a tombed main
/// node becomes the plain singleton leaf it wraps, any other keeps the
/// indirection node.
pub fn resurrect<K: Key, V: Value>(inode: IndirectionNode<K, V>, main: &MainNode<K, V>) -> (b: Branch<K, V>)
    ensures
        main.kind is Tomb ==> b == Branch::Singleton(main.kind->Tomb_0.snode),
        !(main.kind is Tomb) ==> b == Branch::Indirection(inode),
{
    match main.kind() {
        MainNodeKind::Tomb(tnode) => Branch::Singleton(tnode.untombed()),
        _ => Branch::Indirection(inode),
    }
}

/// Whether the branch under bit `j` of a C-node at `lvl` is either well
/// formed or an indirection node whose main was entombed — the transient
/// state a removal leaves until the parent contracts it.
pub open spec fn branch_semi_wf<K: Key, V: Value>(b: Branch<K, V>, lvl: nat, j: u64) -> bool {
    branch_wf_at(b, lvl, j) || (match b {
        Branch::Indirection(i) => i.main.prev is None && i.main.kind is Tomb && hash_index(
            i.main.kind->Tomb_0.snode.key.hash_spec(),
            lvl,
        ) == j,
        Branch::Singleton(_) => false,
    })
}

/// How compression rewrites one branch: a tombed indirection node is
/// resurrected to its leaf, a leaf is kept, and a live indirection node
/// is copied.
pub open spec fn compress_rel<K: Key, V: Value>(nb: Branch<K, V>, ob: Branch<K, V>, lvl: nat) -> bool {
    match ob {
        Branch::Indirection(i) => if i.main.kind is Tomb {
            nb == Branch::Singleton(i.main.kind->Tomb_0.snode)
        } else {
            nb is Indirection && branch_sim(nb, ob, lvl)
        },
        Branch::Singleton(_) => nb == ob,
    }
}

/// Whether compression turns the branch into a singleton leaf: it is one
/// already, or it is an indirection node whose main was entombed.
pub open spec fn compresses_to_leaf<K: Key, V: Value>(b: Branch<K, V>) -> bool {
    match b {
        Branch::Singleton(_) => true,
        Branch::Indirection(i) => i.main.kind is Tomb,
    }
}

/// Resurrecting the tombed branches of a semi-well-formed C-node gives a
/// well-formed C-node with the same entries.
proof fn lemma_cnode_compressed<K: Key, V: Value>(c: CtrieNode<K, V>, c3: CtrieNode<K, V>, lvl: nat)
    requires
        lvl % 6 == 0,
        lvl <= 60,
        c.array@.len() == pcount(c.bitmap, 64),
        forall|j: u64|
            j < 64 && c.bitmap & (1u64 << j) != 0u64 ==> branch_semi_wf(
                c.array@[#[trigger] pcount(c.bitmap, j as nat) as int],
                lvl,
                j,
            ),
        c3.bitmap == c.bitmap,
        c3.array@.len() == c.array@.len(),
        forall|i: int|
            0 <= i < c.array@.len() ==> compress_rel(#[trigger] c3.array@[i], c.array@[i], lvl),
    ensures
        c3.wf_at(lvl),
        forall|k: K| #[trigger] cnode_lookup(c3, k, lvl) == cnode_lookup(c, k, lvl),
{
    assert forall|j: u64| j < 64 && c3.bitmap & (1u64 << j) != 0u64 implies branch_wf_at(
        c3.array@[#[trigger] pcount(c3.bitmap, j as nat) as int],
        lvl,
        j,
    ) by {
        lemma_pcount_lt(c.bitmap, j, 64);
        let p = pcount(c.bitmap, j as nat) as int;
        assert(branch_semi_wf(c.array@[p], lvl, j));
        assert(compress_rel(c3.array@[p], c.array@[p], lvl));
        match c.array@[p] {
            Branch::Indirection(i) => {
                if i.main.kind is Tomb {
                    assert(c3.array@[p] == Branch::<K, V>::Singleton(i.main.kind->Tomb_0.snode));
                } else {
                    assert(branch_sim(c3.array@[p], c.array@[p], lvl));
                    assert(branch_wf_at(c.array@[p], lvl, j));
                }
            },
            Branch::Singleton(_) => {
                assert(branch_sim(c3.array@[p], c.array@[p], lvl));
            },
        }
    }
    assert forall|k: K| #[trigger] cnode_lookup(c3, k, lvl) == cnode_lookup(c, k, lvl) by {
        let jk = hash_index(k.hash_spec(), lvl);
        lemma_hash_index_bound(k.hash_spec(), lvl);
        if c.bitmap & (1u64 << jk) != 0u64 {
            lemma_pcount_lt(c.bitmap, jk, 64);
            let p = pcount(c.bitmap, jk as nat) as int;
            assert(branch_semi_wf(c.array@[p], lvl, jk));
            assert(compress_rel(c3.array@[p], c.array@[p], lvl));
            match c.array@[p] {
                Branch::Indirection(i) => {
                    if i.main.kind is Tomb {
                        assert(branch_lookup(c3.array@[p], k, lvl) == branch_lookup(
                            c.array@[p],
                            k,
                            lvl,
                        ));
                    } else {
                        assert(branch_lookup(c3.array@[p], k, lvl) == branch_lookup(
                            c.array@[p],
                            k,
                            lvl,
                        ));
                    }
                },
                Branch::Singleton(_) => {
                    assert(branch_lookup(c3.array@[p], k, lvl) == branch_lookup(
                        c.array@[p],
                        k,
                        lvl,
                    ));
                },
            }
        }
    }
}

/// Resurrects the tombed children of a C-node and contracts the result:
/// invoked after a removal that may have left a compactable path. The
/// entries are unchanged.
pub fn to_compressed<K: Key, V: Value>(
    cnode: &CtrieNode<K, V>,
    level: usize,
    generation: Generation,
    guard: &Guard,
) -> (m: MainNode<K, V>)
    requires
        level % 6 == 0,
        level <= 60,
        cnode.array@.len() == pcount(cnode.bitmap, 64),
        forall|j: u64|
            j < 64 && cnode.bitmap & (1u64 << j) != 0u64 ==> branch_semi_wf(
                cnode.array@[#[trigger] pcount(cnode.bitmap, j as nat) as int],
                level as nat,
                j,
            ),
    ensures
        m.prev is None,
        m.wf_at(level as nat) || (level > 0 && m.kind is Tomb),
        m.kind is Tomb <==> (level > 0 && cnode.array@.len() == 1 && compresses_to_leaf(
            cnode.array@[0],
        )),
        m.kind is Tomb ==> m.kind->Tomb_0.snode == (match cnode.array@[0] {
            Branch::Singleton(s) => s,
            Branch::Indirection(i) => i.main.kind->Tomb_0.snode,
        }),
        !(m.kind is Tomb) ==> m.kind is Ctrie && m.kind->Ctrie_0.bitmap == cnode.bitmap
            && m.kind->Ctrie_0.generation == generation,
        forall|k: K| #[trigger] m.lookup_at(k, level as nat) == cnode_lookup(*cnode, k, level as nat),
{
    let ghost lvl = level as nat;
    let mut new_array: Vec<Branch<K, V>> = Vec::new();
    let n = cnode.array.len();
    let mut i: usize = 0;
    while i < n
        invariant
            i <= n,
            n == cnode.array@.len(),
            new_array@.len() == i,
            level % 6 == 0,
            level <= 60,
            lvl == level as nat,
            cnode.array@.len() == pcount(cnode.bitmap, 64),
            forall|j: u64|
                j < 64 && cnode.bitmap & (1u64 << j) != 0u64 ==> branch_semi_wf(
                    cnode.array@[#[trigger] pcount(cnode.bitmap, j as nat) as int],
                    lvl,
                    j,
                ),
            forall|w: int|
                0 <= w < i ==> compress_rel(#[trigger] new_array@[w], cnode.array@[w], lvl),
        decreases n - i,
    {
        proof {
            crate::bits::lemma_pcount_index(cnode.bitmap, 64, i as int);
            let j = choose|j: u64|
                j < 64 && cnode.bitmap & (1u64 << j) != 0u64 && #[trigger] pcount(
                    cnode.bitmap,
                    j as nat,
                ) == i;
            assert(branch_semi_wf(cnode.array@[i as int], lvl, j));
        }
        match &cnode.array[i] {
            Branch::Singleton(s) => {
                new_array.push(Branch::Singleton(s.duplicate()));
            },
            Branch::Indirection(inode) => {
                let main = gcas_read(inode, guard);
                let duplicated = inode.duplicate(Ghost((lvl + 6) as nat));
                let b = resurrect(duplicated, main);
                proof {
                    if !(main.kind is Tomb) {
                        crate::node::ctrie::lemma_branch_sim_indirection(
                            duplicated,
                            *inode,
                            lvl,
                        );
                    }
                }
                new_array.push(b);
            },
        }
        i += 1;
    }
    let c3 = CtrieNode::new(cnode.bitmap(), new_array, generation);
    proof {
        lemma_cnode_compressed(*cnode, c3, lvl);
    }
    c3.to_contracted(level)
}

/// Whether the branch a key's hash leads to is an indirection node of a
/// stale generation — the one situation in which an operation renews the
/// C-node and retries at the same level, so the retry terminates.
spec fn stale_rank<K: Key, V: Value>(
    inode: IndirectionNode<K, V>,
    hash: u64,
    lvl: nat,
    start_generation: Generation,
) -> int {
    match inode.main.kind {
        MainNodeKind::Ctrie(c) => {
            let j = hash_index(hash, lvl);
            if c.bitmap & (1u64 << j) != 0u64 {
                let pos = pcount(c.bitmap, j as nat) as int;
                if 0 <= pos < c.array@.len() {
                    match c.array@[pos] {
                        Branch::Indirection(child) => if child.generation != start_generation {
                            1int
                        } else {
                            0int
                        },
                        Branch::Singleton(_) => 0int,
                    }
                } else {
                    0int
                }
            } else {
                0int
            }
        },
        _ => 0int,
    }
}

/// The outcome of one descent of an insertion: done, or to be retried
/// from the root after a failed publication.
enum IInsertResult {
    Inserted,
    Restart,
}

/// A hash trie map from keys to values. The tree hangs off a root
/// indirection node and is rebuilt copy-on-write along the touched path
/// by every update; snapshots re-tag the tree with fresh generations and
/// updates lazily renew the parts they descend into.
pub struct Ctrie<K, V> {
    root: IndirectionNode<K, V>,
    read_only: bool,
    next_generation: u64,
}

impl<K: Key, V: Value> View for Ctrie<K, V> {
    type V = Map<K, V>;

    /// The map the trie holds: every key the root resolves, with its
    /// value.
    closed spec fn view(&self) -> Map<K, V> {
        Map::new(
            |k: K| self.root.main.lookup_at(k, 0) is Some,
            |k: K| self.root.main.lookup_at(k, 0)->0,
        )
    }
}

impl<K: Key, V: Value> Ctrie<K, V> {
    /// The trie's structural invariant: a well-formed tree under the
    /// root, whose root token lies strictly below the minting counter, so
    /// that a token the counter mints next is fresh at the root.
    pub closed spec fn inv(self) -> bool {
        &&& self.root.main.wf_at(0)
        &&& self.root.generation.id < self.next_generation
    }

    /// The generation token of the root: the version tag of the tree this
    /// handle sees.
    pub closed spec fn root_generation(self) -> Generation {
        self.root.generation
    }

    /// Whether the trie is a read-only snapshot, on which writes are
    /// disabled.
    pub closed spec fn is_read_only(self) -> bool {
        self.read_only
    }

    /// The counter from which the trie mints generation tokens.
    pub closed spec fn generation_counter(self) -> u64 {
        self.next_generation
    }

    /// Creates an empty trie.
    pub fn new() -> (r: Self)
        ensures
            r.inv(),
            r@ == Map::<K, V>::empty(),
            !r.is_read_only(),
            r.generation_counter() == 1,
            r.root_generation().id == 0,
    {
        let generation = Generation::new();
        let root = IndirectionNode::new(
            MainNode::from_ctrie_node(CtrieNode::new(0, Vec::new(), generation)),
            generation,
        );
        let r = Ctrie { root, read_only: false, next_generation: 1 };
        proof {
            lemma_pcount_zero(64);
            assert forall|j: u64| j < 64 implies 0u64 & (1u64 << j) == 0u64 by {
                assert(0u64 & (1u64 << j) == 0u64) by (bit_vector);
            }
            assert(r.root.main.wf_at(0));
            assert forall|k: K| #[trigger] r.root.main.lookup_at(k, 0) is None by {
                assert(0u64 & (1u64 << hash_index(k.hash_spec(), 0)) == 0u64) by (bit_vector);
            }
            assert(r@ =~= Map::<K, V>::empty());
        }
        r
    }

    /// Inserts `key` with `value`: afterwards the trie holds exactly the
    /// old entries and this one.
    pub fn insert(&mut self, key: K, value: V, guard: &Guard)
        requires
            old(self).inv(),
            !old(self).is_read_only(),
        ensures
            final(self).inv(),
            final(self)@ == old(self)@.insert(key, value),
            final(self).is_read_only() == old(self).is_read_only(),
            final(self).generation_counter() == old(self).generation_counter(),
            final(self).root_generation() == old(self).root_generation(),
    {
        let ghost k0 = key;
        let hash = key.key_hash();
        let start_generation = self.root.generation;
        let read_only = self.read_only;
        proof {
            assert forall|k2: K|
                (#[trigger] self.root.main.lookup_at(k2, 0)) is Some implies
                crate::bits::hash_agrees_below(k2.hash_spec(), hash, 0) by {
                crate::bits::lemma_agree_root(k2.hash_spec(), hash);
            }
        }
        let r = Self::iinsert(
            &mut self.root,
            key,
            value,
            hash,
            0,
            start_generation,
            read_only,
            guard,
        );
        proof {
            assert(self@ =~= old(self)@.insert(k0, value));
        }
        match r {
            IInsertResult::Inserted => {},
            IInsertResult::Restart => unreached(),
        }
    }

    /// One descent of the insertion, from `inode` at `level`: publishes a
    /// copy of the C-node with the entry added, splits a colliding leaf,
    /// extends a list node, or renews a stale subtree and retries.
    fn iinsert(
        inode: &mut IndirectionNode<K, V>,
        key: K,
        value: V,
        hash: u64,
        level: usize,
        start_generation: Generation,
        read_only: bool,
        guard: &Guard,
    ) -> (r: IInsertResult)
        requires
            old(inode).main.wf_at(level as nat),
            level % 6 == 0,
            level <= 66,
            hash == key.hash_spec(),
            forall|k2: K|
                (#[trigger] old(inode).main.lookup_at(k2, level as nat)) is Some
                    ==> crate::bits::hash_agrees_below(k2.hash_spec(), hash, level as nat),
            old(inode).generation == start_generation,
            !read_only,
        ensures
            r is Inserted,
            final(inode).generation == start_generation,
            final(inode).main.wf_at(level as nat),
            final(inode).main.kind is Ctrie ==> (final(inode).main.kind->Ctrie_0.generation
                == start_generation || (old(inode).main.kind is Ctrie
                && final(inode).main.kind->Ctrie_0.generation
                    == old(inode).main.kind->Ctrie_0.generation)),
            forall|k: K|
                #[trigger] final(inode).main.lookup_at(k, level as nat) == (if k == key {
                    Some(value)
                } else {
                    old(inode).main.lookup_at(k, level as nat)
                }),
        decreases 66 - level, stale_rank(*inode, hash, level as nat, start_generation),
    {
        let ghost lvl = level as nat;
        let ghost k0 = key;
        let ghost v0 = value;
        let igen = inode.generation;
        // read the main node; a pending previous value would be settled here
        let main = gcas_read(&*inode, guard);
        match main.kind() {
            MainNodeKind::Ctrie(cnode) => {
                let ghost c0 = *cnode;
                let bitmap = cnode.bitmap();
                let (flag, position) = flag_and_position(hash, level, bitmap);
                let ghost j = hash_index(hash, lvl);
                proof {
                    lemma_hash_index_bound(hash, lvl);
                    assert(flag & bitmap == bitmap & (1u64 << j)) by (bit_vector)
                        requires
                            j < 64 && flag == 1u64 << j,
                    ;
                    lemma_pcount_mono(bitmap, j as nat, 64);
                }
                if flag & bitmap == 0 {
                    // the slot is free: insert a fresh leaf, renewing the
                    // C-node first when its generation is stale
                    let renewed_cnode = if !generation_eq(cnode.generation(), &igen) {
                        cnode.renewed(igen, Ghost(lvl))
                    } else {
                        cnode.duplicate(Ghost(lvl))
                    };
                    proof {
                        assert(cnode_sim(renewed_cnode, c0, lvl));
                        lemma_cnode_sim(renewed_cnode, c0, lvl);
                    }
                    let new_cnode = renewed_cnode.inserted(
                        flag,
                        position,
                        Branch::Singleton(SingletonNode::new(key, value)),
                        igen,
                        Ghost(lvl),
                    );
                    proof {
                        lemma_cnode_inserted(
                            renewed_cnode,
                            new_cnode,
                            new_cnode.array@[position as int],
                            j,
                            lvl,
                        );
                    }
                    let new_main = MainNode::from_ctrie_node(new_cnode);
                    let committed = gcas(inode, new_main, start_generation, read_only, guard);
                    proof {
                        assert forall|k: K|
                            #[trigger] inode.main.lookup_at(k, lvl) == (if k == k0 {
                                Some(v0)
                            } else {
                                old(inode).main.lookup_at(k, lvl)
                            }) by {
                            assert(inode.main.lookup_at(k, lvl) == cnode_lookup(new_cnode, k, lvl));
                            assert(cnode_lookup(renewed_cnode, k, lvl) == cnode_lookup(c0, k, lvl));
                            if hash_index(k.hash_spec(), lvl) == j {
                                assert(cnode_lookup(new_cnode, k, lvl) == branch_lookup(
                                    new_cnode.array@[position as int],
                                    k,
                                    lvl,
                                ));
                                assert(cnode_lookup(c0, k, lvl) is None);
                            }
                        }
                    }
                    if committed {
                        IInsertResult::Inserted
                    } else {
                        IInsertResult::Restart
                    }
                } else {
                    proof {
                        lemma_pcount_lt(bitmap, j, 64);
                    }
                    match cnode.branch(position) {
                        Branch::Indirection(child) => {
                            if generation_eq(child.generation(), &start_generation) {
                                // the child is current: descend into it
                                proof {
                                    assert(branch_wf_at(c0.array@[position as int], lvl, j));
                                }
                                let c_mut = match &mut inode.main.kind {
                                    MainNodeKind::Ctrie(c) => c,
                                    _ => unreached(),
                                };
                                let child_mut = match &mut c_mut.array[position] {
                                    Branch::Indirection(ch) => ch,
                                    _ => unreached(),
                                };
                                let ghost oc = *child_mut;
                                proof {
                                    assert forall|k2: K|
                                        (#[trigger] oc.main.lookup_at(k2, (lvl + 6) as nat))
                                            is Some implies crate::bits::hash_agrees_below(
                                        k2.hash_spec(),
                                        hash,
                                        (lvl + 6) as nat,
                                    ) by {
                                        assert(branch_wf_at(c0.array@[position as int], lvl, j));
                                        assert(hash_index(k2.hash_spec(), lvl) == j);
                                        assert(cnode_lookup(c0, k2, lvl) == branch_lookup(
                                            c0.array@[position as int],
                                            k2,
                                            lvl,
                                        ));
                                        assert(old(inode).main.lookup_at(k2, lvl) is Some);
                                        crate::bits::lemma_agree_extend(
                                            k2.hash_spec(),
                                            hash,
                                            lvl,
                                        );
                                    }
                                }
                                let r = Self::iinsert(
                                    child_mut,
                                    key,
                                    value,
                                    hash,
                                    level + 6,
                                    start_generation,
                                    read_only,
                                    guard,
                                );
                                proof {
                                    let c1 = inode.main.kind->Ctrie_0;
                                    assert(c0.array@[position as int] == Branch::Indirection(oc));
                                    assert(c1.bitmap == c0.bitmap);
                                    assert(c1.generation == c0.generation);
                                    assert(c1.array@ == c0.array@.update(
                                        position as int,
                                        c1.array@[position as int],
                                    ));
                                    let nb = c1.array@[position as int];
                                    assert(nb is Indirection);
                                    let nc = nb->Indirection_0;
                                    assert(nc.main.wf_at((lvl + 6) as nat));
                                    assert forall|k: K|
                                        #[trigger] branch_lookup(nb, k, lvl) == (if k == k0 {
                                            Some(v0)
                                        } else {
                                            branch_lookup(c0.array@[position as int], k, lvl)
                                        }) by {
                                        assert(nc.main.lookup_at(k, (lvl + 6) as nat) == (if k
                                            == k0 {
                                            Some(v0)
                                        } else {
                                            oc.main.lookup_at(k, (lvl + 6) as nat)
                                        }));
                                    }
                                    assert forall|k: K|
                                        (#[trigger] branch_lookup(nb, k, lvl)) is Some implies
                                        hash_index(k.hash_spec(), lvl) == j by {
                                        if k == k0 {
                                            assert(hash_index(k.hash_spec(), lvl) == j);
                                        } else {
                                            assert(branch_lookup(nb, k, lvl) == branch_lookup(
                                                c0.array@[position as int],
                                                k,
                                                lvl,
                                            ));
                                            assert(oc.main.lookup_at(k, (lvl + 6) as nat)
                                                is Some);
                                            assert(branch_wf_at(
                                                c0.array@[position as int],
                                                lvl,
                                                j,
                                            ));
                                            assert(hash_index(k.hash_spec(), lvl) == j);
                                        }
                                    }
                                    assert(branch_wf_at(nb, lvl, j)) by {
                                        assert(branch_wf_at(c0.array@[position as int], lvl, j));
                                    }
                                    lemma_cnode_updated(c0, c1, nb, j, lvl);
                                    assert forall|k: K|
                                        #[trigger] inode.main.lookup_at(k, lvl) == (if k == k0 {
                                            Some(v0)
                                        } else {
                                            old(inode).main.lookup_at(k, lvl)
                                        }) by {
                                        if hash_index(k.hash_spec(), lvl) == j {
                                            assert(cnode_lookup(c1, k, lvl) == branch_lookup(
                                                nb,
                                                k,
                                                lvl,
                                            ));
                                            assert(cnode_lookup(c0, k, lvl) == branch_lookup(
                                                c0.array@[position as int],
                                                k,
                                                lvl,
                                            ));
                                        }
                                    }
                                }
                                r
                            } else {
                                // the child belongs to an older version:
                                // renew this C-node in the current
                                // generation, publish it, and retry here
                                let renewed_cnode = cnode.renewed(start_generation, Ghost(lvl));
                                proof {
                                    assert(cnode_sim(renewed_cnode, c0, lvl));
                                    lemma_cnode_sim(renewed_cnode, c0, lvl);
                                }
                                let new_main = MainNode::from_ctrie_node(renewed_cnode);
                                if gcas(inode, new_main, start_generation, read_only, guard) {
                                    proof {
                                        assert(stale_rank(*inode, hash, lvl, start_generation)
                                            == 0);
                                        assert forall|k2: K|
                                            (#[trigger] inode.main.lookup_at(k2, lvl)) is Some
                                            implies crate::bits::hash_agrees_below(
                                            k2.hash_spec(),
                                            hash,
                                            lvl,
                                        ) by {
                                            assert(cnode_lookup(renewed_cnode, k2, lvl)
                                                == cnode_lookup(c0, k2, lvl));
                                            assert(old(inode).main.lookup_at(k2, lvl) is Some);
                                        }
                                    }
                                    let ghost at_retry = *inode;
                                    let r = Self::iinsert(
                                        inode,
                                        key,
                                        value,
                                        hash,
                                        level,
                                        start_generation,
                                        read_only,
                                        guard,
                                    );
                                    proof {
                                        assert forall|k: K|
                                            #[trigger] inode.main.lookup_at(k, lvl) == (if k
                                                == k0 {
                                                Some(v0)
                                            } else {
                                                old(inode).main.lookup_at(k, lvl)
                                            }) by {
                                            assert(inode.main.lookup_at(k, lvl) == (if k == k0 {
                                                Some(v0)
                                            } else {
                                                at_retry.main.lookup_at(k, lvl)
                                            }));
                                            assert(cnode_lookup(renewed_cnode, k, lvl)
                                                == cnode_lookup(c0, k, lvl));
                                        }
                                    }
                                    r
                                } else {
                                    IInsertResult::Restart
                                }
                            }
                        },
                        Branch::Singleton(snode) => {
                            if !snode.key().key_eq(&key) {
                                // a different key occupies the slot: push
                                // both leaves one level down
                                proof {
                                    assert(branch_wf_at(c0.array@[position as int], lvl, j));
                                }
                                let snode_hash = snode.key().key_hash();
                                let ghost old_snode = *snode;
                                proof {
                                    assert(branch_wf_at(c0.array@[position as int], lvl, j));
                                    assert(hash_index(snode_hash, lvl) == j);
                                    assert(cnode_lookup(c0, old_snode.key, lvl) == branch_lookup(
                                        c0.array@[position as int],
                                        old_snode.key,
                                        lvl,
                                    ));
                                    assert(old(inode).main.lookup_at(old_snode.key, lvl)
                                        is Some);
                                    assert(crate::bits::hash_agrees_below(snode_hash, hash, lvl));
                                    crate::bits::lemma_agree_extend(snode_hash, hash, lvl);
                                }
                                let new_inner_main = MainNode::new(
                                    snode.duplicate(),
                                    snode_hash,
                                    SingletonNode::new(key, value),
                                    hash,
                                    level + 6,
                                    igen,
                                );
                                let new_inode = IndirectionNode::new(new_inner_main, igen);
                                let renewed_cnode = if !generation_eq(cnode.generation(), &igen) {
                                    cnode.renewed(igen, Ghost(lvl))
                                } else {
                                    cnode.duplicate(Ghost(lvl))
                                };
                                proof {
                                    assert(cnode_sim(renewed_cnode, c0, lvl));
                                    lemma_cnode_sim(renewed_cnode, c0, lvl);
                                }
                                let new_cnode = renewed_cnode.updated(
                                    position,
                                    Branch::Indirection(new_inode),
                                    igen,
                                    Ghost(lvl),
                                );
                                proof {
                                    assert(c0.array@[position as int] == Branch::Singleton(
                                        old_snode,
                                    ));
                                    assert(branch_wf_at(c0.array@[position as int], lvl, j));
                                    let nb = new_cnode.array@[position as int];
                                    assert(nb == Branch::<K, V>::Indirection(new_inode));
                                    assert forall|k: K|
                                        (#[trigger] branch_lookup(nb, k, lvl)) is Some implies
                                        hash_index(k.hash_spec(), lvl) == j by {
                                        assert(new_inode.main.lookup_at(k, (lvl + 6) as nat)
                                            is Some);
                                        assert(k == old_snode.key || k == k0);
                                    }
                                    assert(branch_wf_at(nb, lvl, j));
                                    lemma_cnode_updated(renewed_cnode, new_cnode, nb, j, lvl);
                                }
                                let new_main = MainNode::from_ctrie_node(new_cnode);
                                let committed = gcas(
                                    inode,
                                    new_main,
                                    start_generation,
                                    read_only,
                                    guard,
                                );
                                proof {
                                    let nb = new_cnode.array@[position as int];
                                    assert forall|k: K|
                                        #[trigger] inode.main.lookup_at(k, lvl) == (if k == k0 {
                                            Some(v0)
                                        } else {
                                            old(inode).main.lookup_at(k, lvl)
                                        }) by {
                                        assert(inode.main.lookup_at(k, lvl) == cnode_lookup(
                                            new_cnode,
                                            k,
                                            lvl,
                                        ));
                                        assert(cnode_lookup(renewed_cnode, k, lvl)
                                            == cnode_lookup(c0, k, lvl));
                                        if hash_index(k.hash_spec(), lvl) == j {
                                            assert(branch_lookup(nb, k, lvl)
                                                == new_inode.main.lookup_at(k, (lvl + 6) as nat));
                                            assert(cnode_lookup(c0, k, lvl) == branch_lookup(
                                                c0.array@[position as int],
                                                k,
                                                lvl,
                                            ));
                                        }
                                    }
                                }
                                if committed {
                                    IInsertResult::Inserted
                                } else {
                                    IInsertResult::Restart
                                }
                            } else {
                                // the same key: replace the leaf
                                proof {
                                    assert(branch_wf_at(c0.array@[position as int], lvl, j));
                                }
                                let new_cnode = cnode.updated(
                                    position,
                                    Branch::Singleton(SingletonNode::new(key, value)),
                                    igen,
                                    Ghost(lvl),
                                );
                                proof {
                                    let nb = new_cnode.array@[position as int];
                                    assert(branch_wf_at(nb, lvl, j));
                                    lemma_cnode_updated(c0, new_cnode, nb, j, lvl);
                                }
                                let new_main = MainNode::from_ctrie_node(new_cnode);
                                let committed = gcas(
                                    inode,
                                    new_main,
                                    start_generation,
                                    read_only,
                                    guard,
                                );
                                proof {
                                    let nb = new_cnode.array@[position as int];
                                    assert forall|k: K|
                                        #[trigger] inode.main.lookup_at(k, lvl) == (if k == k0 {
                                            Some(v0)
                                        } else {
                                            old(inode).main.lookup_at(k, lvl)
                                        }) by {
                                        assert(inode.main.lookup_at(k, lvl) == cnode_lookup(
                                            new_cnode,
                                            k,
                                            lvl,
                                        ));
                                        if hash_index(k.hash_spec(), lvl) == j {
                                            assert(cnode_lookup(new_cnode, k, lvl)
                                                == branch_lookup(nb, k, lvl));
                                            assert(cnode_lookup(c0, k, lvl) == branch_lookup(
                                                c0.array@[position as int],
                                                k,
                                                lvl,
                                            ));
                                        }
                                    }
                                }
                                if committed {
                                    IInsertResult::Inserted
                                } else {
                                    IInsertResult::Restart
                                }
                            }
                        },
                    }
                }
            },
            MainNodeKind::List(lnode) => {
                // at the maximal depth: rebuild the list with the entry
                // added or replaced
                let ghost e0 = list_entries(*lnode);
                let (maybe_rest, _found) = lnode.remove(&key, guard);
                let new_lnode = match maybe_rest {
                    Some(rest) => rest.add(key, value),
                    None => ListNode::new(key, value),
                };
                proof {
                    lemma_list_removed(e0, k0);
                    let rem = list_removed(e0, k0);
                    crate::node::list::lemma_find_none_absent(rem, k0);
                    let ne = list_entries(new_lnode);
                    assert(ne =~= seq![(k0, v0)] + rem);
                    assert(ne.len() >= 2);
                    assert forall|a: int| 0 <= a < ne.len() implies (#[trigger] ne[a]).0.hash_spec()
                        == hash by {
                        if a > 0 {
                            let w = choose|w: int| 0 <= w < e0.len() && e0[w] == rem[a - 1];
                            let kk = e0[w].0;
                            if list_find(e0, kk) is None {
                                crate::node::list::lemma_find_none_absent(e0, kk);
                            }
                            assert(old(inode).main.lookup_at(kk, lvl) is Some);
                            crate::bits::lemma_agree_full(kk.hash_spec(), hash, lvl);
                        }
                    }
                    assert(crate::node::list::hashes_equal(ne));
                    assert(distinct_keys(ne)) by {
                        assert forall|a: int, b: int| 0 <= a < b < ne.len() implies ne[a].0
                            != ne[b].0 by {
                            if a == 0 {
                                assert(ne[b] == rem[b - 1]);
                            } else {
                                assert(ne[a] == rem[a - 1] && ne[b] == rem[b - 1]);
                            }
                        }
                    }
                    assert forall|k: K|
                        #[trigger] list_find(ne, k) == (if k == k0 {
                            Some(v0)
                        } else {
                            list_find(e0, k)
                        }) by {
                        assert(ne[0] == (k0, v0));
                        assert(ne.drop_first() =~= rem);
                        if k == k0 {
                            assert(list_find(ne, k) == Some(v0));
                        } else {
                            assert(list_find(ne, k) == list_find(rem, k));
                        }
                    }
                }
                let new_main = MainNode::from_list_node(new_lnode);
                let committed = gcas(inode, new_main, start_generation, read_only, guard);
                proof {
                    assert forall|k: K|
                        #[trigger] inode.main.lookup_at(k, lvl) == (if k == k0 {
                            Some(v0)
                        } else {
                            old(inode).main.lookup_at(k, lvl)
                        }) by {
                        assert(inode.main.lookup_at(k, lvl) == list_find(
                            list_entries(new_lnode),
                            k,
                        ));
                        assert(old(inode).main.lookup_at(k, lvl) == list_find(e0, k));
                    }
                }
                if committed {
                    IInsertResult::Inserted
                } else {
                    IInsertResult::Restart
                }
            },
            MainNodeKind::Tomb(_) => unreached(),
            MainNodeKind::Failed => unreached(),
        }
    }

    /// Removes the key: afterwards the trie holds exactly the old entries
    /// except it, and the removed value, if any, is returned.
    pub fn remove(&mut self, key: &K, guard: &Guard) -> (r: Option<V>)
        requires
            old(self).inv(),
            !old(self).is_read_only(),
        ensures
            final(self).inv(),
            final(self)@ == old(self)@.remove(*key),
            r is Some <==> old(self)@.contains_key(*key),
            r is Some ==> r->0 == old(self)@[*key],
            final(self).is_read_only() == old(self).is_read_only(),
            final(self).generation_counter() == old(self).generation_counter(),
            final(self).root_generation() == old(self).root_generation(),
    {
        let ghost k0 = *key;
        let hash = key.key_hash();
        let start_generation = self.root.generation;
        let read_only = self.read_only;
        let r = Self::iremove(&mut self.root, key, hash, 0, start_generation, read_only, guard);
        proof {
            assert(self@ =~= old(self)@.remove(k0));
        }
        r
    }

    /// One descent of the removal, from `inode` at `level`: publishes a
    /// copy of the C-node with the leaf dropped and contracts compactable
    /// paths on the way out, drops a list entry at the maximal depth, or
    /// renews a stale subtree and retries. A removal that entombs this
    /// node leaves the contraction of the parent to the caller.
    fn iremove(
        inode: &mut IndirectionNode<K, V>,
        key: &K,
        hash: u64,
        level: usize,
        start_generation: Generation,
        read_only: bool,
        guard: &Guard,
    ) -> (r: Option<V>)
        requires
            old(inode).main.wf_at(level as nat),
            level % 6 == 0,
            level <= 66,
            hash == key.hash_spec(),
            old(inode).generation == start_generation,
            !read_only,
        ensures
            final(inode).generation == start_generation,
            final(inode).main.prev is None,
            r == old(inode).main.lookup_at(*key, level as nat),
            r is None ==> final(inode).main.wf_at(level as nat),
            final(inode).main.wf_at(level as nat) || (level > 0 && final(inode).main.kind
                is Tomb),
            final(inode).main.kind is Ctrie ==> (final(inode).main.kind->Ctrie_0.generation
                == start_generation || (old(inode).main.kind is Ctrie
                && final(inode).main.kind->Ctrie_0.generation
                    == old(inode).main.kind->Ctrie_0.generation)),
            forall|k: K|
                #[trigger] final(inode).main.lookup_at(k, level as nat) == (if k == *key {
                    None
                } else {
                    old(inode).main.lookup_at(k, level as nat)
                }),
        decreases 66 - level, stale_rank(*inode, hash, level as nat, start_generation),
    {
        let ghost lvl = level as nat;
        let ghost k0 = *key;
        let igen = inode.generation;
        let main = gcas_read(&*inode, guard);
        match main.kind() {
            MainNodeKind::Ctrie(cnode) => {
                let ghost c0 = *cnode;
                let bitmap = cnode.bitmap();
                let (flag, position) = flag_and_position(hash, level, bitmap);
                let ghost j = hash_index(hash, lvl);
                proof {
                    lemma_hash_index_bound(hash, lvl);
                    assert(flag & bitmap == bitmap & (1u64 << j)) by (bit_vector)
                        requires
                            j < 64 && flag == 1u64 << j,
                    ;
                    lemma_pcount_mono(bitmap, j as nat, 64);
                }
                if flag & bitmap == 0 {
                    // no branch for this slice: nothing to remove
                    proof {
                        assert(cnode_lookup(c0, k0, lvl) is None);
                    }
                    None
                } else {
                    proof {
                        lemma_pcount_lt(bitmap, j, 64);
                        assert(branch_wf_at(c0.array@[position as int], lvl, j));
                    }
                    match cnode.branch(position) {
                        Branch::Singleton(snode) => {
                            if !snode.key().key_eq(key) {
                                proof {
                                    assert(cnode_lookup(c0, k0, lvl) == branch_lookup(
                                        c0.array@[position as int],
                                        k0,
                                        lvl,
                                    ));
                                }
                                None
                            } else {
                                // drop the leaf and contract the copy
                                let ghost old_snode = *snode;
                                let removed_value = snode.value().val_clone();
                                let new_cnode = cnode.removed(position, flag, igen, Ghost(lvl));
                                proof {
                                    crate::node::ctrie::lemma_cnode_removed(c0, new_cnode, j, lvl);
                                }
                                let new_main = new_cnode.to_contracted(level);
                                let committed = gcas(
                                    inode,
                                    new_main,
                                    start_generation,
                                    read_only,
                                    guard,
                                );
                                proof {
                                    assert(c0.array@[position as int] == Branch::Singleton(
                                        old_snode,
                                    ));
                                    assert(cnode_lookup(c0, k0, lvl) == branch_lookup(
                                        c0.array@[position as int],
                                        k0,
                                        lvl,
                                    ));
                                    assert forall|k: K|
                                        #[trigger] inode.main.lookup_at(k, lvl) == (if k == k0 {
                                            None
                                        } else {
                                            old(inode).main.lookup_at(k, lvl)
                                        }) by {
                                        assert(inode.main.lookup_at(k, lvl) == cnode_lookup(
                                            new_cnode,
                                            k,
                                            lvl,
                                        ));
                                        if hash_index(k.hash_spec(), lvl) == j && k != k0 {
                                            assert(cnode_lookup(c0, k, lvl) == branch_lookup(
                                                c0.array@[position as int],
                                                k,
                                                lvl,
                                            ));
                                        }
                                    }
                                }
                                Some(removed_value)
                            }
                        },
                        Branch::Indirection(child) => {
                            if generation_eq(child.generation(), &start_generation) {
                                // the child is current: descend, then
                                // compress this node in case the removal
                                // entombed the child
                                let c_mut = match &mut inode.main.kind {
                                    MainNodeKind::Ctrie(c) => c,
                                    _ => unreached(),
                                };
                                let child_mut = match &mut c_mut.array[position] {
                                    Branch::Indirection(ch) => ch,
                                    _ => unreached(),
                                };
                                let ghost oc = *child_mut;
                                let r = Self::iremove(
                                    child_mut,
                                    key,
                                    hash,
                                    level + 6,
                                    start_generation,
                                    read_only,
                                    guard,
                                );
                                proof {
                                    let c1 = inode.main.kind->Ctrie_0;
                                    assert(c0.array@[position as int] == Branch::Indirection(oc));
                                    assert(c1.bitmap == c0.bitmap);
                                    assert(c1.generation == c0.generation);
                                    assert(c1.array@ == c0.array@.update(
                                        position as int,
                                        c1.array@[position as int],
                                    ));
                                    assert(r == oc.main.lookup_at(k0, (lvl + 6) as nat));
                                    assert(r == old(inode).main.lookup_at(k0, lvl));
                                }
                                if r.is_none() {
                                    proof {
                                        let c1 = inode.main.kind->Ctrie_0;
                                        let nb = c1.array@[position as int];
                                        let nc = nb->Indirection_0;
                                        assert forall|k: K|
                                            (#[trigger] branch_lookup(nb, k, lvl)) is Some implies
                                            hash_index(k.hash_spec(), lvl) == j by {
                                            assert(branch_lookup(nb, k, lvl)
                                                == nc.main.lookup_at(k, (lvl + 6) as nat));
                                            assert(nc.main.lookup_at(k, (lvl + 6) as nat) == (
                                            if k == k0 {
                                                None
                                            } else {
                                                oc.main.lookup_at(k, (lvl + 6) as nat)
                                            }));
                                            assert(oc.main.lookup_at(k, (lvl + 6) as nat)
                                                is Some);
                                            assert(branch_wf_at(
                                                c0.array@[position as int],
                                                lvl,
                                                j,
                                            ));
                                        }
                                        assert(branch_wf_at(nb, lvl, j));
                                        lemma_cnode_updated(c0, c1, nb, j, lvl);
                                        assert forall|k: K|
                                            #[trigger] inode.main.lookup_at(k, lvl) == (if k == k0 {
                                                None
                                            } else {
                                                old(inode).main.lookup_at(k, lvl)
                                            }) by {
                                            if hash_index(k.hash_spec(), lvl) == j {
                                                assert(cnode_lookup(c1, k, lvl) == branch_lookup(
                                                    nb,
                                                    k,
                                                    lvl,
                                                ));
                                                assert(branch_lookup(nb, k, lvl)
                                                    == nc.main.lookup_at(k, (lvl + 6) as nat));
                                                assert(nc.main.lookup_at(k, (lvl + 6) as nat)
                                                    == (if k == k0 {
                                                    None
                                                } else {
                                                    oc.main.lookup_at(k, (lvl + 6) as nat)
                                                }));
                                                assert(cnode_lookup(c0, k, lvl) == branch_lookup(
                                                    c0.array@[position as int],
                                                    k,
                                                    lvl,
                                                ));
                                            }
                                        }
                                    }
                                    r
                                } else {
                                    // the removal may have entombed the
                                    // child: resurrect it and contract this
                                    // node before publishing
                                    proof {
                                        let c1 = inode.main.kind->Ctrie_0;
                                        let nb = c1.array@[position as int];
                                        let nc = nb->Indirection_0;
                                        assert forall|j2: u64|
                                            j2 < 64 && c1.bitmap & (1u64 << j2) != 0u64 implies
                                            branch_semi_wf(
                                            c1.array@[
                                                #[trigger] pcount(c1.bitmap, j2 as nat) as int],
                                            lvl,
                                            j2,
                                        ) by {
                                            lemma_pcount_lt(c1.bitmap, j2, 64);
                                            let p = pcount(c1.bitmap, j2 as nat) as int;
                                            assert(branch_wf_at(c0.array@[p], lvl, j2));
                                            if p == position as int {
                                                assert(j2 == j) by {
                                                    if j2 != j {
                                                        if j2 < j {
                                                            lemma_pcount_lt(
                                                                c1.bitmap,
                                                                j2,
                                                                j as nat,
                                                            );
                                                        } else {
                                                            lemma_pcount_lt(
                                                                c1.bitmap,
                                                                j,
                                                                j2 as nat,
                                                            );
                                                        }
                                                    }
                                                }
                                                if nc.main.kind is Tomb {
                                                    let ts = nc.main.kind->Tomb_0.snode;
                                                    assert(nc.main.lookup_at(
                                                        ts.key,
                                                        (lvl + 6) as nat,
                                                    ) == Some(ts.value));
                                                    assert(ts.key != k0);
                                                    assert(oc.main.lookup_at(
                                                        ts.key,
                                                        (lvl + 6) as nat,
                                                    ) is Some);
                                                    assert(branch_wf_at(
                                                        c0.array@[position as int],
                                                        lvl,
                                                        j,
                                                    ));
                                                } else {
                                                    assert forall|k: K|
                                                        (#[trigger] branch_lookup(nb, k, lvl))
                                                            is Some implies hash_index(
                                                        k.hash_spec(),
                                                        lvl,
                                                    ) == j by {
                                                        assert(branch_lookup(nb, k, lvl)
                                                            == nc.main.lookup_at(
                                                            k,
                                                            (lvl + 6) as nat,
                                                        ));
                                                        assert(nc.main.lookup_at(
                                                            k,
                                                            (lvl + 6) as nat,
                                                        ) == (if k == k0 {
                                                            None
                                                        } else {
                                                            oc.main.lookup_at(
                                                                k,
                                                                (lvl + 6) as nat,
                                                            )
                                                        }));
                                                        assert(oc.main.lookup_at(
                                                            k,
                                                            (lvl + 6) as nat,
                                                        ) is Some);
                                                        assert(branch_wf_at(
                                                            c0.array@[position as int],
                                                            lvl,
                                                            j,
                                                        ));
                                                    }
                                                    assert(branch_wf_at(nb, lvl, j));
                                                }
                                            }
                                        }
                                    }
                                    let c_now = match &inode.main.kind {
                                        MainNodeKind::Ctrie(c) => c,
                                        _ => unreached(),
                                    };
                                    let ghost c1 = *c_now;
                                    let new_main = to_compressed(c_now, level, igen, guard);
                                    let committed = gcas(
                                        inode,
                                        new_main,
                                        start_generation,
                                        read_only,
                                        guard,
                                    );
                                    proof {
                                        let nb = c1.array@[position as int];
                                        assert forall|k: K|
                                            #[trigger] inode.main.lookup_at(k, lvl) == (if k == k0 {
                                                None
                                            } else {
                                                old(inode).main.lookup_at(k, lvl)
                                            }) by {
                                            assert(inode.main.lookup_at(k, lvl) == cnode_lookup(
                                                c1,
                                                k,
                                                lvl,
                                            ));
                                            if hash_index(k.hash_spec(), lvl) == j {
                                                assert(cnode_lookup(c1, k, lvl) == branch_lookup(
                                                    nb,
                                                    k,
                                                    lvl,
                                                ));
                                                assert(cnode_lookup(c0, k, lvl) == branch_lookup(
                                                    c0.array@[position as int],
                                                    k,
                                                    lvl,
                                                ));
                                                assert(branch_lookup(nb, k, lvl) == nb
                                                    ->Indirection_0.main.lookup_at(
                                                    k,
                                                    (lvl + 6) as nat,
                                                ));
                                            }
                                        }
                                    }
                                    r
                                }
                            } else {
                                // the child belongs to an older version:
                                // renew this C-node in the current
                                // generation, publish it, and retry here
                                let renewed_cnode = cnode.renewed(start_generation, Ghost(lvl));
                                proof {
                                    assert(cnode_sim(renewed_cnode, c0, lvl));
                                    lemma_cnode_sim(renewed_cnode, c0, lvl);
                                }
                                let new_main = MainNode::from_ctrie_node(renewed_cnode);
                                if gcas(inode, new_main, start_generation, read_only, guard) {
                                    proof {
                                        assert(stale_rank(*inode, hash, lvl, start_generation)
                                            == 0);
                                    }
                                    let ghost at_retry = *inode;
                                    let r = Self::iremove(
                                        inode,
                                        key,
                                        hash,
                                        level,
                                        start_generation,
                                        read_only,
                                        guard,
                                    );
                                    proof {
                                        assert forall|k: K|
                                            #[trigger] inode.main.lookup_at(k, lvl) == (if k
                                                == k0 {
                                                None
                                            } else {
                                                old(inode).main.lookup_at(k, lvl)
                                            }) by {
                                            assert(inode.main.lookup_at(k, lvl) == (if k == k0 {
                                                None
                                            } else {
                                                at_retry.main.lookup_at(k, lvl)
                                            }));
                                            assert(cnode_lookup(renewed_cnode, k, lvl)
                                                == cnode_lookup(c0, k, lvl));
                                        }
                                        assert(r == at_retry.main.lookup_at(k0, lvl));
                                        assert(cnode_lookup(renewed_cnode, k0, lvl)
                                            == cnode_lookup(c0, k0, lvl));
                                    }
                                    r
                                } else {
                                    unreached()
                                }
                            }
                        },
                    }
                }
            },
            MainNodeKind::List(lnode) => {
                // at the maximal depth: drop the entry from the list, and
                // entomb the node when one entry is left
                let ghost e0 = list_entries(*lnode);
                let removed_value = match lnode.lookup(key, guard) {
                    Some(v) => Some(v.val_clone()),
                    None => None,
                };
                if removed_value.is_none() {
                    proof {
                        assert(old(inode).main.lookup_at(k0, lvl) is None);
                    }
                    None
                } else {
                    let (maybe_rest, _found) = lnode.remove(key, guard);
                    proof {
                        lemma_list_removed(e0, k0);
                        crate::node::list::lemma_find_none_absent(list_removed(e0, k0), k0);
                    }
                    let new_main = match maybe_rest {
                        Some(rest) => {
                            let ListNode { head, tail } = rest;
                            match tail {
                                None => {
                                    // one entry left: entomb it for the
                                    // parent to contract
                                    proof {
                                        let rem = list_removed(e0, k0);
                                        assert(rem =~= seq![(head.key, head.value)]);
                                    }
                                    entomb(head)
                                },
                                Some(t) => {
                                    let l2 = ListNode { head, tail: Some(t) };
                                    proof {
                                        crate::node::list::lemma_list_entries_unfold(l2);
                                        assert(list_entries(l2).len() >= 2);
                                        let rem = list_removed(e0, k0);
                                        assert forall|a: int, b: int|
                                            0 <= a < rem.len() && 0 <= b < rem.len() implies (
                                        #[trigger] rem[a]).0.hash_spec() == (
                                        #[trigger] rem[b]).0.hash_spec() by {
                                            let wa = choose|w: int|
                                                0 <= w < e0.len() && e0[w] == rem[a];
                                            let wb = choose|w: int|
                                                0 <= w < e0.len() && e0[w] == rem[b];
                                            assert(e0[wa].0.hash_spec() == e0[wb].0.hash_spec());
                                        }
                                        assert(crate::node::list::hashes_equal(rem));
                                    }
                                    MainNode::from_list_node(l2)
                                },
                            }
                        },
                        None => unreached(),
                    };
                    let ghost rem = list_removed(e0, k0);
                    let committed = gcas(inode, new_main, start_generation, read_only, guard);
                    proof {
                        assert(old(inode).main.lookup_at(k0, lvl) == list_find(e0, k0));
                        assert forall|k: K|
                            #[trigger] inode.main.lookup_at(k, lvl) == (if k == k0 {
                                None
                            } else {
                                old(inode).main.lookup_at(k, lvl)
                            }) by {
                            if inode.main.kind is Tomb {
                                let ts = inode.main.kind->Tomb_0.snode;
                                assert(rem =~= seq![(ts.key, ts.value)]);
                                if k != k0 {
                                    assert(list_find(rem, k) == list_find(e0, k));
                                    assert(rem[0] == (ts.key, ts.value));
                                    if k == ts.key {
                                        assert(list_find(rem, k) == Some(ts.value));
                                    } else {
                                        assert(list_find(rem, k) == list_find(
                                            rem.drop_first(),
                                            k,
                                        ));
                                        assert(rem.drop_first().len() == 0);
                                        assert(list_find(rem.drop_first(), k) is None);
                                    }
                                }
                            } else {
                                assert(inode.main.lookup_at(k, lvl) == list_find(rem, k));
                            }
                        }
                    }
                    removed_value
                }
            },
            MainNodeKind::Tomb(_) => unreached(),
            MainNodeKind::Failed => unreached(),
        }
    }

    /// Takes a writable snapshot: a logically independent trie holding
    /// the same entries. The snapshot's tree is re-tagged with a fresh
    /// generation at the root, and so is the original's, so that later
    /// writes on either side renew lazily only the paths they touch.
    /// Both root tokens are newly minted: they differ from each other and
    /// from the old root's token.
    ///
    /// Under exclusive ownership the snapshot copies the tree instead of
    /// sharing it behind an atomic root swap, so it takes time
    /// proportional to the tree, not the constant time of the concurrent
    /// design, and it needs `&mut self` to re-tag the original's root.
    pub fn snapshot(&mut self, guard: &Guard) -> (r: Self)
        requires
            old(self).inv(),
            old(self).generation_counter() <= u64::MAX - 2,
        ensures
            final(self).inv(),
            r.inv(),
            final(self)@ == old(self)@,
            r@ == old(self)@,
            final(self).is_read_only() == old(self).is_read_only(),
            !r.is_read_only(),
            final(self).generation_counter() == old(self).generation_counter() + 2,
            r.generation_counter() == old(self).generation_counter() + 2,
            final(self).root_generation().id == old(self).generation_counter(),
            r.root_generation().id == old(self).generation_counter() + 1,
            final(self).root_generation() != old(self).root_generation(),
            r.root_generation() != old(self).root_generation(),
            final(self).root_generation() != r.root_generation(),
    {
        let g1 = Generation { id: self.next_generation };
        let g2 = Generation { id: self.next_generation + 1 };
        self.next_generation = self.next_generation + 2;
        // the snapshot takes a renewed copy of the root; the original is
        // re-tagged too, so both sides treat the shared past as stale
        let snapshot_root = self.root.copy_to_gen(g2, Ghost(0nat));
        self.root.generation = g1;
        let r = Ctrie {
            root: snapshot_root,
            read_only: false,
            next_generation: self.next_generation,
        };
        proof {
            assert(r@ =~= old(self)@);
            assert(self@ =~= old(self)@);
        }
        r
    }

    /// Takes a read-only snapshot: a trie holding the same entries on
    /// which writes are disabled. Its tree keeps its generations — a
    /// reader traverses stale generations as they stand — while the
    /// original's root is re-tagged with a newly minted token.
    pub fn readonly_snapshot(&mut self, guard: &Guard) -> (r: Self)
        requires
            old(self).inv(),
            old(self).generation_counter() <= u64::MAX - 1,
        ensures
            final(self).inv(),
            r.inv(),
            final(self)@ == old(self)@,
            r@ == old(self)@,
            final(self).is_read_only() == old(self).is_read_only(),
            r.is_read_only(),
            final(self).generation_counter() == old(self).generation_counter() + 1,
            r.generation_counter() == old(self).generation_counter() + 1,
            final(self).root_generation().id == old(self).generation_counter(),
            final(self).root_generation() != old(self).root_generation(),
            r.root_generation() == old(self).root_generation(),
    {
        let g1 = Generation { id: self.next_generation };
        self.next_generation = self.next_generation + 1;
        let snapshot_root = self.root.duplicate(Ghost(0nat));
        self.root.generation = g1;
        let r = Ctrie {
            root: snapshot_root,
            read_only: true,
            next_generation: self.next_generation,
        };
        proof {
            assert(r@ =~= old(self)@);
            assert(self@ =~= old(self)@);
        }
        r
    }

    /// Looks the key up: the returned reference is the value the trie
    /// holds for it, valid while the guard is held. The read path never
    /// rewrites stale generations; renewal is left to the writes, which
    /// is why a lookup needs no exclusive access.
    pub fn lookup<'g>(&'g self, key: &K, guard: &'g Guard) -> (r: Option<&'g V>)
        requires
            self.inv(),
        ensures
            match r {
                Some(v) => self@.contains_key(*key) && *v == self@[*key],
                None => !self@.contains_key(*key),
            },
    {
        let hash = key.key_hash();
        Self::ilookup(&self.root, key, hash, 0, guard)
    }

    /// One descent of the lookup, from `inode` at `level`: follows the
    /// key's hash slice through C-nodes and scans a list node at the
    /// maximal depth. Stale generations are traversed as they stand;
    /// renewal is a concern of the write path.
    fn ilookup<'g>(
        inode: &'g IndirectionNode<K, V>,
        key: &K,
        hash: u64,
        level: usize,
        guard: &'g Guard,
    ) -> (r: Option<&'g V>)
        requires
            inode.main.wf_at(level as nat),
            level % 6 == 0,
            level <= 66,
            hash == key.hash_spec(),
        ensures
            match r {
                Some(v) => inode.main.lookup_at(*key, level as nat) == Some(*v),
                None => inode.main.lookup_at(*key, level as nat) is None,
            },
        decreases 66 - level,
    {
        let ghost lvl = level as nat;
        let main = gcas_read(inode, guard);
        match main.kind() {
            MainNodeKind::Ctrie(cnode) => {
                let bitmap = cnode.bitmap();
                let (flag, position) = flag_and_position(hash, level, bitmap);
                let ghost j = hash_index(hash, lvl);
                proof {
                    lemma_hash_index_bound(hash, lvl);
                    assert(flag & bitmap == bitmap & (1u64 << j)) by (bit_vector)
                        requires
                            j < 64 && flag == 1u64 << j,
                    ;
                    lemma_pcount_mono(bitmap, j as nat, 64);
                }
                if flag & bitmap == 0 {
                    // the bitmap has no branch for this slice: the key is
                    // not present
                    None
                } else {
                    proof {
                        lemma_pcount_lt(bitmap, j, 64);
                        assert(branch_wf_at(cnode.array@[position as int], lvl, j));
                    }
                    match cnode.branch(position) {
                        Branch::Indirection(child) => Self::ilookup(
                            child,
                            key,
                            hash,
                            level + 6,
                            guard,
                        ),
                        Branch::Singleton(snode) => {
                            if snode.key().key_eq(key) {
                                Some(snode.value())
                            } else {
                                None
                            }
                        },
                    }
                }
            },
            MainNodeKind::List(lnode) => lnode.lookup(key, guard),
            MainNodeKind::Tomb(_) => unreached(),
            MainNodeKind::Failed => unreached(),
        }
    }
}

/// Compares two generation tokens by identity.
fn generation_eq(a: &Generation, b: &Generation) -> (r: bool)
    ensures
        r == (*a == *b),
{
    *a == *b
}

/// After an insertion, the inserted key maps to the inserted value, and
/// every other key maps to what it mapped to before. Together with the
/// contracts of `insert` and `lookup`, a lookup after an insertion
/// returns the inserted value.
pub proof fn lemma_insert_then_lookup<K, V>(m: Map<K, V>, k: K, v: V)
    ensures
        m.insert(k, v).contains_key(k),
        m.insert(k, v)[k] == v,
        forall|k2: K|
            k2 != k ==> #[trigger] m.insert(k, v).contains_key(k2) == m.contains_key(k2),
        forall|k2: K|
            k2 != k && m.contains_key(k2) ==> #[trigger] m.insert(k, v)[k2] == m[k2],
{
}

/// The second insertion of the same key wins: after inserting a key
/// twice, a lookup of it returns the later value.
pub proof fn lemma_insert_overwrites<K, V>(m: Map<K, V>, k: K, v1: V, v2: V)
    ensures
        m.insert(k, v1).insert(k, v2).contains_key(k),
        m.insert(k, v1).insert(k, v2)[k] == v2,
{
}

/// Removing a key that was just inserted leaves a map without that key,
/// and every other key untouched: a lookup of it then finds nothing.
pub proof fn lemma_insert_then_remove<K, V>(m: Map<K, V>, k: K, v: V)
    ensures
        !m.insert(k, v).remove(k).contains_key(k),
        forall|k2: K|
            k2 != k ==> #[trigger] m.insert(k, v).remove(k).contains_key(k2) == m.contains_key(
                k2,
            ),
        forall|k2: K|
            k2 != k && m.contains_key(k2) ==> #[trigger] m.insert(k, v).remove(k)[k2] == m[k2],
{
}

/// A well-formed main node is settled and live: its previous-value slot
/// is clear, it is not a failed marker, and it is not a tomb. Since
/// well-formedness extends to every nested indirection node, no failed
/// marker and no tomb is reachable in a well-formed tree, so the
/// protocol's read path never observes one, and after a removal returns
/// no residual tomb is left behind.
pub proof fn lemma_wf_settled<K: Key, V: Value>(m: MainNode<K, V>, lvl: nat)
    requires
        m.wf_at(lvl),
    ensures
        m.prev is None,
        !(m.kind is Failed),
        !(m.kind is Tomb),
{
}

/// A list node stands only at the maximal depth of the trie, where every
/// six-bit slice of the hash has been consumed, and it holds only keys
/// that share their full 64-bit hash.
pub proof fn lemma_list_at_max_depth<K: Key, V: Value>(m: MainNode<K, V>, lvl: nat)
    requires
        m.wf_at(lvl),
        m.kind is List,
    ensures
        lvl == 66,
        crate::node::list::hashes_equal(list_entries(m.kind->List_0)),
{
}

/// In a well-formed main node whose payload is a C-node, the number of
/// set bits of the bitmap equals the length of the branch array. Since
/// well-formedness extends to every nested indirection node, the same
/// holds of every C-node in a well-formed tree, after any sequence of
/// operations.
pub proof fn lemma_wf_bitmap_arity<K: Key, V: Value>(m: MainNode<K, V>, lvl: nat)
    requires
        m.wf_at(lvl),
        m.kind is Ctrie,
    ensures
        m.kind->Ctrie_0.array@.len() == pcount(m.kind->Ctrie_0.bitmap, 64),
{
}

} // verus!
