//! The bitmapped sparse interior node of the trie, together with the
//! specifications that say where a key's branch sits and what the node
//! holds.

use crate::bits::{flag_of, hash_index, pcount};
use crate::node::indirection::IndirectionNode;
use crate::node::main::{MainNode, MainNodeKind};
use crate::node::singleton::SingletonNode;
use crate::node::tomb::TombNode;
use crate::{Generation, Key, Value};
use vstd::prelude::*;

verus! {

/// A slot of a C-node: either a nested indirection node or a key/value
/// leaf.
pub enum Branch<K, V> {
    Indirection(IndirectionNode<K, V>),
    Singleton(SingletonNode<K, V>),
}

/// A C-node: a bitmap with one branch per set bit. The branch
/// corresponding to hash slice `i` lives at the array position given by
/// the number of set bits of the bitmap below `i`.
pub struct CtrieNode<K, V> {
    pub bitmap: u64,
    pub array: Vec<Branch<K, V>>,
    pub generation: Generation,
}

/// The value a branch holds for key `k`, where the branch hangs off a
/// C-node at `lvl`.
pub open spec fn branch_lookup<K: Key, V: Value>(b: Branch<K, V>, k: K, lvl: nat) -> Option<V>
    decreases 66 - lvl, 0int,
{
    match b {
        Branch::Indirection(inode) => if lvl <= 60 {
            inode.main.lookup_at(k, (lvl + 6) as nat)
        } else {
            None
        },
        Branch::Singleton(s) => if s.key == k {
            Some(s.value)
        } else {
            None
        },
    }
}

/// The value a C-node at `lvl` holds for key `k`: found by following the
/// six-bit slice of the key's hash.
pub open spec fn cnode_lookup<K: Key, V: Value>(c: CtrieNode<K, V>, k: K, lvl: nat) -> Option<V>
    decreases 66 - lvl, 1int,
{
    if lvl <= 60 {
        let j = hash_index(k.hash_spec(), lvl);
        if c.bitmap & (1u64 << j) == 0u64 {
            None
        } else {
            let pos = pcount(c.bitmap, j as nat) as int;
            if 0 <= pos < c.array@.len() {
                branch_lookup(c.array@[pos], k, lvl)
            } else {
                None
            }
        }
    } else {
        None
    }
}

/// Well-formedness of a branch sitting under bit `j` of a C-node at
/// `lvl`: a leaf's hash slice is `j`; a nested indirection node is
/// well formed one level down and holds only keys whose hash slice at
/// `lvl` is `j`.
pub open spec fn branch_wf_at<K: Key, V: Value>(b: Branch<K, V>, lvl: nat, j: u64) -> bool
    decreases 66 - lvl, 0int,
{
    match b {
        Branch::Indirection(inode) => lvl <= 60 && inode.main.wf_at((lvl + 6) as nat) && (forall|
            k: K,
        |
            (#[trigger] inode.main.lookup_at(k, (lvl + 6) as nat)) is Some ==> hash_index(
                k.hash_spec(),
                lvl,
            ) == j),
        Branch::Singleton(s) => hash_index(s.key.hash_spec(), lvl) == j,
    }
}

impl<K: Key, V: Value> CtrieNode<K, V> {
    /// Well-formedness of a C-node at `lvl`: one branch per set bit of the
    /// bitmap, each well formed under its bit.
    pub open spec fn wf_at(self, lvl: nat) -> bool
        decreases 66 - lvl, 1int,
    {
        &&& lvl % 6 == 0
        &&& lvl <= 60
        &&& self.array@.len() == pcount(self.bitmap, 64)
        &&& forall|j: u64|
            j < 64 && self.bitmap & (1u64 << j) != 0u64 ==> branch_wf_at(
                self.array@[#[trigger] pcount(self.bitmap, j as nat) as int],
                lvl,
                j,
            )
    }
}

/// Two branches are similar at `lvl` when they are well formed under the
/// same bits and hold the same keys and values. A copy of a branch is
/// similar to its original.
pub open spec fn branch_sim<K: Key, V: Value>(b1: Branch<K, V>, b2: Branch<K, V>, lvl: nat) -> bool {
    &&& (b1 is Indirection <==> b2 is Indirection)
    &&& forall|j: u64| #[trigger] branch_wf_at(b1, lvl, j) == branch_wf_at(b2, lvl, j)
    &&& forall|k: K| #[trigger] branch_lookup(b1, k, lvl) == branch_lookup(b2, k, lvl)
}

/// Two C-nodes are similar at `lvl` when they share a bitmap and their
/// branches are pointwise similar.
pub open spec fn cnode_sim<K: Key, V: Value>(c1: CtrieNode<K, V>, c2: CtrieNode<K, V>, lvl: nat) -> bool {
    &&& c1.bitmap == c2.bitmap
    &&& c1.array@.len() == c2.array@.len()
    &&& forall|i: int|
        0 <= i < c1.array@.len() ==> branch_sim(#[trigger] c1.array@[i], c2.array@[i], lvl)
}

/// Similar C-nodes are equally well formed and hold the same entries.
pub proof fn lemma_cnode_sim<K: Key, V: Value>(c1: CtrieNode<K, V>, c2: CtrieNode<K, V>, lvl: nat)
    requires
        cnode_sim(c1, c2, lvl),
    ensures
        c1.wf_at(lvl) == c2.wf_at(lvl),
        forall|k: K| #[trigger] cnode_lookup(c1, k, lvl) == cnode_lookup(c2, k, lvl),
{
    assert forall|k: K| #[trigger] cnode_lookup(c1, k, lvl) == cnode_lookup(c2, k, lvl) by {
        if lvl <= 60 {
            let j = hash_index(k.hash_spec(), lvl);
            let pos = pcount(c1.bitmap, j as nat) as int;
            if c1.bitmap & (1u64 << j) != 0u64 && 0 <= pos < c1.array@.len() {
                assert(branch_sim(c1.array@[pos], c2.array@[pos], lvl));
                assert(branch_lookup(c1.array@[pos], k, lvl) == branch_lookup(
                    c2.array@[pos],
                    k,
                    lvl,
                ));
                assert(cnode_lookup(c1, k, lvl) == branch_lookup(c1.array@[pos], k, lvl));
                assert(cnode_lookup(c2, k, lvl) == branch_lookup(c2.array@[pos], k, lvl));
            }
        }
    }
    if c1.wf_at(lvl) {
        assert forall|j: u64| j < 64 && c2.bitmap & (1u64 << j) != 0u64 implies branch_wf_at(
            c2.array@[#[trigger] pcount(c2.bitmap, j as nat) as int],
            lvl,
            j,
        ) by {
            crate::bits::lemma_pcount_lt(c2.bitmap, j, 64);
            let pos = pcount(c1.bitmap, j as nat) as int;
            assert(branch_wf_at(c1.array@[pos], lvl, j));
            assert(branch_sim(c1.array@[pos], c2.array@[pos], lvl));
        }
    }
    if c2.wf_at(lvl) {
        assert forall|j: u64| j < 64 && c1.bitmap & (1u64 << j) != 0u64 implies branch_wf_at(
            c1.array@[#[trigger] pcount(c1.bitmap, j as nat) as int],
            lvl,
            j,
        ) by {
            crate::bits::lemma_pcount_lt(c1.bitmap, j, 64);
            let pos = pcount(c2.bitmap, j as nat) as int;
            assert(branch_wf_at(c2.array@[pos], lvl, j));
            assert(branch_sim(c1.array@[pos], c2.array@[pos], lvl));
        }
    }
}

/// Indirection branches over similar main nodes are similar branches.
pub proof fn lemma_branch_sim_indirection<K: Key, V: Value>(
    i1: IndirectionNode<K, V>,
    i2: IndirectionNode<K, V>,
    lvl: nat,
)
    requires
        crate::node::main::main_sim(i1.main, i2.main, (lvl + 6) as nat),
    ensures
        branch_sim(Branch::Indirection(i1), Branch::Indirection(i2), lvl),
{
    let b1 = Branch::<K, V>::Indirection(i1);
    let b2 = Branch::<K, V>::Indirection(i2);
    assert forall|j: u64| #[trigger] branch_wf_at(b1, lvl, j) == branch_wf_at(b2, lvl, j) by {
        if lvl <= 60 {
            if forall|k: K|
                (#[trigger] i1.main.lookup_at(k, (lvl + 6) as nat)) is Some ==> hash_index(
                    k.hash_spec(),
                    lvl,
                ) == j {
                assert forall|k: K|
                    (#[trigger] i2.main.lookup_at(k, (lvl + 6) as nat)) is Some implies hash_index(
                    k.hash_spec(),
                    lvl,
                ) == j by {
                    assert(i1.main.lookup_at(k, (lvl + 6) as nat) == i2.main.lookup_at(
                        k,
                        (lvl + 6) as nat,
                    ));
                }
            }
            if forall|k: K|
                (#[trigger] i2.main.lookup_at(k, (lvl + 6) as nat)) is Some ==> hash_index(
                    k.hash_spec(),
                    lvl,
                ) == j {
                assert forall|k: K|
                    (#[trigger] i1.main.lookup_at(k, (lvl + 6) as nat)) is Some implies hash_index(
                    k.hash_spec(),
                    lvl,
                ) == j by {
                    assert(i1.main.lookup_at(k, (lvl + 6) as nat) == i2.main.lookup_at(
                        k,
                        (lvl + 6) as nat,
                    ));
                }
            }
        }
    }
    assert forall|k: K| #[trigger] branch_lookup(b1, k, lvl) == branch_lookup(b2, k, lvl) by {
        if lvl <= 60 {
            assert(i1.main.lookup_at(k, (lvl + 6) as nat) == i2.main.lookup_at(
                k,
                (lvl + 6) as nat,
            ));
        }
    }
}

impl<K: Key, V: Value> Branch<K, V> {
    /// A copy of the branch, similar to the original.
    pub fn duplicate(&self, Ghost(lvl): Ghost<nat>) -> (b: Self)
        ensures
            branch_sim(b, *self, lvl),
        decreases *self,
    {
        match self {
            Branch::Indirection(inode) => {
                let i2 = inode.duplicate(Ghost((lvl + 6) as nat));
                proof {
                    lemma_branch_sim_indirection(i2, *inode, lvl);
                }
                Branch::Indirection(i2)
            },
            Branch::Singleton(s) => Branch::Singleton(s.duplicate()),
        }
    }
}

impl<K: Key, V: Value> CtrieNode<K, V> {
    /// Creates a new C-node with the given bitmap, array, and generation.
    pub fn new(bitmap: u64, array: Vec<Branch<K, V>>, generation: Generation) -> (c: Self)
        ensures
            c.bitmap == bitmap,
            c.array == array,
            c.generation == generation,
    {
        Self { bitmap, array, generation }
    }

    /// A copy of the C-node, similar to the original.
    pub fn duplicate(&self, Ghost(lvl): Ghost<nat>) -> (c: Self)
        ensures
            cnode_sim(c, *self, lvl),
            c.generation == self.generation,
        decreases *self,
    {
        let mut array: Vec<Branch<K, V>> = Vec::new();
        let n = self.array.len();
        let mut i: usize = 0;
        while i < n
            invariant
                i <= n,
                n == self.array@.len(),
                array@.len() == i,
                forall|w: int| 0 <= w < i ==> branch_sim(#[trigger] array@[w], self.array@[w], lvl),
            decreases n - i,
        {
            array.push(self.array[i].duplicate(Ghost(lvl)));
            i += 1;
        }
        Self { bitmap: self.bitmap, array, generation: self.generation }
    }

    /// Inserts a branch at `position`, setting `flag` in the bitmap and
    /// stamping the copy with `generation`. Returns a fresh node; the
    /// original is untouched.
    pub fn inserted(
        &self,
        flag: u64,
        position: usize,
        branch: Branch<K, V>,
        generation: Generation,
        Ghost(lvl): Ghost<nat>,
    ) -> (c: Self)
        requires
            position <= self.array@.len(),
        ensures
            c.bitmap == self.bitmap | flag,
            c.generation == generation,
            c.array@.len() == self.array@.len() + 1,
            c.array@[position as int] == branch,
            forall|i: int| 0 <= i < position ==> branch_sim(#[trigger] c.array@[i], self.array@[i], lvl),
            forall|i: int|
                position < i <= self.array@.len() ==> branch_sim(
                    #[trigger] c.array@[i],
                    self.array@[i - 1],
                    lvl,
                ),
    {
        let mut new_array = self.duplicate(Ghost(lvl)).array;
        new_array.insert(position, branch);
        Self { bitmap: self.bitmap | flag, array: new_array, generation }
    }

    /// Replaces the branch at `position`, stamping the copy with
    /// `generation`. Returns a fresh node; the original is untouched.
    pub fn updated(&self, position: usize, branch: Branch<K, V>, generation: Generation, Ghost(lvl): Ghost<nat>) -> (c: Self)
        requires
            position < self.array@.len(),
        ensures
            c.bitmap == self.bitmap,
            c.generation == generation,
            c.array@.len() == self.array@.len(),
            c.array@[position as int] == branch,
            forall|i: int|
                0 <= i < self.array@.len() && i != position ==> branch_sim(
                    #[trigger] c.array@[i],
                    self.array@[i],
                    lvl,
                ),
    {
        let mut new_array = self.duplicate(Ghost(lvl)).array;
        new_array.set(position, branch);
        Self { bitmap: self.bitmap, array: new_array, generation }
    }

    /// Drops the branch at `position`, clearing `flag` in the bitmap and
    /// stamping the copy with `generation`. Returns a fresh node; the
    /// original is untouched.
    pub fn removed(&self, position: usize, flag: u64, generation: Generation, Ghost(lvl): Ghost<nat>) -> (c: Self)
        requires
            position < self.array@.len(),
        ensures
            c.bitmap == self.bitmap & !flag,
            c.generation == generation,
            c.array@.len() == self.array@.len() - 1,
            forall|i: int| 0 <= i < position ==> branch_sim(#[trigger] c.array@[i], self.array@[i], lvl),
            forall|i: int|
                position <= i < c.array@.len() ==> branch_sim(
                    #[trigger] c.array@[i],
                    self.array@[i + 1],
                    lvl,
                ),
    {
        let mut new_array = self.duplicate(Ghost(lvl)).array;
        new_array.remove(position);
        Self { bitmap: self.bitmap & !flag, array: new_array, generation }
    }

    /// A copy of the C-node re-stamped with `generation`, whose nested
    /// indirection nodes are rebuilt in that generation; leaves are
    /// shared. Entries and shape are unchanged.
    pub fn renewed(&self, generation: Generation, Ghost(lvl): Ghost<nat>) -> (c: Self)
        ensures
            c.bitmap == self.bitmap,
            c.generation == generation,
            c.array@.len() == self.array@.len(),
            forall|i: int|
                0 <= i < self.array@.len() ==> branch_sim(#[trigger] c.array@[i], self.array@[i], lvl),
            forall|i: int|
                0 <= i < c.array@.len() && c.array@[i] is Indirection ==> (#[trigger] c.array@[i])->Indirection_0.generation
                    == generation,
        decreases *self,
    {
        let mut array: Vec<Branch<K, V>> = Vec::new();
        let n = self.array.len();
        let mut i: usize = 0;
        while i < n
            invariant
                i <= n,
                n == self.array@.len(),
                array@.len() == i,
                forall|w: int| 0 <= w < i ==> branch_sim(#[trigger] array@[w], self.array@[w], lvl),
                forall|w: int|
                    0 <= w < i && array@[w] is Indirection ==> (#[trigger] array@[w])->Indirection_0.generation
                        == generation,
            decreases n - i,
        {
            match &self.array[i] {
                Branch::Indirection(inode) => {
                    let renewed_child = inode.copy_to_gen(generation, Ghost((lvl + 6) as nat));
                    proof {
                        lemma_branch_sim_indirection(renewed_child, *inode, lvl);
                    }
                    array.push(Branch::Indirection(renewed_child));
                },
                Branch::Singleton(s) => {
                    array.push(Branch::Singleton(s.duplicate()));
                },
            }
            i += 1;
        }
        Self { bitmap: self.bitmap, array, generation }
    }

    /// Collapses a C-node that is no longer needed: when it holds a single
    /// singleton branch below the root it becomes a tomb wrapping that
    /// leaf — always, never optionally — and otherwise it stands as it
    /// is. The entries are unchanged.
    pub fn to_contracted(self, level: usize) -> (m: MainNode<K, V>)
        requires
            self.wf_at(level as nat),
        ensures
            m.prev is None,
            m.wf_at(level as nat) || (level > 0 && m.kind is Tomb),
            m.kind is Tomb <==> (level > 0 && self.array@.len() == 1 && self.array@[0]
                is Singleton),
            m.kind is Tomb ==> m.kind->Tomb_0.snode == self.array@[0]->Singleton_0,
            !(m.kind is Tomb) ==> m.kind == MainNodeKind::Ctrie(self),
            forall|k: K| #[trigger] m.lookup_at(k, level as nat) == cnode_lookup(self, k, level as nat),
    {
        let ghost lvl = level as nat;
        if self.array.len() == 1 && level > 0 {
            match self.branch(0) {
                Branch::Singleton(s) => {
                    proof {
                        lemma_cnode_single(self, lvl);
                    }
                    let m = MainNode::from_tomb_node(TombNode::new(s.duplicate()));
                    proof {
                        assert forall|k: K|
                            #[trigger] m.lookup_at(k, lvl) == cnode_lookup(self, k, lvl) by {}
                    }
                    return m;
                },
                Branch::Indirection(_) => {},
            }
        }
        let m = MainNode::from_ctrie_node(self);
        proof {
            assert forall|k: K| #[trigger] m.lookup_at(k, lvl) == cnode_lookup(self, k, lvl) by {}
        }
        m
    }

    /// The branch at `position`.
    pub fn branch(&self, position: usize) -> (b: &Branch<K, V>)
        requires
            position < self.array@.len(),
        ensures
            *b == self.array@[position as int],
    {
        &self.array[position]
    }

    /// The bitmap of the C-node.
    pub fn bitmap(&self) -> (b: u64)
        ensures
            b == self.bitmap,
    {
        self.bitmap
    }

    /// The generation the C-node was built in.
    pub fn generation(&self) -> (g: &Generation)
        ensures
            *g == self.generation,
    {
        &self.generation
    }
}

/// A well-formed C-node with a single singleton branch holds exactly that
/// entry.
pub proof fn lemma_cnode_single<K: Key, V: Value>(c: CtrieNode<K, V>, lvl: nat)
    requires
        c.wf_at(lvl),
        c.array@.len() == 1,
        c.array@[0] is Singleton,
    ensures
        forall|k: K|
            #[trigger] cnode_lookup(c, k, lvl) == (if k == c.array@[0]->Singleton_0.key {
                Some(c.array@[0]->Singleton_0.value)
            } else {
                None::<V>
            }),
{
    let s = c.array@[0]->Singleton_0;
    crate::bits::lemma_pcount_first(c.bitmap, 64);
    let j0 = choose|j: u64|
        j < 64 && c.bitmap & (1u64 << j) != 0u64 && #[trigger] pcount(c.bitmap, j as nat) == 0;
    assert(branch_wf_at(c.array@[0], lvl, j0));
    assert(hash_index(s.key.hash_spec(), lvl) == j0);
    assert forall|k: K|
        #[trigger] cnode_lookup(c, k, lvl) == (if k == s.key {
            Some(s.value)
        } else {
            None::<V>
        }) by {
        let jk = hash_index(k.hash_spec(), lvl);
        crate::bits::lemma_hash_index_bound(k.hash_spec(), lvl);
        if c.bitmap & (1u64 << jk) != 0u64 {
            // the only set bit is the least one
            if jk != j0 {
                if jk < j0 {
                    crate::bits::lemma_pcount_lt(c.bitmap, jk, j0 as nat);
                } else {
                    crate::bits::lemma_pcount_lt(c.bitmap, j0, jk as nat);
                    crate::bits::lemma_pcount_lt(c.bitmap, jk, 64);
                    crate::bits::lemma_pcount_mono(c.bitmap, jk as nat, 64);
                }
                assert(false);
            }
            assert(cnode_lookup(c, k, lvl) == branch_lookup(c.array@[0], k, lvl));
        }
    }
}

/// Adding a branch under a clear bit `j` gives a well-formed C-node whose
/// entries are the old ones, except that keys slicing to `j` are now
/// answered by the new branch.
pub proof fn lemma_cnode_inserted<K: Key, V: Value>(
    c: CtrieNode<K, V>,
    c2: CtrieNode<K, V>,
    b: Branch<K, V>,
    j: u64,
    lvl: nat,
)
    requires
        c.wf_at(lvl),
        j < 64,
        c.bitmap & (1u64 << j) == 0u64,
        branch_wf_at(b, lvl, j),
        c2.bitmap == c.bitmap | (1u64 << j),
        c2.array@.len() == c.array@.len() + 1,
        c2.array@[pcount(c.bitmap, j as nat) as int] == b,
        forall|i: int|
            0 <= i < pcount(c.bitmap, j as nat) ==> branch_sim(
                #[trigger] c2.array@[i],
                c.array@[i],
                lvl,
            ),
        forall|i: int|
            pcount(c.bitmap, j as nat) < i <= c.array@.len() ==> branch_sim(
                #[trigger] c2.array@[i],
                c.array@[i - 1],
                lvl,
            ),
    ensures
        c2.wf_at(lvl),
        forall|k: K|
            #[trigger] cnode_lookup(c2, k, lvl) == (if hash_index(k.hash_spec(), lvl) == j {
                branch_lookup(b, k, lvl)
            } else {
                cnode_lookup(c, k, lvl)
            }),
{
    let cb = c.bitmap;
    let posj = pcount(cb, j as nat) as int;
    crate::bits::lemma_pcount_or(cb, j, 64);
    crate::bits::lemma_pcount_or(cb, j, j as nat);
    crate::bits::lemma_pcount_mono(cb, j as nat, 64);
    assert(c2.array@.len() == pcount(c2.bitmap, 64));
    assert(pcount(c2.bitmap, j as nat) == posj);
    let b2 = c2.bitmap;
    assert(b2 & (1u64 << j) != 0u64) by (bit_vector)
        requires
            j < 64 && b2 == cb | (1u64 << j),
    ;
    assert forall|j2: u64| j2 < 64 && c2.bitmap & (1u64 << j2) != 0u64 implies branch_wf_at(
        c2.array@[#[trigger] pcount(c2.bitmap, j2 as nat) as int],
        lvl,
        j2,
    ) by {
        crate::bits::lemma_pcount_or(cb, j, j2 as nat);
        if j2 == j {
        } else {
            assert((cb | (1u64 << j)) & (1u64 << j2) == cb & (1u64 << j2)) by (bit_vector)
                requires
                    j2 != j && j2 < 64 && j < 64,
            ;
            crate::bits::lemma_pcount_lt(cb, j2, 64);
            let p = pcount(cb, j2 as nat) as int;
            assert(branch_wf_at(c.array@[p], lvl, j2));
            if j2 < j {
                crate::bits::lemma_pcount_lt(cb, j2, j as nat);
                assert(branch_sim(c2.array@[p], c.array@[p], lvl));
            } else {
                crate::bits::lemma_pcount_mono(cb, j as nat, j2 as nat);
                assert(branch_sim(c2.array@[p + 1], c.array@[p], lvl));
            }
        }
    }
    assert forall|k: K|
        #[trigger] cnode_lookup(c2, k, lvl) == (if hash_index(k.hash_spec(), lvl) == j {
            branch_lookup(b, k, lvl)
        } else {
            cnode_lookup(c, k, lvl)
        }) by {
        if lvl <= 60 {
            let jk = hash_index(k.hash_spec(), lvl);
            crate::bits::lemma_hash_index_bound(k.hash_spec(), lvl);
            crate::bits::lemma_pcount_or(cb, j, jk as nat);
            if jk == j {
                assert(cnode_lookup(c2, k, lvl) == branch_lookup(b, k, lvl));
            } else {
                assert((cb | (1u64 << j)) & (1u64 << jk) == cb & (1u64 << jk)) by (bit_vector)
                    requires
                        jk != j && jk < 64 && j < 64,
                ;
                if cb & (1u64 << jk) != 0u64 {
                    crate::bits::lemma_pcount_lt(cb, jk, 64);
                    let p = pcount(cb, jk as nat) as int;
                    if jk < j {
                        crate::bits::lemma_pcount_lt(cb, jk, j as nat);
                        assert(branch_sim(c2.array@[p], c.array@[p], lvl));
                        assert(branch_lookup(c2.array@[p], k, lvl) == branch_lookup(
                            c.array@[p],
                            k,
                            lvl,
                        ));
                    } else {
                        crate::bits::lemma_pcount_mono(cb, j as nat, jk as nat);
                        assert(branch_sim(c2.array@[p + 1], c.array@[p], lvl));
                        assert(branch_lookup(c2.array@[p + 1], k, lvl) == branch_lookup(
                            c.array@[p],
                            k,
                            lvl,
                        ));
                    }
                }
            }
        }
    }
}

/// Replacing the branch under a set bit `j` gives a well-formed C-node
/// whose entries are the old ones, except that keys slicing to `j` are now
/// answered by the new branch.
pub proof fn lemma_cnode_updated<K: Key, V: Value>(
    c: CtrieNode<K, V>,
    c2: CtrieNode<K, V>,
    b: Branch<K, V>,
    j: u64,
    lvl: nat,
)
    requires
        c.wf_at(lvl),
        j < 64,
        c.bitmap & (1u64 << j) != 0u64,
        branch_wf_at(b, lvl, j),
        c2.bitmap == c.bitmap,
        c2.array@.len() == c.array@.len(),
        c2.array@[pcount(c.bitmap, j as nat) as int] == b,
        forall|i: int|
            0 <= i < c.array@.len() && i != pcount(c.bitmap, j as nat) ==> branch_sim(
                #[trigger] c2.array@[i],
                c.array@[i],
                lvl,
            ),
    ensures
        c2.wf_at(lvl),
        forall|k: K|
            #[trigger] cnode_lookup(c2, k, lvl) == (if hash_index(k.hash_spec(), lvl) == j {
                branch_lookup(b, k, lvl)
            } else {
                cnode_lookup(c, k, lvl)
            }),
{
    let cb = c.bitmap;
    let posj = pcount(cb, j as nat) as int;
    crate::bits::lemma_pcount_lt(cb, j, 64);
    assert forall|j2: u64| j2 < 64 && c2.bitmap & (1u64 << j2) != 0u64 implies branch_wf_at(
        c2.array@[#[trigger] pcount(c2.bitmap, j2 as nat) as int],
        lvl,
        j2,
    ) by {
        let p = pcount(cb, j2 as nat) as int;
        crate::bits::lemma_pcount_lt(cb, j2, 64);
        if j2 == j {
        } else {
            assert(branch_wf_at(c.array@[p], lvl, j2));
            if j2 < j {
                crate::bits::lemma_pcount_lt(cb, j2, j as nat);
            } else {
                crate::bits::lemma_pcount_lt(cb, j, j2 as nat);
            }
            assert(p != posj);
            assert(branch_sim(c2.array@[p], c.array@[p], lvl));
        }
    }
    assert forall|k: K|
        #[trigger] cnode_lookup(c2, k, lvl) == (if hash_index(k.hash_spec(), lvl) == j {
            branch_lookup(b, k, lvl)
        } else {
            cnode_lookup(c, k, lvl)
        }) by {
        if lvl <= 60 {
            let jk = hash_index(k.hash_spec(), lvl);
            crate::bits::lemma_hash_index_bound(k.hash_spec(), lvl);
            if c2.bitmap & (1u64 << jk) != 0u64 {
                let p = pcount(cb, jk as nat) as int;
                crate::bits::lemma_pcount_lt(cb, jk, 64);
                if jk == j {
                } else {
                    if jk < j {
                        crate::bits::lemma_pcount_lt(cb, jk, j as nat);
                    } else {
                        crate::bits::lemma_pcount_lt(cb, j, jk as nat);
                    }
                    assert(p != posj);
                    assert(branch_sim(c2.array@[p], c.array@[p], lvl));
                    assert(branch_lookup(c2.array@[p], k, lvl) == branch_lookup(
                        c.array@[p],
                        k,
                        lvl,
                    ));
                }
            }
        }
    }
}

/// Dropping the branch under a set bit `j` gives a well-formed C-node
/// whose entries are the old ones, except that keys slicing to `j` are
/// gone.
pub proof fn lemma_cnode_removed<K: Key, V: Value>(
    c: CtrieNode<K, V>,
    c2: CtrieNode<K, V>,
    j: u64,
    lvl: nat,
)
    requires
        c.wf_at(lvl),
        j < 64,
        c.bitmap & (1u64 << j) != 0u64,
        c2.bitmap == c.bitmap & !(1u64 << j),
        c2.array@.len() == c.array@.len() - 1,
        forall|i: int|
            0 <= i < pcount(c.bitmap, j as nat) ==> branch_sim(
                #[trigger] c2.array@[i],
                c.array@[i],
                lvl,
            ),
        forall|i: int|
            pcount(c.bitmap, j as nat) <= i < c2.array@.len() ==> branch_sim(
                #[trigger] c2.array@[i],
                c.array@[i + 1],
                lvl,
            ),
    ensures
        c2.wf_at(lvl),
        forall|k: K|
            #[trigger] cnode_lookup(c2, k, lvl) == (if hash_index(k.hash_spec(), lvl) == j {
                None::<V>
            } else {
                cnode_lookup(c, k, lvl)
            }),
{
    let cb = c.bitmap;
    let posj = pcount(cb, j as nat) as int;
    crate::bits::lemma_pcount_and_not(cb, j, 64);
    crate::bits::lemma_pcount_and_not(cb, j, j as nat);
    crate::bits::lemma_pcount_lt(cb, j, 64);
    assert(c2.array@.len() == pcount(c2.bitmap, 64));
    let b2 = c2.bitmap;
    assert(b2 & (1u64 << j) == 0u64) by (bit_vector)
        requires
            j < 64 && b2 == cb & !(1u64 << j),
    ;
    assert forall|j2: u64| j2 < 64 && c2.bitmap & (1u64 << j2) != 0u64 implies branch_wf_at(
        c2.array@[#[trigger] pcount(c2.bitmap, j2 as nat) as int],
        lvl,
        j2,
    ) by {
        crate::bits::lemma_pcount_and_not(cb, j, j2 as nat);
        assert(j2 != j);
        assert((cb & !(1u64 << j)) & (1u64 << j2) == cb & (1u64 << j2)) by (bit_vector)
            requires
                j2 != j && j2 < 64 && j < 64,
        ;
        crate::bits::lemma_pcount_lt(cb, j2, 64);
        let p = pcount(cb, j2 as nat) as int;
        assert(branch_wf_at(c.array@[p], lvl, j2));
        if j2 < j {
            crate::bits::lemma_pcount_lt(cb, j2, j as nat);
            assert(pcount(c2.bitmap, j2 as nat) == p);
            assert(branch_sim(c2.array@[p], c.array@[p], lvl));
        } else {
            crate::bits::lemma_pcount_lt(cb, j, j2 as nat);
            assert(pcount(c2.bitmap, j2 as nat) == p - 1);
            assert(posj <= p - 1);
            assert(branch_sim(c2.array@[p - 1], c.array@[p], lvl));
        }
    }
    assert forall|k: K|
        #[trigger] cnode_lookup(c2, k, lvl) == (if hash_index(k.hash_spec(), lvl) == j {
            None::<V>
        } else {
            cnode_lookup(c, k, lvl)
        }) by {
        if lvl <= 60 {
            let jk = hash_index(k.hash_spec(), lvl);
            crate::bits::lemma_hash_index_bound(k.hash_spec(), lvl);
            crate::bits::lemma_pcount_and_not(cb, j, jk as nat);
            if jk == j {
                assert(cnode_lookup(c2, k, lvl) is None);
            } else {
                assert((cb & !(1u64 << j)) & (1u64 << jk) == cb & (1u64 << jk)) by (bit_vector)
                    requires
                        jk != j && jk < 64 && j < 64,
                ;
                if cb & (1u64 << jk) != 0u64 {
                    crate::bits::lemma_pcount_lt(cb, jk, 64);
                    let p = pcount(cb, jk as nat) as int;
                    if jk < j {
                        crate::bits::lemma_pcount_lt(cb, jk, j as nat);
                        assert(branch_sim(c2.array@[p], c.array@[p], lvl));
                        assert(branch_lookup(c2.array@[p], k, lvl) == branch_lookup(
                            c.array@[p],
                            k,
                            lvl,
                        ));
                    } else {
                        crate::bits::lemma_pcount_lt(cb, j, jk as nat);
                        assert(branch_sim(c2.array@[p - 1], c.array@[p], lvl));
                        assert(branch_lookup(c2.array@[p - 1], k, lvl) == branch_lookup(
                            c.array@[p],
                            k,
                            lvl,
                        ));
                    }
                }
            }
        }
    }
}

} // verus!
