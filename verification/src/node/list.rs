//! A node that represents an immutable linked list of singleton nodes.
//!
//! Used in the case of full hash collisions, at the maximal depth of the
//! trie. Every operation returns a fresh list and leaves the old intact.

use crate::node::singleton::SingletonNode;
use crate::{Key, Value};
use crossbeam::epoch::Guard;
use vstd::prelude::*;

verus! {

/// A persistent singly-linked list of singleton nodes. It always holds at
/// least one entry: the head is stored inline.
pub struct ListNode<K, V> {
    pub head: SingletonNode<K, V>,
    pub tail: Option<Box<ListNode<K, V>>>,
}

/// The entries of a list node, in list order.
pub open spec fn list_entries<K, V>(l: ListNode<K, V>) -> Seq<(K, V)>
    decreases l,
{
    match l.tail {
        None => seq![(l.head.key, l.head.value)],
        Some(t) => seq![(l.head.key, l.head.value)] + list_entries(*t),
    }
}

/// The value of the first entry of `s` whose key is `k`, if any.
pub open spec fn list_find<K, V>(s: Seq<(K, V)>, k: K) -> Option<V>
    decreases s.len(),
{
    if s.len() == 0 {
        None
    } else if s[0].0 == k {
        Some(s[0].1)
    } else {
        list_find(s.drop_first(), k)
    }
}

/// `s` with the first entry whose key is `k` dropped, if any.
pub open spec fn list_removed<K, V>(s: Seq<(K, V)>, k: K) -> Seq<(K, V)>
    decreases s.len(),
{
    if s.len() == 0 {
        s
    } else if s[0].0 == k {
        s.drop_first()
    } else {
        seq![s[0]] + list_removed(s.drop_first(), k)
    }
}

/// No two entries of `s` share a key.
pub open spec fn distinct_keys<K, V>(s: Seq<(K, V)>) -> bool {
    forall|i: int, j: int| 0 <= i < j < s.len() ==> s[i].0 != s[j].0
}

/// All entries of `s` share one full 64-bit hash: the condition under
/// which keys can no longer be told apart by any hash slice.
pub open spec fn hashes_equal<K: Key, V>(s: Seq<(K, V)>) -> bool {
    forall|i: int, j: int|
        0 <= i < s.len() && 0 <= j < s.len() ==> (#[trigger] s[i]).0.hash_spec() == (
        #[trigger] s[j]).0.hash_spec()
}

/// Dropping an entry keeps the find of every other key, never grows the
/// list, and—when the keys were distinct—removes the dropped key for good
/// and keeps the remaining keys distinct.
pub proof fn lemma_list_removed<K, V>(s: Seq<(K, V)>, k: K)
    ensures
        list_removed(s, k).len() == s.len() - (if list_find(s, k) is Some {
            1int
        } else {
            0int
        }),
        forall|k2: K| k2 != k ==> list_find(list_removed(s, k), k2) == list_find(s, k2),
        distinct_keys(s) ==> list_find(list_removed(s, k), k) is None,
        distinct_keys(s) ==> distinct_keys(list_removed(s, k)),
        forall|i: int|
            0 <= i < list_removed(s, k).len() ==> exists|j: int|
                0 <= j < s.len() && s[j] == #[trigger] list_removed(s, k)[i],
    decreases s.len(),
{
    if s.len() == 0 {
    } else if s[0].0 == k {
        assert(distinct_keys(s) ==> list_find(s.drop_first(), k) is None) by {
            if distinct_keys(s) {
                lemma_find_absent(s.drop_first(), k);
            }
        }
        assert forall|i: int| 0 <= i < list_removed(s, k).len() implies exists|j: int|
            0 <= j < s.len() && s[j] == #[trigger] list_removed(s, k)[i] by {
            assert(s[i + 1] == list_removed(s, k)[i]);
        }
    } else {
        let d = s.drop_first();
        lemma_list_removed(d, k);
        let r = list_removed(s, k);
        assert(r == seq![s[0]] + list_removed(d, k));
        assert(r[0] == s[0]);
        assert(r.drop_first() =~= list_removed(d, k));
        assert forall|k2: K| k2 != k implies list_find(r, k2) == list_find(s, k2) by {
            if s[0].0 == k2 {
                assert(list_find(r, k2) == Some(r[0].1));
                assert(list_find(s, k2) == Some(s[0].1));
            } else {
                assert(list_find(r, k2) == list_find(r.drop_first(), k2));
                assert(list_find(s, k2) == list_find(d, k2));
            }
        }
        if distinct_keys(s) {
            assert(distinct_keys(d)) by {
                assert forall|i: int, j: int| 0 <= i < j < d.len() implies d[i].0 != d[j].0 by {
                    assert(d[i] == s[i + 1] && d[j] == s[j + 1]);
                }
            }
            assert(distinct_keys(r)) by {
                assert forall|i: int, j: int| 0 <= i < j < r.len() implies r[i].0 != r[j].0 by {
                    if i == 0 {
                        let rd = list_removed(d, k);
                        assert(rd[j - 1] == r[j]);
                        let w = choose|w: int| 0 <= w < d.len() && d[w] == rd[j - 1];
                        assert(s[w + 1] == d[w]);
                    } else {
                        assert(list_removed(d, k)[i - 1] == r[i]);
                        assert(list_removed(d, k)[j - 1] == r[j]);
                    }
                }
            }
        }
        assert forall|i: int| 0 <= i < r.len() implies exists|j: int|
            0 <= j < s.len() && s[j] == #[trigger] r[i] by {
            if i > 0 {
                let rd = list_removed(d, k);
                assert(rd[i - 1] == r[i]);
                let w = choose|w: int| 0 <= w < d.len() && d[w] == rd[i - 1];
                assert(s[w + 1] == d[w]);
            }
        }
    }
}

/// Unfolding facts about the entries of a list node: the head is the
/// first entry and the tail holds the rest.
pub proof fn lemma_list_entries_unfold<K, V>(l: ListNode<K, V>)
    ensures
        list_entries(l).len() >= 1,
        list_entries(l)[0] == (l.head.key, l.head.value),
        l.tail is Some ==> list_entries(l).drop_first() == list_entries(*(l.tail->0)),
        l.tail is None ==> list_entries(l) == seq![(l.head.key, l.head.value)],
{
    match l.tail {
        None => {},
        Some(t) => {
            assert(list_entries(l).drop_first() =~= list_entries(*t));
        },
    }
}

/// A key that appears in no entry of `s` is not found.
pub proof fn lemma_find_absent<K, V>(s: Seq<(K, V)>, k: K)
    requires
        forall|i: int| 0 <= i < s.len() ==> s[i].0 != k,
    ensures
        list_find(s, k) is None,
    decreases s.len(),
{
    if s.len() > 0 {
        lemma_find_absent(s.drop_first(), k);
    }
}

/// A key that is not found appears in no entry of `s`.
pub proof fn lemma_find_none_absent<K, V>(s: Seq<(K, V)>, k: K)
    requires
        list_find(s, k) is None,
    ensures
        forall|i: int| 0 <= i < s.len() ==> (#[trigger] s[i]).0 != k,
    decreases s.len(),
{
    if s.len() > 0 {
        lemma_find_none_absent(s.drop_first(), k);
        assert forall|i: int| 0 <= i < s.len() implies (#[trigger] s[i]).0 != k by {
            if i > 0 {
                assert(s.drop_first()[i - 1] == s[i]);
            }
        }
    }
}

impl<K, V> View for ListNode<K, V> {
    type V = Seq<(K, V)>;

    open spec fn view(&self) -> Seq<(K, V)> {
        list_entries(*self)
    }
}

impl<K: Key, V: Value> ListNode<K, V> {
    /// Creates a new list node with one singleton node with the given key
    /// and value.
    pub fn new(key: K, value: V) -> (l: Self)
        ensures
            l@ =~= seq![(key, value)],
    {
        Self { head: SingletonNode::new(key, value), tail: None }
    }

    /// A copy equal to the original.
    pub fn duplicate(&self) -> (l: Self)
        ensures
            l == *self,
        decreases *self,
    {
        match &self.tail {
            None => Self { head: self.head.duplicate(), tail: None },
            Some(t) => Self { head: self.head.duplicate(), tail: Some(Box::new(t.duplicate())) },
        }
    }

    /// Returns the number of nodes in the list: always at least one.
    pub fn length(&self, guard: &Guard) -> (n: usize)
        requires
            self@.len() <= usize::MAX,
        ensures
            n == self@.len(),
        decreases *self,
    {
        match &self.tail {
            None => 1,
            Some(t) => 1 + t.length(guard),
        }
    }

    /// Adds a new singleton node with the given key and value to the
    /// beginning of the list. Returns the new list.
    pub fn add(&self, key: K, value: V) -> (l: Self)
        ensures
            l@ =~= seq![(key, value)] + self@,
    {
        Self { head: SingletonNode::new(key, value), tail: Some(Box::new(self.duplicate())) }
    }

    /// Removes the entry corresponding to the given key from the list.
    ///
    /// Returns the new list, or `None` if the new list is empty, together
    /// with a boolean saying whether anything was removed.
    pub fn remove(&self, key: &K, guard: &Guard) -> (r: (Option<Self>, bool))
        ensures
            r.1 == (list_find(self@, *key) is Some),
            match r.0 {
                Some(l) => l@ == list_removed(self@, *key),
                None => list_removed(self@, *key).len() == 0,
            },
        decreases *self,
    {
        proof {
            lemma_list_entries_unfold(*self);
        }
        if self.head.key.key_eq(key) {
            // key found at the head: the remainder of the list is the result
            match &self.tail {
                None => (None, true),
                Some(t) => (Some(t.duplicate()), true),
            }
        } else {
            match &self.tail {
                None => {
                    proof {
                        assert(list_find(self@.drop_first(), *key) is None);
                        assert(list_removed(self@.drop_first(), *key) =~= self@.drop_first());
                        assert(list_removed(self@, *key) =~= self@);
                    }
                    (Some(self.duplicate()), false)
                },
                Some(t) => {
                    let (maybe_new_tail, did_remove) = t.remove(key, guard);
                    let new_list = match maybe_new_tail {
                        Some(new_tail) => Self {
                            head: self.head.duplicate(),
                            tail: Some(Box::new(new_tail)),
                        },
                        None => Self { head: self.head.duplicate(), tail: None },
                    };
                    proof {
                        assert(self@.drop_first() =~= list_entries(**t));
                        assert(new_list@ =~= seq![(self.head.key, self.head.value)] + list_removed(
                            self@.drop_first(),
                            *key,
                        ));
                        assert(list_removed(self@, *key) =~= seq![self@[0]] + list_removed(
                            self@.drop_first(),
                            *key,
                        ));
                    }
                    (Some(new_list), did_remove)
                },
            }
        }
    }

    /// Attempts to locate the singleton node with the given key in the
    /// list, returning its corresponding value if found.
    pub fn lookup(&self, key: &K, guard: &Guard) -> (r: Option<&V>)
        ensures
            match r {
                Some(v) => list_find(self@, *key) == Some(*v),
                None => list_find(self@, *key) is None,
            },
        decreases *self,
    {
        proof {
            lemma_list_entries_unfold(*self);
        }
        if self.head.key.key_eq(key) {
            Some(&self.head.value)
        } else {
            match &self.tail {
                None => {
                    proof {
                        assert(list_find(self@.drop_first(), *key) is None);
                    }
                    None
                },
                Some(t) => {
                    let r = t.lookup(key, guard);
                    proof {
                        assert(self@.drop_first() =~= list_entries(**t));
                    }
                    r
                },
            }
        }
    }
}

} // verus!
