//! A hash map whose buckets chain colliding entries into singly linked lists.
//!
//! Each bucket holds a linked list of nodes. A new key is chained in front of the
//! bucket's list; a key that is already present has its node replaced in place, and
//! the node that held it is handed back. The bucket of a key is chosen by hashing it
//! with a randomly seeded `ahash` hasher.
//!
//! The operations on keys require `obeys_concrete_eq::<K>()`: the key type's `==` must
//! agree with equality of values. vstd establishes this for the integer types; a key type
//! whose `==` is coarser than that is outside what the contracts cover.
pub mod chain;
pub mod hashing;
pub mod laws;
pub mod node_wrapper;

use std::hash::Hash;
use vstd::laws_eq::obeys_concrete_eq;
use vstd::std_specs::cmp::PartialEqSpec;
use vstd::prelude::*;

use crate::chain::{
    chain_find, chain_insert, chain_remove, chain_replace, entry_count, keys_unique,
    lemma_entry_count_nonnegative, lemma_entry_count_update, lemma_find_after_insert, lemma_find_after_remove,
    lemma_insert_keeps_keys_unique, lemma_insert_len,
    lemma_remove_keeps_keys_unique, lemma_remove_shape,
};
use crate::hashing::{bucket_for_hash, hash_key, new_random_state};
use crate::node_wrapper::NodeWrapper;

verus! {

/// A node in the hashmap: one entry and the rest of its bucket's chain.
#[derive(Debug)]
pub struct Node<K, V> {
    key: K,
    value: V,
    /// The next node of the chain.
    next: Option<Box<Node<K, V>>>,
}

/// Compares two keys with their `Eq`, which for the key types this map is meant for
/// agrees with equality of values.
fn same_key<K: Eq>(a: &K, b: &K) -> (r: bool)
    requires
        obeys_concrete_eq::<K>(),
    ensures
        r == (*a == *b),
{
    proof {
        reveal(obeys_concrete_eq);
    }
    a.eq(b)
}

impl<K, V> Node<K, V> {
    /// The entries of the chain that starts at `link`, head first.
    pub closed spec fn chain_of(link: Option<Box<Node<K, V>>>) -> Seq<(K, V)>
        decreases link,
    {
        match link {
            None => Seq::empty(),
            Some(node) => seq![(node.key, node.value)] + Self::chain_of(node.next),
        }
    }

    /// The entry that this node holds.
    pub closed spec fn entry(&self) -> (K, V) {
        (self.key, self.value)
    }

    /// The key of this node.
    pub fn key(&self) -> (r: &K)
        ensures
            *r == self.entry().0,
    {
        &self.key
    }

    /// The value of this node.
    pub fn value(&self) -> (r: &V)
        ensures
            *r == self.entry().1,
    {
        &self.value
    }

    proof fn lemma_chain_of_node(node: Box<Node<K, V>>)
        ensures
            Self::chain_of(Some(node)).len() > 0,
            Self::chain_of(Some(node))[0] == (node.key, node.value),
            Self::chain_of(Some(node)).drop_first() == Self::chain_of(node.next),
    {
        assert(Self::chain_of(Some(node)).drop_first() =~= Self::chain_of(node.next));
    }
}

impl<K: Eq, V> Node<K, V> {
    /// Looks for the node of `key` in the chain that starts at `link`.
    fn find_matching_key<'a>(link: &'a Option<Box<Node<K, V>>>, key: &K) -> (r: Option<
        &'a Node<K, V>,
    >)
        requires
            obeys_concrete_eq::<K>(),
        ensures
            match r {
                None => chain_find(Self::chain_of(*link), *key) is None,
                Some(node) => node.key == *key && chain_find(Self::chain_of(*link), *key) == Some(
                    node.value,
                ),
            },
        decreases link,
    {
        match link {
            None => None,
            Some(node) => {
                proof {
                    Self::lemma_chain_of_node(*node);
                }
                if same_key(&node.key, key) {
                    Some(&**node)
                } else {
                    Self::find_matching_key(&node.next, key)
                }
            },
        }
    }

    /// Swaps a new node for `key` in where the node of `key` stands, and hands back the old one.
    fn replace_matching_key(link: &mut Option<Box<Node<K, V>>>, key: K, value: V) -> (old_node: Box<
        Node<K, V>,
    >)
        requires
            obeys_concrete_eq::<K>(),
            chain_find(Self::chain_of(*old(link)), key) is Some,
        ensures
            Self::chain_of(*final(link)) == chain_replace(Self::chain_of(*old(link)), key, value),
            old_node.key == key,
            chain_find(Self::chain_of(*old(link)), key) == Some(old_node.value),
            old_node.next is None,
        decreases *old(link),
    {
        let ghost old_chain = Self::chain_of(*link);
        let mut node = link.take().unwrap();
        proof {
            Self::lemma_chain_of_node(node);
        }
        if same_key(&node.key, &key) {
            let next = node.next.take();
            *link = Some(Box::new(Node { key, value, next }));
            proof {
                Self::lemma_chain_of_node(link.unwrap());
                assert(Self::chain_of(*link) =~= chain_replace(old_chain, key, value));
            }
            node
        } else {
            let old_node = Self::replace_matching_key(&mut node.next, key, value);
            *link = Some(node);
            proof {
                Self::lemma_chain_of_node(link.unwrap());
                assert(Self::chain_of(*link) =~= chain_replace(old_chain, key, value));
            }
            old_node
        }
    }

    /// Inserts `(key, value)` into the chain that starts at `link`: a node of `key` is
    /// replaced where it stands and handed back, a new key is chained in front.
    fn insert_into_chain(link: &mut Option<Box<Node<K, V>>>, key: K, value: V) -> (old_node: Option<
        Box<Node<K, V>>,
    >)
        requires
            obeys_concrete_eq::<K>(),
        ensures
            Self::chain_of(*final(link)) == chain_insert(Self::chain_of(*old(link)), key, value),
            match old_node {
                None => chain_find(Self::chain_of(*old(link)), key) is None,
                Some(node) => node.key == key && node.next is None && chain_find(
                    Self::chain_of(*old(link)),
                    key,
                ) == Some(node.value),
            },
    {
        if Self::find_matching_key(link, &key).is_some() {
            Some(Self::replace_matching_key(link, key, value))
        } else {
            let ghost old_chain = Self::chain_of(*link);
            let head = link.take();
            *link = Some(Box::new(Node { key, value, next: head }));
            proof {
                Self::lemma_chain_of_node(link.unwrap());
                assert(Self::chain_of(*link) =~= chain_insert(old_chain, key, value));
            }
            None
        }
    }

    /// Unlinks the node of `key` from the chain that starts at `link` and hands it back.
    fn remove_from_chain(link: &mut Option<Box<Node<K, V>>>, key: &K) -> (old_node: Option<
        Box<Node<K, V>>,
    >)
        requires
            obeys_concrete_eq::<K>(),
        ensures
            Self::chain_of(*final(link)) == chain_remove(Self::chain_of(*old(link)), *key),
            match old_node {
                None => chain_find(Self::chain_of(*old(link)), *key) is None,
                Some(node) => node.key == *key && node.next is None && chain_find(
                    Self::chain_of(*old(link)),
                    *key,
                ) == Some(node.value),
            },
        decreases *old(link),
    {
        let ghost old_chain = Self::chain_of(*link);
        match link.take() {
            None => None,
            Some(mut node) => {
                proof {
                    Self::lemma_chain_of_node(node);
                }
                if same_key(&node.key, key) {
                    *link = node.next.take();
                    Some(node)
                } else {
                    let old_node = Self::remove_from_chain(&mut node.next, key);
                    *link = Some(node);
                    proof {
                        Self::lemma_chain_of_node(link.unwrap());
                        assert(Self::chain_of(*link) =~= chain_remove(old_chain, *key));
                    }
                    old_node
                }
            },
        }
    }
}


/// One bucket: the head of its chain.
struct Bucket<K, V>(Option<Box<Node<K, V>>>);

/// The number of buckets that `EasyMap::new` makes.
pub const DEFAULT_BUCKETS: usize = 32;

/// A hash map whose buckets chain their entries into linked lists.
pub struct EasyMap<K, V> {
    /// The hasher used to determine indices
    build_hasher: ahash::RandomState,
    /// The buckets of this hash map
    buckets: Vec<Bucket<K, V>>,
    /// The number of nodes in all the buckets, wrapping around as `usize` arithmetic does
    node_count: usize,
}

/// The chains of a sequence of buckets.
spec fn chains_of<K, V>(buckets: Seq<Bucket<K, V>>) -> Seq<Seq<(K, V)>> {
    Seq::new(buckets.len(), |i: int| Node::<K, V>::chain_of(buckets[i].0))
}

/// The number of values that a `usize` can take.
pub open spec fn usize_range() -> int {
    usize::MAX as int + 1
}

/// How a count kept with wrapping arithmetic moves when the true count moves by one.
proof fn lemma_wrapping_count(t: int, m: int)
    by (nonlinear_arith)
    requires
        t >= 0,
        m > 0,
    ensures
        (t + 1) % m == if t % m == m - 1 {
            0
        } else {
            t % m + 1
        },
        t >= 1 ==> (t - 1) % m == if t % m == 0 {
            m - 1
        } else {
            t % m - 1
        },
{
}

impl<K, V> View for EasyMap<K, V> {
    type V = Seq<Seq<(K, V)>>;

    /// The chains of the buckets, in bucket order; each chain lists its entries head first.
    closed spec fn view(&self) -> Seq<Seq<(K, V)>> {
        chains_of(self.buckets@)
    }
}

impl<K, V> EasyMap<K, V> {
    /// The invariant of the map: no key occurs twice in one bucket, and the node count
    /// is the number of entries, modulo the range of `usize`.
    pub closed spec fn well_formed(&self) -> bool {
        &&& forall|i: int| 0 <= i < self@.len() ==> #[trigger] keys_unique(self@[i])
        &&& self.node_count as int == entry_count(self@) % usize_range()
    }

    /// In a well-formed map no key occurs twice in one bucket.
    pub proof fn lemma_buckets_keys_unique(&self)
        requires
            self.well_formed(),
        ensures
            forall|i: int| 0 <= i < self@.len() ==> #[trigger] keys_unique(self@[i]),
    {
    }

    /// The number of buckets.
    pub fn bucket_count(&self) -> (n: usize)
        ensures
            n == self@.len(),
    {
        self.buckets.len()
    }
}

impl<K: Hash + Eq, V> EasyMap<K, V> {
    /// Creates a new map
    pub fn new() -> (map: Self)
        ensures
            map.well_formed(),
            map@ == Seq::new(DEFAULT_BUCKETS as nat, |i: int| Seq::<(K, V)>::empty()),
    {
        Self::with_capacity(DEFAULT_BUCKETS)
    }

    /// Creates a new map preallocated with the given capacity
    pub fn with_capacity(capacity: usize) -> (map: Self)
        ensures
            map.well_formed(),
            map@ == Seq::new(capacity as nat, |i: int| Seq::<(K, V)>::empty()),
    {
        let mut buckets: Vec<Bucket<K, V>> = Vec::with_capacity(capacity);
        let mut n: usize = 0;
        while n < capacity
            invariant
                n <= capacity,
                buckets@.len() == n,
                forall|i: int| 0 <= i < n ==> #[trigger] buckets@[i].0 is None,
            decreases capacity - n,
        {
            buckets.push(Bucket(None));
            n = n + 1;
        }
        let map = EasyMap { build_hasher: new_random_state(), buckets, node_count: 0 };
        proof {
            let empty = Seq::new(capacity as nat, |i: int| Seq::<(K, V)>::empty());
            assert forall|i: int| 0 <= i < capacity implies #[trigger] map@[i] == empty[i] by {
                assert(map.buckets@[i].0 is None);
            }
            assert(map@ =~= empty);
            lemma_empty_count(empty);
        }
        map
    }

    /// Returns the index of the bucket this key belongs to
    fn index_for_key(&self, key: &K) -> (index: usize)
        requires
            self@.len() > 0,
        ensures
            index < self@.len(),
    {
        let hash = hash_key(&self.build_hasher, key);
        bucket_for_hash(hash, self.buckets.len())
    }

    /// Inserts `(key, value)` into the bucket at `index`, returning the node that held
    /// `key` there before, if any.
    pub fn insert_into_bucket(&mut self, index: usize, key: K, value: V) -> (old_node: Option<
        NodeWrapper<K, V>,
    >)
        requires
            old(self).well_formed(),
            index < old(self)@.len(),
            obeys_concrete_eq::<K>(),
        ensures
            final(self).well_formed(),
            final(self)@ == old(self)@.update(
                index as int,
                chain_insert(old(self)@[index as int], key, value),
            ),
            match old_node {
                None => chain_find(old(self)@[index as int], key) is None,
                Some(node) => node@ == (key, chain_find(old(self)@[index as int], key).unwrap())
                    && chain_find(old(self)@[index as int], key) is Some,
            },
            forall|q: K|
                #[trigger] chain_find(final(self)@[index as int], q) == if q == key {
                    Some(value)
                } else {
                    chain_find(old(self)@[index as int], q)
                },
    {
        let ghost old_chains = self@;
        let ghost c = self@[index as int];
        let replaced = Node::insert_into_chain(&mut self.buckets[index].0, key, value);
        proof {
            assert(self@ =~= old_chains.update(index as int, chain_insert(c, key, value)));
            lemma_insert_keeps_keys_unique(c, key, value);
            lemma_insert_len(c, key, value);
            assert forall|q: K| #[trigger] chain_find(self@[index as int], q) == if q == key {
                Some(value)
            } else {
                chain_find(c, q)
            } by {
                lemma_find_after_insert(c, key, value, q);
            }
            lemma_entry_count_update(old_chains, index as int, chain_insert(c, key, value));
            lemma_wrapping_count(entry_count(old_chains), usize_range());
        }
        match replaced {
            Some(node) => Some(NodeWrapper::new(node)),
            None => {
                self.node_count = self.node_count.wrapping_add(1);
                None
            },
        }
    }

    /// Inserts a new key-value pair into the map, returning the node that held the key
    /// before (if any)
    pub fn insert(&mut self, key: K, value: V) -> (old_node: Option<NodeWrapper<K, V>>)
        requires
            old(self).well_formed(),
            old(self)@.len() > 0,
            obeys_concrete_eq::<K>(),
        ensures
            final(self).well_formed(),
            exists|index: int|
                0 <= index < old(self)@.len() && final(self)@ == old(self)@.update(
                    index,
                    chain_insert(old(self)@[index], key, value),
                ) && match old_node {
                    None => chain_find(old(self)@[index], key) is None,
                    Some(node) => node@ == (key, chain_find(old(self)@[index], key).unwrap())
                        && chain_find(old(self)@[index], key) is Some,
                } && forall|q: K|
                    #[trigger] chain_find(final(self)@[index], q) == if q == key {
                        Some(value)
                    } else {
                        chain_find(old(self)@[index], q)
                    },
    {
        let index = self.index_for_key(&key);
        self.insert_into_bucket(index, key, value)
    }

    /// Removes the node of `key` from the bucket at `index`, if it is there.
    pub fn remove_from_bucket(&mut self, index: usize, key: &K) -> (old_node: Option<
        NodeWrapper<K, V>,
    >)
        requires
            old(self).well_formed(),
            index < old(self)@.len(),
            obeys_concrete_eq::<K>(),
        ensures
            final(self).well_formed(),
            final(self)@ == old(self)@.update(
                index as int,
                chain_remove(old(self)@[index as int], *key),
            ),
            match old_node {
                None => chain_find(old(self)@[index as int], *key) is None,
                Some(node) => node@ == (*key, chain_find(old(self)@[index as int], *key).unwrap())
                    && chain_find(old(self)@[index as int], *key) is Some,
            },
            forall|q: K|
                #[trigger] chain_find(final(self)@[index as int], q) == if q == *key {
                    None
                } else {
                    chain_find(old(self)@[index as int], q)
                },
    {
        let ghost old_chains = self@;
        let ghost c = self@[index as int];
        let removed = Node::remove_from_chain(&mut self.buckets[index].0, key);
        proof {
            assert(self@ =~= old_chains.update(index as int, chain_remove(c, *key)));
            lemma_remove_keeps_keys_unique(c, *key);
            lemma_remove_shape(c, *key);
            assert forall|q: K| #[trigger] chain_find(self@[index as int], q) == if q == *key {
                None
            } else {
                chain_find(c, q)
            } by {
                lemma_find_after_remove(c, *key, q);
            }
            lemma_entry_count_update(old_chains, index as int, chain_remove(c, *key));
            lemma_entry_count_nonnegative(self@);
            lemma_wrapping_count(entry_count(old_chains), usize_range());
        }
        match removed {
            Some(node) => {
                self.node_count = self.node_count.wrapping_sub(1);
                Some(NodeWrapper::new(node))
            },
            None => None,
        }
    }

    /// Removes the value that matches `key` or `None` if `key` is not in the map
    pub fn remove(&mut self, key: &K) -> (old_node: Option<NodeWrapper<K, V>>)
        requires
            old(self).well_formed(),
            old(self)@.len() > 0,
            obeys_concrete_eq::<K>(),
        ensures
            final(self).well_formed(),
            exists|index: int|
                0 <= index < old(self)@.len() && final(self)@ == old(self)@.update(
                    index,
                    chain_remove(old(self)@[index], *key),
                ) && match old_node {
                    None => chain_find(old(self)@[index], *key) is None,
                    Some(node) => node@ == (*key, chain_find(old(self)@[index], *key).unwrap())
                        && chain_find(old(self)@[index], *key) is Some,
                } && forall|q: K|
                    #[trigger] chain_find(final(self)@[index], q) == if q == *key {
                        None
                    } else {
                        chain_find(old(self)@[index], q)
                    },
    {
        let index = self.index_for_key(key);
        self.remove_from_bucket(index, key)
    }

    /// Looks up the value of `key` in the bucket at `index`.
    pub fn get_from_bucket(&self, index: usize, key: &K) -> (r: Option<&V>)
        requires
            index < self@.len(),
            obeys_concrete_eq::<K>(),
        ensures
            match r {
                None => chain_find(self@[index as int], *key) is None,
                Some(v) => chain_find(self@[index as int], *key) == Some(*v),
            },
    {
        match Node::find_matching_key(&self.buckets[index].0, key) {
            Some(node) => Some(&node.value),
            None => None,
        }
    }

    /// Looks up the value associated with `key` or returns `None` if `key` is not in the map
    pub fn get(&self, key: &K) -> (r: Option<&V>)
        requires
            self@.len() > 0,
            obeys_concrete_eq::<K>(),
        ensures
            exists|index: int|
                0 <= index < self@.len() && match r {
                    None => chain_find(self@[index], *key) is None,
                    Some(v) => chain_find(self@[index], *key) == Some(*v),
                },
    {
        let index = self.index_for_key(key);
        self.get_from_bucket(index, key)
    }
}

/// The iterator for this map
pub struct Iter<'m, K, V> {
    buckets: &'m Vec<Bucket<K, V>>,
    /// The node that was handed out last, if it was not the end of its chain.
    last: Option<&'m Node<K, V>>,
    /// The next bucket to start on.
    index: usize,
}

/// The entries of the buckets from `index` on, bucket by bucket.
spec fn entries_from<K, V>(buckets: Seq<Bucket<K, V>>, index: int) -> Seq<(K, V)> {
    chains_of(buckets).subrange(index, buckets.len() as int).flatten()
}

/// The entries from one bucket on are that bucket's chain, then those of the buckets after it.
proof fn lemma_entries_from_step<K, V>(buckets: Seq<Bucket<K, V>>, index: int)
    requires
        0 <= index < buckets.len(),
    ensures
        entries_from(buckets, index) == Node::<K, V>::chain_of(buckets[index].0) + entries_from(
            buckets,
            index + 1,
        ),
{
    let s = chains_of(buckets).subrange(index, buckets.len() as int);
    assert(s.drop_first() =~= chains_of(buckets).subrange(index + 1, buckets.len() as int));
}

impl<'m, K, V> Iter<'m, K, V> {
    /// The iterator has not gone past the last bucket.
    pub closed spec fn well_formed(&self) -> bool {
        self.index <= self.buckets@.len()
    }

    /// The entries that the iterator has yet to hand out, in order.
    pub closed spec fn remaining(&self) -> Seq<(K, V)> {
        let rest_of_chain = match self.last {
            Some(node) => Node::<K, V>::chain_of(node.next),
            None => Seq::empty(),
        };
        rest_of_chain + entries_from(self.buckets@, self.index as int)
    }

    /// Hands out the next entry: bucket by bucket, each chain from its head.
    pub fn next(&mut self) -> (r: Option<(&'m K, &'m V)>)
        requires
            old(self).well_formed(),
        ensures
            final(self).well_formed(),
            match r {
                None => old(self).remaining().len() == 0 && final(self).remaining().len() == 0,
                Some(kv) => old(self).remaining().len() > 0 && (*kv.0, *kv.1) == old(
                    self,
                ).remaining()[0] && final(self).remaining() == old(self).remaining().drop_first(),
            },
    {
        let ghost start = self.remaining();
        if let Some(last) = self.last {
            match &last.next {
                Some(node) => {
                    proof {
                        Node::lemma_chain_of_node(*node);
                        assert(self.remaining().drop_first() =~= Node::<K, V>::chain_of(node.next)
                            + entries_from(self.buckets@, self.index as int));
                    }
                    self.last = Some(&**node);
                    return Some((&node.key, &node.value));
                },
                None => {
                    self.last = None;
                    assert(self.remaining() =~= start);
                },
            }
        }
        assert(self.remaining() =~= start);
        while self.index < self.buckets.len() && self.buckets[self.index].0.is_none()
            invariant
                self.well_formed(),
                self.last is None,
                self.remaining() == start,
            decreases self.buckets@.len() - self.index,
        {
            proof {
                lemma_entries_from_step(self.buckets@, self.index as int);
            }
            self.index = self.index + 1;
            assert(self.remaining() =~= start);
        }
        if self.index == self.buckets.len() {
            assert(entries_from(self.buckets@, self.index as int) =~= Seq::empty());
            return None;
        }
        let bucket = &self.buckets[self.index];
        proof {
            lemma_entries_from_step(self.buckets@, self.index as int);
        }
        self.index = self.index + 1;
        match &bucket.0 {
            Some(node) => {
                proof {
                    Node::lemma_chain_of_node(*node);
                    let c = Node::<K, V>::chain_of(Some(*node));
                    let rest = entries_from(self.buckets@, self.index as int);
                    assert(start == c + rest);
                    assert(start[0] == c[0]);
                    assert(start.drop_first() =~= c.drop_first() + rest);
                }
                self.last = Some(&**node);
                Some((&node.key, &node.value))
            },
            None => None,
        }
    }
}

impl<K, V> EasyMap<K, V> {
    /// All the entries of the map: bucket by bucket, each chain from its head.
    pub open spec fn entries(&self) -> Seq<(K, V)> {
        self@.flatten()
    }

    /// Creates an iterator over the key-value pairs in the map.
    ///
    /// Users of the map should not rely on the order; this iterator hands the entries
    /// out bucket by bucket, each chain from its head.
    pub fn iter(&self) -> (it: Iter<'_, K, V>)
        ensures
            it.well_formed(),
            it.remaining() == self.entries(),
    {
        let it = Iter { buckets: &self.buckets, last: None, index: 0 };
        assert(chains_of(self.buckets@).subrange(0, self.buckets@.len() as int) =~= self@);
        assert(it.remaining() =~= self.entries());
        it
    }
}

impl<K, V> EasyMap<K, V> {
    /// The entries of the bucket at `index`, head first: what a listing of the map's
    /// state shows for that bucket.
    pub fn bucket_entries(&self, index: usize) -> (entries: Vec<(&K, &V)>)
        requires
            index < self@.len(),
        ensures
            entries@.len() == self@[index as int].len(),
            forall|i: int|
                0 <= i < entries@.len() ==> (*(#[trigger] entries@[i]).0, *entries@[i].1)
                    == self@[index as int][i],
    {
        let ghost chain = self@[index as int];
        let mut entries: Vec<(&K, &V)> = Vec::new();
        let mut cur: &Option<Box<Node<K, V>>> = &self.buckets[index].0;
        loop
            invariant
                entries@.len() + Node::<K, V>::chain_of(*cur).len() == chain.len(),
                forall|i: int|
                    0 <= i < entries@.len() ==> (*(#[trigger] entries@[i]).0, *entries@[i].1)
                        == chain[i],
                forall|i: int|
                    0 <= i < Node::<K, V>::chain_of(*cur).len() ==> #[trigger] Node::<
                        K,
                        V,
                    >::chain_of(*cur)[i] == chain[entries@.len() + i],
            ensures
                entries@.len() == chain.len(),
                forall|i: int|
                    0 <= i < entries@.len() ==> (*(#[trigger] entries@[i]).0, *entries@[i].1)
                        == chain[i],
            decreases Node::<K, V>::chain_of(*cur).len(),
        {
            match cur {
                Some(node) => {
                    proof {
                        Node::lemma_chain_of_node(*node);
                        let c = Node::<K, V>::chain_of(*cur);
                        assert(c[0] == chain[entries@.len() as int]);
                        assert forall|i: int|
                            0 <= i < Node::<K, V>::chain_of(node.next).len() implies #[trigger] Node::<
                            K,
                            V,
                        >::chain_of(node.next)[i] == chain[entries@.len() + 1 + i] by {
                            assert(c[i + 1] == chain[entries@.len() + i + 1]);
                        }
                    }
                    entries.push((&node.key, &node.value));
                    cur = &node.next;
                },
                None => {
                    break ;
                },
            }
        }
        entries
    }
}

impl<K: PartialEq, V: PartialEq> PartialEq for Node<K, V> {
    /// Two nodes are equal when their keys and their values are; the rest of the chain
    /// does not take part.
    fn eq(&self, other: &Self) -> (r: bool) {
        self.key == other.key && self.value == other.value
    }
}

impl<K: PartialEq, V: PartialEq> vstd::std_specs::cmp::PartialEqSpecImpl for Node<K, V> {
    open spec fn obeys_eq_spec() -> bool {
        K::obeys_eq_spec() && V::obeys_eq_spec()
    }

    open spec fn eq_spec(&self, other: &Self) -> bool {
        self.entry().0.eq_spec(&other.entry().0) && self.entry().1.eq_spec(&other.entry().1)
    }
}

/// An entry count is zero when every chain is empty.
proof fn lemma_empty_count<K, V>(chains: Seq<Seq<(K, V)>>)
    requires
        forall|i: int| 0 <= i < chains.len() ==> #[trigger] chains[i].len() == 0,
    ensures
        entry_count(chains) == 0,
    decreases chains.len(),
{
    if chains.len() > 0 {
        assert(chains[0].len() == 0);
        lemma_empty_count(chains.drop_first());
    }
}

} // verus!
