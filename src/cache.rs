//! The cache: a hash index from keys to arena slots, and a doubly-linked
//! recency list threaded through the slots by index.
use std::collections::HashMap;
use std::hash::Hash;

use vstd::prelude::*;
use vstd::std_specs::hash::{builds_valid_hashers, obeys_key_model};

use crate::model::{get_model, has_key, insert_model, key_index, keys_distinct, lookup};

verus! {

broadcast use vstd::std_specs::hash::group_hash_axioms;

/// One cached entry and its links to the neighbouring slots in the recency
/// list (`prev` is more recent, `next` less recent).
struct Node<K, V> {
    key: K,
    value: V,
    prev: Option<usize>,
    next: Option<usize>,
}

impl<K, V> Node<K, V> {
    /// A node that is not linked into any list yet.
    fn new(key: K, value: V) -> (r: Self)
        ensures
            r.key == key,
            r.value == value,
            r.prev is None,
            r.next is None,
    {
        Node { key, value, prev: None, next: None }
    }
}

/// Construction was refused: the capacity was not positive.
#[derive(Debug, Clone, Copy, PartialEq, Eq, Structural)]
pub enum ConfigError {
    ZeroCapacity,
}

/// A least-recently-used cache holding at most `capacity` entries.
///
/// Every slot of `nodes` is in use; the ghost `order` lists the slots from
/// the head (most recent) to the tail (least recent). A slot is only reused,
/// never freed: eviction happens only to make room for a new entry.
pub struct Cache<K, V> {
    map: HashMap<K, usize>,
    nodes: Vec<Node<K, V>>,
    head: Option<usize>,
    tail: Option<usize>,
    capacity: usize,
    order: Ghost<Seq<usize>>,
}

impl<K, V> View for Cache<K, V> {
    type V = Seq<(K, V)>;

    /// The entries, most recently used first.
    closed spec fn view(&self) -> Seq<(K, V)> {
        Seq::new(
            self.order@.len(),
            |i: int| (self.nodes@[self.order@[i] as int].key, self.nodes@[self.order@[i] as int].value),
        )
    }
}

impl<K: Eq + Hash + Copy, V> Cache<K, V> {
    /// The greatest number of entries the cache holds.
    pub closed spec fn capacity(&self) -> nat {
        self.capacity as nat
    }

    /// The links of the slots in `order` form a simple chain from `head` to `tail`.
    closed spec fn list_wf(&self) -> bool {
        let o = self.order@;
        &&& o.no_duplicates()
        &&& forall|i: int| 0 <= i < o.len() ==> (#[trigger] o[i]) < self.nodes@.len()
        &&& self.head == (if o.len() == 0 { None } else { Some(o[0]) })
        &&& self.tail == (if o.len() == 0 { None } else { Some(o[o.len() - 1]) })
        &&& forall|i: int|
            0 <= i < o.len() ==> (#[trigger] self.nodes@[o[i] as int]).prev == (if i == 0 {
                None
            } else {
                Some(o[i - 1])
            })
        &&& forall|i: int|
            0 <= i < o.len() ==> (#[trigger] self.nodes@[o[i] as int]).next == (if i + 1
                == o.len() {
                None
            } else {
                Some(o[i + 1])
            })
    }

    /// The index maps each key held in a slot to that slot, and nothing else.
    closed spec fn index_wf(&self) -> bool {
        &&& forall|k: K|
            #[trigger] self.map@.contains_key(k) ==> self.map@[k] < self.nodes@.len()
                && self.nodes@[self.map@[k] as int].key == k
        &&& forall|s: int|
            0 <= s < self.nodes@.len() ==> self.map@.contains_key(
                (#[trigger] self.nodes@[s]).key,
            ) && self.map@[self.nodes@[s].key] == s
    }

    /// The cache's invariant.
    pub closed spec fn wf(&self) -> bool {
        &&& obeys_key_model::<K>()
        &&& builds_valid_hashers::<std::hash::RandomState>()
        &&& self.list_wf()
        &&& self.index_wf()
        &&& self.order@.len() == self.nodes@.len()
        &&& forall|s: usize| s < self.nodes@.len() ==> #[trigger] self.order@.contains(s)
        &&& 0 < self.capacity
        &&& self.nodes@.len() <= self.capacity
    }

    /// What the invariant gives of the view: keys are distinct, their number
    /// is bounded by the capacity, and the index knows exactly the cached
    /// keys, pointing to the slot at their position.
    proof fn lemma_view(&self, k: K)
        requires
            self.wf(),
        ensures
            keys_distinct(self@),
            self@.len() <= self.capacity(),
            has_key(self@, k) == self.map@.contains_key(k),
            has_key(self@, k) ==> {
                let i = key_index(self@, k);
                &&& 0 <= i < self@.len()
                &&& self.order@[i] == self.map@[k]
                &&& self@[i].0 == k
                &&& self.order@.index_of(self.map@[k]) == i
            },
    {
        let v = self@;
        let o = self.order@;
        assert forall|i: int, j: int|
            0 <= i < v.len() && 0 <= j < v.len() && #[trigger] v[i].0 == #[trigger] v[j].0 implies i
            == j by {
            assert(self.map@[self.nodes@[o[i] as int].key] == o[i]);
            assert(self.map@[self.nodes@[o[j] as int].key] == o[j]);
        }
        if has_key(v, k) {
            let i = key_index(v, k);
            assert(self.map@[self.nodes@[o[i] as int].key] == o[i]);
        }
        if self.map@.contains_key(k) {
            let s = self.map@[k];
            assert(o.contains(s));
            let i = o.index_of(s);
            assert(v[i].0 == k);
            let i2 = key_index(v, k);
            assert(self.map@[self.nodes@[o[i2] as int].key] == o[i2]);
        }
    }

    /// Moving one slot to the front keeps every slot in the order.
    proof fn lemma_order_after_promote(&self, o: Seq<usize>, node: usize)
        requires
            o.contains(node),
            self.order@ == seq![node] + o.remove(o.index_of(node)),
            self.order@.len() == self.nodes@.len(),
            forall|s: usize| s < self.nodes@.len() ==> #[trigger] o.contains(s),
        ensures
            forall|s: usize| s < self.nodes@.len() ==> #[trigger] self.order@.contains(s),
    {
        let i = o.index_of(node);
        assert forall|s: usize| s < self.nodes@.len() implies #[trigger] self.order@.contains(s) by {
            assert(o.contains(s));
            let j = o.index_of(s);
            if j < i {
                assert(self.order@[j + 1] == s);
            } else if j > i {
                assert(self.order@[j] == s);
            } else {
                assert(self.order@[0] == s);
            }
        }
    }

    /// An empty cache that holds at most `capacity` entries; a capacity of
    /// zero is refused.
    ///
    /// The key type must hash deterministically and compare equal only to
    /// itself, as the primitive integer types do.
    pub fn new(capacity: usize) -> (r: Result<Self, ConfigError>)
        requires
            obeys_key_model::<K>(),
        ensures
            capacity == 0 ==> r == Err::<Self, ConfigError>(ConfigError::ZeroCapacity),
            capacity > 0 ==> r is Ok && r->Ok_0.wf() && r->Ok_0@ == Seq::<(K, V)>::empty()
                && r->Ok_0.capacity() == capacity,
    {
        if capacity == 0 {
            return Err(ConfigError::ZeroCapacity);
        }
        let c = Cache {
            map: HashMap::new(),
            nodes: Vec::new(),
            head: None,
            tail: None,
            capacity,
            order: Ghost(Seq::empty()),
        };
        assert(c@ =~= Seq::<(K, V)>::empty());
        Ok(c)
    }

    /// Every well-formed cache holds at most its capacity, under distinct keys.
    /// Since `new` establishes well-formedness and `get` and `insert` keep it,
    /// this holds after every sequence of operations.
    pub proof fn lemma_capacity_invariant(&self)
        requires
            self.wf(),
        ensures
            self@.len() <= self.capacity(),
            0 < self.capacity(),
            keys_distinct(self@),
    {
        self.lemma_view(arbitrary());
    }

    /// The number of cached entries.
    pub fn len(&self) -> (r: usize)
        requires
            self.wf(),
        ensures
            r == self@.len(),
    {
        self.nodes.len()
    }

    /// Reads the value under `key`.
    ///
    /// A hit counts as a use: the entry becomes the most recently used, which
    /// changes the order of later evictions. A miss changes nothing.
    pub fn get(&mut self, key: &K) -> (r: Option<&V>)
        requires
            old(self).wf(),
        ensures
            final(self).wf(),
            final(self).capacity() == old(self).capacity(),
            final(self)@.len() <= final(self).capacity(),
            final(self)@ == get_model(old(self)@, *key),
            match r {
                Some(v) => lookup(old(self)@, *key) == Some(*v),
                None => lookup(old(self)@, *key) is None,
            },
    {
        proof {
            self.lemma_view(*key);
        }
        let found = self.map.get(key);
        match found {
            Some(n) => {
                let node = *n;
                let ghost pre = *self;
                let ghost i = key_index(pre@, *key);
                self.remove_node(node);
                self.add_node(node);
                proof {
                    assert(self@ =~= get_model(pre@, *key));
                    self.lemma_order_after_promote(pre.order@, node);
                }
                proof {
                    self.lemma_view(*key);
                }
                Some(&self.nodes[node].value)
            },
            None => None,
        }
    }

    /// Writes `value` under `key`; the entry becomes the most recently used.
    ///
    /// An existing key is updated in place, with no eviction. A new key is
    /// added; if the cache is full, exactly one entry, the least recently
    /// used, is evicted first.
    pub fn insert(&mut self, key: K, value: V)
        requires
            old(self).wf(),
        ensures
            final(self).wf(),
            final(self).capacity() == old(self).capacity(),
            final(self)@.len() <= final(self).capacity(),
            final(self)@ == insert_model(old(self)@, old(self).capacity(), key, value),
    {
        proof {
            self.lemma_view(key);
        }
        let ghost pre = *self;
        let found = self.map.get(&key);
        match found {
            Some(n) => {
                let node = *n;
                let ghost i = key_index(pre@, key);
                self.nodes[node].value = value;
                self.remove_node(node);
                self.add_node(node);
                proof {
                    assert(self.nodes@[node as int].key == key);
                    assert(self@ =~= insert_model(pre@, pre.capacity(), key, value));
                    self.lemma_order_after_promote(pre.order@, node);
                }
            },
            None => {
                if self.nodes.len() == self.capacity {
                    let t = self.tail.unwrap();
                    assert(t == pre.order@[pre.order@.len() - 1]);
                    self.remove_node(t);
                    let evicted = self.nodes[t].key;
                    self.map.remove(&evicted);
                    self.nodes[t] = Node::new(key, value);
                    self.map.insert(key, t);
                    self.add_node(t);
                    proof {
                        let o = pre.order@;
                        assert(o.index_of(t) == o.len() - 1);
                        assert(self.order@ =~= seq![t] + o.drop_last());
                        assert(self@ =~= insert_model(pre@, pre.capacity(), key, value));
                        assert forall|s: usize| s < self.nodes@.len() implies #[trigger] self.order@.contains(s) by {
                            assert(o.contains(s));
                            let j = o.index_of(s);
                            if j + 1 < o.len() {
                                assert(self.order@[j + 1] == s);
                            } else {
                                assert(self.order@[0] == s);
                            }
                        }
                        assert forall|s: int| 0 <= s < self.nodes@.len() implies self.map@.contains_key(
                            (#[trigger] self.nodes@[s]).key) && self.map@[self.nodes@[s].key] == s by {
                            if s != t {
                                assert(pre.map@[pre.nodes@[s].key] == s);
                            }
                        }
                    }
                } else {
                    let s = self.nodes.len();
                    self.nodes.push(Node::new(key, value));
                    self.map.insert(key, s);
                    proof {
                        assert forall|j: int| 0 <= j < self.order@.len() implies (#[trigger] self.order@[j]) < self.nodes@.len() by {
                            assert(pre.order@[j] < pre.nodes@.len());
                        }
                        assert(!self.order@.contains(s));
                    }
                    self.add_node(s);
                    proof {
                        assert(self@ =~= insert_model(pre@, pre.capacity(), key, value));
                        assert forall|x: usize| x < self.nodes@.len() implies #[trigger] self.order@.contains(x) by {
                            if x < s {
                                assert(pre.order@.contains(x));
                                let j = pre.order@.index_of(x);
                                assert(self.order@[j + 1] == x);
                            } else {
                                assert(self.order@[0] == x);
                            }
                        }
                        assert forall|x: int| 0 <= x < self.nodes@.len() implies self.map@.contains_key(
                            (#[trigger] self.nodes@[x]).key) && self.map@[self.nodes@[x].key] == x by {
                            if x != s {
                                assert(pre.map@[pre.nodes@[x].key] == x);
                            }
                        }
                    }
                }
            },
        }
    }

    /// Unlinks `node` from the recency list, joining its neighbours.
    fn remove_node(&mut self, node: usize)
        requires
            old(self).list_wf(),
            old(self).order@.contains(node),
        ensures
            final(self).list_wf(),
            final(self).order@ == old(self).order@.remove(old(self).order@.index_of(node)),
            final(self).nodes@.len() == old(self).nodes@.len(),
            forall|s: int|
                0 <= s < final(self).nodes@.len() ==> (#[trigger] final(self).nodes@[s]).key
                    == old(self).nodes@[s].key && final(self).nodes@[s].value
                    == old(self).nodes@[s].value,
            final(self).map@ == old(self).map@,
            final(self).capacity == old(self).capacity,
    {
        let ghost o = self.order@;
        let ghost i = o.index_of(node);
        assert(0 <= i < o.len() && o[i] == node);
        let prev = self.nodes[node].prev;
        let next = self.nodes[node].next;
        match prev {
            None => {
                self.head = next;
            },
            Some(p) => {
                self.nodes[p].next = next;
            },
        }
        match next {
            None => {
                self.tail = prev;
            },
            Some(n) => {
                self.nodes[n].prev = prev;
            },
        }
        proof {
            let o2 = o.remove(i);
            self.order = Ghost(o2);
            assert forall|j: int| 0 <= j < o2.len() implies (#[trigger] self.nodes@[o2[j] as int]).prev
                == (if j == 0 { None } else { Some(o2[j - 1]) }) by {
                if j < i {
                    assert(o2[j] == o[j]);
                } else {
                    assert(o2[j] == o[j + 1]);
                }
            }
            assert forall|j: int| 0 <= j < o2.len() implies (#[trigger] self.nodes@[o2[j] as int]).next
                == (if j + 1 == o2.len() { None } else { Some(o2[j + 1]) }) by {
                if j < i {
                    assert(o2[j] == o[j]);
                } else {
                    assert(o2[j] == o[j + 1]);
                }
            }
        }
    }

    /// Links the unlinked slot `node` in as the new head of the recency list.
    fn add_node(&mut self, node: usize)
        requires
            old(self).list_wf(),
            !old(self).order@.contains(node),
            node < old(self).nodes@.len(),
        ensures
            final(self).list_wf(),
            final(self).order@ == seq![node] + old(self).order@,
            final(self).nodes@.len() == old(self).nodes@.len(),
            forall|s: int|
                0 <= s < final(self).nodes@.len() ==> (#[trigger] final(self).nodes@[s]).key
                    == old(self).nodes@[s].key && final(self).nodes@[s].value
                    == old(self).nodes@[s].value,
            final(self).map@ == old(self).map@,
            final(self).capacity == old(self).capacity,
    {
        let ghost o = self.order@;
        let head = self.head;
        self.nodes[node].prev = None;
        self.nodes[node].next = head;
        match head {
            Some(h) => {
                self.nodes[h].prev = Some(node);
            },
            None => {
                self.tail = Some(node);
            },
        }
        self.head = Some(node);
        proof {
            let o2 = seq![node] + o;
            self.order = Ghost(o2);
            assert forall|j: int| 0 <= j < o2.len() implies (#[trigger] self.nodes@[o2[j] as int]).prev
                == (if j == 0 { None } else { Some(o2[j - 1]) }) by {
                if j > 0 {
                    assert(o2[j] == o[j - 1]);
                }
            }
            assert forall|j: int| 0 <= j < o2.len() implies (#[trigger] self.nodes@[o2[j] as int]).next
                == (if j + 1 == o2.len() { None } else { Some(o2[j + 1]) }) by {
                if j > 0 {
                    assert(o2[j] == o[j - 1]);
                }
            }
            assert(o2.no_duplicates());
        }
    }
}

} // verus!
