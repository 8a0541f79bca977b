//! A bounded-capacity cache with least-recently-used (LRU) eviction.
//!
//! The cache composes two collaborators: a key-value store that owns the
//! values, and a recency tracker — an ordered sequence of keys with the
//! most recently touched key at the head and the eviction candidate at the
//! tail. Every `set` and `get` updates the tracker first and only then
//! decides whether an eviction is needed.

use std::collections::VecDeque;
use vstd::hash_map::StringHashMap;
use vstd::prelude::*;

verus! {

/// Error returned by [`LRUCache::new`] when the requested capacity is zero.
#[derive(Clone, Copy, Debug, PartialEq, Eq, Structural)]
pub struct ConfigurationError;

/// The recency order after touching `key`: `key` moves to the head, and its
/// previous occurrence, if any, is removed. The rest keeps its order.
pub open spec fn promote(recency: Seq<Seq<char>>, key: Seq<char>) -> Seq<Seq<char>> {
    seq![key] + recency.remove_value(key)
}

/// Whether the store and the recency tracker hold exactly the same keys.
pub open spec fn consistent(store: Map<Seq<char>, Seq<char>>, recency: Seq<Seq<char>>) -> bool {
    forall|k: Seq<char>| store.dom().contains(k) <==> recency.contains(k)
}

/// The cache invariant: a positive capacity, the same keys in the store and
/// the tracker, no duplicate keys in the tracker, and no more live keys than
/// the capacity allows.
pub open spec fn inv(
    capacity: nat,
    store: Map<Seq<char>, Seq<char>>,
    recency: Seq<Seq<char>>,
) -> bool {
    &&& capacity >= 1
    &&& consistent(store, recency)
    &&& recency.no_duplicates()
    &&& recency.len() <= capacity
}

/// One `set` call, on the model: upsert the pair, promote the key, and when
/// the store has overflowed the capacity, evict the tracker's tail.
pub open spec fn set_step(
    capacity: nat,
    store: Map<Seq<char>, Seq<char>>,
    recency: Seq<Seq<char>>,
    key: Seq<char>,
    value: Seq<char>,
) -> (Map<Seq<char>, Seq<char>>, Seq<Seq<char>>) {
    let grown = store.insert(key, value);
    let touched = promote(recency, key);
    if grown.dom().len() > capacity {
        (grown.remove(touched.last()), touched.drop_last())
    } else {
        (grown, touched)
    }
}

/// One `get` call, on the model: a hit returns the stored value and promotes
/// the key; a miss returns nothing and changes nothing.
pub open spec fn get_step(
    store: Map<Seq<char>, Seq<char>>,
    recency: Seq<Seq<char>>,
    key: Seq<char>,
) -> (Option<Seq<char>>, Seq<Seq<char>>) {
    if store.contains_key(key) {
        (Some(store[key]), promote(recency, key))
    } else {
        (None, recency)
    }
}

/// A bounded cache with least-recently-used eviction. `storage` owns the
/// values; `usage_order` tracks recency, the most recently touched key at
/// the front and the eviction candidate at the back.
pub struct LRUCache {
    capacity: usize,
    storage: StringHashMap<String>,
    usage_order: VecDeque<String>,
}

impl LRUCache {
    /// The fixed capacity, set at construction.
    pub closed spec fn cap(&self) -> nat {
        self.capacity as nat
    }

    /// The key-value store: each live key to its value.
    pub closed spec fn store(&self) -> Map<Seq<char>, Seq<char>> {
        self.storage@.map_values(|v: String| v@)
    }

    /// The recency order over the live keys, the most recently touched first.
    pub closed spec fn recency(&self) -> Seq<Seq<char>> {
        self.usage_order@.map_values(|k: String| k@)
    }

    /// The cache invariant, established by `new` and kept by every call.
    pub open spec fn wf(&self) -> bool {
        inv(self.cap(), self.store(), self.recency())
    }

    /// Creates an empty cache that holds at most `capacity` entries, or
    /// fails with a `ConfigurationError` when `capacity` is zero.
    pub fn new(capacity: usize) -> (result: Result<LRUCache, ConfigurationError>)
        ensures
            result is Err <==> capacity == 0,
            match result {
                Ok(cache) => {
                    &&& cache.wf()
                    &&& cache.cap() == capacity
                    &&& cache.store() == Map::<Seq<char>, Seq<char>>::empty()
                    &&& cache.recency() == Seq::<Seq<char>>::empty()
                },
                Err(e) => e == (ConfigurationError {}),
            },
    {
        if capacity == 0 {
            return Err(ConfigurationError {});
        }
        let cache = LRUCache {
            capacity,
            storage: StringHashMap::new(),
            usage_order: VecDeque::new(),
        };
        proof {
            assert(cache.store() =~= Map::<Seq<char>, Seq<char>>::empty());
            assert(cache.recency() =~= Seq::<Seq<char>>::empty());
        }
        Ok(cache)
    }

    /// Returns the position of `key` in the usage order, or `None` when the
    /// key is not tracked.
    fn position_of(&self, key: &String) -> (position: Option<usize>)
        ensures
            match position {
                Some(i) => {
                    &&& i < self.recency().len()
                    &&& self.recency()[i as int] == key@
                    &&& forall|j: int| 0 <= j < i ==> self.recency()[j] != key@
                },
                None => !self.recency().contains(key@),
            },
    {
        let mut i: usize = 0;
        while i < self.usage_order.len()
            invariant
                i <= self.usage_order@.len(),
                forall|j: int| 0 <= j < i ==> self.usage_order@[j]@ != key@,
            decreases self.usage_order@.len() - i,
        {
            if self.usage_order[i].eq(key) {
                return Some(i);
            }
            i = i + 1;
        }
        proof {
            assert forall|j: int| 0 <= j < self.recency().len() implies self.recency()[j]
                != key@ by {
                assert(self.usage_order@[j]@ != key@);
            }
        }
        None
    }

    /// Moves `key` to the front of the usage order, removing its previous
    /// occurrence if it had one. The store is untouched.
    fn update_usage(&mut self, key: &String)
        ensures
            final(self).capacity == old(self).capacity,
            final(self).storage == old(self).storage,
            final(self).recency() == promote(old(self).recency(), key@),
    {
        let ghost rec0 = self.recency();
        match self.position_of(key) {
            Some(i) => {
                self.usage_order.remove(i);
                proof {
                    rec0.index_of_first_ensures(key@);
                    assert(rec0[i as int] == key@);
                    assert(rec0.contains(key@));
                    let i0 = rec0.index_of_first(key@).unwrap();
                    assert(i0 == i);
                    assert(self.recency() =~= rec0.remove(i as int));
                }
            },
            None => {
                proof {
                    rec0.index_of_first_ensures(key@);
                }
            },
        }
        let ghost rest = self.recency();
        self.usage_order.push_front(key.clone());
        proof {
            assert(rest == rec0.remove_value(key@));
            assert(self.recency() =~= seq![key@] + rest);
        }
    }

    /// Inserts or overwrites the value under `key` and marks the key as the
    /// most recently used. When the insertion pushes the store past its
    /// capacity, the least recently used key is evicted.
    pub fn set(&mut self, key: String, value: String)
        requires
            old(self).wf(),
        ensures
            final(self).wf(),
            final(self).cap() == old(self).cap(),
            ({
                let (store2, recency2) = set_step(
                    old(self).cap(),
                    old(self).store(),
                    old(self).recency(),
                    key@,
                    value@,
                );
                final(self).store() == store2 && final(self).recency() == recency2
            }),
    {
        let ghost cap0 = self.cap();
        let ghost store0 = self.store();
        let ghost rec0 = self.recency();
        let ghost grown = store0.insert(key@, value@);
        let ghost touched = promote(rec0, key@);
        self.storage.insert(key.clone(), value);
        proof {
            assert(self.store() =~= grown);
        }
        self.update_usage(&key);
        proof {
            lemma_promote_properties(rec0, key@);
            assert(consistent(grown, touched));
            lemma_consistent_size(grown, touched);
            lemma_set_step_preserves_inv(cap0, store0, rec0, key@, value@);
            assert(self.storage@.dom() =~= grown.dom());
        }
        if self.storage.len() > self.capacity {
            if let Some(least_recently_used) = self.usage_order.pop_back() {
                proof {
                    assert(least_recently_used@ == touched.last());
                    assert(self.recency() =~= touched.drop_last());
                }
                self.storage.remove(least_recently_used.as_str());
                proof {
                    assert(self.store() =~= grown.remove(touched.last()));
                }
            }
        }
    }

    /// Returns the value stored under `key` and marks the key as the most
    /// recently used, or returns `None` — touching nothing — when the key is
    /// absent.
    pub fn get(&mut self, key: &String) -> (result: Option<String>)
        requires
            old(self).wf(),
        ensures
            final(self).wf(),
            final(self).cap() == old(self).cap(),
            final(self).store() == old(self).store(),
            ({
                let (found, recency1) = get_step(old(self).store(), old(self).recency(), key@);
                &&& final(self).recency() == recency1
                &&& match result {
                    Some(v) => found == Some(v@),
                    None => found is None,
                }
            }),
    {
        let ghost cap0 = self.cap();
        let ghost store0 = self.store();
        let ghost rec0 = self.recency();
        if self.storage.contains_key(key.as_str()) {
            proof {
                assert(store0.contains_key(key@));
                lemma_get_step_preserves_inv(cap0, store0, rec0, key@);
            }
            self.update_usage(key);
            match self.storage.get(key.as_str()) {
                Some(v) => Some(v.clone()),
                None => {
                    proof {
                        assert(false);
                    }
                    None
                },
            }
        } else {
            proof {
                assert(!store0.contains_key(key@));
            }
            None
        }
    }

    /// The keys currently cached, in recency order: the most recently
    /// touched key first, the next eviction candidate last.
    pub fn recency_keys(&self) -> (keys: Vec<String>)
        ensures
            keys@.map_values(|k: String| k@) == self.recency(),
    {
        let mut keys: Vec<String> = Vec::new();
        let mut i: usize = 0;
        while i < self.usage_order.len()
            invariant
                i <= self.usage_order@.len(),
                keys@.len() == i,
                forall|j: int| 0 <= j < i ==> keys@[j] == self.usage_order@[j],
            decreases self.usage_order@.len() - i,
        {
            keys.push(self.usage_order[i].clone());
            i = i + 1;
        }
        proof {
            assert(keys@.map_values(|k: String| k@) =~= self.recency());
        }
        keys
    }
}

/// The store and the tracker of a consistent, duplicate-free cache hold
/// exactly as many keys as the tracker has positions.
pub proof fn lemma_consistent_size(store: Map<Seq<char>, Seq<char>>, recency: Seq<Seq<char>>)
    requires
        consistent(store, recency),
        recency.no_duplicates(),
    ensures
        store.dom() == recency.to_set(),
        store.dom().finite(),
        store.dom().len() == recency.len(),
{
    broadcast use vstd::seq_lib::seq_to_set_is_finite;

    assert(store.dom() =~= recency.to_set());
    recency.unique_seq_to_set();
}

/// Promoting a key keeps the tracker duplicate-free, puts the key at the
/// head, adds no key but the promoted one, and grows the tracker only when
/// the key was absent.
pub proof fn lemma_promote_properties(recency: Seq<Seq<char>>, key: Seq<char>)
    requires
        recency.no_duplicates(),
    ensures
        ({
            let p = promote(recency, key);
            &&& p.len() == if recency.contains(key) {
                recency.len()
            } else {
                recency.len() + 1
            }
            &&& p[0] == key
            &&& p.no_duplicates()
            &&& forall|k2: Seq<char>|
                #[trigger] p.contains(k2) <==> (k2 == key || recency.contains(k2))
        }),
{
    let p = promote(recency, key);
    let rest = recency.remove_value(key);
    recency.index_of_first_ensures(key);
    if recency.contains(key) {
        let i = recency.index_of_first(key).unwrap();
        recency.remove_ensures(i);
        assert forall|j: int| 0 <= j < rest.len() implies rest[j] != key by {
            if j < i {
                assert(rest[j] == recency[j]);
            } else {
                assert(rest[j] == recency[j + 1]);
            }
        }
        assert forall|a: int, b: int|
            0 <= a < rest.len() && 0 <= b < rest.len() && a != b implies rest[a] != rest[b] by {
            let a0: int = if a < i {
                a
            } else {
                a + 1
            };
            let b0: int = if b < i {
                b
            } else {
                b + 1
            };
            assert(rest[a] == recency[a0]);
            assert(rest[b] == recency[b0]);
        }
        assert forall|k2: Seq<char>| recency.contains(k2) && k2 != key implies rest.contains(
            k2,
        ) by {
            let j = choose|j: int| 0 <= j < recency.len() && recency[j] == k2;
            if j < i {
                assert(rest[j] == k2);
            } else {
                assert(rest[j - 1] == k2);
            }
        }
    }
    assert(p[0] == key);
    assert forall|j: int| 0 <= j < p.len() && j != 0 implies p[j] != key by {
        assert(p[j] == rest[j - 1]);
    }
    assert forall|a: int, b: int| 0 <= a < p.len() && 0 <= b < p.len() && a != b implies p[a]
        != p[b] by {
        if a != 0 && b != 0 {
            assert(p[a] == rest[a - 1]);
            assert(p[b] == rest[b - 1]);
        }
    }
    assert forall|k2: Seq<char>| #[trigger] p.contains(k2) implies (k2 == key
        || recency.contains(k2)) by {
        let j = choose|j: int| 0 <= j < p.len() && p[j] == k2;
        if j != 0 {
            assert(rest[j - 1] == k2);
            if recency.contains(key) {
                let i = recency.index_of_first(key).unwrap();
                recency.remove_ensures(i);
                if j - 1 < i {
                    assert(recency[j - 1] == k2);
                } else {
                    assert(recency[j] == k2);
                }
            }
        }
    }
    assert forall|k2: Seq<char>| k2 == key || recency.contains(k2) implies #[trigger] p.contains(
        k2,
    ) by {
        if k2 == key {
            assert(p[0] == k2);
        } else {
            let j = choose|j: int| 0 <= j < recency.len() && recency[j] == k2;
            if recency.contains(key) {
                let i = recency.index_of_first(key).unwrap();
                recency.remove_ensures(i);
                if j < i {
                    assert(p[j + 1] == rest[j]);
                    assert(p[j + 1] == k2);
                } else {
                    assert(p[j] == rest[j - 1]);
                    assert(p[j] == k2);
                }
            } else {
                assert(p[j + 1] == k2);
            }
        }
    }
}

/// One `set` step keeps the cache invariant.
pub proof fn lemma_set_step_preserves_inv(
    capacity: nat,
    store: Map<Seq<char>, Seq<char>>,
    recency: Seq<Seq<char>>,
    key: Seq<char>,
    value: Seq<char>,
)
    requires
        inv(capacity, store, recency),
    ensures
        ({
            let (store2, recency2) = set_step(capacity, store, recency, key, value);
            inv(capacity, store2, recency2)
        }),
{
    let grown = store.insert(key, value);
    let touched = promote(recency, key);
    lemma_promote_properties(recency, key);
    assert(consistent(grown, touched));
    lemma_consistent_size(grown, touched);
    if grown.dom().len() > capacity {
        let tail = touched.last();
        let kept = touched.drop_last();
        assert(touched.len() >= 2);
        assert forall|a: int, b: int|
            0 <= a < kept.len() && 0 <= b < kept.len() && a != b implies kept[a] != kept[b] by {
            assert(kept[a] == touched[a]);
            assert(kept[b] == touched[b]);
        }
        assert forall|k2: Seq<char>| #[trigger] kept.contains(k2) implies touched.contains(k2)
            && k2 != tail by {
            let j = choose|j: int| 0 <= j < kept.len() && kept[j] == k2;
            assert(touched[j] == k2);
            assert(touched[touched.len() - 1] == tail);
        }
        assert forall|k2: Seq<char>| touched.contains(k2) && k2 != tail implies
            #[trigger] kept.contains(k2) by {
            let j = choose|j: int| 0 <= j < touched.len() && touched[j] == k2;
            assert(j < touched.len() - 1);
            assert(kept[j] == k2);
        }
        assert(consistent(grown.remove(tail), kept));
        assert(kept.len() <= capacity);
    }
}

/// One `get` step keeps the cache invariant.
pub proof fn lemma_get_step_preserves_inv(
    capacity: nat,
    store: Map<Seq<char>, Seq<char>>,
    recency: Seq<Seq<char>>,
    key: Seq<char>,
)
    requires
        inv(capacity, store, recency),
    ensures
        ({
            let (found, recency1) = get_step(store, recency, key);
            inv(capacity, store, recency1)
        }),
{
    if store.contains_key(key) {
        lemma_promote_properties(recency, key);
        assert(recency.contains(key));
    }
}

} // verus!
