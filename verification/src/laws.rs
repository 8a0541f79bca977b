//! The laws of the LRU cache, proved over the model in [`crate::lru_cache`].

use crate::lru_cache::{
    consistent, get_step, inv, lemma_consistent_size, lemma_get_step_preserves_inv,
    lemma_promote_properties, lemma_set_step_preserves_inv, promote, set_step,
};
use vstd::prelude::*;

verus! {

/// Capacity invariant: starting from any cache state that satisfies the
/// invariant, a `set` leaves at most `capacity` entries in the store — so,
/// by induction over the calls, every finite sequence of `set` calls keeps
/// the store within its capacity.
pub proof fn lemma_capacity_invariant(
    capacity: nat,
    store: Map<Seq<char>, Seq<char>>,
    recency: Seq<Seq<char>>,
    key: Seq<char>,
    value: Seq<char>,
)
    requires
        inv(capacity, store, recency),
    ensures
        ({
            let (store2, recency2) = set_step(capacity, store, recency, key, value);
            store2.dom().len() <= capacity
        }),
{
    let (store2, recency2) = set_step(capacity, store, recency, key, value);
    lemma_set_step_preserves_inv(capacity, store, recency, key, value);
    lemma_consistent_size(store2, recency2);
}

/// A finite sequence of `set` calls applied in order, on the model; each
/// element of `calls` is a key-value pair handed to one call.
pub open spec fn run_sets(
    capacity: nat,
    store: Map<Seq<char>, Seq<char>>,
    recency: Seq<Seq<char>>,
    calls: Seq<(Seq<char>, Seq<char>)>,
) -> (Map<Seq<char>, Seq<char>>, Seq<Seq<char>>)
    decreases calls.len(),
{
    if calls.len() == 0 {
        (store, recency)
    } else {
        let (store1, recency1) = set_step(capacity, store, recency, calls[0].0, calls[0].1);
        run_sets(capacity, store1, recency1, calls.drop_first())
    }
}

/// Capacity invariant over whole call sequences: every finite sequence of
/// `set` calls keeps the cache invariant, and so never leaves more than
/// `capacity` entries in the store.
pub proof fn lemma_capacity_invariant_sequence(
    capacity: nat,
    store: Map<Seq<char>, Seq<char>>,
    recency: Seq<Seq<char>>,
    calls: Seq<(Seq<char>, Seq<char>)>,
)
    requires
        inv(capacity, store, recency),
    ensures
        ({
            let (storen, recencyn) = run_sets(capacity, store, recency, calls);
            inv(capacity, storen, recencyn) && storen.dom().len() <= capacity
        }),
    decreases calls.len(),
{
    if calls.len() == 0 {
        lemma_consistent_size(store, recency);
    } else {
        let (store1, recency1) = set_step(capacity, store, recency, calls[0].0, calls[0].1);
        lemma_set_step_preserves_inv(capacity, store, recency, calls[0].0, calls[0].1);
        lemma_capacity_invariant_sequence(capacity, store1, recency1, calls.drop_first());
    }
}

/// Consistency invariant: after a `set`, the key set in the store equals
/// the key set in the tracker.
pub proof fn lemma_set_consistency(
    capacity: nat,
    store: Map<Seq<char>, Seq<char>>,
    recency: Seq<Seq<char>>,
    key: Seq<char>,
    value: Seq<char>,
)
    requires
        inv(capacity, store, recency),
    ensures
        ({
            let (store2, recency2) = set_step(capacity, store, recency, key, value);
            consistent(store2, recency2)
        }),
{
    lemma_set_step_preserves_inv(capacity, store, recency, key, value);
}

/// Consistency invariant: after a `get`, the key set in the store equals
/// the key set in the tracker.
pub proof fn lemma_get_consistency(
    capacity: nat,
    store: Map<Seq<char>, Seq<char>>,
    recency: Seq<Seq<char>>,
    key: Seq<char>,
)
    requires
        inv(capacity, store, recency),
    ensures
        ({
            let (found, recency1) = get_step(store, recency, key);
            consistent(store, recency1)
        }),
{
    lemma_get_step_preserves_inv(capacity, store, recency, key);
}

/// Write-then-read: a `set(key, value)` followed immediately by `get(key)`
/// returns `value`.
pub proof fn lemma_write_then_read(
    capacity: nat,
    store: Map<Seq<char>, Seq<char>>,
    recency: Seq<Seq<char>>,
    key: Seq<char>,
    value: Seq<char>,
)
    requires
        inv(capacity, store, recency),
    ensures
        ({
            let (store2, recency2) = set_step(capacity, store, recency, key, value);
            get_step(store2, recency2, key).0 == Some(value)
        }),
{
    let grown = store.insert(key, value);
    let touched = promote(recency, key);
    lemma_promote_properties(recency, key);
    if grown.dom().len() > capacity {
        assert(consistent(grown, touched));
        lemma_consistent_size(grown, touched);
        assert(touched.len() >= 2);
        assert(touched[0] == key);
        assert(touched.last() != key);
    }
}

/// Eviction correctness: when a `set` overflows the capacity — the key is
/// new and the store is full — the evicted key is exactly the tracker's
/// tail prior to the call, the least recently touched resident; every other
/// resident, and the new key, stays.
pub proof fn lemma_eviction_correctness(
    capacity: nat,
    store: Map<Seq<char>, Seq<char>>,
    recency: Seq<Seq<char>>,
    key: Seq<char>,
    value: Seq<char>,
)
    requires
        inv(capacity, store, recency),
        !store.dom().contains(key),
        store.dom().len() == capacity,
    ensures
        ({
            let (store2, recency2) = set_step(capacity, store, recency, key, value);
            &&& recency.len() > 0
            &&& recency.last() != key
            &&& !store2.dom().contains(recency.last())
            &&& store2.dom().contains(key)
            &&& forall|k2: Seq<char>|
                store.dom().contains(k2) && k2 != recency.last() ==> #[trigger] store2.dom().contains(k2)
        }),
{
    let grown = store.insert(key, value);
    let touched = promote(recency, key);
    lemma_consistent_size(store, recency);
    lemma_promote_properties(recency, key);
    assert(consistent(grown, touched));
    lemma_consistent_size(grown, touched);
    assert(grown.dom().len() == capacity + 1);
    assert(!recency.contains(key));
    recency.index_of_first_ensures(key);
    assert(touched =~= seq![key] + recency);
    assert(touched.last() == recency.last());
    assert(touched[0] == key);
}

/// Read promotes recency: after a successful `get(key)`, the key is at the
/// head of the tracker, so the next `set` — whatever key it touches — never
/// evicts it. (With capacity 1 the law cannot hold: the sole resident is
/// also the tail, so inserting any new key evicts it.)
pub proof fn lemma_read_promotes_recency(
    capacity: nat,
    store: Map<Seq<char>, Seq<char>>,
    recency: Seq<Seq<char>>,
    key: Seq<char>,
    key2: Seq<char>,
    value2: Seq<char>,
)
    requires
        inv(capacity, store, recency),
        store.dom().contains(key),
        capacity >= 2,
    ensures
        ({
            let (found, recency1) = get_step(store, recency, key);
            let (store2, recency2) = set_step(capacity, store, recency1, key2, value2);
            store2.dom().contains(key)
        }),
{
    let recency1 = get_step(store, recency, key).0;
    let promoted = promote(recency, key);
    lemma_get_step_preserves_inv(capacity, store, recency, key);
    lemma_promote_properties(recency, key);
    let grown = store.insert(key2, value2);
    let touched = promote(promoted, key2);
    lemma_promote_properties(promoted, key2);
    assert(consistent(grown, touched));
    lemma_consistent_size(grown, touched);
    if grown.dom().len() > capacity {
        lemma_consistent_size(store, recency);
        assert(!store.dom().contains(key2));
        assert(key2 != key);
        assert(promoted.len() == recency.len());
        assert(promoted.len() >= 2);
        promoted.index_of_first_ensures(key2);
        assert(!promoted.contains(key2));
        assert(touched =~= seq![key2] + promoted);
        assert(touched.last() == promoted.last());
        assert(promoted[0] == key);
        assert(promoted.last() != key);
        assert(touched.contains(key));
        assert(grown.remove(touched.last()).dom().contains(key));
    }
}

} // verus!
