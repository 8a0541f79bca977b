//! An unbounded key-value cache: a plain mapping with no eviction policy
//! and no failure paths.

use vstd::hash_map::StringHashMap;
use vstd::prelude::*;

verus! {

/// An unbounded cache. It owns one value per key, overwrites on re-insertion,
/// and never removes an entry.
pub struct Cache {
    storage: StringHashMap<String>,
}

impl Cache {
    /// The mapping held by the cache: each live key to its value.
    pub closed spec fn view(&self) -> Map<Seq<char>, Seq<char>> {
        self.storage@.map_values(|v: String| v@)
    }

    /// Creates an empty cache.
    pub fn new() -> (cache: Cache)
        ensures
            cache@ == Map::<Seq<char>, Seq<char>>::empty(),
    {
        let cache = Cache { storage: StringHashMap::new() };
        proof {
            assert(cache@ =~= Map::<Seq<char>, Seq<char>>::empty());
        }
        cache
    }

    /// Inserts or overwrites the value under `key`. Always succeeds.
    pub fn set(&mut self, key: String, value: String) -> (success: bool)
        ensures
            final(self)@ == old(self)@.insert(key@, value@),
            success,
    {
        let ghost prev = self@;
        self.storage.insert(key, value);
        proof {
            assert(self@ =~= prev.insert(key@, value@));
        }
        true
    }

    /// Returns the value stored under `key`, or `None` when the key is absent.
    pub fn get(&self, key: &String) -> (result: Option<String>)
        ensures
            match result {
                Some(v) => self@.contains_key(key@) && v@ == self@[key@],
                None => !self@.contains_key(key@),
            },
    {
        match self.storage.get(key.as_str()) {
            Some(v) => Some(v.clone()),
            None => None,
        }
    }
}

} // verus!
