//! The memo of the validity oracle: a bounded least-recently-used cache from
//! candidate words to their validity.
use cached::stores::LruCache;
use cached::Cached;
use vstd::prelude::*;

verus! {

#[verifier::external_type_specification]
#[verifier::external_body]
#[verifier::reject_recursive_types(K)]
#[verifier::reject_recursive_types(V)]
#[verifier::reject_recursive_types(S)]
pub struct ExLruCache<K, V, S>(cached::stores::LruCache<K, V, S>);

/// The entries that a cache holds, by the characters of their keys.
pub uninterp spec fn lru_entries(c: LruCache<String, bool>) -> Map<Seq<char>, bool>;

/// The number of entries a cache was made to hold at most.
pub uninterp spec fn lru_capacity(c: LruCache<String, bool>) -> nat;

/// The number of entries of a validity cache.
pub const CACHE_SIZE: usize = 1024;

/// Relies on `cached::stores::LruCache::new`: an empty cache for up to `size`
/// entries. It panics on a size of zero or one too large to allocate.
#[verifier::external_body]
pub(crate) fn lru_new(size: usize) -> (r: LruCache<String, bool>)
    requires
        0 < size <= CACHE_SIZE,
    ensures
        lru_entries(r).dom() == Set::<Seq<char>>::empty(),
        lru_capacity(r) == size,
{
    LruCache::new(size)
}

/// Relies on `Cached::cache_get` of `LruCache`: the value stored under `key`,
/// if there is one. A lookup only moves the entry to the front of the
/// eviction order.
#[verifier::external_body]
pub(crate) fn lru_get(c: &mut LruCache<String, bool>, key: &String) -> (r: Option<bool>)
    ensures
        lru_entries(*final(c)) == lru_entries(*old(c)),
        lru_capacity(*final(c)) == lru_capacity(*old(c)),
        r == (if lru_entries(*old(c)).contains_key(key@) {
            Some(lru_entries(*old(c))[key@])
        } else {
            None
        }),
{
    c.cache_get(key).copied()
}

/// Relies on `Cached::cache_set` of `LruCache`: stores `value` under `key`,
/// which becomes the most recently used entry; beyond the capacity the least
/// recently used entries are evicted, which leaves the new one in place while
/// the capacity is at least one.
#[verifier::external_body]
pub(crate) fn lru_set(c: &mut LruCache<String, bool>, key: String, value: bool)
    requires
        lru_capacity(*old(c)) >= 1,
    ensures
        lru_capacity(*final(c)) == lru_capacity(*old(c)),
        lru_entries(*final(c)).contains_key(key@),
        lru_entries(*final(c))[key@] == value,
        forall|k: Seq<char>|
            #[trigger] lru_entries(*final(c)).contains_key(k) && k != key@ ==> lru_entries(
                *old(c),
            ).contains_key(k) && lru_entries(*old(c))[k] == lru_entries(*final(c))[k],
{
    c.cache_set(key, value);
}

} // verus!
