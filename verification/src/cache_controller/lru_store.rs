use vstd::prelude::*;
use crate::api::ResourceVariant;
use crate::cache_controller::cache_key::{CacheKey, KeyView};

verus! {

/// `lru::LruCache`, held opaque: what it holds is named by `lru_entries`.
#[verifier::external_type_specification]
#[verifier::external_body]
#[verifier::reject_recursive_types(K)]
#[verifier::reject_recursive_types(V)]
#[verifier::reject_recursive_types(S)]
pub struct ExLruCache<K, V, S>(lru::LruCache<K, V, S>);

/// `lru::DefaultHasher`, the hash builder of an `lru::LruCache` made without one.
#[verifier::external_type_specification]
#[verifier::external_body]
pub struct ExLruDefaultHasher(lru::DefaultHasher);

/// An LRU cache of resources, keyed by their cache keys.
pub type ResourceLru = lru::LruCache<CacheKey, ResourceVariant>;


/// What an LRU cache of resources holds, by the view of each key. The cache
/// finds keys by the derived `Eq` and `Hash` of `CacheKey`, under which two keys
/// are equal exactly when their kinds, namespaces and names are.
pub uninterp spec fn lru_entries(c: ResourceLru) -> Map<KeyView, ResourceVariant>;

/// The entries of an empty cache.
pub open spec fn no_entries() -> Map<KeyView, ResourceVariant> {
    Map::empty()
}

/// The capacity that an LRU cache of resources was made with.
pub uninterp spec fn lru_capacity(c: ResourceLru) -> nat;

/// Calls `lru::LruCache::unbounded`: an empty cache whose capacity is `usize::MAX`.
#[verifier::external_body]
pub(crate) fn lru_unbounded() -> (c: ResourceLru)
    ensures
        lru_entries(c) == no_entries(),
        lru_capacity(c) == usize::MAX,
{
    lru::LruCache::unbounded()
}


/// Calls `lru::LruCache::push`. A key that is present gets the new value, and
/// the pair with the old value comes back. A key that is absent is added where
/// there is room; where the cache is full, some entry is evicted and comes back.
/// No push takes the cache past its capacity.
/// A cache of capacity 0 takes nothing. The capacity never changes.
#[verifier::external_body]
pub(crate) fn lru_push(c: &mut ResourceLru, k: CacheKey, v: ResourceVariant) -> (r: Option<(CacheKey, ResourceVariant)>)
    ensures
        lru_capacity(*final(c)) == lru_capacity(*old(c)),
        lru_entries(*final(c)).dom().finite(),
        lru_entries(*old(c)).len() <= lru_capacity(*old(c)) ==> lru_entries(*final(c)).len() <= lru_capacity(
            *final(c),
        ),
        lru_entries(*old(c)).contains_key(k@) ==> {
            &&& lru_entries(*final(c)) == lru_entries(*old(c)).insert(k@, v)
            &&& r matches Some(p) && p.0@ == k@ && p.1 == lru_entries(*old(c))[k@]
        },
        !lru_entries(*old(c)).contains_key(k@) && lru_capacity(*old(c)) == 0 ==> {
            &&& lru_entries(*final(c)) == lru_entries(*old(c))
            &&& r is None
        },
        !lru_entries(*old(c)).contains_key(k@) && 0 < lru_capacity(*old(c))
            && lru_entries(*old(c)).len() < lru_capacity(*old(c)) ==> {
            &&& lru_entries(*final(c)) == lru_entries(*old(c)).insert(k@, v)
            &&& r is None
        },
        !lru_entries(*old(c)).contains_key(k@) && 0 < lru_capacity(*old(c))
            && lru_entries(*old(c)).len() == lru_capacity(*old(c)) ==> {
            &&& r matches Some(p) && lru_entries(*old(c)).contains_key(p.0@)
                && p.1 == lru_entries(*old(c))[p.0@]
                && lru_entries(*final(c)) == lru_entries(*old(c)).remove(p.0@).insert(k@, v)
        },
{
    c.push(k, v)
}

/// Calls `lru::LruCache::get`: the value stored under the key, if any. The call
/// only moves the key to the front of the eviction order, so the entries stay.
#[verifier::external_body]
pub(crate) fn lru_get<'a>(c: &'a mut ResourceLru, k: &CacheKey) -> (r: Option<&'a ResourceVariant>)
    ensures
        lru_capacity(*final(c)) == lru_capacity(*old(c)),
        lru_entries(*final(c)) == lru_entries(*old(c)),
        match r {
            Some(v) => lru_entries(*old(c)).contains_key(k@) && *v == lru_entries(*old(c))[k@],
            None => !lru_entries(*old(c)).contains_key(k@),
        },
{
    c.get(k)
}

/// Calls `lru::LruCache::contains`: whether the key is stored. The call leaves
/// the cache, and its eviction order, as it was.
#[verifier::external_body]
pub(crate) fn lru_contains(c: &ResourceLru, k: &CacheKey) -> (b: bool)
    ensures
        b == lru_entries(*c).contains_key(k@),
{
    c.contains(k)
}

} // verus!
