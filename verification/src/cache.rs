use vstd::prelude::*;
use crate::lru::LRUItem;

verus! {

/// The executable recency cache behind the LRU provider, one buffer per block
/// id.  The container itself comes from the lru crate and is opaque here;
/// verified code reasons about it only through `cache_map` and the contracts
/// of the methods below.
#[verifier::external_body]
pub struct BlockCache {
    inner: lru::LruCache<usize, LRUItem>,
}

/// What the cache holds: for each cached block id, the entry's bytes and its
/// dirty flag.  This name gets its meaning solely from the contracts of the
/// `BlockCache` methods.
pub uninterp spec fn cache_map(c: BlockCache) -> Map<nat, (Seq<u8>, bool)>;

/// The model of a cache that holds nothing.
pub open spec fn empty_cache() -> Map<nat, (Seq<u8>, bool)> {
    Map::empty()
}

impl BlockCache {
    /// Relies on lru::LruCache::unbounded: a fresh cache holds no entries.
    #[verifier::external_body]
    pub(crate) fn new() -> (r: BlockCache)
        ensures
            cache_map(r) == empty_cache(),
    {
        BlockCache { inner: lru::LruCache::unbounded() }
    }

    /// Relies on lru::LruCache::len: the number of entries held.
    #[verifier::external_body]
    pub(crate) fn len(&self) -> (r: usize)
        ensures
            r == cache_map(*self).dom().len(),
    {
        self.inner.len()
    }

    /// Relies on lru::LruCache::get: returns a copy of the entry for `block`
    /// and promotes it to most-recently used; what is cached does not change.
    #[verifier::external_body]
    pub(crate) fn get_copy(&mut self, block: usize) -> (r: Option<LRUItem>)
        ensures
            cache_map(*final(self)) == cache_map(*old(self)),
            match r {
                Some(item) => cache_map(*old(self)).dom().contains(block as nat)
                    && item.data@ == cache_map(*old(self))[block as nat].0
                    && item.dirty == cache_map(*old(self))[block as nat].1,
                None => !cache_map(*old(self)).dom().contains(block as nat),
            },
    {
        match self.inner.get(&block) {
            Some(item) => Some(LRUItem { data: item.data.clone(), dirty: item.dirty }),
            None => None,
        }
    }

    /// Relies on lru::LruCache::peek: returns a copy of the entry for `block`
    /// without promoting it.
    #[verifier::external_body]
    pub(crate) fn peek_copy(&self, block: usize) -> (r: Option<LRUItem>)
        ensures
            match r {
                Some(item) => cache_map(*self).dom().contains(block as nat)
                    && item.data@ == cache_map(*self)[block as nat].0
                    && item.dirty == cache_map(*self)[block as nat].1,
                None => !cache_map(*self).dom().contains(block as nat),
            },
    {
        match self.inner.peek(&block) {
            Some(item) => Some(LRUItem { data: item.data.clone(), dirty: item.dirty }),
            None => None,
        }
    }

    /// Relies on lru::LruCache::put on an unbounded cache: inserts or replaces
    /// the entry for `block` as most-recently used; nothing is evicted.
    #[verifier::external_body]
    pub(crate) fn put(&mut self, block: usize, item: LRUItem)
        ensures
            cache_map(*final(self)) == cache_map(*old(self)).insert(block as nat, (item.data@, item.dirty)),
    {
        self.inner.put(block, item);
    }

    /// Relies on lru::LruCache::pop_lru: removes and returns the
    /// least-recently-used entry, or None exactly when the cache is empty.
    #[verifier::external_body]
    pub(crate) fn pop_lru(&mut self) -> (r: Option<(usize, LRUItem)>)
        ensures
            match r {
                Some(p) => cache_map(*old(self)).dom().contains(p.0 as nat)
                    && p.1.data@ == cache_map(*old(self))[p.0 as nat].0
                    && p.1.dirty == cache_map(*old(self))[p.0 as nat].1
                    && cache_map(*final(self)) == cache_map(*old(self)).remove(p.0 as nat),
                None => cache_map(*old(self)) == empty_cache()
                    && cache_map(*final(self)) == cache_map(*old(self)),
            },
    {
        self.inner.pop_lru()
    }

    /// Relies on lru::LruCache::iter: yields exactly the cached block ids.
    #[verifier::external_body]
    pub(crate) fn keys(&self) -> (r: Vec<usize>)
        ensures
            r@.map_values(|k: usize| k as nat).to_set() == cache_map(*self).dom(),
    {
        self.inner.iter().map(|(k, _)| *k).collect()
    }

    /// Relies on lru::LruCache::peek_mut: clears the dirty flag of the entry
    /// for `block`, if present, leaving its bytes and the recency order alone.
    #[verifier::external_body]
    pub(crate) fn mark_clean(&mut self, block: usize)
        ensures
            cache_map(*old(self)).dom().contains(block as nat) ==> cache_map(*final(self))
                == cache_map(*old(self)).insert(
                    block as nat,
                    (cache_map(*old(self))[block as nat].0, false),
                ),
            !cache_map(*old(self)).dom().contains(block as nat) ==> cache_map(*final(self))
                == cache_map(*old(self)),
    {
        if let Some(item) = self.inner.peek_mut(&block) {
            item.dirty = false;
        }
    }
}

} // verus!
