//! Decompressed blocks that were read lately.

use std::sync::Arc;

use lru::LruCache;
use vstd::prelude::*;

use crate::store::block_trailer::BlockFieldRemap;

verus! {

/// A decompressed block together with its field-id remap.
pub type CachedBlock = (Arc<Vec<u8>>, Arc<BlockFieldRemap>);

/// Declares `lru::LruCache`.
#[verifier::external_type_specification]
#[verifier::external_body]
#[verifier::reject_recursive_types(K)]
#[verifier::reject_recursive_types(V)]
#[verifier::reject_recursive_types(S)]
pub struct ExLruCache<K, V, S>(lru::LruCache<K, V, S>);

/// Declares the hasher that `lru::LruCache` uses.
#[verifier::external_type_specification]
#[verifier::external_body]
pub struct ExDefaultHasher(lru::DefaultHasher);

/// The entries of a cache, the least recently used one first.
pub uninterp spec fn lru_entries(cache: LruCache<usize, CachedBlock>) -> Seq<(usize, CachedBlock)>;

/// The number of entries that a cache may hold.
pub uninterp spec fn lru_capacity(cache: LruCache<usize, CachedBlock>) -> nat;

/// More entries than this are not asked of a cache: their table is allocated up front, and its size
/// in bytes has to fit `isize`.
pub const MAX_CACHE_BLOCKS: usize = usize::MAX / 128;

/// Calls `lru::LruCache::new`: an empty cache for at most `capacity` entries. The table for them has
/// at most four buckets for each entry, of at most seventeen bytes each.
#[verifier::external_body]
fn lru_new(capacity: usize) -> (cache: LruCache<usize, CachedBlock>)
    requires
        0 < capacity <= MAX_CACHE_BLOCKS,
    ensures
        lru_entries(cache) == Seq::<(usize, CachedBlock)>::empty(),
        lru_capacity(cache) == capacity,
{
    LruCache::new(std::num::NonZeroUsize::new(capacity).unwrap())
}

/// Calls `lru::LruCache::get`: an entry that is found becomes the most recently used one.
#[verifier::external_body]
fn lru_get(cache: &mut LruCache<usize, CachedBlock>, key: usize) -> (found: Option<CachedBlock>)
    ensures
        lru_capacity(*final(cache)) == lru_capacity(*old(cache)),
        match found {
            Some(block) => exists|i: int|
                0 <= i < lru_entries(*old(cache)).len() && #[trigger] lru_entries(*old(cache))[i]
                    == (key, block) && lru_entries(*final(cache)) == lru_entries(*old(cache)).remove(
                    i,
                ).push((key, block)),
            None => lru_entries(*final(cache)) == lru_entries(*old(cache)) && forall|i: int|
                0 <= i < lru_entries(*old(cache)).len() ==> (#[trigger] lru_entries(
                    *old(cache),
                )[i]).0 != key,
        },
{
    cache.get(&key).cloned()
}

/// Calls `lru::LruCache::put`: an entry with the same key is replaced, else the least recently
/// used entry makes room when the cache is full; the new entry is the most recently used one.
#[verifier::external_body]
fn lru_put(cache: &mut LruCache<usize, CachedBlock>, key: usize, block: CachedBlock)
    requires
        lru_capacity(*old(cache)) > 0,
    ensures
        lru_capacity(*final(cache)) == lru_capacity(*old(cache)),
        lru_entries(*final(cache)) == after_put(
            lru_entries(*old(cache)),
            lru_capacity(*old(cache)),
            key,
            block,
        ),
{
    cache.put(key, block);
}

/// Calls `lru::LruCache::len`: the number of entries.
#[verifier::external_body]
fn lru_len(cache: &LruCache<usize, CachedBlock>) -> (len: usize)
    ensures
        len == lru_entries(*cache).len(),
{
    cache.len()
}

/// Calls `lru::LruCache::peek_lru`: the key of the least recently used entry, without using it.
#[verifier::external_body]
fn lru_peek_lru(cache: &LruCache<usize, CachedBlock>) -> (key: Option<usize>)
    ensures
        key == (if lru_entries(*cache).len() == 0 {
            None
        } else {
            Some(lru_entries(*cache)[0].0)
        }),
{
    cache.peek_lru().map(|(key, _)| *key)
}

/// Some entry has this key.
pub open spec fn has_key(entries: Seq<(usize, CachedBlock)>, key: usize) -> bool {
    exists|i: int| 0 <= i < entries.len() && (#[trigger] entries[i]).0 == key
}

/// The position of the entry with this key.
pub open spec fn index_of_key(entries: Seq<(usize, CachedBlock)>, key: usize) -> int {
    choose|i: int| 0 <= i < entries.len() && (#[trigger] entries[i]).0 == key
}

/// No two entries have the same key.
pub open spec fn distinct_keys(entries: Seq<(usize, CachedBlock)>) -> bool {
    forall|i: int, j: int|
        0 <= i < j < entries.len() ==> (#[trigger] entries[i]).0 != (#[trigger] entries[j]).0
}

/// The entries after one was looked up: an entry that was found moves to the end.
pub open spec fn after_get(entries: Seq<(usize, CachedBlock)>, key: usize) -> Seq<
    (usize, CachedBlock),
> {
    if has_key(entries, key) {
        let i = index_of_key(entries, key);
        entries.remove(i).push(entries[i])
    } else {
        entries
    }
}

/// The entries after `block` was put under `key`.
pub open spec fn after_put(
    entries: Seq<(usize, CachedBlock)>,
    capacity: nat,
    key: usize,
    block: CachedBlock,
) -> Seq<(usize, CachedBlock)> {
    if has_key(entries, key) {
        entries.remove(index_of_key(entries, key)).push((key, block))
    } else if entries.len() == capacity {
        entries.remove(0).push((key, block))
    } else {
        entries.push((key, block))
    }
}

/// Counters of a [`BlockCache`].
#[derive(Clone, Copy, Debug, PartialEq, Eq, Structural)]
pub struct CacheStats {
    /// The number of entries in the cache.
    pub num_entries: usize,
    /// The number of lookups that found their block.
    pub cache_hits: usize,
    /// The number of lookups that did not.
    pub cache_misses: usize,
}

impl Default for CacheStats {
    fn default() -> (stats: Self)
        ensures
            stats == (CacheStats { num_entries: 0, cache_hits: 0, cache_misses: 0 }),
    {
        CacheStats { num_entries: 0, cache_hits: 0, cache_misses: 0 }
    }
}

/// The sums of each counter over `stats`.
pub open spec fn stats_totals(stats: Seq<CacheStats>) -> (int, int, int)
    decreases stats.len(),
{
    if stats.len() == 0 {
        (0, 0, 0)
    } else {
        let rest = stats_totals(stats.drop_last());
        (
            rest.0 + stats.last().num_entries,
            rest.1 + stats.last().cache_hits,
            rest.2 + stats.last().cache_misses,
        )
    }
}

proof fn lemma_stats_totals_monotone(stats: Seq<CacheStats>, len: int)
    requires
        0 <= len <= stats.len(),
    ensures
        0 <= stats_totals(stats.take(len)).0 <= stats_totals(stats).0,
        0 <= stats_totals(stats.take(len)).1 <= stats_totals(stats).1,
        0 <= stats_totals(stats.take(len)).2 <= stats_totals(stats).2,
    decreases stats.len(),
{
    if len < stats.len() {
        lemma_stats_totals_monotone(stats.drop_last(), len);
        assert(stats.drop_last().take(len) =~= stats.take(len));
    } else {
        assert(stats.take(len) =~= stats);
        if stats.len() > 0 {
            lemma_stats_totals_monotone(stats.drop_last(), len - 1);
        }
    }
}

impl CacheStats {
    /// Adds the counters of `other`.
    pub fn add_assign(&mut self, other: CacheStats)
        requires
            old(self).num_entries + other.num_entries <= usize::MAX,
            old(self).cache_hits + other.cache_hits <= usize::MAX,
            old(self).cache_misses + other.cache_misses <= usize::MAX,
        ensures
            final(self).num_entries == old(self).num_entries + other.num_entries,
            final(self).cache_hits == old(self).cache_hits + other.cache_hits,
            final(self).cache_misses == old(self).cache_misses + other.cache_misses,
    {
        self.num_entries = self.num_entries + other.num_entries;
        self.cache_hits = self.cache_hits + other.cache_hits;
        self.cache_misses = self.cache_misses + other.cache_misses;
    }

    /// Adds the counters of all of `stats` up.
    pub fn sum(stats: &[CacheStats]) -> (total: CacheStats)
        requires
            stats_totals(stats@).0 <= usize::MAX,
            stats_totals(stats@).1 <= usize::MAX,
            stats_totals(stats@).2 <= usize::MAX,
        ensures
            (total.num_entries as int, total.cache_hits as int, total.cache_misses as int)
                == stats_totals(stats@),
    {
        let mut total: CacheStats = CacheStats::default();
        let mut next: usize = 0;
        while next < stats.len()
            invariant
                next <= stats@.len(),
                (total.num_entries as int, total.cache_hits as int, total.cache_misses as int)
                    == stats_totals(stats@.take(next as int)),
                stats_totals(stats@).0 <= usize::MAX,
                stats_totals(stats@).1 <= usize::MAX,
                stats_totals(stats@).2 <= usize::MAX,
            decreases stats@.len() - next,
        {
            proof {
                lemma_stats_totals_monotone(stats@, next + 1);
                assert(stats@.take(next + 1).drop_last() =~= stats@.take(next as int));
            }
            total.add_assign(stats[next]);
            next = next + 1;
        }
        assert(stats@.take(stats@.len() as int) =~= stats@);
        total
    }
}

/// One more than `count`; the counters wrap around.
pub open spec fn counted(count: usize) -> usize {
    if count == usize::MAX {
        0
    } else {
        (count + 1) as usize
    }
}

fn count_up(count: usize) -> (next: usize)
    ensures
        next == counted(count),
{
    if count == usize::MAX {
        0
    } else {
        count + 1
    }
}

/// Every entry after a removal is one of the entries before it, at a different position for
/// different positions.
proof fn lemma_remove_keeps_distinct(entries: Seq<(usize, CachedBlock)>, removed: int)
    requires
        distinct_keys(entries),
        0 <= removed < entries.len(),
    ensures
        distinct_keys(entries.remove(removed)),
        !has_key(entries.remove(removed), entries[removed].0),
        forall|key: usize| #[trigger]
            has_key(entries.remove(removed), key) ==> has_key(entries, key),
        forall|i: int|
            0 <= i < entries.len() - 1 ==> (#[trigger] entries.remove(removed)[i]) == entries[if i
                < removed {
                i
            } else {
                i + 1
            }],
{
    let rest = entries.remove(removed);
    assert forall|i: int, j: int| 0 <= i < j < rest.len() implies (#[trigger] rest[i]).0 != (
    #[trigger] rest[j]).0 by {
        let from_i = if i < removed { i } else { i + 1 };
        let from_j = if j < removed { j } else { j + 1 };
        assert(entries[from_i].0 != entries[from_j].0);
    }
    if has_key(rest, entries[removed].0) {
        let i = index_of_key(rest, entries[removed].0);
        let from_i = if i < removed { i } else { i + 1 };
        if from_i < removed {
            assert(entries[from_i].0 != entries[removed].0);
        } else {
            assert(entries[removed].0 != entries[from_i].0);
        }
    }
    assert forall|key: usize| #[trigger] has_key(rest, key) implies has_key(entries, key) by {
        let i = index_of_key(rest, key);
        let from_i = if i < removed { i } else { i + 1 };
        assert(entries[from_i].0 == key);
    }
}

proof fn lemma_push_keeps_distinct(entries: Seq<(usize, CachedBlock)>, entry: (usize, CachedBlock))
    requires
        distinct_keys(entries),
        !has_key(entries, entry.0),
    ensures
        distinct_keys(entries.push(entry)),
{
    let longer = entries.push(entry);
    assert forall|i: int, j: int| 0 <= i < j < longer.len() implies (#[trigger] longer[i]).0 != (
    #[trigger] longer[j]).0 by {
        assert(longer[i] == entries[i]);
        if j < entries.len() {
            assert(longer[j] == entries[j]);
        }
    }
}

proof fn lemma_after_get_distinct(entries: Seq<(usize, CachedBlock)>, key: usize)
    requires
        distinct_keys(entries),
    ensures
        distinct_keys(after_get(entries, key)),
        after_get(entries, key).len() == entries.len(),
{
    if has_key(entries, key) {
        let i = index_of_key(entries, key);
        lemma_remove_keeps_distinct(entries, i);
        lemma_push_keeps_distinct(entries.remove(i), entries[i]);
    }
}

proof fn lemma_after_put_distinct(
    entries: Seq<(usize, CachedBlock)>,
    capacity: nat,
    key: usize,
    block: CachedBlock,
)
    requires
        distinct_keys(entries),
        entries.len() <= capacity,
    ensures
        capacity > 0 ==> distinct_keys(after_put(entries, capacity, key, block)),
        capacity > 0 ==> after_put(entries, capacity, key, block).len() <= capacity,
{
    if has_key(entries, key) {
        let i = index_of_key(entries, key);
        lemma_remove_keeps_distinct(entries, i);
        lemma_push_keeps_distinct(entries.remove(i), (key, block));
    } else if capacity > 0 {
        if entries.len() == capacity {
            lemma_remove_keeps_distinct(entries, 0);
            lemma_push_keeps_distinct(entries.remove(0), (key, block));
        } else {
            lemma_push_keeps_distinct(entries, (key, block));
        }
    }
}

/// The keys of `entries`.
pub open spec fn keys_of(entries: Seq<(usize, CachedBlock)>) -> Seq<usize> {
    Seq::new(entries.len(), |i: int| entries[i].0)
}

/// What can be seen of a [`BlockCache`] without looking into its blocks.
#[verifier::ext_equal]
pub struct CacheState {
    /// Where the cached blocks start, the least recently used one first.
    pub keys: Seq<usize>,
    /// The number of blocks that may be cached.
    pub capacity: nat,
    /// The number of lookups that found their block.
    pub hits: usize,
    /// The number of lookups that did not.
    pub misses: usize,
}

impl CacheState {
    /// The state after the block at `key` was asked for. A block that is not cached yet is
    /// cached if it `loads`, and the least recently used block makes room for it.
    pub open spec fn after_read(self, key: usize, loads: bool) -> CacheState {
        if self.keys.contains(key) {
            CacheState {
                keys: self.keys.remove(self.keys.index_of(key)).push(key),
                hits: counted(self.hits),
                ..self
            }
        } else if !loads || self.capacity == 0 {
            CacheState { misses: counted(self.misses), ..self }
        } else if self.keys.len() == self.capacity {
            CacheState {
                keys: self.keys.remove(0).push(key),
                misses: counted(self.misses),
                ..self
            }
        } else {
            CacheState { keys: self.keys.push(key), misses: counted(self.misses), ..self }
        }
    }
}

/// What looking a block up and putting it afterwards does to the keys.
pub(crate) proof fn lemma_keys(
    entries: Seq<(usize, CachedBlock)>,
    capacity: nat,
    key: usize,
    block: CachedBlock,
)
    requires
        distinct_keys(entries),
    ensures
        keys_of(entries).contains(key) <==> has_key(entries, key),
        has_key(entries, key) ==> keys_of(after_get(entries, key)) == keys_of(entries).remove(
            keys_of(entries).index_of(key),
        ).push(key),
        !has_key(entries, key) ==> after_get(entries, key) == entries,
        !has_key(entries, key) && entries.len() < capacity ==> keys_of(
            after_put(entries, capacity, key, block),
        ) == keys_of(entries).push(key),
        !has_key(entries, key) && entries.len() == capacity && capacity > 0 ==> keys_of(
            after_put(entries, capacity, key, block),
        ) == keys_of(entries).remove(0).push(key),
{
    let keys = keys_of(entries);
    if has_key(entries, key) {
        let i = index_of_key(entries, key);
        assert(keys[i] == key);
        let k = keys.index_of(key);
        assert(keys[k] == key && entries[k].0 == key);
        assert(i == k);
        assert(keys_of(after_get(entries, key)) =~= keys.remove(k).push(key));
    }
    if keys.contains(key) {
        let k = keys.index_of(key);
        assert(entries[k].0 == key);
    }
    if !has_key(entries, key) && entries.len() < capacity {
        assert(keys_of(after_put(entries, capacity, key, block)) =~= keys.push(key));
    }
    if !has_key(entries, key) && entries.len() == capacity && capacity > 0 {
        assert(keys_of(after_put(entries, capacity, key, block)) =~= keys.remove(0).push(key));
    }
}

/// A cache of decompressed blocks by the position that they start at, with its counters.
pub struct BlockCache {
    cache: Option<LruCache<usize, CachedBlock>>,
    cache_hits: usize,
    cache_misses: usize,
}

impl BlockCache {
    /// The cached blocks, the least recently used one first.
    pub closed spec fn entries(self) -> Seq<(usize, CachedBlock)> {
        match self.cache {
            Some(cache) => lru_entries(cache),
            None => Seq::empty(),
        }
    }

    /// The number of blocks that may be cached.
    pub closed spec fn capacity(self) -> nat {
        match self.cache {
            Some(cache) => lru_capacity(cache),
            None => 0,
        }
    }

    /// The number of lookups that found their block.
    pub closed spec fn hits(self) -> usize {
        self.cache_hits
    }

    /// The number of lookups that did not.
    pub closed spec fn misses(self) -> usize {
        self.cache_misses
    }

    /// What can be seen of the cache without looking into its blocks.
    pub open spec fn state(self) -> CacheState {
        CacheState {
            keys: keys_of(self.entries()),
            capacity: self.capacity(),
            hits: self.hits(),
            misses: self.misses(),
        }
    }

    /// There is a table only where it may hold something.
    pub closed spec fn fits_capacity(self) -> bool {
        self.cache is Some ==> self.capacity() > 0
    }

    /// Keys are distinct and no more than the capacity.
    pub open spec fn wf(self) -> bool {
        &&& self.fits_capacity()
        &&& self.entries().len() <= self.capacity()
        &&& distinct_keys(self.entries())
    }

    /// An empty cache for `cache_num_blocks` blocks; with zero, nothing is ever cached.
    pub fn new(cache_num_blocks: usize) -> (cache: BlockCache)
        requires
            cache_num_blocks <= MAX_CACHE_BLOCKS,
        ensures
            cache.wf(),
            cache.entries() == Seq::<(usize, CachedBlock)>::empty(),
            cache.capacity() == cache_num_blocks,
            cache.hits() == 0,
            cache.misses() == 0,
    {
        let cache: Option<LruCache<usize, CachedBlock>> = if cache_num_blocks == 0 {
            None
        } else {
            Some(lru_new(cache_num_blocks))
        };
        BlockCache { cache, cache_hits: 0, cache_misses: 0 }
    }

    /// Looks up the block that starts at `pos`, and counts the lookup.
    pub fn get_from_cache(&mut self, pos: usize) -> (found: Option<CachedBlock>)
        requires
            old(self).wf(),
        ensures
            final(self).wf(),
            final(self).capacity() == old(self).capacity(),
            final(self).entries() == after_get(old(self).entries(), pos),
            found is Some <==> has_key(old(self).entries(), pos),
            found matches Some(block) ==> {
                &&& old(self).entries()[index_of_key(old(self).entries(), pos)] == (pos, block)
                &&& 0 <= index_of_key(old(self).entries(), pos) < old(self).entries().len()
                &&& final(self).hits() == counted(old(self).hits())
                &&& final(self).misses() == old(self).misses()
            },
            found is None ==> {
                &&& final(self).hits() == old(self).hits()
                &&& final(self).misses() == counted(old(self).misses())
            },
    {
        let mut found: Option<CachedBlock> = None;
        if let Some(cache) = &mut self.cache {
            found = lru_get(cache, pos);
        }
        if found.is_some() {
            self.cache_hits = count_up(self.cache_hits);
        } else {
            self.cache_misses = count_up(self.cache_misses);
        }
        proof {
            let before = old(self).entries();
            if found is Some {
                let block = found->0;
                let i = choose|i: int|
                    0 <= i < before.len() && #[trigger] before[i] == (pos, block)
                        && self.entries() == before.remove(i).push((pos, block));
                assert(before[i].0 == pos);
                assert(index_of_key(before, pos) == i);
            }
            lemma_after_get_distinct(before, pos);
        }
        found
    }

    /// Caches a block under the position that it starts at.
    pub fn put_into_cache(&mut self, pos: usize, block: Arc<Vec<u8>>, remap: Arc<BlockFieldRemap>)
        requires
            old(self).wf(),
        ensures
            final(self).wf(),
            final(self).capacity() == old(self).capacity(),
            final(self).hits() == old(self).hits(),
            final(self).misses() == old(self).misses(),
            final(self).entries() == if old(self).capacity() == 0 {
                old(self).entries()
            } else {
                after_put(old(self).entries(), old(self).capacity(), pos, (block, remap))
            },
    {
        if let Some(cache) = &mut self.cache {
            lru_put(cache, pos, (block, remap));
        }
        proof {
            lemma_after_put_distinct(old(self).entries(), old(self).capacity(), pos, (block, remap));
        }
    }

    /// The counters and the number of cached blocks.
    pub fn stats(&self) -> (stats: CacheStats)
        ensures
            stats.cache_hits == self.hits(),
            stats.cache_misses == self.misses(),
            stats.num_entries == self.entries().len(),
    {
        CacheStats {
            cache_hits: self.cache_hits,
            cache_misses: self.cache_misses,
            num_entries: self.len(),
        }
    }

    /// The number of cached blocks.
    pub fn len(&self) -> (len: usize)
        ensures
            len == self.entries().len(),
    {
        match &self.cache {
            Some(cache) => lru_len(cache),
            None => 0,
        }
    }

    /// The position of the block that would make room first.
    pub fn peek_lru(&self) -> (pos: Option<usize>)
        ensures
            pos == (if self.entries().len() == 0 {
                None
            } else {
                Some(self.entries()[0].0)
            }),
    {
        match &self.cache {
            Some(cache) => lru_peek_lru(cache),
            None => None,
        }
    }
}

} // verus!
