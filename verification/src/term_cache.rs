//! A cache of what dictionaries say of terms.

use std::num::NonZeroUsize;
use std::sync::Arc;

use lru::LruCache;

use vstd::prelude::*;

use crate::dictionary::TermInfo;
use crate::names;

verus! {

/// `lru::DefaultHasher`, the hasher of a cache.
#[verifier::external_type_specification]
#[verifier::external_body]
pub struct ExDefaultHasher(lru::DefaultHasher);

/// `lru::LruCache`.
#[verifier::external_type_specification]
#[verifier::external_body]
#[verifier::reject_recursive_types(K)]
#[verifier::reject_recursive_types(V)]
#[verifier::reject_recursive_types(S)]
pub struct ExLruCache<K, V, S>(lru::LruCache<K, V, S>);

/// What a cache holds: its keys, each once, with their values, those used last in
/// front.
pub uninterp spec fn cache_entries(cache: LruCache<String, Arc<TermInfo>>) -> Seq<
    (Seq<char>, TermInfo),
>;

/// How many keys a cache holds at most.
pub uninterp spec fn cache_capacity(cache: LruCache<String, Arc<TermInfo>>) -> nat;

/// Whether an entry is that of another key.
pub open spec fn other_than(key: Seq<char>) -> spec_fn((Seq<char>, TermInfo)) -> bool {
    |e: (Seq<char>, TermInfo)| e.0 != key
}

/// Entries without that of a key.
pub open spec fn without_key(s: Seq<(Seq<char>, TermInfo)>, key: Seq<char>) -> Seq<
    (Seq<char>, TermInfo),
> {
    s.filter(other_than(key))
}

/// Entries after a key was looked up: its entry comes to the front.
pub open spec fn touched(s: Seq<(Seq<char>, TermInfo)>, key: Seq<char>) -> Seq<
    (Seq<char>, TermInfo),
> {
    match names::value_of(s, key) {
        Some(v) => seq![(key, v)] + without_key(s, key),
        None => s,
    }
}

/// Entries after a key was given a value: its entry comes to the front, and where a
/// new key finds `capacity` entries the last of them goes.
pub open spec fn put_in_front(
    s: Seq<(Seq<char>, TermInfo)>,
    key: Seq<char>,
    value: TermInfo,
    capacity: nat,
) -> Seq<(Seq<char>, TermInfo)> {
    if names::has_name(s, key) {
        seq![(key, value)] + without_key(s, key)
    } else if s.len() == capacity {
        seq![(key, value)] + s.drop_last()
    } else {
        seq![(key, value)] + s
    }
}

/// Whether no key occurs twice.
pub open spec fn keys_differ(s: Seq<(Seq<char>, TermInfo)>) -> bool {
    forall|i: int, j: int| 0 <= i < j < s.len() ==> #[trigger] s[i].0 != #[trigger] s[j].0
}

/// `lru::LruCache::new`: an empty cache for `capacity` keys. It sets memory aside for
/// all of them, so that `capacity` is bounded.
#[verifier::external_body]
pub(crate) fn cache_new(capacity: usize) -> (r: LruCache<String, Arc<TermInfo>>)
    requires
        0 < capacity <= 0x100_0000_0000_0000,
    ensures
        cache_entries(r).len() == 0,
        cache_capacity(r) == capacity,
{
    LruCache::new(NonZeroUsize::new(capacity).unwrap())
}

/// `lru::LruCache::get`: the value of a key, whose entry comes to the front.
#[verifier::external_body]
pub(crate) fn cache_get(cache: &mut LruCache<String, Arc<TermInfo>>, key: &str) -> (r: Option<
    Arc<TermInfo>,
>)
    ensures
        match names::value_of(cache_entries(*old(cache)), key@) {
            Some(v) => r is Some && *r->Some_0 == v,
            None => r is None,
        },
        cache_entries(*final(cache)) == touched(cache_entries(*old(cache)), key@),
        cache_capacity(*final(cache)) == cache_capacity(*old(cache)),
{
    cache.get(key).cloned()
}

/// `lru::LruCache::put`: gives a key a value and brings its entry to the front; where
/// the cache is full and the key new, the entry that was not used for longest goes.
#[verifier::external_body]
pub(crate) fn cache_put(cache: &mut LruCache<String, Arc<TermInfo>>, key: String, value: Arc<TermInfo>)
    ensures
        cache_entries(*final(cache)) == put_in_front(
            cache_entries(*old(cache)),
            key@,
            *value,
            cache_capacity(*old(cache)),
        ),
        cache_capacity(*final(cache)) == cache_capacity(*old(cache)),
{
    cache.put(key, value);
}

/// `lru::LruCache::len`: how many keys a cache holds.
#[verifier::external_body]
pub(crate) fn cache_len(cache: &LruCache<String, Arc<TermInfo>>) -> (r: usize)
    ensures
        r == cache_entries(*cache).len(),
{
    cache.len()
}

/// How many bytes an entry is taken to need.
pub const EST_TERM_ENTRY_BYTES: usize = 64;

/// Without the entry of a key that is there, fewer entries are left; the others stay, and
/// the key is gone.
proof fn lemma_without_key(s: Seq<(Seq<char>, TermInfo)>, key: Seq<char>)
    ensures
        without_key(s, key).len() <= s.len(),
        names::has_name(s, key) ==> without_key(s, key).len() < s.len(),
        forall|i: int|
            0 <= i < without_key(s, key).len() ==> s.contains(#[trigger] without_key(s, key)[i])
                && without_key(s, key)[i].0 != key,
        keys_differ(s) ==> keys_differ(without_key(s, key)),
    decreases s.len(),
{
    reveal(Seq::filter);
    let t = without_key(s, key);
    if s.len() > 0 {
        let front = s.drop_last();
        lemma_without_key(front, key);
        let rest = without_key(front, key);
        if names::has_name(s, key) && s.last().0 != key {
            let i = choose|i: int| 0 <= i < s.len() && #[trigger] s[i].0 == key;
            assert(front[i].0 == key);
        }
        assert forall|i: int| 0 <= i < t.len() implies s.contains(#[trigger] t[i]) && t[i].0
            != key by {
            if i < rest.len() {
                assert(front.contains(rest[i]));
                let k = choose|k: int| 0 <= k < front.len() && front[k] == rest[i];
                assert(s[k] == rest[i]);
            } else {
                assert(s[s.len() - 1] == t[i]);
            }
        }
        if keys_differ(s) {
            assert forall|i: int, j: int| 0 <= i < j < t.len() implies #[trigger] t[i].0
                != #[trigger] t[j].0 by {
                if j == rest.len() {
                    assert(front.contains(rest[i]));
                    let k = choose|k: int| 0 <= k < front.len() && front[k] == rest[i];
                    assert(s[k].0 != s[s.len() - 1].0);
                }
            }
        }
    }
}

/// Looking a key up keeps the keys apart.
proof fn lemma_touched(s: Seq<(Seq<char>, TermInfo)>, key: Seq<char>)
    requires
        keys_differ(s),
    ensures
        keys_differ(touched(s, key)),
        touched(s, key).len() <= s.len(),
{
    lemma_without_key(s, key);
    let rest = without_key(s, key);
    let t = touched(s, key);
    if names::value_of(s, key) is Some {
        assert forall|i: int, j: int| 0 <= i < j < t.len() implies #[trigger] t[i].0
            != #[trigger] t[j].0 by {
            assert(t[j] == rest[j - 1]);
            if i > 0 {
                assert(t[i] == rest[i - 1]);
            }
        }
    }
}

/// Giving a key an entry keeps the keys apart.
proof fn lemma_put_in_front(
    s: Seq<(Seq<char>, TermInfo)>,
    key: Seq<char>,
    value: TermInfo,
    capacity: nat,
)
    requires
        keys_differ(s),
        0 < capacity,
        s.len() <= capacity,
    ensures
        keys_differ(put_in_front(s, key, value, capacity)),
        put_in_front(s, key, value, capacity).len() <= capacity,
{
    lemma_without_key(s, key);
    let rest = without_key(s, key);
    let t = put_in_front(s, key, value, capacity);
    assert forall|i: int, j: int| 0 <= i < j < t.len() implies #[trigger] t[i].0
        != #[trigger] t[j].0 by {
        if names::has_name(s, key) {
            assert(t[j] == rest[j - 1]);
            if i > 0 {
                assert(t[i] == rest[i - 1]);
            }
        } else {
            assert(t[j] == s[j - 1]);
            if i > 0 {
                assert(t[i] == s[i - 1]);
            }
        }
    }
}

/// Cache statistics.
#[derive(Debug, Clone, Copy, PartialEq, Eq, Structural)]
pub struct CacheStats {
    pub hits: usize,
    pub misses: usize,
    pub memory_usage: usize,
    pub memory_limit: usize,
}

/// A cache of the entries of terms.
pub struct CacheManager {
    term_cache: LruCache<String, Arc<TermInfo>>,
    memory_limit: usize,
    cache_hits: usize,
    cache_misses: usize,
}

impl CacheManager {
    /// The keys with their entries, those used last in front.
    pub closed spec fn entries(&self) -> Seq<(Seq<char>, TermInfo)> {
        cache_entries(self.term_cache)
    }

    /// The memory that the cache was made for.
    pub closed spec fn limit(&self) -> usize {
        self.memory_limit
    }

    /// How many keys the cache holds at most.
    pub open spec fn capacity(&self) -> int {
        if self.limit() / EST_TERM_ENTRY_BYTES > 0 {
            self.limit() as int / EST_TERM_ENTRY_BYTES as int
        } else {
            1
        }
    }

    /// How many look-ups found their key.
    pub closed spec fn hits(&self) -> usize {
        self.cache_hits
    }

    /// How many look-ups did not find their key.
    pub closed spec fn misses(&self) -> usize {
        self.cache_misses
    }

    /// The cache stays within its limit, and no key occurs twice.
    pub closed spec fn wf(&self) -> bool {
        &&& cache_capacity(self.term_cache) == self.capacity()
        &&& self.entries().len() <= self.capacity()
        &&& keys_differ(self.entries())
    }

    /// An empty cache for `memory_limit` bytes.
    pub fn new(memory_limit: usize) -> (r: CacheManager)
        requires
            memory_limit < 0x4000_0000_0000_0000,
        ensures
            r.wf(),
            r.entries().len() == 0,
            r.limit() == memory_limit,
            r.hits() == 0,
            r.misses() == 0,
    {
        let fitting: usize = memory_limit / EST_TERM_ENTRY_BYTES;
        let capacity: usize = if fitting > 0 {
            fitting
        } else {
            1
        };
        CacheManager {
            term_cache: cache_new(capacity),
            memory_limit,
            cache_hits: 0,
            cache_misses: 0,
        }
    }

    /// Looks a key up.
    pub fn get_term_info(&mut self, key: &str) -> (r: Option<Arc<TermInfo>>)
        requires
            old(self).wf(),
        ensures
            final(self).wf(),
            match names::value_of(old(self).entries(), key@) {
                Some(v) => r is Some && *r->Some_0 == v,
                None => r is None,
            },
            final(self).entries() == touched(old(self).entries(), key@),
            final(self).limit() == old(self).limit(),
            r is Some ==> final(self).hits() == old(self).hits().wrapping_add(1)
                && final(self).misses() == old(self).misses(),
            r is None ==> final(self).misses() == old(self).misses().wrapping_add(1)
                && final(self).hits() == old(self).hits(),
    {
        proof {
            lemma_touched(self.entries(), key@);
        }
        let hit: Option<Arc<TermInfo>> = cache_get(&mut self.term_cache, key);
        if hit.is_some() {
            self.cache_hits = self.cache_hits.wrapping_add(1);
        } else {
            self.cache_misses = self.cache_misses.wrapping_add(1);
        }
        hit
    }

    /// Keeps the entry of a key.
    pub fn cache_term_info(&mut self, key: String, info: TermInfo)
        requires
            old(self).wf(),
        ensures
            final(self).wf(),
            final(self).entries() == put_in_front(
                old(self).entries(),
                key@,
                info,
                old(self).capacity() as nat,
            ),
            final(self).limit() == old(self).limit(),
            final(self).hits() == old(self).hits(),
            final(self).misses() == old(self).misses(),
    {
        proof {
            lemma_put_in_front(self.entries(), key@, info, self.capacity() as nat);
        }
        cache_put(&mut self.term_cache, key, Arc::new(info));
    }

    /// What has been looked up, and how much memory is taken to be in use.
    pub fn stats(&self) -> (r: CacheStats)
        requires
            self.wf(),
        ensures
            r == (CacheStats {
                hits: self.hits(),
                misses: self.misses(),
                memory_usage: (self.entries().len() * EST_TERM_ENTRY_BYTES) as usize,
                memory_limit: self.limit(),
            }),
            r.memory_usage <= r.memory_limit || r.memory_usage <= EST_TERM_ENTRY_BYTES,
    {
        let entries: usize = cache_len(&self.term_cache);
        CacheStats {
            hits: self.cache_hits,
            misses: self.cache_misses,
            memory_usage: entries * EST_TERM_ENTRY_BYTES,
            memory_limit: self.memory_limit,
        }
    }
}

/// A key that was given an entry is then found with it.
pub proof fn lemma_put_is_found(
    s: Seq<(Seq<char>, TermInfo)>,
    key: Seq<char>,
    value: TermInfo,
    capacity: nat,
)
    requires
        s.len() <= capacity,
        capacity > 0,
        keys_differ(s),
    ensures
        names::value_of(put_in_front(s, key, value, capacity), key) == Some(value),
{
    let t = put_in_front(s, key, value, capacity);
    lemma_put_in_front(s, key, value, capacity);
    assert(t[0] == (key, value));
    assert(t[0].0 == key);
    assert(names::has_name(t, key));
    assert forall|i: int| 0 < i < t.len() implies #[trigger] t[i].0 != key by {
        assert(t[0].0 != t[i].0);
    }
}

/// What an entry says is found again after it was kept, and again after it was looked up.
pub proof fn lemma_kept_is_found(
    before: CacheManager,
    after: CacheManager,
    key: Seq<char>,
    value: TermInfo,
)
    requires
        before.wf(),
        after.entries() == put_in_front(before.entries(), key, value, before.capacity() as nat),
    ensures
        names::value_of(after.entries(), key) == Some(value),
        names::value_of(touched(after.entries(), key), key) == Some(value),
{
    lemma_put_is_found(before.entries(), key, value, before.capacity() as nat);
    let t = touched(after.entries(), key);
    lemma_put_in_front(before.entries(), key, value, before.capacity() as nat);
    lemma_touched(after.entries(), key);
    assert(t[0] == (key, value));
    assert(t[0].0 == key);
    assert(names::has_name(t, key));
    assert forall|i: int| 0 < i < t.len() implies #[trigger] t[i].0 != key by {
        assert(t[0].0 != t[i].0);
    }
}

} // verus!
