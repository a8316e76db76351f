use vstd::prelude::*;

use lru::LruCache;

verus! {

/// How many compressed files the cache keeps.
pub const CACHE_CAPACITY: usize = 10;

#[verifier::external_type_specification]
#[verifier::external_body]
#[verifier::reject_recursive_types(K)]
#[verifier::reject_recursive_types(V)]
#[verifier::reject_recursive_types(S)]
pub struct ExLruCache<K, V, S>(LruCache<K, V, S>);

#[verifier::external_type_specification]
#[verifier::external_body]
pub struct ExLruHasher(lru::DefaultHasher);

/// What an `lru::LruCache` holds, most recently used first: each entry's key
/// and value.
pub uninterp spec fn lru_entries(cache: LruCache<Vec<u8>, Vec<u8>>) -> Seq<(Seq<u8>, Seq<u8>)>;

/// The capacity an `lru::LruCache` was made with.
pub uninterp spec fn lru_capacity(cache: LruCache<Vec<u8>, Vec<u8>>) -> nat;

/// An LRU cache's contents: at most `cap` entries, no key twice, and a
/// capacity of at least one.
pub open spec fn cache_wf(es: Seq<(Seq<u8>, Seq<u8>)>, cap: nat) -> bool {
    &&& cap > 0
    &&& es.len() <= cap
    &&& forall|i: int, j: int| 0 <= i < j < es.len() ==> #[trigger] es[i].0 != #[trigger] es[j].0
}

/// Where the entry of key `k` stands, if there is one.
pub open spec fn key_position(es: Seq<(Seq<u8>, Seq<u8>)>, k: Seq<u8>) -> Option<int> {
    if exists|i: int| 0 <= i < es.len() && #[trigger] es[i].0 == k {
        Some(choose|i: int| 0 <= i < es.len() && #[trigger] es[i].0 == k)
    } else {
        None
    }
}

/// A lookup: the value of key `k`, if present, and the entries afterwards, in
/// which a found entry has moved to the front.
pub open spec fn cache_get(es: Seq<(Seq<u8>, Seq<u8>)>, k: Seq<u8>) -> (Option<Seq<u8>>, Seq<(Seq<u8>, Seq<u8>)>) {
    match key_position(es, k) {
        Some(i) => (Some(es[i].1), seq![es[i]] + es.remove(i)),
        None => (None, es),
    }
}

/// The entries after storing `v` under `k`: the entry goes to the front,
/// replacing an entry of the same key; when the key is new and the cache is
/// full, the least recently used entry (the last) leaves.
pub open spec fn cache_put(es: Seq<(Seq<u8>, Seq<u8>)>, cap: nat, k: Seq<u8>, v: Seq<u8>) -> Seq<(Seq<u8>, Seq<u8>)> {
    match key_position(es, k) {
        Some(i) => seq![(k, v)] + es.remove(i),
        None => if es.len() >= cap {
            seq![(k, v)] + es.drop_last()
        } else {
            seq![(k, v)] + es
        },
    }
}

/// Calls `lru::LruCache::new`: an empty cache holding at most `cap` entries.
#[verifier::external_body]
fn lru_new(cap: usize) -> (c: LruCache<Vec<u8>, Vec<u8>>)
    requires
        cap > 0,
    ensures
        lru_entries(c) == Seq::<(Seq<u8>, Seq<u8>)>::empty(),
        lru_capacity(c) == cap,
{
    LruCache::new(std::num::NonZeroUsize::new(cap).unwrap())
}

/// Calls `lru::LruCache::get`: the value stored under the key, if any, which
/// then becomes the most recently used entry.
#[verifier::external_body]
fn lru_get(c: &mut LruCache<Vec<u8>, Vec<u8>>, k: &Vec<u8>) -> (r: Option<Vec<u8>>)
    requires
        cache_wf(lru_entries(*old(c)), lru_capacity(*old(c))),
    ensures
        lru_capacity(*final(c)) == lru_capacity(*old(c)),
        lru_entries(*final(c)) == cache_get(lru_entries(*old(c)), k@).1,
        match r {
            Some(v) => cache_get(lru_entries(*old(c)), k@).0 == Some(v@),
            None => cache_get(lru_entries(*old(c)), k@).0 is None,
        },
{
    c.get(k).cloned()
}

/// Calls `lru::LruCache::put`: stores the value under the key as the most
/// recently used entry, evicting the least recently used entry when a new key
/// meets a full cache.
#[verifier::external_body]
fn lru_put(c: &mut LruCache<Vec<u8>, Vec<u8>>, k: Vec<u8>, v: Vec<u8>)
    requires
        cache_wf(lru_entries(*old(c)), lru_capacity(*old(c))),
    ensures
        lru_capacity(*final(c)) == lru_capacity(*old(c)),
        lru_entries(*final(c)) == cache_put(lru_entries(*old(c)), lru_capacity(*old(c)), k@, v@),
{
    let _ = c.put(k, v);
}

/// Storing keeps the cache within its capacity and keeps each key once.
pub proof fn lemma_put_wf(es: Seq<(Seq<u8>, Seq<u8>)>, cap: nat, k: Seq<u8>, v: Seq<u8>)
    requires
        cache_wf(es, cap),
    ensures
        cache_wf(cache_put(es, cap, k, v), cap),
{
    let es2 = cache_put(es, cap, k, v);
    match key_position(es, k) {
        Some(p) => {
            let rest = es.remove(p);
            assert forall|i: int, j: int| 0 <= i < j < es2.len() implies #[trigger] es2[i].0
                != #[trigger] es2[j].0 by {
                if i == 0 {
                    let jj = if j - 1 < p { j - 1 } else { j };
                    assert(es2[j] == es[jj]);
                } else {
                    let ii = if i - 1 < p { i - 1 } else { i };
                    let jj = if j - 1 < p { j - 1 } else { j };
                    assert(es2[i] == es[ii]);
                    assert(es2[j] == es[jj]);
                }
            }
        },
        None => {
            let rest = if es.len() >= cap { es.drop_last() } else { es };
            assert forall|i: int, j: int| 0 <= i < j < es2.len() implies #[trigger] es2[i].0
                != #[trigger] es2[j].0 by {
                if i == 0 {
                    assert(es2[j] == es[j - 1]);
                } else {
                    assert(es2[i] == es[i - 1]);
                    assert(es2[j] == es[j - 1]);
                }
            }
        },
    }
}

/// A lookup keeps the cache's contents well formed.
pub proof fn lemma_get_wf(es: Seq<(Seq<u8>, Seq<u8>)>, cap: nat, k: Seq<u8>)
    requires
        cache_wf(es, cap),
    ensures
        cache_wf(cache_get(es, k).1, cap),
{
    let es2 = cache_get(es, k).1;
    match key_position(es, k) {
        Some(p) => {
            assert forall|i: int, j: int| 0 <= i < j < es2.len() implies #[trigger] es2[i].0
                != #[trigger] es2[j].0 by {
                if i == 0 {
                    let jj = if j - 1 < p { j - 1 } else { j };
                    assert(es2[j] == es[jj]);
                } else {
                    let ii = if i - 1 < p { i - 1 } else { i };
                    let jj = if j - 1 < p { j - 1 } else { j };
                    assert(es2[i] == es[ii]);
                    assert(es2[j] == es[jj]);
                }
            }
        },
        None => {},
    }
}

/// A lookup right after a store finds what was stored, and leaves the entry
/// at the front.
pub proof fn law_cache_read_after_write(es: Seq<(Seq<u8>, Seq<u8>)>, cap: nat, k: Seq<u8>, v: Seq<u8>)
    requires
        cache_wf(es, cap),
    ensures
        cache_get(cache_put(es, cap, k, v), k).0 == Some(v),
        cache_get(cache_put(es, cap, k, v), k).1 == cache_put(es, cap, k, v),
{
    let es2 = cache_put(es, cap, k, v);
    lemma_put_wf(es, cap, k, v);
    assert(es2[0].0 == k);
    let p = key_position(es2, k).unwrap();
    assert(p == 0) by {
        if p != 0 {
            assert(es2[0].0 != es2[p].0);
        }
    }
    assert(es2.remove(0) =~= es2.drop_first());
    assert(seq![es2[0]] + es2.drop_first() =~= es2);
}

/// When a new key meets a full cache, exactly the least recently used entry
/// leaves: the others stay, in their order, behind the new one.
pub proof fn law_cache_evicts_least_recent(es: Seq<(Seq<u8>, Seq<u8>)>, cap: nat, k: Seq<u8>, v: Seq<u8>)
    requires
        cache_wf(es, cap),
        es.len() == cap,
        forall|i: int| 0 <= i < es.len() ==> #[trigger] es[i].0 != k,
    ensures
        cache_put(es, cap, k, v) == seq![(k, v)] + es.drop_last(),
{
    assert(key_position(es, k) is None);
}

/// The compressed contents of recently served static files, keyed by path.
pub struct PageCache {
    cache: LruCache<Vec<u8>, Vec<u8>>,
}

impl PageCache {
    /// The cached entries, most recently used first.
    pub closed spec fn entries(&self) -> Seq<(Seq<u8>, Seq<u8>)> {
        lru_entries(self.cache)
    }

    /// The most entries the cache keeps.
    pub closed spec fn capacity(&self) -> nat {
        lru_capacity(self.cache)
    }

    /// The cache's invariant.
    pub open spec fn wf(&self) -> bool {
        cache_wf(self.entries(), self.capacity())
    }

    /// An empty cache of ten entries.
    pub fn new() -> (c: PageCache)
        ensures
            c.wf(),
            c.entries() == Seq::<(Seq<u8>, Seq<u8>)>::empty(),
            c.capacity() == CACHE_CAPACITY,
    {
        PageCache { cache: lru_new(CACHE_CAPACITY) }
    }

    /// The cached contents of `path`, if any; a hit becomes the most recently
    /// used entry.
    pub fn lookup(&mut self, path: &Vec<u8>) -> (r: Option<Vec<u8>>)
        requires
            old(self).wf(),
        ensures
            final(self).wf(),
            final(self).capacity() == old(self).capacity(),
            final(self).entries() == cache_get(old(self).entries(), path@).1,
            match r {
                Some(v) => cache_get(old(self).entries(), path@).0 == Some(v@),
                None => cache_get(old(self).entries(), path@).0 is None,
            },
    {
        proof {
            lemma_get_wf(self.entries(), self.capacity(), path@);
        }
        lru_get(&mut self.cache, path)
    }

    /// Stores `data` under `path` as the most recently used entry.
    pub fn store(&mut self, path: Vec<u8>, data: Vec<u8>)
        requires
            old(self).wf(),
        ensures
            final(self).wf(),
            final(self).capacity() == old(self).capacity(),
            final(self).entries() == cache_put(old(self).entries(), old(self).capacity(), path@, data@),
    {
        proof {
            lemma_put_wf(self.entries(), self.capacity(), path@, data@);
        }
        lru_put(&mut self.cache, path, data);
    }
}

} // verus!
