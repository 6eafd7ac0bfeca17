//! Size- and location-aware read planning, with a small freshness cache.
//!
//! The decision how much of a file to read depends on its size and on
//! whether it sits behind a network path; the reads themselves are the
//! caller's business.

use vstd::prelude::*;

use crate::text::bytes_eq;

verus! {

/// What was read of a file, with its plain metadata: size in bytes and
/// modification time in seconds since the epoch.
#[derive(Clone, Debug, PartialEq, Eq)]
pub enum FileContent {
    /// The whole content.
    Full { content: Vec<u8>, size: u64, modified: u64 },
    /// A leading sample of a large file.
    Preview { content: Vec<u8>, size: u64, modified: u64 },
    /// Nothing but metadata: the file was too large to read.
    TooLarge { size: u64, modified: u64 },
    /// Nothing but metadata: the network path was unreachable.
    NetworkUnavailable { size: u64, modified: u64 },
}

/// How much of a file should be read.
#[derive(Clone, Copy, Debug, PartialEq, Eq, Structural)]
pub enum ReadStrategy {
    /// Read it whole.
    Full,
    /// Read a leading sample only.
    Preview,
    /// Read nothing; record metadata only.
    MetadataOnly,
}

/// A cached read with the time it was stored.
#[derive(Clone, Debug, PartialEq, Eq)]
pub struct CacheEntry {
    pub path: Vec<u8>,
    pub content: FileContent,
    pub inserted_at: u64,
}

/// Whether a path names a network location: a UNC prefix of two
/// backslashes or two slashes.
pub open spec fn is_network_path_spec(p: Seq<u8>) -> bool {
    p.len() >= 2 && ((p[0] == 92 && p[1] == 92) || (p[0] == 47 && p[1] == 47))
}

/// The read strategy for a file of `size` bytes: network files over
/// 100 MiB and local files over 50 MiB are not read; network files over
/// 10 MiB get a preview only.
pub open spec fn read_strategy_spec(size: u64, network: bool) -> ReadStrategy {
    if network {
        if size > 104857600 {
            ReadStrategy::MetadataOnly
        } else if size > 10485760 {
            ReadStrategy::Preview
        } else {
            ReadStrategy::Full
        }
    } else {
        if size > 52428800 {
            ReadStrategy::MetadataOnly
        } else {
            ReadStrategy::Full
        }
    }
}

/// Index of the first cache entry for `path` that is still fresh at
/// `now`, or -1.
pub open spec fn cache_hit(cache: Seq<CacheEntry>, path: Seq<u8>, now: u64, ttl: u64) -> int
    decreases cache.len(),
{
    if cache.len() == 0 {
        -1
    } else if cache[0].path@ == path && cache[0].inserted_at <= now && now - cache[0].inserted_at
        < ttl {
        0
    } else {
        let r = cache_hit(cache.drop_first(), path, now, ttl);
        if r == -1 {
            -1
        } else {
            r + 1
        }
    }
}

proof fn lemma_cache_hit_none(cache: Seq<CacheEntry>, path: Seq<u8>, now: u64, ttl: u64)
    requires
        forall|k: int|
            0 <= k < cache.len() ==> !((#[trigger] cache[k]).path@ == path
                && cache[k].inserted_at <= now && now - cache[k].inserted_at < ttl),
    ensures
        cache_hit(cache, path, now, ttl) == -1,
    decreases cache.len(),
{
    if cache.len() > 0 {
        lemma_cache_hit_none(cache.drop_first(), path, now, ttl);
    }
}

proof fn lemma_cache_hit_at(cache: Seq<CacheEntry>, path: Seq<u8>, now: u64, ttl: u64, i: int)
    requires
        0 <= i < cache.len(),
        forall|k: int|
            0 <= k < i ==> !((#[trigger] cache[k]).path@ == path && cache[k].inserted_at <= now
                && now - cache[k].inserted_at < ttl),
        cache[i].path@ == path && cache[i].inserted_at <= now && now - cache[i].inserted_at
            < ttl,
    ensures
        cache_hit(cache, path, now, ttl) == i,
    decreases cache.len(),
{
    if i > 0 {
        lemma_cache_hit_at(cache.drop_first(), path, now, ttl, i - 1);
    }
}

/// Plans reads by size and location and caches what was read.
pub struct NetworkAwareIO {
    /// Cached reads, in insertion order.
    pub cache: Vec<CacheEntry>,
    /// Seconds a cached read stays fresh.
    pub cache_ttl: u64,
    /// Seconds allowed for a network read.
    pub network_timeout: u64,
    /// Seconds allowed for a local read.
    pub local_timeout: u64,
}

impl Default for NetworkAwareIO {
    /// Five-minute cache, 30 s network reads, 5 s local reads.
    fn default() -> (r: Self)
        ensures
            r.cache@.len() == 0,
            r.cache_ttl == 300,
            r.network_timeout == 30,
            r.local_timeout == 5,
    {
        NetworkAwareIO { cache: Vec::new(), cache_ttl: 300, network_timeout: 30, local_timeout: 5 }
    }
}

impl NetworkAwareIO {
    /// Whether `path` names a network location; see
    /// [`is_network_path_spec`].
    pub fn is_network_path(&self, path: &Vec<u8>) -> (r: bool)
        ensures
            r == is_network_path_spec(path@),
    {
        path.len() >= 2 && ((path[0] == 92 && path[1] == 92) || (path[0] == 47 && path[1] == 47))
    }

    /// How much of a file of `size` bytes should be read; see
    /// [`read_strategy_spec`].
    pub fn read_strategy(&self, size: u64, network: bool) -> (r: ReadStrategy)
        ensures
            r == read_strategy_spec(size, network),
    {
        if network {
            if size > 104857600 {
                ReadStrategy::MetadataOnly
            } else if size > 10485760 {
                ReadStrategy::Preview
            } else {
                ReadStrategy::Full
            }
        } else {
            if size > 52428800 {
                ReadStrategy::MetadataOnly
            } else {
                ReadStrategy::Full
            }
        }
    }

    /// Caches what was read of `path` at time `now`.
    pub fn store_cached(&mut self, path: Vec<u8>, content: FileContent, now: u64)
        ensures
            final(self).cache@ == old(self).cache@.push(
                CacheEntry { path, content, inserted_at: now },
            ),
            final(self).cache_ttl == old(self).cache_ttl,
            final(self).network_timeout == old(self).network_timeout,
            final(self).local_timeout == old(self).local_timeout,
    {
        self.cache.push(CacheEntry { path, content, inserted_at: now });
    }

    /// The first still-fresh cached read of `path` at time `now`, if any;
    /// see [`cache_hit`].
    pub fn get_cached_metadata(&self, path: &Vec<u8>, now: u64) -> (r: Option<&FileContent>)
        ensures
            match r {
                Option::Some(c) => {
                    let i = cache_hit(self.cache@, path@, now, self.cache_ttl);
                    0 <= i < self.cache@.len() && *c == self.cache@[i].content
                },
                Option::None => cache_hit(self.cache@, path@, now, self.cache_ttl) == -1,
            },
    {
        let mut i: usize = 0;
        while i < self.cache.len()
            invariant
                i <= self.cache@.len(),
                forall|k: int|
                    0 <= k < i ==> !((#[trigger] self.cache@[k]).path@ == path@
                        && self.cache@[k].inserted_at <= now && now - self.cache@[k].inserted_at
                        < self.cache_ttl),
            decreases self.cache@.len() - i,
        {
            let e = &self.cache[i];
            if bytes_eq(&e.path, path) && e.inserted_at <= now && now - e.inserted_at
                < self.cache_ttl {
                proof {
                    lemma_cache_hit_at(self.cache@, path@, now, self.cache_ttl, i as int);
                }
                return Option::Some(&self.cache[i].content);
            }
            i += 1;
        }
        proof {
            lemma_cache_hit_none(self.cache@, path@, now, self.cache_ttl);
        }
        Option::None
    }
}

} // verus!
