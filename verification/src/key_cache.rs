//! The cache of other servers' keys: when a document is served from memory,
//! when it is looked up in the store, when it is fetched.

use vstd::prelude::*;
use vstd::string::*;

use crate::keys::cache_suffices;
use crate::keys::same_keys;
use crate::keys::suffices;
use crate::keys::valid_at;
use crate::keys::FederationClientError;
use crate::keys::RemoteKeys;
use crate::keys::MIN_KEY_REFETCH_MS;
use crate::server_map::ServerMap;
use crate::text::texts;

verus! {

/// The documents that are held in memory.
pub struct RemoteKeyCache {
    pub memory: ServerMap<RemoteKeys>,
}

/// What to do next to get a server's keys.
pub enum CacheStep {
    /// These are good enough.
    Serve(RemoteKeys),
    /// Fetch the keys; these will do if that fails.
    Refetch(RemoteKeys),
    /// Look in the store.
    LoadStored,
    /// Fetch the keys; there are none to fall back on.
    Fetch,
}

/// Whether one document is a copy of another.
pub open spec fn is_copy(a: RemoteKeys, b: RemoteKeys) -> bool {
    same_keys(a, b) && a.fetched_at == b.fetched_at
}

/// Whether one document is another with its time of fetching set to `now`.
pub open spec fn is_stamped(a: RemoteKeys, b: RemoteKeys, now: u64) -> bool {
    same_keys(a, b) && a.fetched_at == now
}

/// Whether a cache differs from another at most in what it holds for a server.
pub open spec fn same_but(a: RemoteKeyCache, b: RemoteKeyCache, server: Seq<char>) -> bool {
    forall|k: Seq<char>| k != server ==> #[trigger] a.memory.find(k) == b.memory.find(k)
}

fn stamp(keys: &RemoteKeys, now: u64) -> (r: RemoteKeys)
    ensures
        is_stamped(r, *keys, now),
{
    let mut k = keys.copy();
    k.fetched_at = now;
    k
}

impl RemoteKeyCache {
    pub open spec fn wf(self) -> bool {
        self.memory.wf()
    }

    /// An empty cache.
    pub fn new() -> (r: Self)
        ensures
            r.wf(),
            forall|k: Seq<char>| #[trigger] r.memory.find(k) is None,
    {
        RemoteKeyCache { memory: ServerMap::new() }
    }

    /// Holds a document for a server as it is, in place of another one.
    pub fn insert_for_test(&mut self, server_name: &str, keys: RemoteKeys)
        requires
            old(self).wf(),
        ensures
            final(self).wf(),
            forall|k: Seq<char>| #[trigger]
                final(self).memory.find(k) == (if k == server_name@ {
                    Some(keys)
                } else {
                    old(self).memory.find(k)
                }),
    {
        self.memory.insert(server_name, keys);
    }

    /// Looks for keys of a server in memory, for something that was signed with
    /// one of the `wanted` keys. A document that is valid but lacks them all is
    /// fetched again, and marked as fetched just now so that the next request
    /// does not fetch it as well. An expired one is dropped.
    pub fn get_or_fetch_signed(&mut self, server_name: &str, wanted: &Vec<String>, now: u64) -> (r:
        CacheStep)
        requires
            old(self).wf(),
        ensures
            final(self).wf(),
            same_but(*final(self), *old(self), server_name@),
            match old(self).memory.find(server_name@) {
                None => r is LoadStored && final(self).memory.find(server_name@) is None,
                Some(k) => if suffices(k, texts(wanted@), now, MIN_KEY_REFETCH_MS) {
                    &&& r matches CacheStep::Serve(c) && is_copy(c, k)
                    &&& final(self).memory.find(server_name@) == Some(k)
                } else if valid_at(k, now) {
                    &&& r matches CacheStep::Refetch(c) && is_stamped(c, k, now)
                    &&& final(self).memory.find(server_name@) matches Some(m) && is_stamped(
                        m,
                        k,
                        now,
                    )
                } else {
                    r is LoadStored && final(self).memory.find(server_name@) is None
                },
            },
    {
        let cached = match self.memory.get(server_name) {
            None => {
                return CacheStep::LoadStored;
            },
            Some(k) => k.copy(),
        };
        let ghost k = self.memory.find(server_name@)->0;
        proof {
            lemma_same(cached, k, texts(wanted@), now);
        }
        if cache_suffices(&cached, wanted, now, MIN_KEY_REFETCH_MS) {
            return CacheStep::Serve(cached);
        }
        if cached.is_valid_at(now) {
            self.memory.insert(server_name, stamp(&cached, now));
            return CacheStep::Refetch(stamp(&cached, now));
        }
        self.memory.remove(server_name);
        CacheStep::LoadStored
    }

    /// Like [`Self::get_or_fetch_signed`], for any key.
    pub fn get_or_fetch(&mut self, server_name: &str, now: u64) -> (r: CacheStep)
        requires
            old(self).wf(),
        ensures
            final(self).wf(),
            same_but(*final(self), *old(self), server_name@),
            match old(self).memory.find(server_name@) {
                Some(k) => if valid_at(k, now) {
                    &&& r matches CacheStep::Serve(c) && is_copy(c, k)
                    &&& final(self).memory.find(server_name@) == Some(k)
                } else {
                    r is LoadStored && final(self).memory.find(server_name@) is None
                },
                None => r is LoadStored && final(self).memory.find(server_name@) is None,
            },
    {
        let none: Vec<String> = Vec::new();
        proof {
            assert(texts(none@) =~= seq![]);
        }
        self.get_or_fetch_signed(server_name, &none, now)
    }

    /// Goes on with what the store holds for a server: a document that is still
    /// valid is taken into memory and served like one that was there.
    pub fn loaded(
        &mut self,
        server_name: &str,
        wanted: &Vec<String>,
        now: u64,
        stored: Option<RemoteKeys>,
    ) -> (r: CacheStep)
        requires
            old(self).wf(),
        ensures
            final(self).wf(),
            same_but(*final(self), *old(self), server_name@),
            match stored {
                Some(k) => if !valid_at(k, now) {
                    r is Fetch && final(self).memory.find(server_name@) == old(self).memory.find(
                        server_name@,
                    )
                } else if suffices(k, texts(wanted@), now, MIN_KEY_REFETCH_MS) {
                    &&& r matches CacheStep::Serve(c) && is_copy(c, k)
                    &&& final(self).memory.find(server_name@) == Some(k)
                } else {
                    &&& r matches CacheStep::Refetch(c) && is_stamped(c, k, now)
                    &&& final(self).memory.find(server_name@) matches Some(m) && is_stamped(
                        m,
                        k,
                        now,
                    )
                },
                None => r is Fetch && final(self).memory.find(server_name@) == old(
                    self,
                ).memory.find(server_name@),
            },
    {
        match stored {
            Some(k) => {
                if !k.is_valid_at(now) {
                    return CacheStep::Fetch;
                }
                if cache_suffices(&k, wanted, now, MIN_KEY_REFETCH_MS) {
                    let c = k.copy();
                    self.memory.insert(server_name, k);
                    return CacheStep::Serve(c);
                }
                self.memory.insert(server_name, stamp(&k, now));
                CacheStep::Refetch(stamp(&k, now))
            },
            None => CacheStep::Fetch,
        }
    }

    /// Takes a document into memory.
    pub fn store(&mut self, server_name: &str, keys: &RemoteKeys)
        requires
            old(self).wf(),
        ensures
            final(self).wf(),
            same_but(*final(self), *old(self), server_name@),
            final(self).memory.find(server_name@) matches Some(m) && is_copy(m, *keys),
    {
        self.memory.insert(server_name, keys.copy());
    }

    /// Ends a second fetch: with the new document, which is taken into memory, or
    /// with the old one if the fetch failed.
    pub fn refetch_or(
        &mut self,
        server_name: &str,
        fetched: Result<RemoteKeys, FederationClientError>,
        fallback: RemoteKeys,
    ) -> (r: RemoteKeys)
        requires
            old(self).wf(),
        ensures
            final(self).wf(),
            same_but(*final(self), *old(self), server_name@),
            match fetched {
                Ok(k) => {
                    &&& r == k
                    &&& final(self).memory.find(server_name@) matches Some(m) && is_copy(m, k)
                },
                Err(_) => {
                    &&& r == fallback
                    &&& final(self).memory.find(server_name@) == old(self).memory.find(
                        server_name@,
                    )
                },
            },
    {
        match fetched {
            Ok(k) => {
                self.store(server_name, &k);
                k
            },
            Err(_) => fallback,
        }
    }
}

/// Copies of a document are as good as the document.
proof fn lemma_same(a: RemoteKeys, b: RemoteKeys, wanted: Seq<Seq<char>>, now: u64)
    requires
        is_copy(a, b),
    ensures
        suffices(a, wanted, now, MIN_KEY_REFETCH_MS) == suffices(
            b,
            wanted,
            now,
            MIN_KEY_REFETCH_MS,
        ),
        valid_at(a, now) == valid_at(b, now),
{
    assert forall|k: Seq<char>| a.verify_keys.has(k) == b.verify_keys.has(k) by {
        assert(crate::keys::text_under(a.verify_keys, k) == crate::keys::text_under(
            b.verify_keys,
            k,
        ));
    }
    assert forall|k: Seq<char>| a.old_verify_keys.has(k) == b.old_verify_keys.has(k) by {
        assert(crate::keys::text_under(a.old_verify_keys, k) == crate::keys::text_under(
            b.old_verify_keys,
            k,
        ));
    }
    if crate::keys::covers(a, wanted) && wanted.len() > 0 {
        let i = choose|i: int|
            0 <= i < wanted.len() && (a.verify_keys.has(#[trigger] wanted[i])
                || a.old_verify_keys.has(wanted[i]));
        assert(b.verify_keys.has(wanted[i]) || b.old_verify_keys.has(wanted[i]));
    }
    if crate::keys::covers(b, wanted) && wanted.len() > 0 {
        let i = choose|i: int|
            0 <= i < wanted.len() && (b.verify_keys.has(#[trigger] wanted[i])
                || b.old_verify_keys.has(wanted[i]));
        assert(a.verify_keys.has(wanted[i]) || a.old_verify_keys.has(wanted[i]));
    }
}

/// An expired document never suffices, whatever it holds and however recently
/// it was fetched.
pub proof fn law_expired_never_suffices(
    keys: RemoteKeys,
    wanted: Seq<Seq<char>>,
    now: u64,
    min_refetch_ms: u64,
)
    requires
        keys.valid_until_ts <= now,
    ensures
        !suffices(keys, wanted, now, min_refetch_ms),
{
}

/// Unknown key ids cause at most one fetch per interval: a document that was
/// marked as fetched at `then` suffices for every key id until the interval is
/// over, as long as it is valid.
pub proof fn law_cooldown(
    keys: RemoteKeys,
    stamped: RemoteKeys,
    wanted: Seq<Seq<char>>,
    then: u64,
    now: u64,
)
    requires
        is_stamped(stamped, keys, then),
        then <= now,
        now - then < MIN_KEY_REFETCH_MS,
        valid_at(keys, now),
    ensures
        suffices(stamped, wanted, now, MIN_KEY_REFETCH_MS),
{
}

/// With no key wanted in particular a document suffices exactly as long as it is
/// valid.
pub proof fn law_time_check(keys: RemoteKeys, now: u64, min_refetch_ms: u64)
    ensures
        suffices(keys, seq![], now, min_refetch_ms) == valid_at(keys, now),
{
}

} // verus!
