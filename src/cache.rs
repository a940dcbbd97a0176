use vstd::prelude::*;

use crate::expiry::{
    expired_prefix, is_expired, keys_distinct, other_key, record_keeps_keys_distinct, ExpiryIndex,
    Stamped,
};
use crate::keys::{
    composite_key, composite_of, composite_splits, is_plain_route, plain_route, request_identity,
    request_identity_of, split_composite, split_of_composite,
};
use crate::store::{
    after_invalidation, lemma_push_contains, lookup, opt_str_view, opt_vec_view, opt_view,
    ContentStore, EntryKey,
};

verus! {

/// The keys of a run of index entries.
pub open spec fn index_keys(s: Seq<Stamped>) -> Seq<Seq<char>> {
    s.map_values(|e: Stamped| e.0)
}

/// `m` without the entries whose expiry index key is among `keys`.
pub open spec fn swept(m: Map<EntryKey, Seq<char>>, keys: Seq<Seq<char>>) -> Map<
    EntryKey,
    Seq<char>,
> {
    Map::new(
        |k: EntryKey| m.contains_key(k) && !(is_plain_route(k.0) && keys.contains(composite_of(k.0, k.1))),
        |k: EntryKey| m[k],
    )
}

/// The response cache: the content store and the expiry index that times its
/// entries out.
pub struct ResponseCache {
    store: ContentStore,
    index: ExpiryIndex,
}

impl ResponseCache {
    /// The cached responses, by (route identity, request identity).
    pub closed spec fn content(&self) -> Map<EntryKey, Seq<char>> {
        self.store@
    }

    /// The expiry index, oldest record first.
    pub closed spec fn stamps(&self) -> Seq<Stamped> {
        self.index@
    }

    /// The expiry index records each key at most once.
    pub open spec fn wf(&self) -> bool {
        keys_distinct(self.stamps())
    }

    /// An empty cache.
    pub fn new() -> (r: ResponseCache)
        ensures
            r.wf(),
            r.content() == Map::<EntryKey, Seq<char>>::empty(),
            r.stamps() == Seq::<Stamped>::empty(),
    {
        ResponseCache { store: ContentStore::new(), index: ExpiryIndex::new() }
    }

    /// Caches `data` as the response of `method` on `ori_uri` for the caller
    /// `token_id`, under the route `api_key`, recorded at `now`. A route
    /// identity holding the key separator is not cached.
    pub fn add_cache_data(
        &mut self,
        ori_uri: &str,
        api_key: &str,
        token_id: &str,
        method: &str,
        data: String,
        now: u64,
    )
        ensures
            old(self).wf() ==> final(self).wf(),
            ({
                let request = request_identity_of(ori_uri@, token_id@, method@);
                if is_plain_route(api_key@) {
                    &&& final(self).content() == old(self).content().insert(
                        (api_key@, request),
                        data@,
                    )
                    &&& final(self).stamps() == old(self).stamps().filter(
                        other_key(composite_of(api_key@, request)),
                    ).push((composite_of(api_key@, request), now))
                } else {
                    &&& final(self).content() == old(self).content()
                    &&& final(self).stamps() == old(self).stamps()
                }
            }),
    {
        let data_key = request_identity(ori_uri, token_id, method);
        if plain_route(api_key) {
            let index_key = composite_key(api_key, data_key.as_str());
            proof {
                if self.wf() {
                    record_keeps_keys_distinct(self.index@, index_key@, now);
                }
            }
            self.index.record(index_key, now);
            self.store.put(api_key, data_key.as_str(), data);
        }
    }

    /// The cached response of `data_key` under the route `api_key`, if any.
    pub fn get_cache_data(&self, api_key: &str, data_key: &str) -> (r: Option<String>)
        ensures
            opt_view(r) == lookup(self.content(), api_key@, data_key@),
    {
        self.store.get(api_key, data_key)
    }

    /// Invalidates after a change: with `data_key`, only that entry of
    /// `api_key`; without it, every entry of `api_key` and of each route in
    /// `related_api`. The expiry index is left as it is: a key it still holds
    /// for a removed entry is dropped by a later sweep.
    pub fn remove_cache_data(
        &mut self,
        api_key: &str,
        related_api: Option<Vec<String>>,
        data_key: Option<&str>,
    )
        ensures
            old(self).wf() ==> final(self).wf(),
            final(self).content() == after_invalidation(
                old(self).content(),
                api_key@,
                opt_vec_view(related_api),
                opt_str_view(data_key),
            ),
            final(self).stamps() == old(self).stamps(),
    {
        self.store.invalidate(api_key, related_api, data_key);
    }

    /// One pass of the sweeper: removes from the index the longest run of
    /// oldest records that have expired at `now` (older than `lifetime`
    /// milliseconds), drops their entries from the content store, and returns
    /// how many records it removed.
    pub fn sweep_expired(&mut self, now: u64, lifetime: u64) -> (n: usize)
        ensures
            old(self).wf() ==> final(self).wf(),
            expired_prefix(old(self).stamps(), now, lifetime, n as int),
            final(self).stamps() == old(self).stamps().subrange(
                n as int,
                old(self).stamps().len() as int,
            ),
            final(self).content() == swept(
                old(self).content(),
                index_keys(old(self).stamps().subrange(0, n as int)),
            ),
    {
        let removed = self.index.sweep(now, lifetime);
        let ghost m = self.store@;
        let ghost keys = index_keys(old(self).index@.subrange(0, removed@.len() as int));
        let mut j: usize = 0;
        assert(swept(m, keys.subrange(0, 0)) =~= m);
        while j < removed.len()
            invariant
                j <= removed@.len(),
                keys.len() == removed@.len(),
                forall|i: int| 0 <= i < removed@.len() ==> #[trigger] keys[i] == removed@[i]@,
                self.store@ == swept(m, keys.subrange(0, j as int)),
                self.index@ == old(self).index@.subrange(
                    removed@.len() as int,
                    old(self).index@.len() as int,
                ),
            decreases removed@.len() - j,
        {
            let ghost prefix = keys.subrange(0, j as int);
            let ghost c = keys[j as int];
            assert(keys.subrange(0, j + 1) =~= prefix.push(c));
            match split_composite(removed[j].as_str()) {
                Some((route, request)) => {
                    self.store.invalidate_entry(route.as_str(), request.as_str());
                    proof {
                        assert forall|k: EntryKey|
                            (is_plain_route(k.0) && composite_of(k.0, k.1) == c) <==> k == (
                                route@,
                                request@,
                            ) by {
                            if is_plain_route(k.0) && composite_of(k.0, k.1) == c {
                                split_of_composite(k.0, k.1, route@, request@);
                            }
                        }
                        lemma_push_contains(prefix, c);
                        assert(self.store@ =~= swept(m, prefix.push(c)));
                    }
                },
                None => {
                    proof {
                        assert forall|k: EntryKey| is_plain_route(k.0) implies composite_of(
                            k.0,
                            k.1,
                        ) != c by {
                            composite_splits(k.0, k.1);
                        }
                        lemma_push_contains(prefix, c);
                        assert(self.store@ =~= swept(m, prefix.push(c)));
                    }
                },
            }
            j = j + 1;
        }
        assert(keys.subrange(0, j as int) =~= keys);
        removed.len()
    }
}

/// What `add_cache_data` caches for a route free of the separator is what
/// `get_cache_data` then finds under the request identity of that request.
pub proof fn added_response_is_found(
    m: Map<EntryKey, Seq<char>>,
    ori_uri: Seq<char>,
    route: Seq<char>,
    caller: Seq<char>,
    method: Seq<char>,
    payload: Seq<char>,
)
    requires
        is_plain_route(route),
    ensures
        lookup(
            m.insert((route, request_identity_of(ori_uri, caller, method)), payload),
            route,
            request_identity_of(ori_uri, caller, method),
        ) == Some(payload),
{
}

/// A sweep takes the entry `(route, request)` out of the content exactly
/// when its index key is among the swept keys; otherwise the entry, or its
/// absence, stays as it was.
pub proof fn sweep_takes_exactly_swept_entries(
    m: Map<EntryKey, Seq<char>>,
    keys: Seq<Seq<char>>,
    route: Seq<char>,
    request: Seq<char>,
)
    requires
        is_plain_route(route),
    ensures
        keys.contains(composite_of(route, request)) ==> lookup(swept(m, keys), route, request)
            is None,
        !keys.contains(composite_of(route, request)) ==> lookup(swept(m, keys), route, request)
            == lookup(m, route, request),
{
}

/// An entry whose record in a well-formed index has not expired outlives a
/// sweep: only the expired records of the swept prefix take entries along.
pub proof fn live_entry_survives_sweep(
    m: Map<EntryKey, Seq<char>>,
    stamps: Seq<Stamped>,
    now: u64,
    lifetime: u64,
    n: int,
    route: Seq<char>,
    request: Seq<char>,
    i: int,
)
    requires
        keys_distinct(stamps),
        expired_prefix(stamps, now, lifetime, n),
        0 <= i < stamps.len(),
        stamps[i].0 == composite_of(route, request),
        !is_expired(stamps[i].1, now, lifetime),
    ensures
        lookup(swept(m, index_keys(stamps.subrange(0, n))), route, request) == lookup(
            m,
            route,
            request,
        ),
{
    let keys = index_keys(stamps.subrange(0, n));
    assert(i >= n);
    if keys.contains(composite_of(route, request)) {
        let j = choose|j: int| 0 <= j < keys.len() && keys[j] == composite_of(route, request);
        assert(stamps[j].0 == stamps[i].0);
    }
}

} // verus!
