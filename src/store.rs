use vstd::prelude::*;

verus! {

/// A cached response as the content store holds it.
pub struct StoredResponse {
    pub route: String,
    pub request: String,
    pub payload: String,
}

/// The key of a cached response: route identity and request identity.
pub type EntryKey = (Seq<char>, Seq<char>);

/// The content of a sequence of stored responses: a later one overwrites an
/// earlier one under the same key.
pub open spec fn map_of(s: Seq<StoredResponse>) -> Map<EntryKey, Seq<char>>
    decreases s.len(),
{
    if s.len() == 0 {
        Map::empty()
    } else {
        map_of(s.drop_last()).insert((s.last().route@, s.last().request@), s.last().payload@)
    }
}

/// `m` without the keys that `gone` picks.
pub open spec fn dropping(m: Map<EntryKey, Seq<char>>, gone: spec_fn(EntryKey) -> bool) -> Map<
    EntryKey,
    Seq<char>,
> {
    Map::new(|k: EntryKey| m.contains_key(k) && !gone(k), |k: EntryKey| m[k])
}

/// `m` without any entry of `route`.
pub open spec fn without_route(m: Map<EntryKey, Seq<char>>, route: Seq<char>) -> Map<
    EntryKey,
    Seq<char>,
> {
    Map::new(|k: EntryKey| m.contains_key(k) && k.0 != route, |k: EntryKey| m[k])
}

/// `m` without any entry of the routes listed in `routes`.
pub open spec fn without_routes(m: Map<EntryKey, Seq<char>>, routes: Seq<Seq<char>>) -> Map<
    EntryKey,
    Seq<char>,
> {
    Map::new(|k: EntryKey| m.contains_key(k) && !routes.contains(k.0), |k: EntryKey| m[k])
}

/// What a lookup of `(route, request)` in `m` finds.
pub open spec fn lookup(m: Map<EntryKey, Seq<char>>, route: Seq<char>, request: Seq<char>) -> Option<
    Seq<char>,
> {
    if m.contains_key((route, request)) {
        Some(m[(route, request)])
    } else {
        None
    }
}

/// What invalidation leaves of `m`: one entry where an entry key is given;
/// otherwise the whole route together with every related route.
pub open spec fn after_invalidation(
    m: Map<EntryKey, Seq<char>>,
    route: Seq<char>,
    related: Option<Seq<Seq<char>>>,
    entry: Option<Seq<char>>,
) -> Map<EntryKey, Seq<char>> {
    match entry {
        Some(request) => m.remove((route, request)),
        None => match related {
            Some(routes) => without_routes(m, routes.push(route)),
            None => without_route(m, route),
        },
    }
}

/// The character sequences of a sequence of strings.
pub open spec fn views_of(v: Seq<String>) -> Seq<Seq<char>> {
    v.map_values(|s: String| s@)
}

/// The characters of an optional string.
pub open spec fn opt_view(o: Option<String>) -> Option<Seq<char>> {
    match o {
        Some(s) => Some(s@),
        None => None,
    }
}

/// The character sequences of an optional list of strings.
pub open spec fn opt_vec_view(o: Option<Vec<String>>) -> Option<Seq<Seq<char>>> {
    match o {
        Some(v) => Some(views_of(v@)),
        None => None,
    }
}

/// The characters of an optional string slice.
pub open spec fn opt_str_view(o: Option<&str>) -> Option<Seq<char>> {
    match o {
        Some(s) => Some(s@),
        None => None,
    }
}

spec fn targets(route: Seq<char>, request: Option<Seq<char>>) -> spec_fn(EntryKey) -> bool {
    |k: EntryKey| k.0 == route && (request is None || k.1 == request->0)
}

spec fn kept_by(gone: spec_fn(EntryKey) -> bool) -> spec_fn(StoredResponse) -> bool {
    |e: StoredResponse| !gone((e.route@, e.request@))
}

proof fn lemma_map_of_filter(s: Seq<StoredResponse>, gone: spec_fn(EntryKey) -> bool)
    ensures
        map_of(s.filter(kept_by(gone))) == dropping(map_of(s), gone),
    decreases s.len(),
{
    if s.len() > 0 {
        lemma_map_of_filter(s.drop_last(), gone);
        reveal(Seq::filter);
        let sub = s.drop_last().filter(kept_by(gone));
        if kept_by(gone)(s.last()) {
            assert(s.filter(kept_by(gone)) == sub.push(s.last()));
            assert(sub.push(s.last()).drop_last() =~= sub);
        } else {
            assert(s.filter(kept_by(gone)) == sub);
        }
        assert(map_of(s.filter(kept_by(gone))) =~= dropping(map_of(s), gone));
    } else {
        assert(map_of(s.filter(kept_by(gone))) =~= dropping(map_of(s), gone));
    }
}

/// The content store: for each route identity, the cached responses keyed by
/// request identity. Its view is the map from (route, request) to payload; a
/// route without entries is the same as an absent route.
pub struct ContentStore {
    entries: Vec<StoredResponse>,
}

impl View for ContentStore {
    type V = Map<EntryKey, Seq<char>>;

    closed spec fn view(&self) -> Map<EntryKey, Seq<char>> {
        map_of(self.entries@)
    }
}

impl ContentStore {
    /// An empty store.
    pub fn new() -> (r: ContentStore)
        ensures
            r@ == Map::<EntryKey, Seq<char>>::empty(),
    {
        ContentStore { entries: Vec::new() }
    }

    /// Removes the entries of `route`; of one request identity only, where
    /// `request` is given.
    fn remove_matching(&mut self, route: &String, request: Option<&String>)
        ensures
            final(self)@ == dropping(
                old(self)@,
                targets(
                    route@,
                    match request {
                        Some(q) => Some(q@),
                        None => None,
                    },
                ),
            ),
    {
        let ghost q: Option<Seq<char>> = match request {
            Some(q) => Some(q@),
            None => None,
        };
        let ghost pred = kept_by(targets(route@, q));
        let mut kept: Vec<StoredResponse> = Vec::new();
        let n = self.entries.len();
        let mut i: usize = 0;
        while i < n
            invariant
                n == self.entries@.len(),
                i <= n,
                q == match request {
                    Some(q) => Some(q@),
                    None => None::<Seq<char>>,
                },
                pred == kept_by(targets(route@, q)),
                kept@ == self.entries@.subrange(0, i as int).filter(pred),
            decreases n - i,
        {
            let e = &self.entries[i];
            let hit = e.route == *route && match request {
                None => true,
                Some(r) => e.request == *r,
            };
            proof {
                assert(self.entries@.subrange(0, i + 1).drop_last() =~= self.entries@.subrange(
                    0,
                    i as int,
                ));
                assert(self.entries@.subrange(0, i + 1).last() == *e);
                assert(hit == !pred(*e));
            }
            let ghost prev = kept@;
            if !hit {
                kept.push(
                    StoredResponse {
                        route: e.route.clone(),
                        request: e.request.clone(),
                        payload: e.payload.clone(),
                    },
                );
                assert(kept@ =~= prev.push(*e));
            }
            proof {
                reveal(Seq::filter);
                let sub = self.entries@.subrange(0, i + 1);
                if pred(*e) {
                    assert(sub.filter(pred) == sub.drop_last().filter(pred).push(sub.last()));
                } else {
                    assert(sub.filter(pred) == sub.drop_last().filter(pred));
                }
            }
            i = i + 1;
        }
        proof {
            assert(self.entries@.subrange(0, n as int) =~= self.entries@);
            lemma_map_of_filter(self.entries@, targets(route@, q));
        }
        self.entries = kept;
    }

    /// Stores `payload` under `(route, request)`, overwriting what was there.
    pub fn put(&mut self, route: &str, request: &str, payload: String)
        ensures
            final(self)@ == old(self)@.insert((route@, request@), payload@),
    {
        let route = route.to_owned();
        let request = request.to_owned();
        self.remove_matching(&route, Some(&request));
        let ghost before = self.entries@;
        let ghost k = (route@, request@);
        self.entries.push(StoredResponse { route, request, payload });
        proof {
            assert(self.entries@.drop_last() =~= before);
            assert(map_of(self.entries@) == map_of(before).insert(k, payload@));
            assert(self@ =~= old(self)@.insert(k, payload@));
        }
    }

    /// A copy of the payload stored under `(route, request)`, if any.
    pub fn get(&self, route: &str, request: &str) -> (r: Option<String>)
        ensures
            opt_view(r) == lookup(self@, route@, request@),
    {
        let route_s = route.to_owned();
        let request_s = request.to_owned();
        let ghost k = (route@, request@);
        let mut i: usize = self.entries.len();
        assert(self.entries@.subrange(0, i as int) =~= self.entries@);
        while i > 0
            invariant
                i <= self.entries@.len(),
                k == (route_s@, request_s@),
                k == (route@, request@),
                map_of(self.entries@.subrange(0, i as int)).contains_key(k)
                    == map_of(self.entries@).contains_key(k),
                map_of(self.entries@).contains_key(k) ==> map_of(
                    self.entries@.subrange(0, i as int),
                )[k] == map_of(self.entries@)[k],
            decreases i,
        {
            let e = &self.entries[i - 1];
            proof {
                assert(self.entries@.subrange(0, i as int).drop_last() =~= self.entries@.subrange(
                    0,
                    i - 1,
                ));
            }
            assert(self.entries@.subrange(0, i as int).last() == *e);
            if e.route == route_s && e.request == request_s {
                assert(map_of(self.entries@.subrange(0, i as int)) == map_of(
                    self.entries@.subrange(0, i - 1),
                ).insert(k, e.payload@));
                let found = e.payload.clone();
                return Some(found);
            }
            i = i - 1;
        }
        None
    }

    /// Removes every entry of `route`.
    pub fn invalidate_route(&mut self, route: &str)
        ensures
            final(self)@ == without_route(old(self)@, route@),
    {
        let route = route.to_owned();
        self.remove_matching(&route, None);
        assert(self@ =~= without_route(old(self)@, route@));
    }

    /// Removes every entry of each route listed.
    pub fn invalidate_routes(&mut self, routes: &Vec<String>)
        ensures
            final(self)@ == without_routes(old(self)@, views_of(routes@)),
    {
        let mut i: usize = 0;
        while i < routes.len()
            invariant
                i <= routes@.len(),
                self@ == without_routes(old(self)@, views_of(routes@.subrange(0, i as int))),
            decreases routes@.len() - i,
        {
            self.invalidate_route(routes[i].as_str());
            proof {
                let prefix = views_of(routes@.subrange(0, i as int));
                let next = views_of(routes@.subrange(0, i + 1));
                assert(next =~= prefix.push(routes@[i as int]@));
                lemma_push_contains(prefix, routes@[i as int]@);
                assert(self@ =~= without_routes(old(self)@, next));
            }
            i = i + 1;
        }
        assert(routes@.subrange(0, i as int) =~= routes@);
    }

    /// Removes the entry `(route, request)`; nothing happens where there is none.
    pub fn invalidate_entry(&mut self, route: &str, request: &str)
        ensures
            final(self)@ == old(self)@.remove((route@, request@)),
    {
        let route = route.to_owned();
        let request = request.to_owned();
        self.remove_matching(&route, Some(&request));
        assert(self@ =~= old(self)@.remove((route@, request@)));
    }
    /// Invalidates after a change: with `entry`, only the entry
    /// `(route, entry)`; without it, every entry of `route` and of each route
    /// in `related`. A target that holds nothing is left as it is.
    pub fn invalidate(&mut self, route: &str, related: Option<Vec<String>>, entry: Option<&str>)
        ensures
            final(self)@ == after_invalidation(
                old(self)@,
                route@,
                opt_vec_view(related),
                opt_str_view(entry),
            ),
    {
        match entry {
            Some(request) => self.invalidate_entry(route, request),
            None => match related {
                Some(routes) => {
                    self.invalidate_routes(&routes);
                    self.invalidate_route(route);
                    proof {
                        let rs = views_of(routes@);
                        lemma_push_contains(rs, route@);
                        assert(self@ =~= without_routes(old(self)@, rs.push(route@)));
                    }
                },
                None => self.invalidate_route(route),
            },
        }
    }
}

/// `c` is in `s.push(c)`, and so is everything in `s`, and nothing else.
pub(crate) proof fn lemma_push_contains(s: Seq<Seq<char>>, c: Seq<char>)
    ensures
        forall|x: Seq<char>| #[trigger] s.push(c).contains(x) <==> (s.contains(x) || x == c),
{
    assert forall|x: Seq<char>| #[trigger] s.push(c).contains(x) <==> (s.contains(x) || x == c) by {
        if s.push(c).contains(x) {
            let j = choose|j: int| 0 <= j < s.len() + 1 && s.push(c)[j] == x;
            if j < s.len() {
                assert(s[j] == x);
            }
        }
        if s.contains(x) {
            let j = choose|j: int| 0 <= j < s.len() && s[j] == x;
            assert(s.push(c)[j] == x);
        }
        if x == c {
            assert(s.push(c)[s.len() as int] == x);
        }
    }
}

/// Whether the invalidation `(route, related, entry)` aims at `key`.
pub open spec fn targets_entry(
    route: Seq<char>,
    related: Option<Seq<Seq<char>>>,
    entry: Option<Seq<char>>,
    key: EntryKey,
) -> bool {
    match entry {
        Some(request) => key == (route, request),
        None => match related {
            Some(routes) => key.0 == route || routes.contains(key.0),
            None => key.0 == route,
        },
    }
}

proof fn lemma_after_invalidation(
    m: Map<EntryKey, Seq<char>>,
    route: Seq<char>,
    related: Option<Seq<Seq<char>>>,
    entry: Option<Seq<char>>,
)
    ensures
        forall|k: EntryKey| #[trigger]
            after_invalidation(m, route, related, entry).contains_key(k) <==> (m.contains_key(k)
                && !targets_entry(route, related, entry, k)),
        forall|k: EntryKey| #[trigger]
            after_invalidation(m, route, related, entry).contains_key(k) ==> after_invalidation(
                m,
                route,
                related,
                entry,
            )[k] == m[k],
{
    assert forall|k: EntryKey| #[trigger]
        after_invalidation(m, route, related, entry).contains_key(k) <==> (m.contains_key(k)
            && !targets_entry(route, related, entry, k)) by {
        if entry is None && related is Some {
            lemma_push_contains(related->0, route);
        }
    }
}

/// Invalidation is idempotent: invalidating again what was just invalidated
/// changes nothing, and an invalidation whose targets hold no entry leaves
/// the store as it is.
pub proof fn invalidation_is_idempotent(
    m: Map<EntryKey, Seq<char>>,
    route: Seq<char>,
    related: Option<Seq<Seq<char>>>,
    entry: Option<Seq<char>>,
)
    ensures
        after_invalidation(after_invalidation(m, route, related, entry), route, related, entry)
            == after_invalidation(m, route, related, entry),
        (forall|k: EntryKey| #[trigger] m.contains_key(k) ==> !targets_entry(route, related, entry, k))
            ==> after_invalidation(m, route, related, entry) == m,
{
    let once = after_invalidation(m, route, related, entry);
    lemma_after_invalidation(m, route, related, entry);
    lemma_after_invalidation(once, route, related, entry);
    assert(after_invalidation(once, route, related, entry) =~= once);
    if forall|k: EntryKey| #[trigger] m.contains_key(k) ==> !targets_entry(route, related, entry, k) {
        assert(once =~= m);
    }
}

/// What is put can be fetched back, and stays so through every invalidation
/// that does not aim at it; an invalidation that aims at it removes it.
pub proof fn put_then_get(
    m: Map<EntryKey, Seq<char>>,
    route: Seq<char>,
    request: Seq<char>,
    payload: Seq<char>,
    inv_route: Seq<char>,
    related: Option<Seq<Seq<char>>>,
    entry: Option<Seq<char>>,
)
    ensures
        lookup(m.insert((route, request), payload), route, request) == Some(payload),
        !targets_entry(inv_route, related, entry, (route, request)) ==> lookup(
            after_invalidation(m.insert((route, request), payload), inv_route, related, entry),
            route,
            request,
        ) == Some(payload),
        targets_entry(inv_route, related, entry, (route, request)) ==> lookup(
            after_invalidation(m.insert((route, request), payload), inv_route, related, entry),
            route,
            request,
        ) is None,
{
    lemma_after_invalidation(m.insert((route, request), payload), inv_route, related, entry);
}

/// A change to `route` whose related routes are `related` clears every entry
/// of `route` and of each related route, and keeps every other entry.
pub proof fn mutation_cascades(
    m: Map<EntryKey, Seq<char>>,
    route: Seq<char>,
    related: Seq<Seq<char>>,
)
    ensures
        forall|k: EntryKey|
            (k.0 == route || related.contains(k.0)) ==> !#[trigger] after_invalidation(
                m,
                route,
                Some(related),
                None,
            ).contains_key(k),
        forall|k: EntryKey|
            m.contains_key(k) && k.0 != route && !related.contains(k.0) ==> #[trigger] lookup(
                after_invalidation(m, route, Some(related), None),
                k.0,
                k.1,
            ) == Some(m[k]),
{
    lemma_after_invalidation(m, route, Some(related), None);
}

} // verus!
