use vstd::prelude::*;
use vstd::string::*;

use crate::cache::ResponseCache;
use crate::expiry::other_key;
use crate::keys::{composite_of, is_plain_route, request_identity, request_identity_of};
use crate::store::{after_invalidation, lookup, opt_vec_view, views_of};

verus! {

/// What the route metadata registry says of a route.
pub struct RouteInfo {
    pub name: String,
    pub is_cacheable: bool,
    pub is_loggable: bool,
    pub related_routes: Option<Vec<String>>,
}

impl RouteInfo {
    /// The metadata of a route the registry does not know: not cached, not
    /// logged, with no related routes.
    pub fn uncached() -> (r: RouteInfo)
        ensures
            r.name@ == Seq::<char>::empty(),
            !r.is_cacheable,
            !r.is_loggable,
            r.related_routes is None,
    {
        RouteInfo { name: String::new(), is_cacheable: false, is_loggable: false, related_routes: None }
    }
}

/// How a request is answered before the handler chain runs.
pub enum Admission {
    /// Answer with this cached payload; the handler is not called.
    Serve(String),
    /// Call the handler chain.
    CallHandler,
}

/// The detached work that follows a successful call of the handler chain.
pub enum Followup {
    Nothing,
    /// Invalidate `route` and its related routes.
    Invalidate { route: String, related: Option<Vec<String>> },
    /// Cache `payload` as the response of the request.
    Store { ori_uri: String, route: String, caller: String, method: String, payload: String },
}

/// The one method whose responses are cached; every other one mutates.
pub open spec fn is_get(method: Seq<char>) -> bool {
    method == seq!['G', 'E', 'T']
}

/// Tells whether `method` is `GET`.
pub fn method_is_get(method: &str) -> (r: bool)
    ensures
        r == is_get(method@),
{
    if method.unicode_len() != 3 {
        return false;
    }
    let r = method.get_char(0) == 'G' && method.get_char(1) == 'E' && method.get_char(2) == 'T';
    proof {
        if r {
            assert(method@ =~= seq!['G', 'E', 'T']);
        }
    }
    r
}

fn copy_routes(routes: &Option<Vec<String>>) -> (r: Option<Vec<String>>)
    ensures
        opt_vec_view(r) == opt_vec_view(*routes),
{
    match routes {
        None => None,
        Some(v) => {
            let mut out: Vec<String> = Vec::new();
            let mut i: usize = 0;
            while i < v.len()
                invariant
                    i <= v@.len(),
                    views_of(out@) == views_of(v@.subrange(0, i as int)),
                decreases v@.len() - i,
            {
                let ghost prev = out@;
                out.push(v[i].clone());
                assert(v@.subrange(0, i + 1) =~= v@.subrange(0, i as int).push(v@[i as int]));
                assert(views_of(out@) =~= views_of(prev).push(v@[i as int]@));
                assert(views_of(v@.subrange(0, i + 1)) =~= views_of(v@.subrange(0, i as int)).push(
                    v@[i as int]@,
                ));
                i = i + 1;
            }
            assert(v@.subrange(0, i as int) =~= v@);
            Some(out)
        },
    }
}

/// The caching middleware: it turns an endpoint into a caching one.
pub struct Cache;

impl Cache {
    /// Wraps the endpoint `ep`.
    pub fn transform<E>(&self, ep: E) -> (r: CacheEndpoint<E>)
        ensures
            r.ep == ep,
    {
        CacheEndpoint { ep }
    }
}

/// An endpoint behind the caching middleware.
pub struct CacheEndpoint<E> {
    pub ep: E,
}

impl<E> CacheEndpoint<E> {
    /// Decides how to answer a request of `caller` with `method` on
    /// `ori_uri`, whose route identity is `path`. A request other than `GET`
    /// always goes to the handler and reads nothing from the cache; a `GET`
    /// is served from the cache where it holds the request, and goes to the
    /// handler otherwise.
    pub fn before_handler(
        &self,
        cache: &ResponseCache,
        path: &str,
        ori_uri: &str,
        method: &str,
        caller: &str,
    ) -> (r: Admission)
        ensures
            !is_get(method@) ==> r is CallHandler,
            is_get(method@) ==> match lookup(
                cache.content(),
                path@,
                request_identity_of(ori_uri@, caller@, method@),
            ) {
                Some(p) => r matches Admission::Serve(q) && q@ == p,
                None => r is CallHandler,
            },
    {
        if !method_is_get(method) {
            return Admission::CallHandler;
        }
        let data_key = request_identity(ori_uri, caller, method);
        match cache.get_cache_data(path, data_key.as_str()) {
            Some(payload) => Admission::Serve(payload),
            None => Admission::CallHandler,
        }
    }

    /// The detached work after the handler chain answered the request
    /// successfully: a change invalidates its route and the related routes; a
    /// `GET` of a cacheable route caches the serialized body (empty where the
    /// response carries none); anything else needs nothing.
    pub fn after_success(
        &self,
        route: &RouteInfo,
        path: &str,
        ori_uri: &str,
        method: &str,
        caller: &str,
        body: Option<String>,
    ) -> (r: Followup)
        ensures
            !is_get(method@) ==> (r matches Followup::Invalidate { route: p, related }
                && p@ == path@ && opt_vec_view(related) == opt_vec_view(route.related_routes)),
            is_get(method@) && route.is_cacheable ==> (r matches Followup::Store {
                ori_uri: u,
                route: p,
                caller: c,
                method: m,
                payload,
            } && u@ == ori_uri@ && p@ == path@ && c@ == caller@ && m@ == method@ && payload@ == (
            match body {
                Some(b) => b@,
                None => Seq::<char>::empty(),
            })),
            is_get(method@) && !route.is_cacheable ==> r is Nothing,
    {
        if !method_is_get(method) {
            return Followup::Invalidate {
                route: path.to_owned(),
                related: copy_routes(&route.related_routes),
            };
        }
        if !route.is_cacheable {
            return Followup::Nothing;
        }
        let payload = match body {
            Some(b) => b,
            None => String::new(),
        };
        Followup::Store {
            ori_uri: ori_uri.to_owned(),
            route: path.to_owned(),
            caller: caller.to_owned(),
            method: method.to_owned(),
            payload,
        }
    }
}

impl ResponseCache {
    /// Carries out the detached work `work` at `now`.
    pub fn apply(&mut self, work: Followup, now: u64)
        ensures
            old(self).wf() ==> final(self).wf(),
            match work {
                Followup::Nothing => final(self).content() == old(self).content()
                    && final(self).stamps() == old(self).stamps(),
                Followup::Invalidate { route, related } => final(self).content()
                    == after_invalidation(old(self).content(), route@, opt_vec_view(related), None)
                    && final(self).stamps() == old(self).stamps(),
                Followup::Store { ori_uri, route, caller, method, payload } => {
                    let request = request_identity_of(ori_uri@, caller@, method@);
                    if is_plain_route(route@) {
                        &&& final(self).content() == old(self).content().insert(
                            (route@, request),
                            payload@,
                        )
                        &&& final(self).stamps() == old(self).stamps().filter(
                            other_key(composite_of(route@, request)),
                        ).push((composite_of(route@, request), now))
                    } else {
                        &&& final(self).content() == old(self).content()
                        &&& final(self).stamps() == old(self).stamps()
                    }
                },
            },
    {
        match work {
            Followup::Nothing => {},
            Followup::Invalidate { route, related } => {
                self.remove_cache_data(route.as_str(), related, None);
            },
            Followup::Store { ori_uri, route, caller, method, payload } => {
                self.add_cache_data(
                    ori_uri.as_str(),
                    route.as_str(),
                    caller.as_str(),
                    method.as_str(),
                    payload,
                    now,
                );
            },
        }
    }
}

} // verus!
