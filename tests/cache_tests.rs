use response_cache::cache::ResponseCache;
use response_cache::expiry::ExpiryIndex;
use response_cache::keys::{composite_key, plain_route, request_identity, split_composite, SEPARATOR};
use response_cache::lifetime_millis;
use response_cache::middleware::{method_is_get, Admission, Cache, Followup, RouteInfo};
use response_cache::store::ContentStore;

fn users_route() -> RouteInfo {
    RouteInfo {
        name: "list-users".to_string(),
        is_cacheable: true,
        is_loggable: false,
        related_routes: Some(vec!["/users/count".to_string()]),
    }
}

#[test]
fn request_identity_joins_with_underscores() {
    assert_eq!(request_identity("/users?page=1", "u1", "GET"), "/users?page=1_u1_GET");
    assert_eq!(request_identity("", "", ""), "__");
}

#[test]
fn composite_key_round_trips() {
    let key = composite_key("/users", "/users?page=1_u1_GET");
    assert_eq!(key, format!("/users{}/users?page=1_u1_GET", SEPARATOR));
    let (route, request) = split_composite(&key).unwrap();
    assert_eq!(route, "/users");
    assert_eq!(request, "/users?page=1_u1_GET");
}

#[test]
fn split_uses_first_separator() {
    let key = format!("a{}b{}c", SEPARATOR, SEPARATOR);
    let (route, request) = split_composite(&key).unwrap();
    assert_eq!(route, "a");
    assert_eq!(request, format!("b{}c", SEPARATOR));
    assert!(split_composite("no-separator").is_none());
    assert!(split_composite("").is_none());
}

#[test]
fn plain_route_rejects_separator() {
    assert!(plain_route("/users"));
    assert!(plain_route(""));
    assert!(!plain_route(&format!("/us{}ers", SEPARATOR)));
}

#[test]
fn lifetime_in_milliseconds() {
    assert_eq!(lifetime_millis(0), 0);
    assert_eq!(lifetime_millis(5), 5000);
    assert_eq!(lifetime_millis(u64::MAX / 1000), (u64::MAX / 1000) * 1000);
    assert_eq!(lifetime_millis(u64::MAX), u64::MAX);
}

#[test]
fn method_get_is_recognised() {
    assert!(method_is_get("GET"));
    assert!(!method_is_get("POST"));
    assert!(!method_is_get("get"));
    assert!(!method_is_get("GETS"));
    assert!(!method_is_get(""));
}

#[test]
fn store_put_get_and_overwrite() {
    let mut s = ContentStore::new();
    assert_eq!(s.get("/a", "k"), None);
    s.put("/a", "k", "one".to_string());
    assert_eq!(s.get("/a", "k"), Some("one".to_string()));
    s.put("/a", "k", "two".to_string());
    assert_eq!(s.get("/a", "k"), Some("two".to_string()));
    assert_eq!(s.get("/a", "other"), None);
    assert_eq!(s.get("/b", "k"), None);
}

#[test]
fn store_invalidate_route_and_entry() {
    let mut s = ContentStore::new();
    s.put("/a", "k1", "1".to_string());
    s.put("/a", "k2", "2".to_string());
    s.put("/b", "k1", "3".to_string());
    s.invalidate_entry("/a", "k1");
    assert_eq!(s.get("/a", "k1"), None);
    assert_eq!(s.get("/a", "k2"), Some("2".to_string()));
    s.invalidate_route("/a");
    assert_eq!(s.get("/a", "k2"), None);
    assert_eq!(s.get("/b", "k1"), Some("3".to_string()));
    s.invalidate_routes(&vec!["/b".to_string(), "/c".to_string()]);
    assert_eq!(s.get("/b", "k1"), None);
}

#[test]
fn invalidating_absent_targets_is_a_no_op() {
    let mut s = ContentStore::new();
    s.put("/a", "k", "v".to_string());
    s.invalidate_entry("/missing", "k");
    s.invalidate_entry("/a", "missing");
    s.invalidate_route("/missing");
    s.invalidate(&"/missing".to_string(), None, None);
    s.invalidate("/a", None, Some("missing"));
    s.invalidate("/a", None, Some("k"));
    s.invalidate("/a", None, Some("k"));
    assert_eq!(s.get("/a", "k"), None);
    s.put("/a", "k", "v".to_string());
    s.invalidate("/b", Some(vec!["/c".to_string()]), None);
    assert_eq!(s.get("/a", "k"), Some("v".to_string()));
}

#[test]
fn invalidate_cascades_to_related_routes() {
    let mut s = ContentStore::new();
    s.put("/r", "k", "r".to_string());
    s.put("/a", "k", "a".to_string());
    s.put("/b", "k", "b".to_string());
    s.put("/c", "k", "c".to_string());
    s.invalidate("/r", Some(vec!["/a".to_string(), "/b".to_string()]), None);
    assert_eq!(s.get("/r", "k"), None);
    assert_eq!(s.get("/a", "k"), None);
    assert_eq!(s.get("/b", "k"), None);
    assert_eq!(s.get("/c", "k"), Some("c".to_string()));
}

#[test]
fn invalidate_with_entry_key_removes_only_that_entry() {
    let mut s = ContentStore::new();
    s.put("/r", "k1", "1".to_string());
    s.put("/r", "k2", "2".to_string());
    s.put("/a", "k1", "a".to_string());
    s.invalidate("/r", Some(vec!["/a".to_string()]), Some("k1"));
    assert_eq!(s.get("/r", "k1"), None);
    assert_eq!(s.get("/r", "k2"), Some("2".to_string()));
    assert_eq!(s.get("/a", "k1"), Some("a".to_string()));
}

#[test]
fn sweep_stops_at_first_live_entry() {
    let mut index = ExpiryIndex::new();
    index.record("k1".to_string(), 0);
    index.record("k2".to_string(), 10);
    index.record("k3".to_string(), 100);
    index.record("k4".to_string(), 20);
    let removed = index.sweep(150, 60);
    assert_eq!(removed, vec!["k1".to_string(), "k2".to_string()]);
    assert_eq!(index.len(), 2);
    assert!(index.sweep(150, 60).is_empty());
    let removed = index.sweep(1000, 60);
    assert_eq!(removed, vec!["k3".to_string(), "k4".to_string()]);
    assert_eq!(index.len(), 0);
}

#[test]
fn sweep_keeps_entries_not_older_than_lifetime() {
    let mut index = ExpiryIndex::new();
    index.record("k".to_string(), 100);
    assert!(index.sweep(160, 60).is_empty());
    assert!(index.sweep(50, 0).is_empty());
    assert_eq!(index.sweep(161, 60), vec!["k".to_string()]);
}

#[test]
fn record_again_moves_key_to_the_end() {
    let mut index = ExpiryIndex::new();
    index.record("k1".to_string(), 0);
    index.record("k2".to_string(), 5);
    index.record("k1".to_string(), 200);
    assert_eq!(index.len(), 2);
    assert_eq!(index.sweep(150, 60), vec!["k2".to_string()]);
    assert_eq!(index.len(), 1);
}

#[test]
fn cache_round_trip_until_sweep() {
    let mut c = ResponseCache::new();
    c.add_cache_data("/users?page=1", "/users", "u1", "GET", "[1]".to_string(), 1000);
    assert_eq!(c.get_cache_data("/users", "/users?page=1_u1_GET"), Some("[1]".to_string()));
    assert_eq!(c.sweep_expired(1500, 600), 0);
    assert_eq!(c.get_cache_data("/users", "/users?page=1_u1_GET"), Some("[1]".to_string()));
    assert_eq!(c.sweep_expired(1601, 600), 1);
    assert_eq!(c.get_cache_data("/users", "/users?page=1_u1_GET"), None);
}

#[test]
fn cache_round_trip_until_invalidation() {
    let mut c = ResponseCache::new();
    c.add_cache_data("/x", "/x", "u", "GET", "p".to_string(), 0);
    c.remove_cache_data("/y", None, None);
    assert_eq!(c.get_cache_data("/x", "/x_u_GET"), Some("p".to_string()));
    c.remove_cache_data("/x", None, Some("/x_u_GET"));
    assert_eq!(c.get_cache_data("/x", "/x_u_GET"), None);
    assert_eq!(c.sweep_expired(u64::MAX, 0), 1);
}

#[test]
fn cache_skips_route_with_separator() {
    let mut c = ResponseCache::new();
    let route = format!("/a{}b", SEPARATOR);
    c.add_cache_data("/a", &route, "u", "GET", "p".to_string(), 0);
    assert_eq!(c.get_cache_data(&route, "/a_u_GET"), None);
    assert_eq!(c.sweep_expired(u64::MAX, 0), 0);
}

#[test]
fn non_get_never_reads_the_cache() {
    let mut c = ResponseCache::new();
    c.add_cache_data("/users", "/users", "u1", "POST", "cached".to_string(), 0);
    let ep = Cache.transform(());
    let a = ep.before_handler(&c, "/users", "/users", "POST", "u1");
    assert!(matches!(a, Admission::CallHandler));
    let f = ep.after_success(&users_route(), "/users", "/users", "POST", "u1", None);
    match f {
        Followup::Invalidate { route, related } => {
            assert_eq!(route, "/users");
            assert_eq!(related, Some(vec!["/users/count".to_string()]));
        }
        _ => panic!("a change must invalidate"),
    }
}

#[test]
fn get_of_uncached_route_stores_nothing() {
    let ep = Cache.transform(0u8);
    assert_eq!(ep.ep, 0u8);
    let info = RouteInfo::uncached();
    assert_eq!(info.name, "");
    assert!(!info.is_cacheable && !info.is_loggable && info.related_routes.is_none());
    let f = ep.after_success(&info, "/x", "/x", "GET", "u", Some("body".to_string()));
    assert!(matches!(f, Followup::Nothing));
}

#[test]
fn get_without_body_caches_empty_payload() {
    let mut c = ResponseCache::new();
    let ep = Cache.transform(());
    let f = ep.after_success(&users_route(), "/users", "/users", "GET", "u1", None);
    c.apply(f, 0);
    assert_eq!(c.get_cache_data("/users", "/users_u1_GET"), Some(String::new()));
}

#[test]
fn list_users_scenario() {
    let mut c = ResponseCache::new();
    let ep = Cache.transform(());
    let info = users_route();
    c.add_cache_data("/users/count", "/users/count", "u1", "GET", "3".to_string(), 0);

    let first = ep.before_handler(&c, "/users", "/users?page=1", "GET", "u1");
    assert!(matches!(first, Admission::CallHandler));
    let work = ep.after_success(&info, "/users", "/users?page=1", "GET", "u1", Some("[...]".to_string()));
    c.apply(work, 10);
    assert_eq!(c.get_cache_data("/users", "/users?page=1_u1_GET"), Some("[...]".to_string()));

    match ep.before_handler(&c, "/users", "/users?page=1", "GET", "u1") {
        Admission::Serve(payload) => assert_eq!(payload, "[...]"),
        Admission::CallHandler => panic!("second GET must be served from the cache"),
    }

    assert!(matches!(ep.before_handler(&c, "/users", "/users", "POST", "u1"), Admission::CallHandler));
    let work = ep.after_success(&info, "/users", "/users", "POST", "u1", None);
    c.apply(work, 20);
    assert_eq!(c.get_cache_data("/users", "/users?page=1_u1_GET"), None);
    assert_eq!(c.get_cache_data("/users/count", "/users/count_u1_GET"), None);

    let again = ep.before_handler(&c, "/users", "/users?page=1", "GET", "u1");
    assert!(matches!(again, Admission::CallHandler));
}

#[test]
fn other_callers_do_not_share_entries() {
    let mut c = ResponseCache::new();
    let ep = Cache.transform(());
    c.add_cache_data("/users?page=1", "/users", "u1", "GET", "mine".to_string(), 0);
    assert!(matches!(ep.before_handler(&c, "/users", "/users?page=1", "GET", "u2"), Admission::CallHandler));
    assert!(matches!(ep.before_handler(&c, "/users", "/users?page=2", "GET", "u1"), Admission::CallHandler));
}

#[test]
fn request_identity_escapes_underscores() {
    let first = request_identity("a_b", "c", "GET");
    let second = request_identity("a", "b_c", "GET");
    assert_eq!(first, "a\\_b_c_GET");
    assert_eq!(second, "a_b\\_c_GET");
    assert_ne!(first, second);
    assert_eq!(request_identity("a\\", "b", "GET"), "a\\\\_b_GET");
    assert_ne!(request_identity("a\\", "_b", "GET"), request_identity("a\\_", "b", "GET"));
}

#[test]
fn callers_with_underscores_do_not_collide() {
    let mut c = ResponseCache::new();
    c.add_cache_data("a_b", "/r", "c", "GET", "first".to_string(), 0);
    c.add_cache_data("a", "/r", "b_c", "GET", "second".to_string(), 1);
    let ep = Cache.transform(());
    match ep.before_handler(&c, "/r", "a_b", "GET", "c") {
        Admission::Serve(p) => assert_eq!(p, "first"),
        Admission::CallHandler => panic!("first entry lost"),
    }
    match ep.before_handler(&c, "/r", "a", "GET", "b_c") {
        Admission::Serve(p) => assert_eq!(p, "second"),
        Admission::CallHandler => panic!("second entry lost"),
    }
}
