use vstd::prelude::*;
use vstd::string::*;

verus! {

/// The character that joins a route identity and a request identity into the
/// single key of the expiry index. Route identities never contain it.
pub const SEPARATOR: char = '\u{2605}';

/// The character that escapes an underscore, or itself, inside a part of a
/// request identity.
pub const ESCAPE: char = '\\';

/// One character of a part of a request identity, escaped.
pub open spec fn escaped_char(c: char) -> Seq<char> {
    if c == '_' || c == ESCAPE {
        seq![ESCAPE, c]
    } else {
        seq![c]
    }
}

/// A part of a request identity with each underscore and each escape
/// character preceded by the escape character.
pub open spec fn escaped(s: Seq<char>) -> Seq<char>
    decreases s.len(),
{
    if s.len() == 0 {
        Seq::empty()
    } else {
        escaped_char(s[0]) + escaped(s.drop_first())
    }
}

/// The identity of one cacheable request: original URI, caller and method,
/// each escaped, joined by underscores.
pub open spec fn request_identity_of(
    ori_uri: Seq<char>,
    caller: Seq<char>,
    method: Seq<char>,
) -> Seq<char> {
    escaped(ori_uri) + seq!['_'] + escaped(caller) + seq!['_'] + escaped(method)
}

/// The parts of `t` read from the front, `cur` being the part read so far:
/// an unescaped underscore ends a part, the escape character takes the next
/// character as it is.
pub open spec fn parts_from(t: Seq<char>, cur: Seq<char>) -> Seq<Seq<char>>
    decreases t.len(),
{
    if t.len() == 0 {
        seq![cur]
    } else if t[0] == ESCAPE && t.len() >= 2 {
        parts_from(t.subrange(2, t.len() as int), cur.push(t[1]))
    } else if t[0] == '_' {
        seq![cur] + parts_from(t.drop_first(), Seq::empty())
    } else {
        parts_from(t.drop_first(), cur.push(t[0]))
    }
}

proof fn lemma_escaped_append(x: Seq<char>, y: Seq<char>)
    ensures
        escaped(x + y) == escaped(x) + escaped(y),
    decreases x.len(),
{
    if x.len() == 0 {
        assert(x + y =~= y);
        assert(escaped(x) + escaped(y) =~= escaped(y));
    } else {
        lemma_escaped_append(x.drop_first(), y);
        assert((x + y).drop_first() =~= x.drop_first() + y);
        assert((x + y)[0] == x[0]);
        assert(escaped(x + y) =~= escaped(x) + escaped(y));
    }
}

proof fn lemma_parts_of_escaped(a: Seq<char>, rest: Seq<char>, cur: Seq<char>)
    ensures
        parts_from(escaped(a) + rest, cur) == parts_from(rest, cur + a),
    decreases a.len(),
{
    if a.len() == 0 {
        assert(escaped(a) + rest =~= rest);
        assert(cur + a =~= cur);
    } else {
        let c = a[0];
        let a1 = a.drop_first();
        lemma_parts_of_escaped(a1, rest, cur.push(c));
        let t = escaped(a) + rest;
        assert(cur.push(c) + a1 =~= cur + a);
        if c == '_' || c == ESCAPE {
            assert(t[0] == ESCAPE);
            assert(t[1] == c);
            assert(t.subrange(2, t.len() as int) =~= escaped(a1) + rest);
        } else {
            assert(t[0] == c);
            assert(t.drop_first() =~= escaped(a1) + rest);
        }
    }
}

/// Request identities are one-to-one: equal identities come from equal
/// original URIs, callers and methods.
pub proof fn request_identity_is_injective(
    u1: Seq<char>,
    c1: Seq<char>,
    m1: Seq<char>,
    u2: Seq<char>,
    c2: Seq<char>,
    m2: Seq<char>,
)
    requires
        request_identity_of(u1, c1, m1) == request_identity_of(u2, c2, m2),
    ensures
        u1 == u2,
        c1 == c2,
        m1 == m2,
{
    lemma_parts_of_request_identity(u1, c1, m1);
    lemma_parts_of_request_identity(u2, c2, m2);
    assert(seq![u1, c1, m1][0] == seq![u2, c2, m2][0]);
    assert(seq![u1, c1, m1][1] == seq![u2, c2, m2][1]);
    assert(seq![u1, c1, m1][2] == seq![u2, c2, m2][2]);
}

proof fn lemma_parts_of_request_identity(u: Seq<char>, c: Seq<char>, m: Seq<char>)
    ensures
        parts_from(request_identity_of(u, c, m), Seq::empty()) == seq![u, c, m],
{
    let e = Seq::<char>::empty();
    let tail_c = seq!['_'] + escaped(m);
    let tail_u = seq!['_'] + escaped(c) + tail_c;
    assert(request_identity_of(u, c, m) =~= escaped(u) + tail_u);
    lemma_parts_of_escaped(u, tail_u, e);
    assert(e + u =~= u);
    assert(tail_u.drop_first() =~= escaped(c) + tail_c);
    lemma_parts_of_escaped(c, tail_c, e);
    assert(e + c =~= c);
    assert(tail_c.drop_first() =~= escaped(m) + e);
    lemma_parts_of_escaped(m, e, e);
    assert(e + m =~= m);
    assert(parts_from(e, m) == seq![m]);
    assert(parts_from(tail_c, c) == seq![c] + seq![m]);
    assert(parts_from(tail_u, u) == seq![u] + (seq![c] + seq![m]));
    assert(seq![u] + (seq![c] + seq![m]) =~= seq![u, c, m]);
}

/// A part free of underscores and escape characters is left as it is.
pub proof fn escaped_plain(s: Seq<char>)
    requires
        !s.contains('_'),
        !s.contains(ESCAPE),
    ensures
        escaped(s) == s,
    decreases s.len(),
{
    if s.len() > 0 {
        assert(!s.drop_first().contains('_')) by {
            if s.drop_first().contains('_') {
                let j = choose|j: int| 0 <= j < s.len() - 1 && s.drop_first()[j] == '_';
                assert(s[j + 1] == '_');
            }
        }
        assert(!s.drop_first().contains(ESCAPE)) by {
            if s.drop_first().contains(ESCAPE) {
                let j = choose|j: int| 0 <= j < s.len() - 1 && s.drop_first()[j] == ESCAPE;
                assert(s[j + 1] == ESCAPE);
            }
        }
        escaped_plain(s.drop_first());
        assert(s[0] != '_' && s[0] != ESCAPE) by {
            if s[0] == '_' || s[0] == ESCAPE {
                assert(s.contains(s[0]));
            }
        }
        assert(escaped(s) =~= s);
    }
}

/// The expiry index key of a cached entry.
pub open spec fn composite_of(route: Seq<char>, request: Seq<char>) -> Seq<char> {
    route + seq![SEPARATOR] + request
}

/// A route identity that can be joined into a composite key without ambiguity.
pub open spec fn is_plain_route(route: Seq<char>) -> bool {
    !route.contains(SEPARATOR)
}

/// `key` is `route`, the separator and `request`, with `route` free of the
/// separator: the split of `key` at its first separator.
pub open spec fn splits_into(key: Seq<char>, route: Seq<char>, request: Seq<char>) -> bool {
    is_plain_route(route) && key == composite_of(route, request)
}

/// Appends `s`, escaped, to `out`.
fn push_escaped(out: &mut String, s: &str)
    ensures
        final(out)@ == old(out)@ + escaped(s@),
{
    let n = s.unicode_len();
    let mut i: usize = 0;
    assert(escaped(s@.subrange(0, 0)) =~= Seq::<char>::empty());
    assert(old(out)@ + Seq::<char>::empty() =~= old(out)@);
    while i < n
        invariant
            n == s@.len(),
            i <= n,
            out@ == old(out)@ + escaped(s@.subrange(0, i as int)),
        decreases n - i,
    {
        let c = s.get_char(i);
        let ghost before = out@;
        proof {
            reveal_strlit("\\_");
            reveal_strlit("\\\\");
        }
        if c == '_' {
            out.append("\\_");
        } else if c == ESCAPE {
            out.append("\\\\");
        } else {
            out.append(s.substring_char(i, i + 1));
        }
        proof {
            let head = s@.subrange(0, i as int);
            assert(s@.subrange(0, i + 1) =~= head + seq![c]);
            lemma_escaped_append(head, seq![c]);
            assert(seq![c].drop_first() =~= Seq::<char>::empty());
            assert(seq![c][0] == c);
            assert(escaped(Seq::<char>::empty()) =~= Seq::<char>::empty());
            assert(escaped(seq![c]) == escaped_char(c) + escaped(Seq::<char>::empty()));
            assert(escaped(seq![c]) =~= escaped_char(c));
            assert(out@ =~= old(out)@ + escaped(s@.subrange(0, i + 1)));
        }
        i = i + 1;
    }
    assert(s@.subrange(0, n as int) =~= s@);
}

/// Builds the request identity of a request from its original URI, the
/// caller's identity and its HTTP method.
pub fn request_identity(ori_uri: &str, caller: &str, method: &str) -> (r: String)
    ensures
        r@ == request_identity_of(ori_uri@, caller@, method@),
{
    let mut s = String::new();
    proof {
        reveal_strlit("_");
    }
    push_escaped(&mut s, ori_uri);
    s.append("_");
    push_escaped(&mut s, caller);
    s.append("_");
    push_escaped(&mut s, method);
    assert(s@ =~= request_identity_of(ori_uri@, caller@, method@));
    s
}

/// Tells whether a route identity is free of the separator.
pub fn plain_route(route: &str) -> (r: bool)
    ensures
        r == is_plain_route(route@),
{
    let n = route.unicode_len();
    let mut i: usize = 0;
    while i < n
        invariant
            n == route@.len(),
            i <= n,
            forall|j: int| 0 <= j < i ==> route@[j] != SEPARATOR,
        decreases n - i,
    {
        if route.get_char(i) == SEPARATOR {
            assert(route@.contains(SEPARATOR)) by {
                assert(route@[i as int] == SEPARATOR);
            }
            return false;
        }
        i = i + 1;
    }
    true
}

/// Joins a route identity and a request identity into an expiry index key.
pub fn composite_key(route: &str, request: &str) -> (r: String)
    ensures
        r@ == composite_of(route@, request@),
{
    let mut s = route.to_owned();
    proof {
        reveal_strlit("\u{2605}");
    }
    s.append("\u{2605}");
    s.append(request);
    s
}

/// Splits an expiry index key at its first separator into the route identity
/// and the request identity; `None` when it holds no separator.
pub fn split_composite(key: &str) -> (r: Option<(String, String)>)
    ensures
        r is None <==> !key@.contains(SEPARATOR),
        r matches Some((route, request)) ==> splits_into(key@, route@, request@),
{
    let n = key.unicode_len();
    let mut i: usize = 0;
    while i < n
        invariant
            n == key@.len(),
            i <= n,
            forall|j: int| 0 <= j < i ==> key@[j] != SEPARATOR,
        decreases n - i,
    {
        if key.get_char(i) == SEPARATOR {
            let route = key.substring_char(0, i).to_owned();
            let request = key.substring_char(i + 1, n).to_owned();
            proof {
                assert(!route@.contains(SEPARATOR)) by {
                    if route@.contains(SEPARATOR) {
                        let j = choose|j: int| 0 <= j < route@.len() && route@[j] == SEPARATOR;
                        assert(key@[j] == SEPARATOR);
                    }
                }
                assert(key@ =~= composite_of(route@, request@));
            }
            return Some((route, request));
        }
        i = i + 1;
    }
    None
}

/// Splitting a composite key gives back the route identity and the request
/// identity it was joined from, whenever the route identity is free of the
/// separator.
pub proof fn split_of_composite(route: Seq<char>, request: Seq<char>, r2: Seq<char>, q2: Seq<char>)
    requires
        is_plain_route(route),
        splits_into(composite_of(route, request), r2, q2),
    ensures
        r2 == route,
        q2 == request,
{
    let key = composite_of(route, request);
    assert(key[route.len() as int] == SEPARATOR);
    assert(key[r2.len() as int] == SEPARATOR);
    if r2.len() < route.len() {
        assert(route[r2.len() as int] == key[r2.len() as int]);
        assert(route.contains(SEPARATOR));
    } else if r2.len() > route.len() {
        assert(r2[route.len() as int] == key[route.len() as int]);
        assert(r2.contains(SEPARATOR));
    }
    assert(r2 =~= key.subrange(0, route.len() as int));
    assert(route =~= key.subrange(0, route.len() as int));
    assert(q2 =~= key.subrange(route.len() as int + 1, key.len() as int));
    assert(request =~= key.subrange(route.len() as int + 1, key.len() as int));
}

/// A route identity free of the separator always splits: the composite key
/// of such a route has exactly one split.
pub proof fn composite_splits(route: Seq<char>, request: Seq<char>)
    requires
        is_plain_route(route),
    ensures
        splits_into(composite_of(route, request), route, request),
        composite_of(route, request).contains(SEPARATOR),
{
    let key = composite_of(route, request);
    assert(key[route.len() as int] == SEPARATOR);
}

} // verus!
