use vstd::prelude::*;

verus! {

/// A key of the expiry index with the instant (in milliseconds) it was
/// recorded at.
pub struct Stamp {
    pub key: String,
    pub at: u64,
}

/// The view of a stamp: its key and its instant.
pub type Stamped = (Seq<char>, u64);

/// Whether an entry recorded at `at` is older than `lifetime` at `now`; an
/// instant in the future has age zero.
pub open spec fn is_expired(at: u64, now: u64, lifetime: u64) -> bool {
    now > at && now - at > lifetime
}

/// The view of a sequence of stamps.
pub open spec fn stamps_view(s: Seq<Stamp>) -> Seq<Stamped> {
    s.map_values(|e: Stamp| (e.key@, e.at))
}

/// Keeps the stamps of every key but `key`.
pub open spec fn other_key(key: Seq<char>) -> spec_fn(Stamped) -> bool {
    |e: Stamped| e.0 != key
}

/// `n` is the length of the longest prefix of `s` whose entries have all
/// expired.
pub open spec fn expired_prefix(s: Seq<Stamped>, now: u64, lifetime: u64, n: int) -> bool {
    &&& 0 <= n <= s.len()
    &&& forall|i: int| 0 <= i < n ==> is_expired(#[trigger] s[i].1, now, lifetime)
    &&& n < s.len() ==> !is_expired(s[n].1, now, lifetime)
}

/// The expiry index: every cached key with the instant it was recorded at, in
/// the order of recording, each key at most once.
pub struct ExpiryIndex {
    stamps: Vec<Stamp>,
}

impl View for ExpiryIndex {
    type V = Seq<Stamped>;

    closed spec fn view(&self) -> Seq<Stamped> {
        stamps_view(self.stamps@)
    }
}

impl ExpiryIndex {
    /// An empty index.
    pub fn new() -> (r: ExpiryIndex)
        ensures
            r@ == Seq::<Stamped>::empty(),
    {
        let r = ExpiryIndex { stamps: Vec::new() };
        assert(r@ =~= Seq::<Stamped>::empty());
        r
    }

    /// The number of recorded keys.
    pub fn len(&self) -> (r: usize)
        ensures
            r == self@.len(),
    {
        self.stamps.len()
    }

    /// Records `key` at `at` as the newest entry; an earlier record of the
    /// same key is dropped, so its expiry starts over.
    pub fn record(&mut self, key: String, at: u64)
        ensures
            final(self)@ == old(self)@.filter(other_key(key@)).push((key@, at)),
    {
        let ghost pred = other_key(key@);
        let mut kept: Vec<Stamp> = Vec::new();
        let n = self.stamps.len();
        let mut i: usize = 0;
        while i < n
            invariant
                n == self.stamps@.len(),
                i <= n,
                pred == other_key(key@),
                stamps_view(kept@) == stamps_view(self.stamps@.subrange(0, i as int)).filter(pred),
            decreases n - i,
        {
            let s = &self.stamps[i];
            let ghost prev = kept@;
            let same = s.key == key;
            if !same {
                kept.push(Stamp { key: s.key.clone(), at: s.at });
                assert(stamps_view(kept@) =~= stamps_view(prev).push((s.key@, s.at)));
            }
            proof {
                reveal(Seq::filter);
                let sub = stamps_view(self.stamps@.subrange(0, i + 1));
                assert(sub.drop_last() =~= stamps_view(self.stamps@.subrange(0, i as int)));
                assert(sub.last() == (s.key@, s.at));
                if pred(sub.last()) {
                    assert(sub.filter(pred) == sub.drop_last().filter(pred).push(sub.last()));
                } else {
                    assert(sub.filter(pred) == sub.drop_last().filter(pred));
                }
            }
            i = i + 1;
        }
        assert(self.stamps@.subrange(0, n as int) =~= self.stamps@);
        let ghost k = key@;
        kept.push(Stamp { key, at });
        assert(stamps_view(kept@) =~= old(self)@.filter(pred).push((k, at)));
        self.stamps = kept;
    }

    /// Removes the longest prefix of entries that have all expired at `now`
    /// and returns their keys, oldest first. It stops at the first entry that
    /// has not expired, whatever follows it.
    pub fn sweep(&mut self, now: u64, lifetime: u64) -> (removed: Vec<String>)
        ensures
            expired_prefix(old(self)@, now, lifetime, removed@.len() as int),
            forall|i: int| 0 <= i < removed@.len() ==> #[trigger] removed@[i]@ == old(self)@[i].0,
            final(self)@ == old(self)@.subrange(removed@.len() as int, old(self)@.len() as int),
    {
        let len = self.stamps.len();
        let mut n: usize = 0;
        while n < len && (now > self.stamps[n].at && now - self.stamps[n].at > lifetime)
            invariant
                len == self@.len(),
                n <= len,
                forall|i: int| 0 <= i < n ==> is_expired(#[trigger] self@[i].1, now, lifetime),
            decreases len - n,
        {
            n = n + 1;
        }
        let rest = self.stamps.split_off(n);
        let mut removed: Vec<String> = Vec::new();
        let mut j: usize = 0;
        while j < n
            invariant
                n == self.stamps@.len(),
                j <= n,
                removed@.len() == j,
                forall|i: int| 0 <= i < j ==> #[trigger] removed@[i]@ == self.stamps@[i].key@,
            decreases n - j,
        {
            removed.push(self.stamps[j].key.clone());
            j = j + 1;
        }
        self.stamps = rest;
        assert(self@ =~= old(self)@.subrange(n as int, len as int));
        removed
    }
}

/// No key is recorded twice.
pub open spec fn keys_distinct(s: Seq<Stamped>) -> bool {
    forall|i: int, j: int| 0 <= i < j < s.len() ==> s[i].0 != s[j].0
}

/// Recording a key keeps the keys distinct.
pub proof fn record_keeps_keys_distinct(s: Seq<Stamped>, key: Seq<char>, at: u64)
    requires
        keys_distinct(s),
    ensures
        keys_distinct(s.filter(other_key(key)).push((key, at))),
{
    lemma_filter_other_key(s, key);
}

proof fn lemma_filter_other_key(s: Seq<Stamped>, key: Seq<char>)
    requires
        keys_distinct(s),
    ensures
        keys_distinct(s.filter(other_key(key))),
        forall|i: int|
            0 <= i < s.filter(other_key(key)).len() ==> #[trigger] s.filter(other_key(key))[i].0
                != key && s.contains(s.filter(other_key(key))[i]),
    decreases s.len(),
{
    reveal(Seq::filter);
    if s.len() > 0 {
        let d = s.drop_last();
        lemma_filter_other_key(d, key);
        let f = d.filter(other_key(key));
        assert forall|i: int| 0 <= i < f.len() implies #[trigger] f[i].0 != s.last().0 && s.contains(
            f[i],
        ) by {
            let j = choose|j: int| 0 <= j < d.len() && d[j] == f[i];
            assert(s[j] == f[i]);
            assert(s[s.len() - 1] == s.last());
        }
        if other_key(key)(s.last()) {
            assert(s.filter(other_key(key)) == f.push(s.last()));
            assert(s.contains(s.last())) by {
                assert(s[s.len() - 1] == s.last());
            }
        } else {
            assert(s.filter(other_key(key)) == f);
        }
    }
}

/// A sweep removes exactly the longest expired prefix: a single length meets
/// the description, so entries past the first live one stay even where they
/// have expired.
pub proof fn sweep_prefix_is_unique(s: Seq<Stamped>, now: u64, lifetime: u64, n1: int, n2: int)
    requires
        expired_prefix(s, now, lifetime, n1),
        expired_prefix(s, now, lifetime, n2),
    ensures
        n1 == n2,
{
    if n1 < n2 {
        assert(is_expired(s[n1].1, now, lifetime));
    } else if n2 < n1 {
        assert(is_expired(s[n2].1, now, lifetime));
    }
}

} // verus!
