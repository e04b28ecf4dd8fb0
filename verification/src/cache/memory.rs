//! In-memory cache of serialized values with a time to live, evicting the least recently used
//! entry when full.
//!
//! Entries live in an `lru::LruCache`; times are milliseconds since the cache was made.
use core::num::NonZeroUsize;
use core::time::Duration;
use std::collections::hash_map::RandomState;
use vstd::prelude::*;

verus! {

/// Declares `lru::LruCache` to the verifier; its contents are described by `lru_entries`.
#[verifier::external_type_specification]
#[verifier::external_body]
#[verifier::reject_recursive_types(K)]
#[verifier::reject_recursive_types(V)]
#[verifier::reject_recursive_types(S)]
pub struct ExLruCache<K, V, S>(lru::LruCache<K, V, S>);

/// An entry as seen by the specifications: key, stored bytes, and expiry (milliseconds since
/// the cache was made).
pub type EntryView = (Seq<char>, (Seq<u8>, u64));

/// The store behind a memory cache.
pub type Store = lru::LruCache<String, (Vec<u8>, u64), RandomState>;

/// Entries of an LRU store, from the least to the most recently used.
pub uninterp spec fn lru_entries(c: Store) -> Seq<EntryView>;

/// Capacity an LRU store was made with.
pub uninterp spec fn lru_capacity(c: Store) -> nat;

/// Index of the first entry with key `k`, searching from `i`.
pub open spec fn key_index_from(s: Seq<EntryView>, k: Seq<char>, i: int) -> Option<int>
    decreases s.len() - i,
{
    if i < 0 || i >= s.len() {
        None
    } else if s[i].0 == k {
        Some(i)
    } else {
        key_index_from(s, k, i + 1)
    }
}

/// Index of the entry with key `k`.
pub open spec fn key_index(s: Seq<EntryView>, k: Seq<char>) -> Option<int> {
    key_index_from(s, k, 0)
}

/// The entries whose keys are not among `ks`, in order.
pub open spec fn drop_keys(s: Seq<EntryView>, ks: Seq<Seq<char>>) -> Seq<EntryView>
    decreases s.len(),
{
    if s.len() == 0 {
        s
    } else {
        let r = drop_keys(s.drop_last(), ks);
        if ks.contains(s.last().0) {
            r
        } else {
            r.push(s.last())
        }
    }
}

/// The entries without the one of key `k`.
pub open spec fn without_key(s: Seq<EntryView>, k: Seq<char>) -> Seq<EntryView> {
    drop_keys(s, seq![k])
}

/// The entries after storing `e` (`LruCache::put`): an entry with the same key is replaced and
/// the new one becomes the most recently used; when the store is full, the least recently used
/// entry makes room.
pub open spec fn put_entries(s: Seq<EntryView>, cap: nat, e: EntryView) -> Seq<EntryView> {
    if key_index(s, e.0) is Some {
        without_key(s, e.0).push(e)
    } else if s.len() == cap {
        s.drop_first().push(e)
    } else {
        s.push(e)
    }
}

/// The entries after reading key `k` (`LruCache::get`): its entry becomes the most recently
/// used.
pub open spec fn promote(s: Seq<EntryView>, k: Seq<char>) -> Seq<EntryView> {
    match key_index(s, k) {
        Some(i) => without_key(s, k).push(s[i]),
        None => s,
    }
}

/// Keys of the entries expired at `now` (expiry before `now`), from the most to the least
/// recently used.
pub open spec fn stale_keys(s: Seq<EntryView>, now: u64) -> Seq<Seq<char>>
    decreases s.len(),
{
    if s.len() == 0 {
        seq![]
    } else {
        (if s.last().1.1 < now {
            seq![s.last().0]
        } else {
            seq![]
        }) + stale_keys(s.drop_last(), now)
    }
}

/// The entries left after removing those expired at `now`.
pub open spec fn unexpired(s: Seq<EntryView>, now: u64) -> Seq<EntryView> {
    drop_keys(s, stale_keys(s, now))
}

/// Result and entries of a read of key `k`: expired entries are removed first (as of
/// `cleanup_now`); then the entry of `k`, if any, is promoted, and returned unless it expired
/// by `check_now`, in which case it is removed.
pub open spec fn read_entry(s: Seq<EntryView>, k: Seq<char>, cleanup_now: u64, check_now: u64) -> (
    Option<Seq<u8>>,
    Seq<EntryView>,
) {
    let c = unexpired(s, cleanup_now);
    match key_index(c, k) {
        None => (None, c),
        Some(i) => if c[i].1.1 < check_now {
            (None, without_key(promote(c, k), k))
        } else {
            (Some(c[i].1.0), promote(c, k))
        },
    }
}

/// Expiry of an entry stored at `now` for `ttl` milliseconds: `now + ttl`, at most `u64::MAX`.
pub open spec fn expiry(now: u64, ttl: u64) -> u64 {
    if now + ttl <= u64::MAX {
        (now + ttl) as u64
    } else {
        u64::MAX
    }
}

/// Whether no two entries share a key.
pub open spec fn distinct_keys(s: Seq<EntryView>) -> bool {
    forall|i: int, j: int| 0 <= i < j < s.len() ==> (#[trigger] s[i]).0 != (#[trigger] s[j]).0
}

/// A new store of capacity `cap` (`LruCache::with_hasher`).
#[verifier::external_body]
fn lru_with_capacity(cap: usize) -> (r: Store)
    requires
        cap > 0,
    ensures
        lru_entries(r) == Seq::<EntryView>::empty(),
        lru_capacity(r) == cap,
{
    lru::LruCache::with_hasher(NonZeroUsize::new(cap).unwrap(), RandomState::new())
}

/// Stores `value` under `key` (`LruCache::put`).
#[verifier::external_body]
fn lru_put(c: &mut Store, key: String, value: (Vec<u8>, u64))
    ensures
        lru_entries(*final(c)) == put_entries(
            lru_entries(*old(c)),
            lru_capacity(*old(c)),
            (key@, (value.0@, value.1)),
        ),
        lru_capacity(*final(c)) == lru_capacity(*old(c)),
{
    c.put(key, value);
}

/// The stored value of `key`, if any, made the most recently used (`LruCache::get`).
#[verifier::external_body]
fn lru_get(c: &mut Store, key: &str) -> (r: Option<(Vec<u8>, u64)>)
    ensures
        match key_index(lru_entries(*old(c)), key@) {
            Some(i) => r matches Some(v) && (v.0@, v.1) == lru_entries(*old(c))[i].1,
            None => r is None,
        },
        lru_entries(*final(c)) == promote(lru_entries(*old(c)), key@),
        lru_capacity(*final(c)) == lru_capacity(*old(c)),
{
    c.get(key).cloned()
}

/// Removes the entry of `key` (`LruCache::pop`).
#[verifier::external_body]
fn lru_pop(c: &mut Store, key: &str)
    ensures
        lru_entries(*final(c)) == without_key(lru_entries(*old(c)), key@),
        lru_capacity(*final(c)) == lru_capacity(*old(c)),
{
    c.pop(key);
}

/// Removes every entry (`LruCache::clear`).
#[verifier::external_body]
fn lru_clear(c: &mut Store)
    ensures
        lru_entries(*final(c)) == Seq::<EntryView>::empty(),
        lru_capacity(*final(c)) == lru_capacity(*old(c)),
{
    c.clear();
}

/// Keys and expiries of the entries, from the most to the least recently used
/// (`LruCache::iter`).
#[verifier::external_body]
fn lru_expiries(c: &Store) -> (r: Vec<(String, u64)>)
    ensures
        r@.len() == lru_entries(*c).len(),
        forall|i: int|
            0 <= i < r@.len() ==> (#[trigger] r@[i]).0@ == lru_entries(*c)[lru_entries(*c).len() - 1
                - i].0 && r@[i].1 == lru_entries(*c)[lru_entries(*c).len() - 1 - i].1.1,
{
    c.iter().map(|(k, v)| (k.clone(), v.1)).collect()
}

/// Milliseconds elapsed since `origin` (`Instant::elapsed`).
#[verifier::external_body]
fn millis_since(origin: &std::time::Instant) -> u64 {
    origin.elapsed().as_millis() as u64
}

/// Whole milliseconds of a duration.
pub uninterp spec fn millis_of(d: Duration) -> u64;

/// Whole milliseconds of a duration (`Duration::as_millis`).
#[verifier::external_body]
fn duration_millis(d: &Duration) -> (r: u64)
    ensures
        r == millis_of(*d),
{
    d.as_millis() as u64
}

/// Lemma: `key_index_from` finds the first entry of the key.
proof fn lemma_key_index_from(s: Seq<EntryView>, k: Seq<char>, i: int)
    requires
        0 <= i,
    ensures
        key_index_from(s, k, i) matches Some(x) ==> i <= x < s.len() && s[x].0 == k && forall|y: int|
            i <= y < x ==> s[y].0 != k,
        key_index_from(s, k, i) is None ==> forall|y: int| i <= y < s.len() ==> s[y].0 != k,
    decreases s.len() - i,
{
    if i < s.len() && s[i].0 != k {
        lemma_key_index_from(s, k, i + 1);
    }
}

/// Lemma: an entry survives `drop_keys` exactly when its key is kept.
proof fn lemma_drop_keys_contains(s: Seq<EntryView>, ks: Seq<Seq<char>>, e: EntryView)
    ensures
        drop_keys(s, ks).contains(e) <==> s.contains(e) && !ks.contains(e.0),
    decreases s.len(),
{
    if s.len() > 0 {
        lemma_drop_keys_contains(s.drop_last(), ks, e);
        let r = drop_keys(s.drop_last(), ks);
        if s.contains(e) && !ks.contains(e.0) {
            let i = choose|i: int| 0 <= i < s.len() && s[i] == e;
            if i < s.len() - 1 {
                assert(s.drop_last()[i] == e);
            } else {
                assert(r.push(s.last())[r.len() as int] == e);
            }
        }
        if s.drop_last().contains(e) {
            let i = choose|i: int| 0 <= i < s.drop_last().len() && s.drop_last()[i] == e;
            assert(s[i] == e);
        }
        if !ks.contains(s.last().0) {
            if r.push(s.last()).contains(e) {
                let i = choose|i: int| 0 <= i < r.push(s.last()).len() && r.push(s.last())[i] == e;
                if i < r.len() {
                    assert(r[i] == e);
                } else {
                    assert(s[s.len() - 1] == e);
                }
            }
            if r.contains(e) {
                let i = choose|i: int| 0 <= i < r.len() && r[i] == e;
                assert(r.push(s.last())[i] == e);
            }
        }
    }
}

/// Lemma: the keys left by `drop_keys` are keys of `s` not among `ks`.
proof fn lemma_drop_keys_keys(s: Seq<EntryView>, ks: Seq<Seq<char>>)
    ensures
        forall|i: int|
            0 <= i < drop_keys(s, ks).len() ==> s.contains(#[trigger] drop_keys(s, ks)[i])
                && !ks.contains(drop_keys(s, ks)[i].0),
        drop_keys(s, ks).len() <= s.len(),
{
    assert forall|i: int| 0 <= i < drop_keys(s, ks).len() implies s.contains(
        #[trigger] drop_keys(s, ks)[i],
    ) && !ks.contains(drop_keys(s, ks)[i].0) by {
        lemma_drop_keys_contains(s, ks, drop_keys(s, ks)[i]);
    }
    lemma_drop_keys_len(s, ks);
}

/// Lemma: `drop_keys` does not lengthen.
proof fn lemma_drop_keys_len(s: Seq<EntryView>, ks: Seq<Seq<char>>)
    ensures
        drop_keys(s, ks).len() <= s.len(),
    decreases s.len(),
{
    if s.len() > 0 {
        lemma_drop_keys_len(s.drop_last(), ks);
    }
}

/// Lemma: `drop_keys` keeps distinct keys distinct.
proof fn lemma_drop_keys_distinct(s: Seq<EntryView>, ks: Seq<Seq<char>>)
    requires
        distinct_keys(s),
    ensures
        distinct_keys(drop_keys(s, ks)),
    decreases s.len(),
{
    if s.len() > 0 {
        let p = s.drop_last();
        assert(distinct_keys(p)) by {
            assert forall|i: int, j: int| 0 <= i < j < p.len() implies (#[trigger] p[i]).0 != (
            #[trigger] p[j]).0 by {
                assert(p[i] == s[i] && p[j] == s[j]);
            }
        }
        lemma_drop_keys_distinct(p, ks);
        let r = drop_keys(p, ks);
        if !ks.contains(s.last().0) {
            lemma_drop_keys_keys(p, ks);
            let w = r.push(s.last());
            assert forall|i: int, j: int| 0 <= i < j < w.len() implies (#[trigger] w[i]).0 != (
            #[trigger] w[j]).0 by {
                if j == r.len() {
                    assert(p.contains(r[i]));
                    let x = choose|x: int| 0 <= x < p.len() && p[x] == r[i];
                    assert(s[x] == r[i]);
                    assert(s[x].0 != s[s.len() - 1].0);
                } else {
                    assert(w[i] == r[i] && w[j] == r[j]);
                }
            }
        }
    }
}

/// Lemma: dropping the keys `a` and then `k` drops the keys `a` and `k`.
proof fn lemma_drop_keys_step(s: Seq<EntryView>, a: Seq<Seq<char>>, k: Seq<char>)
    ensures
        drop_keys(drop_keys(s, a), seq![k]) == drop_keys(s, a.push(k)),
    decreases s.len(),
{
    if s.len() > 0 {
        lemma_drop_keys_step(s.drop_last(), a, k);
        let r = drop_keys(s.drop_last(), a);
        let x = s.last();
        assert(a.push(k).contains(x.0) <==> (a.contains(x.0) || x.0 == k)) by {
            if a.push(k).contains(x.0) {
                let i = choose|i: int| 0 <= i < a.push(k).len() && a.push(k)[i] == x.0;
                if i < a.len() {
                    assert(a[i] == x.0);
                }
            }
            if a.contains(x.0) {
                let i = choose|i: int| 0 <= i < a.len() && a[i] == x.0;
                assert(a.push(k)[i] == x.0);
            }
            if x.0 == k {
                assert(a.push(k)[a.len() as int] == x.0);
            }
        }
        assert(seq![k].contains(x.0) <==> x.0 == k) by {
            if x.0 == k {
                assert(seq![k][0] == x.0);
            }
        }
        if !a.contains(x.0) {
            assert(r.push(x).drop_last() =~= r);
        }
    } else {
        assert(drop_keys(s, a) =~= s);
    }
}

/// Lemma: in entries with distinct keys, the entry at `i` is the one `key_index` finds.
proof fn lemma_key_index_distinct(s: Seq<EntryView>, i: int)
    requires
        distinct_keys(s),
        0 <= i < s.len(),
    ensures
        key_index(s, s[i].0) == Some(i),
{
    lemma_key_index_from(s, s[i].0, 0);
    match key_index(s, s[i].0) {
        Some(x) => {
            if x < i {
                assert(s[x].0 != s[i].0);
            } else if x > i {
                assert(s[i].0 != s[i].0);
            }
        },
        None => {},
    }
}

/// Lemma: storing keeps keys distinct.
proof fn lemma_put_distinct(s: Seq<EntryView>, cap: nat, e: EntryView)
    requires
        distinct_keys(s),
        s.len() == cap ==> s.len() > 0,
    ensures
        distinct_keys(put_entries(s, cap, e)),
{
    lemma_key_index_from(s, e.0, 0);
    if key_index(s, e.0) is Some {
        lemma_drop_keys_distinct(s, seq![e.0]);
        lemma_drop_keys_keys(s, seq![e.0]);
        let r = without_key(s, e.0);
        let w = r.push(e);
        assert forall|i: int, j: int| 0 <= i < j < w.len() implies (#[trigger] w[i]).0 != (
        #[trigger] w[j]).0 by {
            if j == r.len() {
                assert(!seq![e.0].contains(r[i].0));
                if r[i].0 == e.0 {
                    assert(seq![e.0][0] == r[i].0);
                }
            } else {
                assert(w[i] == r[i] && w[j] == r[j]);
            }
        }
    } else {
        let base = if s.len() == cap {
            s.drop_first()
        } else {
            s
        };
        let w = base.push(e);
        assert forall|i: int, j: int| 0 <= i < j < w.len() implies (#[trigger] w[i]).0 != (
        #[trigger] w[j]).0 by {
            if s.len() == cap {
                assert(base.len() == s.len() - 1);
                if j == base.len() {
                    assert(base[i] == s[i + 1]);
                    assert(w[i] == s[i + 1]);
                } else {
                    assert(base[i] == s[i + 1] && base[j] == s[j + 1]);
                    assert(w[i] == s[i + 1] && w[j] == s[j + 1]);
                }
            } else {
                if j == base.len() {
                    assert(w[i] == s[i]);
                } else {
                    assert(w[i] == s[i] && w[j] == s[j]);
                }
            }
        }
    }
}

/// Lemma: promoting keeps keys distinct.
proof fn lemma_promote_distinct(s: Seq<EntryView>, k: Seq<char>)
    requires
        distinct_keys(s),
    ensures
        distinct_keys(promote(s, k)),
{
    lemma_key_index_from(s, k, 0);
    if let Some(x) = key_index(s, k) {
        assert(key_index(s, s[x].0) is Some);
        lemma_put_distinct(s, 0, s[x]);
    }
}

/// In-memory cache of serialized values with a time to live. When full, storing a new key
/// evicts the least recently used entry; reading an entry makes it the most recently used.
pub struct MemoryCache {
    store: Store,
    origin: std::time::Instant,
}

impl MemoryCache {
    /// Entries, from the least to the most recently used.
    pub closed spec fn entries(&self) -> Seq<EntryView> {
        lru_entries(self.store)
    }

    /// Most entries held.
    pub closed spec fn capacity(&self) -> nat {
        lru_capacity(self.store)
    }

    /// Whether the cache is consistent: distinct keys, within capacity.
    pub open spec fn wf(&self) -> bool {
        distinct_keys(self.entries()) && self.capacity() >= 1
    }

    /// An empty cache holding at most `capacity` entries (at least one).
    pub fn new(capacity: usize) -> (r: MemoryCache)
        ensures
            r.wf(),
            r.entries() == Seq::<EntryView>::empty(),
            r.capacity() == (if capacity == 0 {
                1
            } else {
                capacity
            }),
    {
        let cap = if capacity == 0 {
            1
        } else {
            capacity
        };
        MemoryCache { store: lru_with_capacity(cap), origin: crate::deps::graph::instant_now() }
    }

    /// Removes the entries expired at `now`.
    pub fn cleanup_expired_at(&mut self, now: u64)
        requires
            old(self).wf(),
        ensures
            final(self).wf(),
            final(self).entries() == unexpired(old(self).entries(), now),
            final(self).capacity() == old(self).capacity(),
    {
        let ghost s = self.entries();
        let listed = lru_expiries(&self.store);
        let mut stale: Vec<String> = Vec::new();
        let mut i: usize = 0;
        assert(s.take(s.len() as int) =~= s);
        assert(crate::text::sv(stale@) =~= Seq::<Seq<char>>::empty());
        while i < listed.len()
            invariant
                i <= listed@.len(),
                listed@.len() == s.len(),
                s == lru_entries(self.store),
                forall|x: int|
                    0 <= x < listed@.len() ==> (#[trigger] listed@[x]).0@ == s[s.len() - 1 - x].0
                        && listed@[x].1 == s[s.len() - 1 - x].1.1,
                crate::text::sv(stale@) + stale_keys(s.take(s.len() - i), now) == stale_keys(s, now),
            decreases listed@.len() - i,
        {
            let ghost t = s.take(s.len() - i);
            assert(t.last() == s[s.len() - 1 - i]);
            assert(t.drop_last() =~= s.take(s.len() - i - 1));
            let ghost before = crate::text::sv(stale@);
            if listed[i].1 < now {
                stale.push(listed[i].0.clone());
                assert(crate::text::sv(stale@) =~= before + seq![t.last().0]);
            }
            assert(before + stale_keys(t, now) == stale_keys(s, now));
            assert(stale_keys(t, now) == (if t.last().1.1 < now {
                seq![t.last().0]
            } else {
                seq![]
            }) + stale_keys(t.drop_last(), now));
            assert(crate::text::sv(stale@) + stale_keys(t.drop_last(), now) =~= stale_keys(s, now));
            i += 1;
        }
        assert(s.take(0) =~= Seq::<EntryView>::empty());
        assert(crate::text::sv(stale@) =~= stale_keys(s, now));
        let mut j: usize = 0;
        assert(crate::text::sv(stale@).take(0) =~= Seq::<Seq<char>>::empty());
        assert(drop_keys(s, crate::text::sv(stale@).take(0)) == s) by {
            lemma_drop_keys_step_empty(s);
        }
        while j < stale.len()
            invariant
                j <= stale@.len(),
                lru_entries(self.store) == drop_keys(s, crate::text::sv(stale@).take(j as int)),
                lru_capacity(self.store) == old(self).capacity(),
                crate::text::sv(stale@) == stale_keys(s, now),
            decreases stale@.len() - j,
        {
            lru_pop(&mut self.store, stale[j].as_str());
            proof {
                let ks = crate::text::sv(stale@);
                lemma_drop_keys_step(s, ks.take(j as int), ks[j as int]);
                assert(ks.take(j as int).push(ks[j as int]) =~= ks.take(j + 1));
            }
            j += 1;
        }
        proof {
            assert(crate::text::sv(stale@).take(stale@.len() as int) =~= crate::text::sv(stale@));
            lemma_drop_keys_distinct(s, stale_keys(s, now));
        }
    }

    /// The bytes stored under `key` at the times given (expired entries are removed as of
    /// `cleanup_now`, and the entry is checked against `check_now`); see `read_entry`.
    pub fn get_at(&mut self, key: &str, cleanup_now: u64, check_now: u64) -> (r: Option<Vec<u8>>)
        requires
            old(self).wf(),
        ensures
            final(self).wf(),
            final(self).capacity() == old(self).capacity(),
            final(self).entries() == read_entry(old(self).entries(), key@, cleanup_now, check_now).1,
            match read_entry(old(self).entries(), key@, cleanup_now, check_now).0 {
                Some(b) => r matches Some(v) && v@ == b,
                None => r is None,
            },
    {
        self.cleanup_expired_at(cleanup_now);
        let ghost c = self.entries();
        proof {
            lemma_key_index_from(c, key@, 0);
            lemma_promote_distinct(c, key@);
        }
        let found = lru_get(&mut self.store, key);
        match found {
            None => None,
            Some((bytes, expires_at)) => {
                if expires_at < check_now {
                    let ghost p = self.entries();
                    lru_pop(&mut self.store, key);
                    proof {
                        lemma_drop_keys_distinct(p, seq![key@]);
                    }
                    None
                } else {
                    Some(bytes)
                }
            },
        }
    }

    /// The bytes stored under `key`, if present and not expired.
    pub fn get(&mut self, key: &str) -> (r: Option<Vec<u8>>)
        requires
            old(self).wf(),
        ensures
            final(self).wf(),
            final(self).capacity() == old(self).capacity(),
            r matches Some(v) ==> exists|i: int|
                0 <= i < old(self).entries().len() && old(self).entries()[i].0 == key@
                    && old(self).entries()[i].1.0 == v@,
            exists|cleanup_now: u64, check_now: u64|
                {
                    let read = #[trigger] read_entry(old(self).entries(), key@, cleanup_now, check_now);
                    &&& final(self).entries() == read.1
                    &&& match read.0 {
                        Some(b) => r matches Some(v) && v@ == b,
                        None => r is None,
                    }
                },
    {
        let cleanup_now = millis_since(&self.origin);
        let check_now = millis_since(&self.origin);
        let ghost s = self.entries();
        let r = self.get_at(key, cleanup_now, check_now);
        proof {
            if r is Some {
                let v = r->0;
                let c = unexpired(s, cleanup_now);
                lemma_key_index_from(c, key@, 0);
                let i = key_index(c, key@)->0;
                lemma_drop_keys_contains(s, stale_keys(s, cleanup_now), c[i]);
                assert(c.contains(c[i]));
                let x = choose|x: int| 0 <= x < s.len() && s[x] == c[i];
                assert(s[x].0 == key@ && s[x].1.0 == v@);
            }
        }
        r
    }

    /// Stores `value` under `key` until `now + ttl_ms` (saturating).
    pub fn set_at(&mut self, key: &str, value: Vec<u8>, ttl_ms: u64, now: u64)
        requires
            old(self).wf(),
        ensures
            final(self).wf(),
            final(self).capacity() == old(self).capacity(),
            final(self).entries() == put_entries(
                old(self).entries(),
                old(self).capacity(),
                (key@, (value@, expiry(now, ttl_ms))),
            ),
    {
        let expires_at = now.saturating_add(ttl_ms);
        let ghost e = (key@, (value@, expires_at));
        lru_put(&mut self.store, key.to_owned(), (value, expires_at));
        proof {
            lemma_put_distinct(lru_entries(old(self).store), lru_capacity(old(self).store), e);
        }
    }

    /// Stores `value` under `key` for `ttl`.
    pub fn set(&mut self, key: &str, value: Vec<u8>, ttl: Duration)
        requires
            old(self).wf(),
        ensures
            final(self).wf(),
            final(self).capacity() == old(self).capacity(),
            exists|now: u64|
                final(self).entries() == put_entries(
                    old(self).entries(),
                    old(self).capacity(),
                    (key@, (value@, #[trigger] expiry(now, millis_of(ttl)))),
                ),
    {
        let ttl_ms = duration_millis(&ttl);
        let now = millis_since(&self.origin);
        self.set_at(key, value, ttl_ms, now);
    }

    /// Removes the entry under `key`.
    pub fn invalidate(&mut self, key: &str)
        requires
            old(self).wf(),
        ensures
            final(self).wf(),
            final(self).capacity() == old(self).capacity(),
            final(self).entries() == without_key(old(self).entries(), key@),
    {
        lru_pop(&mut self.store, key);
        proof {
            lemma_drop_keys_distinct(lru_entries(old(self).store), seq![key@]);
        }
    }

    /// Removes every entry.
    pub fn clear(&mut self)
        requires
            old(self).wf(),
        ensures
            final(self).wf(),
            final(self).capacity() == old(self).capacity(),
            final(self).entries() == Seq::<EntryView>::empty(),
    {
        lru_clear(&mut self.store);
    }
}

/// Lemma: dropping no keys changes nothing.
proof fn lemma_drop_keys_step_empty(s: Seq<EntryView>)
    ensures
        drop_keys(s, Seq::<Seq<char>>::empty()) == s,
    decreases s.len(),
{
    if s.len() > 0 {
        lemma_drop_keys_step_empty(s.drop_last());
        assert(s.drop_last().push(s.last()) =~= s);
    }
}

/// Lemma: a stale key is the key of an entry expired at `now`.
proof fn lemma_stale_keys_witness(s: Seq<EntryView>, now: u64, x: Seq<char>)
    requires
        stale_keys(s, now).contains(x),
    ensures
        exists|i: int| 0 <= i < s.len() && (#[trigger] s[i]).0 == x && s[i].1.1 < now,
    decreases s.len(),
{
    let head = if s.last().1.1 < now {
        seq![s.last().0]
    } else {
        seq![]
    };
    let tail = stale_keys(s.drop_last(), now);
    let j = choose|j: int| 0 <= j < (head + tail).len() && (head + tail)[j] == x;
    if j < head.len() {
        assert(s[s.len() - 1].0 == x);
    } else {
        assert(tail[j - head.len()] == x);
        lemma_stale_keys_witness(s.drop_last(), now, x);
        let i = choose|i: int| 0 <= i < s.drop_last().len() && (#[trigger] s.drop_last()[i]).0 == x
            && s.drop_last()[i].1.1 < now;
        assert(s[i] == s.drop_last()[i]);
    }
}

/// A value just stored is read back until it expires: after storing `v` under `k` at `now`
/// for `ttl` milliseconds, a read of `k` at times up to the expiry returns `v`. After the key
/// is invalidated, or the cache cleared, a read of it finds nothing.
pub proof fn law_read_after_write(
    s: Seq<EntryView>,
    cap: nat,
    k: Seq<char>,
    v: Seq<u8>,
    now: u64,
    ttl: u64,
    t1: u64,
    t2: u64,
)
    requires
        distinct_keys(s),
        cap >= 1,
        t1 <= expiry(now, ttl),
        t2 <= expiry(now, ttl),
    ensures
        read_entry(put_entries(s, cap, (k, (v, expiry(now, ttl)))), k, t1, t2).0 == Some(v),
        read_entry(without_key(s, k), k, t1, t2).0 is None,
        read_entry(Seq::<EntryView>::empty(), k, t1, t2).0 is None,
{
    let e = (k, (v, expiry(now, ttl)));
    let s1 = put_entries(s, cap, e);
    lemma_key_index_from(s, k, 0);
    lemma_put_distinct(s, cap, e);
    assert(s1[s1.len() - 1] == e);
    let st = stale_keys(s1, t1);
    if st.contains(k) {
        lemma_stale_keys_witness(s1, t1, k);
        let i = choose|i: int| 0 <= i < s1.len() && (#[trigger] s1[i]).0 == k && s1[i].1.1 < t1;
        if i != s1.len() - 1 {
            assert(s1[i].0 != s1[s1.len() - 1].0);
        }
    }
    assert(s1.contains(e));
    lemma_drop_keys_contains(s1, st, e);
    lemma_drop_keys_distinct(s1, st);
    let c = drop_keys(s1, st);
    let ie = choose|ie: int| 0 <= ie < c.len() && c[ie] == e;
    lemma_key_index_distinct(c, ie);
    let w = without_key(s, k);
    lemma_drop_keys_keys(s, seq![k]);
    let cw = unexpired(w, t1);
    lemma_drop_keys_keys(w, stale_keys(w, t1));
    lemma_key_index_from(cw, k, 0);
    if key_index(cw, k) is Some {
        let x = key_index(cw, k)->0;
        assert(w.contains(cw[x]));
        let y = choose|y: int| 0 <= y < w.len() && w[y] == cw[x];
        assert(!seq![k].contains(w[y].0));
        assert(seq![k][0] == k);
    }
    let z = Seq::<EntryView>::empty();
    assert(stale_keys(z, t1) =~= Seq::<Seq<char>>::empty());
    assert(drop_keys(z, stale_keys(z, t1)) =~= z);
}

} // verus!
