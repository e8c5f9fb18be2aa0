//! Bounded key/value cache with least-recently-used eviction.
//!
//! The cache is modelled as a sequence of (key, value) pairs ordered by
//! recency of access: index 0 is the least recently used record and the last
//! index the most recently used one.  Recency is a total order maintained by
//! every access, so the eviction candidate is always unique.

use vstd::prelude::*;

use crate::text::str_eq;

verus! {

/// One key together with its stored value.
pub struct CacheEntry {
    pub key: String,
    pub value: String,
}

impl View for CacheEntry {
    type V = (Seq<char>, Seq<char>);

    open spec fn view(&self) -> (Seq<char>, Seq<char>) {
        (self.key@, self.value@)
    }
}

impl Clone for CacheEntry {
    fn clone(&self) -> (r: CacheEntry)
        ensures
            r@ == self@,
    {
        CacheEntry { key: self.key.clone(), value: self.value.clone() }
    }
}

/// Why a cache could not be constructed.
#[derive(Clone, Copy, Debug, PartialEq, Eq, Structural)]
pub enum CacheError {
    InvalidCapacity,
}

/// The (key, value) pairs named by a sequence of entries, in the same order.
pub open spec fn view_of_entries(es: Seq<CacheEntry>) -> Seq<(Seq<char>, Seq<char>)> {
    Seq::new(es.len(), |i: int| es[i]@)
}

/// Does some record of `s` carry the key `k`?
pub open spec fn has_key(s: Seq<(Seq<char>, Seq<char>)>, k: Seq<char>) -> bool {
    exists|i: int| 0 <= i < s.len() && (#[trigger] s[i]).0 == k
}

/// The index of the record carrying `k`; meaningful when `has_key(s, k)`
/// holds, and unique whenever the keys of `s` are distinct.
pub open spec fn key_index(s: Seq<(Seq<char>, Seq<char>)>, k: Seq<char>) -> int {
    choose|i: int| 0 <= i < s.len() && (#[trigger] s[i]).0 == k
}

/// No two records of `s` carry the same key.
pub open spec fn unique_keys(s: Seq<(Seq<char>, Seq<char>)>) -> bool {
    forall|i: int, j: int|
        0 <= i < j < s.len() ==> (#[trigger] s[i]).0 != (#[trigger] s[j]).0
}

/// The value stored under `k`, if any.
pub open spec fn spec_lookup(s: Seq<(Seq<char>, Seq<char>)>, k: Seq<char>) -> Option<Seq<char>> {
    if has_key(s, k) {
        Some(s[key_index(s, k)].1)
    } else {
        None
    }
}

/// Contents after a lookup of `k`: a hit moves the record, unchanged, to the
/// most-recently-used end; a miss changes nothing.
pub open spec fn spec_get(s: Seq<(Seq<char>, Seq<char>)>, k: Seq<char>) -> Seq<
    (Seq<char>, Seq<char>),
> {
    if has_key(s, k) {
        s.remove(key_index(s, k)).push(s[key_index(s, k)])
    } else {
        s
    }
}

/// Contents after storing `v` under `k` in a cache of capacity `cap`: an
/// existing record is rewritten and promoted; otherwise the new record is
/// appended, evicting the least-recently-used record if the cache is full.
pub open spec fn spec_put(
    s: Seq<(Seq<char>, Seq<char>)>,
    cap: int,
    k: Seq<char>,
    v: Seq<char>,
) -> Seq<(Seq<char>, Seq<char>)> {
    if has_key(s, k) {
        s.remove(key_index(s, k)).push((k, v))
    } else if s.len() < cap {
        s.push((k, v))
    } else {
        s.remove(0).push((k, v))
    }
}

/// With distinct keys, an index carrying `k` is the only one, so it is the
/// one `key_index` picks.
pub proof fn lemma_key_index(s: Seq<(Seq<char>, Seq<char>)>, k: Seq<char>, i: int)
    requires
        unique_keys(s),
        0 <= i < s.len(),
        s[i].0 == k,
    ensures
        has_key(s, k),
        key_index(s, k) == i,
{
    assert(has_key(s, k));
    let j = key_index(s, k);
    assert(0 <= j < s.len() && s[j].0 == k);
    if j < i {
        assert(s[j].0 != s[i].0);
    } else if i < j {
        assert(s[i].0 != s[j].0);
    }
}

/// Moving the record at `i` to the most-recently-used end, with its key
/// kept, preserves the distinctness of the keys.
pub proof fn lemma_bump_unique(s: Seq<(Seq<char>, Seq<char>)>, i: int, p: (Seq<char>, Seq<char>))
    requires
        unique_keys(s),
        0 <= i < s.len(),
        p.0 == s[i].0,
    ensures
        unique_keys(s.remove(i).push(p)),
        s.remove(i).push(p).len() == s.len(),
{
    s.remove_ensures(i);
    let t = s.remove(i).push(p);
    assert forall|a: int, b: int| 0 <= a < b < t.len() implies t[a].0 != t[b].0 by {
        let sa: int = if a < i {
            a
        } else {
            a + 1
        };
        assert(t[a] == s[sa]);
        if b == t.len() - 1 {
            assert(t[b] == p);
            if sa < i {
                assert(s[sa].0 != s[i].0);
            } else {
                assert(s[i].0 != s[sa].0);
            }
        } else {
            let sb: int = if b < i {
                b
            } else {
                b + 1
            };
            assert(t[b] == s[sb]);
            assert(s[sa].0 != s[sb].0);
        }
    }
}

/// Appending a record whose key is absent preserves the distinctness of the
/// keys.
pub proof fn lemma_push_fresh_unique(s: Seq<(Seq<char>, Seq<char>)>, p: (Seq<char>, Seq<char>))
    requires
        unique_keys(s),
        !has_key(s, p.0),
    ensures
        unique_keys(s.push(p)),
{
    let t = s.push(p);
    assert forall|a: int, b: int| 0 <= a < b < t.len() implies t[a].0 != t[b].0 by {
        assert(t[a] == s[a]);
        if b == t.len() - 1 {
            assert(t[b] == p);
            assert(!(0 <= a < s.len() && s[a].0 == p.0));
        } else {
            assert(t[b] == s[b]);
        }
    }
}

/// Evicting the least-recently-used record and appending a fresh key keeps
/// the keys distinct.
pub proof fn lemma_evict_unique(s: Seq<(Seq<char>, Seq<char>)>, p: (Seq<char>, Seq<char>))
    requires
        unique_keys(s),
        !has_key(s, p.0),
        s.len() >= 1,
    ensures
        unique_keys(s.remove(0).push(p)),
{
    s.remove_ensures(0);
    let t0 = s.remove(0);
    assert forall|a: int, b: int| 0 <= a < b < t0.len() implies t0[a].0 != t0[b].0 by {
        assert(t0[a] == s[a + 1]);
        assert(t0[b] == s[b + 1]);
    }
    assert(!has_key(t0, p.0)) by {
        if has_key(t0, p.0) {
            let w = choose|w: int| 0 <= w < t0.len() && (#[trigger] t0[w]).0 == p.0;
            assert(t0[w] == s[w + 1]);
            assert(s[w + 1].0 == p.0);
        }
    }
    lemma_push_fresh_unique(t0, p);
}

/// However the cache is used, a store never grows it past its capacity.
pub proof fn lemma_put_bounded(s: Seq<(Seq<char>, Seq<char>)>, cap: int, k: Seq<char>, v: Seq<char>)
    requires
        s.len() <= cap,
        1 <= cap,
    ensures
        spec_put(s, cap, k, v).len() <= cap,
{
    if has_key(s, k) {
        s.remove_ensures(key_index(s, k));
    } else if s.len() >= cap {
        s.remove_ensures(0);
    }
}

/// At capacity, storing a fresh key evicts exactly the least-recently-used
/// record: its key disappears, every other record keeps its place one slot
/// down, and the new record stands at the most-recently-used end.
pub proof fn lemma_put_evicts_lru(
    s: Seq<(Seq<char>, Seq<char>)>,
    cap: int,
    k: Seq<char>,
    v: Seq<char>,
)
    requires
        unique_keys(s),
        s.len() == cap,
        1 <= cap,
        !has_key(s, k),
    ensures
        spec_put(s, cap, k, v).len() == cap,
        spec_put(s, cap, k, v) == s.remove(0).push((k, v)),
        !has_key(spec_put(s, cap, k, v), s[0].0),
        forall|i: int| 1 <= i < cap ==> spec_put(s, cap, k, v)[i - 1] == s[i],
        spec_put(s, cap, k, v)[cap - 1] == (k, v),
{
    s.remove_ensures(0);
    let t = spec_put(s, cap, k, v);
    assert(t == s.remove(0).push((k, v)));
    assert(!(0 <= 0 < s.len() && s[0].0 == k));
    assert(!has_key(t, s[0].0)) by {
        if has_key(t, s[0].0) {
            let w = choose|w: int| 0 <= w < t.len() && (#[trigger] t[w]).0 == s[0].0;
            if w == t.len() - 1 {
                assert(t[w] == (k, v));
                assert(k != s[0].0);
            } else {
                assert(t[w] == s[w + 1]);
                assert(s[0].0 != s[w + 1].0);
            }
        }
    }
}

/// A hit never rewrites the stored value: the promoted record stands at the
/// most-recently-used end with its value intact, and lookups find the same
/// value before and after.
pub proof fn lemma_get_promotes(s: Seq<(Seq<char>, Seq<char>)>, k: Seq<char>)
    requires
        unique_keys(s),
        has_key(s, k),
    ensures
        spec_get(s, k).len() == s.len(),
        spec_get(s, k).last() == (k, spec_lookup(s, k)->Some_0),
        unique_keys(spec_get(s, k)),
        spec_lookup(spec_get(s, k), k) == spec_lookup(s, k),
{
    let i = key_index(s, k);
    assert(0 <= i < s.len() && s[i].0 == k);
    s.remove_ensures(i);
    lemma_bump_unique(s, i, s[i]);
    let t = spec_get(s, k);
    assert(t.last() == s[i]);
    lemma_key_index(t, k, t.len() - 1);
    assert(spec_lookup(t, k) == Some(t[t.len() - 1].1));
}

/// Bounded key/value store with least-recently-used eviction.  The view
/// lists the (key, value) pairs from least to most recently used.
pub struct Cache {
    entries: Vec<CacheEntry>,
    capacity: usize,
}

impl View for Cache {
    type V = Seq<(Seq<char>, Seq<char>)>;

    closed spec fn view(&self) -> Seq<(Seq<char>, Seq<char>)> {
        view_of_entries(self.entries@)
    }
}

impl Cache {
    /// The fixed capacity the cache was constructed with.
    pub closed spec fn cap(&self) -> int {
        self.capacity as int
    }

    /// Structural invariant: positive capacity, bounded size, distinct keys.
    pub open spec fn wf(&self) -> bool {
        &&& 1 <= self.cap()
        &&& self@.len() <= self.cap()
        &&& unique_keys(self@)
    }

    /// A fresh, empty cache; a capacity of zero is rejected.
    pub fn new(capacity: usize) -> (r: Result<Cache, CacheError>)
        ensures
            match r {
                Ok(c) => capacity >= 1 && c.wf() && c.cap() == capacity && c@ == Seq::<
                    (Seq<char>, Seq<char>),
                >::empty(),
                Err(e) => capacity == 0 && e == CacheError::InvalidCapacity,
            },
    {
        if capacity == 0 {
            Err(CacheError::InvalidCapacity)
        } else {
            let c = Cache { entries: Vec::new(), capacity };
            proof {
                assert(c@ =~= Seq::<(Seq<char>, Seq<char>)>::empty());
            }
            Ok(c)
        }
    }

    /// Number of records currently held.
    pub fn len(&self) -> (n: usize)
        ensures
            n == self@.len(),
    {
        self.entries.len()
    }

    /// The capacity the cache was constructed with.
    pub fn capacity(&self) -> (n: usize)
        ensures
            n == self.cap(),
    {
        self.capacity
    }

    /// Looks `key` up: a hit returns the stored value unchanged and promotes
    /// its record to most recently used; a miss returns nothing and leaves
    /// the cache as it was.
    #[verifier::loop_isolation(false)]
    pub fn get(&mut self, key: &str) -> (r: Option<String>)
        requires
            old(self).wf(),
        ensures
            final(self).wf(),
            final(self).cap() == old(self).cap(),
            final(self)@ == spec_get(old(self)@, key@),
            match r {
                Some(v) => spec_lookup(old(self)@, key@) == Some(v@),
                None => spec_lookup(old(self)@, key@) is None,
            },
    {
        let ghost s0 = self@;
        let n = self.entries.len();
        let mut i: usize = 0;
        while i < n
            invariant
                *self == *old(self),
                old(self).wf(),
                n == self.entries@.len(),
                i <= n,
                forall|j: int| 0 <= j < i ==> (#[trigger] self@[j]).0 != key@,
            decreases n - i,
        {
            if str_eq(self.entries[i].key.as_str(), key) {
                proof {
                    assert(self@[i as int].0 == key@);
                    lemma_key_index(s0, key@, i as int);
                    lemma_bump_unique(s0, i as int, s0[i as int]);
                    s0.remove_ensures(i as int);
                }
                let e = self.entries.remove(i);
                let val = e.value.clone();
                self.entries.push(e);
                proof {
                    assert(self@ =~= s0.remove(i as int).push(s0[i as int]));
                }
                return Some(val);
            }
            i += 1;
        }
        proof {
            assert(!has_key(s0, key@));
        }
        None
    }

    /// Stores `value` under `key`: an existing record is rewritten and
    /// promoted; otherwise the record is inserted as most recently used,
    /// evicting the least-recently-used record if the cache is full.
    #[verifier::loop_isolation(false)]
    pub fn put(&mut self, key: &str, value: String)
        requires
            old(self).wf(),
        ensures
            final(self).wf(),
            final(self).cap() == old(self).cap(),
            final(self)@ == spec_put(old(self)@, old(self).cap(), key@, value@),
            final(self)@.len() <= old(self).cap(),
            spec_lookup(final(self)@, key@) == Some(value@),
    {
        let ghost s0 = self@;
        let ghost cap = self.cap();
        let n = self.entries.len();
        let mut i: usize = 0;
        while i < n
            invariant
                *self == *old(self),
                old(self).wf(),
                n == self.entries@.len(),
                i <= n,
                forall|j: int| 0 <= j < i ==> (#[trigger] self@[j]).0 != key@,
            decreases n - i,
        {
            if str_eq(self.entries[i].key.as_str(), key) {
                proof {
                    assert(self@[i as int].0 == key@);
                    lemma_key_index(s0, key@, i as int);
                    lemma_bump_unique(s0, i as int, (key@, value@));
                    s0.remove_ensures(i as int);
                }
                self.entries.remove(i);
                self.entries.push(CacheEntry { key: key.to_owned(), value });
                proof {
                    assert(self@ =~= s0.remove(i as int).push((key@, value@)));
                    lemma_key_index(self@, key@, self@.len() - 1);
                }
                return ;
            }
            i += 1;
        }
        proof {
            assert(!has_key(s0, key@));
        }
        if self.entries.len() == self.capacity {
            proof {
                lemma_evict_unique(s0, (key@, value@));
                s0.remove_ensures(0);
            }
            self.entries.remove(0);
            self.entries.push(CacheEntry { key: key.to_owned(), value });
            proof {
                assert(self@ =~= s0.remove(0).push((key@, value@)));
                lemma_key_index(self@, key@, self@.len() - 1);
            }
        } else {
            proof {
                lemma_push_fresh_unique(s0, (key@, value@));
            }
            self.entries.push(CacheEntry { key: key.to_owned(), value });
            proof {
                assert(self@ =~= s0.push((key@, value@)));
                lemma_key_index(self@, key@, self@.len() - 1);
            }
        }
    }

    /// The current records, least recently used first; reading them does not
    /// change recency.
    #[verifier::loop_isolation(false)]
    pub fn entries(&self) -> (r: Vec<CacheEntry>)
        ensures
            view_of_entries(r@) == self@,
    {
        let mut out: Vec<CacheEntry> = Vec::new();
        let n = self.entries.len();
        let mut i: usize = 0;
        while i < n
            invariant
                n == self.entries@.len(),
                i <= n,
                out@.len() == i,
                forall|j: int| 0 <= j < i ==> (#[trigger] out@[j])@ == self@[j],
            decreases n - i,
        {
            out.push(self.entries[i].clone());
            i += 1;
        }
        proof {
            assert(view_of_entries(out@) =~= self@);
        }
        out
    }
}

} // verus!
