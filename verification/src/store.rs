//! The snapshot store: rendering a cache's contents to its snapshot record
//! and rebuilding a cache from one.
//!
//! A missing record is a normal cold start and yields an empty cache; a
//! record that does not parse is an error and never mistaken for an absent
//! key.  Records are replayed oldest first, so the rebuilt recency order is
//! the persisted one.

use vstd::prelude::*;

use crate::cache::{has_key, spec_put, unique_keys, view_of_entries, Cache};
use crate::snapshot::{
    encode_snapshot, lemma_snapshot_round_trip, parse_snapshot, snapshot_text, spec_parse,
};

verus! {

/// Why a cache could not be rebuilt from a snapshot record.
#[derive(Clone, Copy, Debug, PartialEq, Eq, Structural)]
pub enum LoadError {
    InvalidCapacity,
    Malformed,
}

/// Contents after replaying `recs` (oldest first) into contents `s` of a
/// cache of capacity `cap`.
pub open spec fn fold_put(
    s: Seq<(Seq<char>, Seq<char>)>,
    cap: int,
    recs: Seq<(Seq<char>, Seq<char>)>,
) -> Seq<(Seq<char>, Seq<char>)>
    decreases recs.len(),
{
    if recs.len() == 0 {
        s
    } else {
        fold_put(spec_put(s, cap, recs[0].0, recs[0].1), cap, recs.drop_first())
    }
}

/// Replaying one more record applies one more store.
proof fn lemma_fold_put_snoc(
    s: Seq<(Seq<char>, Seq<char>)>,
    cap: int,
    recs: Seq<(Seq<char>, Seq<char>)>,
    r: (Seq<char>, Seq<char>),
)
    ensures
        fold_put(s, cap, recs.push(r)) == spec_put(fold_put(s, cap, recs), cap, r.0, r.1),
    decreases recs.len(),
{
    if recs.len() == 0 {
        assert(recs.push(r)[0] == r);
        assert(recs.push(r).drop_first() =~= recs);
        assert(fold_put(s, cap, recs.push(r)) == fold_put(spec_put(s, cap, r.0, r.1), cap, recs));
        assert(fold_put(spec_put(s, cap, r.0, r.1), cap, recs) == spec_put(s, cap, r.0, r.1));
        assert(fold_put(s, cap, recs) == s);
    } else {
        assert(recs.push(r)[0] == recs[0]);
        assert(recs.push(r).drop_first() =~= recs.drop_first().push(r));
        let s1 = spec_put(s, cap, recs[0].0, recs[0].1);
        lemma_fold_put_snoc(s1, cap, recs.drop_first(), r);
        assert(fold_put(s, cap, recs.push(r)) == fold_put(s1, cap, recs.drop_first().push(r)));
        assert(fold_put(s, cap, recs) == fold_put(s1, cap, recs.drop_first()));
    }
}

/// However many records are replayed, in whatever order, the contents never
/// grow past the capacity.
pub proof fn lemma_fold_put_bounded(
    s: Seq<(Seq<char>, Seq<char>)>,
    cap: int,
    recs: Seq<(Seq<char>, Seq<char>)>,
)
    requires
        s.len() <= cap,
        1 <= cap,
    ensures
        fold_put(s, cap, recs).len() <= cap,
    decreases recs.len(),
{
    if recs.len() > 0 {
        crate::cache::lemma_put_bounded(s, cap, recs[0].0, recs[0].1);
        lemma_fold_put_bounded(spec_put(s, cap, recs[0].0, recs[0].1), cap, recs.drop_first());
    }
}

/// Replaying records with distinct keys into a cache that has room for all
/// of them appends them in order.
pub proof fn lemma_replay_extends(
    acc: Seq<(Seq<char>, Seq<char>)>,
    rest: Seq<(Seq<char>, Seq<char>)>,
    cap: int,
)
    requires
        unique_keys(acc + rest),
        acc.len() + rest.len() <= cap,
        1 <= cap,
    ensures
        fold_put(acc, cap, rest) == acc + rest,
    decreases rest.len(),
{
    if rest.len() == 0 {
        assert(acc + rest =~= acc);
    } else {
        let r0 = rest[0];
        assert(!has_key(acc, r0.0)) by {
            if has_key(acc, r0.0) {
                let w = choose|w: int| 0 <= w < acc.len() && (#[trigger] acc[w]).0 == r0.0;
                assert((acc + rest)[w] == acc[w]);
                assert((acc + rest)[acc.len() as int] == r0);
                assert((acc + rest)[w].0 != (acc + rest)[acc.len() as int].0);
            }
        }
        assert(spec_put(acc, cap, r0.0, r0.1) == acc.push((r0.0, r0.1)));
        assert(acc.push((r0.0, r0.1)) =~= acc + seq![r0]);
        assert((acc + seq![r0]) + rest.drop_first() =~= acc + rest);
        lemma_replay_extends(acc + seq![r0], rest.drop_first(), cap);
    }
}

/// Rebuilds a cache of the given capacity from an optional snapshot record.
#[verifier::loop_isolation(false)]
pub fn load_cache(capacity: usize, record: Option<&str>) -> (r: Result<Cache, LoadError>)
    ensures
        match r {
            Ok(c) => {
                &&& capacity >= 1
                &&& c.wf()
                &&& c.cap() == capacity
                &&& match record {
                    None => c@ == Seq::<(Seq<char>, Seq<char>)>::empty(),
                    Some(t) => spec_parse(t@) is Some && c@ == fold_put(
                        Seq::<(Seq<char>, Seq<char>)>::empty(),
                        capacity as int,
                        spec_parse(t@)->Some_0,
                    ),
                }
            },
            Err(e) => match e {
                LoadError::InvalidCapacity => capacity == 0,
                LoadError::Malformed => capacity >= 1 && (record matches Some(t) && spec_parse(t@)
                    is None),
            },
        },
{
    let mut cache = match Cache::new(capacity) {
        Ok(c) => c,
        Err(_) => {
            return Err(LoadError::InvalidCapacity);
        },
    };
    match record {
        None => Ok(cache),
        Some(t) => {
            let entries = match parse_snapshot(t) {
                Ok(v) => v,
                Err(_) => {
                    return Err(LoadError::Malformed);
                },
            };
            let ghost recs = spec_parse(t@)->Some_0;
            let n = entries.len();
            let mut i: usize = 0;
            while i < n
                invariant
                    i <= n,
                    n == recs.len(),
                    cache.wf(),
                    cache.cap() == capacity,
                    cache@ == fold_put(
                        Seq::<(Seq<char>, Seq<char>)>::empty(),
                        capacity as int,
                        recs.take(i as int),
                    ),
                decreases n - i,
            {
                let ghost before = cache@;
                let e = &entries[i];
                cache.put(e.key.as_str(), e.value.clone());
                proof {
                    assert(view_of_entries(entries@)[i as int] == recs[i as int]);
                    assert(recs[i as int] == (e.key@, e.value@));
                    assert(recs.take(i as int).push(recs[i as int]) =~= recs.take(i as int + 1));
                    lemma_fold_put_snoc(
                        Seq::<(Seq<char>, Seq<char>)>::empty(),
                        capacity as int,
                        recs.take(i as int),
                        recs[i as int],
                    );
                }
                i += 1;
            }
            proof {
                assert(recs.take(n as int) =~= recs);
            }
            Ok(cache)
        },
    }
}

/// Renders the cache's full current contents as the snapshot record that
/// replaces any prior one.
pub fn save_cache(cache: &Cache) -> (r: String)
    ensures
        r@ == snapshot_text(cache@),
{
    let entries = cache.entries();
    encode_snapshot(&entries)
}

/// Round trip: a saved record parses back to the cache's own contents, and
/// replaying those contents into an empty cache of the same capacity yields
/// the same records in the same recency order.
pub proof fn lemma_load_save_round_trip(c: Cache)
    requires
        c.wf(),
    ensures
        spec_parse(snapshot_text(c@)) == Some(c@),
        fold_put(Seq::<(Seq<char>, Seq<char>)>::empty(), c.cap(), c@) == c@,
{
    lemma_snapshot_round_trip(c@);
    assert(Seq::<(Seq<char>, Seq<char>)>::empty() + c@ =~= c@);
    lemma_replay_extends(Seq::<(Seq<char>, Seq<char>)>::empty(), c@, c.cap());
}

/// Saving is idempotent: any two records rendered from the same contents,
/// with no intervening mutation, are identical.
pub proof fn lemma_save_idempotent(c1: Cache, c2: Cache, r1: Seq<char>, r2: Seq<char>)
    requires
        c1@ == c2@,
        r1 == snapshot_text(c1@),
        r2 == snapshot_text(c2@),
    ensures
        r1 == r2,
{
}

} // verus!
