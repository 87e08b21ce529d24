//! What holds of the store over several operations.

use vstd::prelude::*;
use crate::db::{deadline_of, lists, StoreModel};

verus! {

/// A key that was set with a time to live reads as its value before its
/// deadline and as absent from its deadline on. With a time to live of zero
/// it is absent at once.
pub proof fn lemma_ttl_decides_read(
    m: StoreModel,
    key: Seq<char>,
    value: Seq<u8>,
    seconds: u64,
    now: u64,
    later: u64,
)
    ensures
        later >= now + seconds * 1000 ==> m.after_set(key, value, Some(seconds), now).read(
            key,
            later,
        ) is None,
        later < now + seconds * 1000 ==> m.after_set(key, value, Some(seconds), now).read(
            key,
            later,
        ) == Some(value),
        seconds == 0 && later >= now ==> m.after_set(key, value, Some(seconds), now).read(
            key,
            later,
        ) is None,
{
    assert(deadline_of(now, seconds) == now + seconds * 1000);
}

/// A key that was read as absent because it had expired stays absent.
pub proof fn lemma_expired_key_is_gone(m: StoreModel, key: Seq<char>, now: u64, later: u64)
    requires
        m.expired(key, now),
    ensures
        m.after_get(key, now).read(key, later) is None,
        !m.after_get(key, now).entries.contains_key(key),
        !m.after_get(key, now).expirations.contains_key(key),
{
}

/// A read of a key that has not expired changes nothing.
pub proof fn lemma_read_keeps_live_key(m: StoreModel, key: Seq<char>, now: u64)
    requires
        !m.expired(key, now),
    ensures
        m.after_get(key, now) == m,
{
}

/// Setting a key without a time to live clears the deadline it had: the key
/// then reads as its new value at every later instant, and reading it does
/// not change that.
pub proof fn lemma_plain_set_clears_ttl(
    m: StoreModel,
    key: Seq<char>,
    first: Seq<u8>,
    ttl: Option<u64>,
    then: u64,
    second: Seq<u8>,
    now: u64,
    later: u64,
)
    ensures
        ({
            let s = m.after_set(key, first, ttl, then).after_set(key, second, None, now);
            &&& s.read(key, later) == Some(second)
            &&& !s.expirations.contains_key(key)
            &&& s.after_get(key, later) == s
        }),
{
}

/// After a key was deleted it reads as absent, and deleting reports a key as
/// removed exactly when it had a value.
pub proof fn lemma_deleted_key_is_absent(m: StoreModel, key: Seq<char>, later: u64)
    ensures
        m.after_del(key).read(key, later) is None,
        !m.after_del(key).entries.contains_key(key),
        m.after_del(key).dirty == (m.dirty || m.entries.contains_key(key)),
{
}

/// Setting a key, and deleting one that had a value, mark the store as
/// changed; reading never does.
pub proof fn lemma_dirty_tracks_writes(
    m: StoreModel,
    key: Seq<char>,
    value: Seq<u8>,
    ttl: Option<u64>,
    now: u64,
)
    ensures
        m.after_set(key, value, ttl, now).dirty,
        m.entries.contains_key(key) ==> m.after_del(key).dirty,
        m.after_get(key, now).dirty == m.dirty,
{
}

/// Active expiration cannot be seen by a reader: at the instant of the
/// eviction and at every later one, each key reads as it would have read
/// without it. A key that had not expired keeps its value and its deadline.
pub proof fn lemma_eviction_is_unobservable(
    first: StoreModel,
    later: StoreModel,
    now: u64,
    key: Seq<char>,
    at: u64,
)
    requires
        first.evicted_to(later, now),
        at >= now,
    ensures
        later.read(key, at) == first.read(key, at),
        !first.expired(key, now) ==> later.entries.contains_key(key) == first.entries.contains_key(
            key,
        ) && later.expirations.contains_key(key) == first.expirations.contains_key(key),
{
    assert(first.kept_or_evicted(later, key, now));
}

/// Loading pairs sets no deadline and leaves the other parts of the store
/// as they were.
pub proof fn lemma_load_sets_no_deadline(m: StoreModel, pairs: Seq<(Seq<char>, Seq<u8>)>, n: nat)
    ensures
        m.after_load(pairs, n).expirations == m.expirations,
        m.after_load(pairs, n).channels == m.channels,
        m.after_load(pairs, n).dirty == m.dirty,
    decreases n,
{
    if n > 0 && n <= pairs.len() {
        lemma_load_sets_no_deadline(m, pairs, (n - 1) as nat);
    }
}

/// What an empty store holds after the first `n` pairs of a listing were loaded.
proof fn lemma_load_prefix(
    pairs: Seq<(Seq<char>, Seq<u8>)>,
    entries: Map<Seq<char>, Seq<u8>>,
    n: nat,
)
    requires
        lists(pairs, entries),
        n <= pairs.len(),
    ensures
        forall|k: Seq<char>| #[trigger]
            StoreModel::empty().after_load(pairs, n).entries.contains_key(k) ==> entries.contains_key(
                k,
            ) && StoreModel::empty().after_load(pairs, n).entries[k] == entries[k],
        forall|i: int|
            0 <= i < n ==> StoreModel::empty().after_load(pairs, n).entries.contains_key(
                (#[trigger] pairs[i]).0,
            ),
    decreases n,
{
    if n > 0 {
        lemma_load_prefix(pairs, entries, (n - 1) as nat);
        let before = StoreModel::empty().after_load(pairs, (n - 1) as nat).entries;
        let after = StoreModel::empty().after_load(pairs, n).entries;
        let last = pairs[n - 1];
        assert(after == before.insert(last.0, last.1));
        assert(entries.contains_key(last.0) && entries[last.0] == last.1);
        assert forall|i: int| 0 <= i < n implies after.contains_key((#[trigger] pairs[i]).0) by {
            if i < n - 1 {
                assert(before.contains_key(pairs[i].0));
            }
        }
    }
}

/// A store that is loaded from a listing of a dataset holds that dataset,
/// with no deadline on any key: each key reads as its value at every instant.
pub proof fn lemma_load_restores(
    pairs: Seq<(Seq<char>, Seq<u8>)>,
    entries: Map<Seq<char>, Seq<u8>>,
    key: Seq<char>,
    later: u64,
)
    requires
        lists(pairs, entries),
    ensures
        StoreModel::empty().after_load(pairs, pairs.len()).entries == entries,
        StoreModel::empty().after_load(pairs, pairs.len()).expirations == Map::<
            Seq<char>,
            u128,
        >::empty(),
        entries.contains_key(key) ==> StoreModel::empty().after_load(pairs, pairs.len()).read(
            key,
            later,
        ) == Some(entries[key]),
{
    let loaded = StoreModel::empty().after_load(pairs, pairs.len());
    lemma_load_prefix(pairs, entries, pairs.len());
    lemma_load_sets_no_deadline(StoreModel::empty(), pairs, pairs.len());
    assert forall|k: Seq<char>| entries.contains_key(k) implies loaded.entries.contains_key(k) by {
        let i = choose|i: int| 0 <= i < pairs.len() && (#[trigger] pairs[i]).0 == k;
        assert(loaded.entries.contains_key(pairs[i].0));
    }
    assert(loaded.entries =~= entries);
}

} // verus!
