//! The store: the dataset, the deadlines of its keys, and the channels.

use vstd::prelude::*;
use vstd::slice::slice_to_vec;
use dashmap::DashMap;
use tokio::sync::broadcast::{Receiver, Sender};

verus! {

/// How many messages a channel keeps for a slow subscriber.
pub const CHANNEL_CAPACITY: usize = 32;

/// How many deadlines one round of active expiration looks at.
pub const EVICTION_SAMPLE: usize = 20;

/// The time between two rounds of active expiration, in milliseconds.
pub const EVICTION_INTERVAL_MILLIS: u64 = 100;

/// The time between two looks of the periodic snapshot, in seconds.
pub const SNAPSHOT_INTERVAL_SECONDS: u64 = 60;

/// The concurrent map of the `dashmap` crate, as an opaque type.
#[verifier::external_type_specification]
#[verifier::external_body]
#[verifier::reject_recursive_types(K)]
#[verifier::reject_recursive_types(V)]
#[verifier::reject_recursive_types(S)]
pub struct ExDashMap<K, V, S>(DashMap<K, V, S>);

/// The sending half of tokio's broadcast channel, as an opaque type.
#[verifier::external_type_specification]
#[verifier::external_body]
#[verifier::reject_recursive_types(T)]
pub struct ExSender<T>(Sender<T>);

/// The receiving half of tokio's broadcast channel, as an opaque type.
#[verifier::external_type_specification]
#[verifier::external_body]
#[verifier::reject_recursive_types(T)]
pub struct ExReceiver<T>(Receiver<T>);

/// What a map of values holds: for each key its bytes.
pub uninterp spec fn stored(m: DashMap<String, Vec<u8>>) -> Map<Seq<char>, Seq<u8>>;

/// What a map of deadlines holds: for each key the instant at which it expires.
pub uninterp spec fn deadlines(m: DashMap<String, u128>) -> Map<Seq<char>, u128>;

/// The names of the channels that a registry holds a sender for.
pub uninterp spec fn channels(m: DashMap<String, Sender<Vec<u8>>>) -> Set<Seq<char>>;

/// The empty map of values.
pub open spec fn no_values() -> Map<Seq<char>, Seq<u8>> {
    Map::empty()
}

/// The empty map of deadlines.
pub open spec fn no_deadlines() -> Map<Seq<char>, u128> {
    Map::empty()
}

/// `DashMap::new` for the values: the new map is empty.
#[verifier::external_body]
fn new_values() -> (r: DashMap<String, Vec<u8>>)
    ensures
        stored(r) == no_values(),
{
    DashMap::new()
}

/// `DashMap::new` for the deadlines: the new map is empty.
#[verifier::external_body]
fn new_deadlines() -> (r: DashMap<String, u128>)
    ensures
        deadlines(r) == no_deadlines(),
{
    DashMap::new()
}

/// `DashMap::new` for the channels: the new registry is empty.
#[verifier::external_body]
fn new_channels() -> (r: DashMap<String, Sender<Vec<u8>>>)
    ensures
        channels(r) == Set::<Seq<char>>::empty(),
{
    DashMap::new()
}

/// `DashMap::insert` on the values: the key holds the new value afterwards,
/// every other key is as before.
#[verifier::external_body]
fn value_insert(m: &mut DashMap<String, Vec<u8>>, key: String, value: Vec<u8>)
    ensures
        stored(*final(m)) == stored(*old(m)).insert(key@, value@),
{
    m.insert(key, value);
}

/// `DashMap::remove` on the values: the key is gone afterwards, and the
/// result says whether it was there.
#[verifier::external_body]
fn value_remove(m: &mut DashMap<String, Vec<u8>>, key: &str) -> (existed: bool)
    ensures
        stored(*final(m)) == stored(*old(m)).remove(key@),
        existed == stored(*old(m)).contains_key(key@),
{
    m.remove(key).is_some()
}

/// `DashMap::get` on the values: a copy of the value under the key, if any.
#[verifier::external_body]
fn value_get(m: &DashMap<String, Vec<u8>>, key: &str) -> (r: Option<Vec<u8>>)
    ensures
        r is Some <==> stored(*m).contains_key(key@),
        r matches Some(v) ==> v@ == stored(*m)[key@],
{
    m.get(key).map(|entry| entry.value().clone())
}

/// `DashMap::iter` on the values: every pair of the map once, in no
/// particular order.
#[verifier::external_body]
fn value_pairs(m: &DashMap<String, Vec<u8>>) -> (r: Vec<(String, Vec<u8>)>)
    ensures
        forall|i: int|
            0 <= i < r@.len() ==> stored(*m).contains_key((#[trigger] r@[i]).0@) && stored(
                *m,
            )[r@[i].0@] == r@[i].1@,
        forall|k: Seq<char>|
            stored(*m).contains_key(k) ==> exists|i: int|
                0 <= i < r@.len() && (#[trigger] r@[i]).0@ == k,
        forall|i: int, j: int|
            0 <= i < j < r@.len() ==> (#[trigger] r@[i]).0@ != (#[trigger] r@[j]).0@,
{
    m.iter().map(|entry| (entry.key().clone(), entry.value().clone())).collect()
}

/// `DashMap::insert` on the deadlines.
#[verifier::external_body]
fn deadline_insert(m: &mut DashMap<String, u128>, key: String, deadline: u128)
    ensures
        deadlines(*final(m)) == deadlines(*old(m)).insert(key@, deadline),
{
    m.insert(key, deadline);
}

/// `DashMap::remove` on the deadlines.
#[verifier::external_body]
fn deadline_remove(m: &mut DashMap<String, u128>, key: &str)
    ensures
        deadlines(*final(m)) == deadlines(*old(m)).remove(key@),
{
    m.remove(key);
}

/// `DashMap::get` on the deadlines.
#[verifier::external_body]
fn deadline_get(m: &DashMap<String, u128>, key: &str) -> (r: Option<u128>)
    ensures
        r is Some <==> deadlines(*m).contains_key(key@),
        r matches Some(d) ==> d == deadlines(*m)[key@],
{
    m.get(key).map(|entry| *entry.value())
}

/// The texts of a run of keys.
pub open spec fn key_texts(keys: Seq<String>) -> Seq<Seq<char>> {
    Seq::new(keys.len(), |i: int| keys[i]@)
}

/// `DashMap::iter` on the deadlines, cut off after `limit` entries: keys of
/// the map, each at most once; which ones is not fixed. Where fewer than
/// `limit` come, the iteration ran to its end, so they are all the keys.
#[verifier::external_body]
fn deadline_keys(m: &DashMap<String, u128>, limit: usize) -> (r: Vec<String>)
    ensures
        r@.len() <= limit,
        forall|i: int| 0 <= i < r@.len() ==> deadlines(*m).contains_key((#[trigger] r@[i])@),
        key_texts(r@).no_duplicates(),
        r@.len() < limit ==> forall|k: Seq<char>|
            deadlines(*m).contains_key(k) ==> key_texts(r@).contains(k),
        limit > 0 && r@.len() == 0 ==> deadlines(*m) == no_deadlines(),
{
    m.iter().take(limit).map(|entry| entry.key().clone()).collect()
}

/// `DashMap::contains_key` on the channels.
#[verifier::external_body]
fn channel_exists(m: &DashMap<String, Sender<Vec<u8>>>, channel: &str) -> (r: bool)
    ensures
        r == channels(*m).contains(channel@),
{
    m.contains_key(channel)
}

/// `DashMap::entry` with `or_insert_with`, then `Sender::subscribe` of
/// tokio's broadcast channel: the channel has a sender afterwards, made with
/// room for `capacity` messages if there was none, and the result is a new
/// receiver of it. Making a channel panics for a capacity of zero or of more
/// than half of `usize::MAX`.
#[verifier::external_body]
fn channel_subscribe(
    m: &mut DashMap<String, Sender<Vec<u8>>>,
    channel: String,
    capacity: usize,
) -> (r: Receiver<Vec<u8>>)
    requires
        0 < capacity <= usize::MAX / 2,
    ensures
        channels(*final(m)) == channels(*old(m)).insert(channel@),
{
    m.entry(channel).or_insert_with(|| tokio::sync::broadcast::channel(capacity).0).value().subscribe()
}

/// `Sender::send` of tokio's broadcast channel on the sender of `channel`:
/// the number of receivers that the message was queued for, `None` where the
/// channel has no receiver left. The registry keeps its channels.
#[verifier::external_body]
fn channel_send(m: &DashMap<String, Sender<Vec<u8>>>, channel: &str, msg: Vec<u8>) -> (r: Option<
    usize,
>)
    requires
        channels(*m).contains(channel@),
{
    m.get(channel).and_then(|sender| sender.send(msg).ok())
}

/// The mathematical value of the store.
pub ghost struct StoreModel {
    /// The dataset.
    pub entries: Map<Seq<char>, Seq<u8>>,
    /// The deadline of each key that has one, in milliseconds.
    pub expirations: Map<Seq<char>, u128>,
    /// The channels that have a sender.
    pub channels: Set<Seq<char>>,
    /// Whether the dataset changed since the last snapshot was started.
    pub dirty: bool,
}

/// The deadline of a key set at `now` to live for `seconds`.
pub open spec fn deadline_of(now: u64, seconds: u64) -> u128 {
    (now + seconds * 1000) as u128
}

impl StoreModel {
    /// The store that holds nothing.
    pub open spec fn empty() -> StoreModel {
        StoreModel {
            entries: Map::empty(),
            expirations: Map::empty(),
            channels: Set::empty(),
            dirty: false,
        }
    }

    /// Whether every key with a deadline has a value.
    pub open spec fn well_formed(self) -> bool {
        forall|k: Seq<char>| #[trigger]
            self.expirations.contains_key(k) ==> self.entries.contains_key(k)
    }

    /// Whether the deadline of `key` has come at `now`.
    pub open spec fn expired(self, key: Seq<char>, now: u64) -> bool {
        self.expirations.contains_key(key) && self.expirations[key] <= now
    }

    /// The store without `key`.
    pub open spec fn without(self, key: Seq<char>) -> StoreModel {
        StoreModel {
            entries: self.entries.remove(key),
            expirations: self.expirations.remove(key),
            ..self
        }
    }

    /// The store after `key` was set to `value` at `now`: with a time to live
    /// the key gets a deadline, without one it loses the deadline it had.
    pub open spec fn after_set(self, key: Seq<char>, value: Seq<u8>, ttl: Option<u64>, now: u64) -> StoreModel {
        StoreModel {
            entries: self.entries.insert(key, value),
            expirations: match ttl {
                Some(seconds) => self.expirations.insert(key, deadline_of(now, seconds)),
                None => self.expirations.remove(key),
            },
            dirty: true,
            ..self
        }
    }

    /// What a read of `key` at `now` returns: nothing for an expired or
    /// absent key.
    pub open spec fn read(self, key: Seq<char>, now: u64) -> Option<Seq<u8>> {
        if self.expired(key, now) || !self.entries.contains_key(key) {
            None
        } else {
            Some(self.entries[key])
        }
    }

    /// The store after a read of `key` at `now`: an expired key is gone.
    pub open spec fn after_get(self, key: Seq<char>, now: u64) -> StoreModel {
        if self.expired(key, now) {
            self.without(key)
        } else {
            self
        }
    }

    /// The store after the first `n` of `pairs` were inserted in order, as a
    /// snapshot is loaded: no deadline is set and the store is not marked as
    /// changed.
    pub open spec fn after_load(self, pairs: Seq<(Seq<char>, Seq<u8>)>, n: nat) -> StoreModel
        decreases n,
    {
        if n == 0 || n > pairs.len() {
            self
        } else {
            let before = self.after_load(pairs, (n - 1) as nat);
            StoreModel { entries: before.entries.insert(pairs[n - 1].0, pairs[n - 1].1), ..before }
        }
    }

    /// Whether `key` is in `later` as it is in `self`, or was expired at
    /// `now` and is gone from `later`, value and deadline.
    pub open spec fn kept_or_evicted(self, later: StoreModel, key: Seq<char>, now: u64) -> bool {
        ||| (self.entries.contains_key(key) == later.entries.contains_key(key)
            && self.expirations.contains_key(key) == later.expirations.contains_key(key)
            && (self.entries.contains_key(key) ==> self.entries[key] == later.entries[key])
            && (self.expirations.contains_key(key) ==> self.expirations[key]
            == later.expirations[key]))
        ||| (self.expired(key, now) && !later.entries.contains_key(key)
            && !later.expirations.contains_key(key))
    }

    /// Whether no key is expired at `now`.
    pub open spec fn none_expired(self, now: u64) -> bool {
        forall|k: Seq<char>| !#[trigger] self.expired(k, now)
    }

    /// The keys that have a deadline in `self` and none in `later`.
    pub open spec fn evicted_keys(self, later: StoreModel) -> Set<Seq<char>> {
        Set::new(
            |k: Seq<char>| self.expirations.contains_key(k) && !later.expirations.contains_key(k),
        )
    }

    /// The store without the keys of `gone`: each loses its value and its
    /// deadline.
    pub open spec fn without_all(self, gone: Set<Seq<char>>) -> StoreModel {
        StoreModel {
            entries: self.entries.remove_keys(gone),
            expirations: self.expirations.remove_keys(gone),
            ..self
        }
    }

    /// Whether at least one key has a deadline and every such key has
    /// expired at `now`.
    pub open spec fn all_deadlines_passed(self, now: u64) -> bool {
        &&& exists|k: Seq<char>| self.expirations.contains_key(k)
        &&& forall|k: Seq<char>| self.expirations.contains_key(k) ==> self.expired(k, now)
    }

    /// Whether `later` is `self` after some keys that were expired at `now`
    /// were evicted, and nothing else changed.
    pub open spec fn evicted_to(self, later: StoreModel, now: u64) -> bool {
        &&& later.channels == self.channels
        &&& later.dirty == self.dirty
        &&& forall|k: Seq<char>| #[trigger] self.kept_or_evicted(later, k, now)
    }

    /// The store after `key` was deleted.
    pub open spec fn after_del(self, key: Seq<char>) -> StoreModel {
        StoreModel { dirty: self.dirty || self.entries.contains_key(key), ..self.without(key) }
    }
}

/// Setting, reading and deleting a key keep every deadline with its value.
pub proof fn lemma_well_formed_kept(
    m: StoreModel,
    key: Seq<char>,
    value: Seq<u8>,
    ttl: Option<u64>,
    now: u64,
)
    requires
        m.well_formed(),
    ensures
        m.after_set(key, value, ttl, now).well_formed(),
        m.after_get(key, now).well_formed(),
        m.after_del(key).well_formed(),
        m.without(key).well_formed(),
{
    let a = m.after_set(key, value, ttl, now);
    assert forall|k: Seq<char>| #[trigger] a.expirations.contains_key(k) implies a.entries.contains_key(k) by {
        if k != key {
            assert(m.expirations.contains_key(k));
        }
    }
    let w = m.without(key);
    assert forall|k: Seq<char>| #[trigger] w.expirations.contains_key(k) implies w.entries.contains_key(k) by {
        assert(m.expirations.contains_key(k));
    }
    assert(m.after_del(key).expirations == w.expirations);
    assert(m.after_del(key).entries == w.entries);
}

/// Evicting one more expired key from a store that came by evictions is
/// still an eviction of expired keys only.
pub proof fn lemma_evict_one_more(first: StoreModel, m: StoreModel, key: Seq<char>, now: u64)
    requires
        first.evicted_to(m, now),
        m.expired(key, now),
    ensures
        first.evicted_to(m.without(key), now),
{
    let w = m.without(key);
    assert forall|k: Seq<char>| #[trigger] first.kept_or_evicted(w, k, now) by {
        assert(first.kept_or_evicted(m, k, now));
    }
}

/// The pairs of a listing, each as its key's text and its value's bytes.
pub open spec fn pairs_view(pairs: Seq<(String, Vec<u8>)>) -> Seq<(Seq<char>, Seq<u8>)> {
    Seq::new(pairs.len(), |i: int| (pairs[i].0@, pairs[i].1@))
}

/// Whether `pairs` lists the map `m`: every pair of the map once.
pub open spec fn lists(pairs: Seq<(Seq<char>, Seq<u8>)>, m: Map<Seq<char>, Seq<u8>>) -> bool {
    &&& forall|i: int|
        0 <= i < pairs.len() ==> m.contains_key((#[trigger] pairs[i]).0) && m[pairs[i].0]
            == pairs[i].1
    &&& forall|k: Seq<char>|
        m.contains_key(k) ==> exists|i: int| 0 <= i < pairs.len() && (#[trigger] pairs[i]).0 == k
    &&& forall|i: int, j: int|
        0 <= i < j < pairs.len() ==> (#[trigger] pairs[i]).0 != (#[trigger] pairs[j]).0
}

/// The store.
pub struct Db {
    entries: DashMap<String, Vec<u8>>,
    expirations: DashMap<String, u128>,
    pub_sub: DashMap<String, Sender<Vec<u8>>>,
    changed: bool,
}

impl View for Db {
    type V = StoreModel;

    closed spec fn view(&self) -> StoreModel {
        StoreModel {
            entries: stored(self.entries),
            expirations: deadlines(self.expirations),
            channels: channels(self.pub_sub),
            dirty: self.changed,
        }
    }
}

/// The number that a publish reports: the receivers that the message was
/// queued for, none where the channel had no receiver.
pub fn receivers_of(sent: Option<usize>) -> (n: usize)
    ensures
        n == match sent {
            Some(count) => count,
            None => 0,
        },
{
    match sent {
        Some(count) => count,
        None => 0,
    }
}

impl Db {
    /// An empty store.
    pub fn new() -> (db: Db)
        ensures
            db@ == StoreModel::empty(),
            db@.well_formed(),
    {
        Db {
            entries: new_values(),
            expirations: new_deadlines(),
            pub_sub: new_channels(),
            changed: false,
        }
    }

    /// Sets `key` to `value` at the instant `now`, in milliseconds. With a
    /// time to live in seconds the key expires that long after `now`;
    /// without one it never expires.
    pub fn set(&mut self, key: String, value: Vec<u8>, ttl_seconds: Option<u64>, now: u64)
        ensures
            final(self)@ == old(self)@.after_set(key@, value@, ttl_seconds, now),
            old(self)@.well_formed() ==> final(self)@.well_formed(),
    {
        proof {
            if self@.well_formed() {
                lemma_well_formed_kept(self@, key@, value@, ttl_seconds, now);
            }
        }
        match ttl_seconds {
            Some(seconds) => {
                let deadline: u128 = now as u128 + seconds as u128 * 1000;
                let name = key.clone();
                value_insert(&mut self.entries, key, value);
                deadline_insert(&mut self.expirations, name, deadline);
            },
            None => {
                deadline_remove(&mut self.expirations, key.as_str());
                value_insert(&mut self.entries, key, value);
            },
        }
        self.changed = true;
    }

    /// The value of `key` at the instant `now`. A key whose deadline has come
    /// is removed and reads as absent.
    pub fn get(&mut self, key: &str, now: u64) -> (r: Option<Vec<u8>>)
        ensures
            final(self)@ == old(self)@.after_get(key@, now),
            old(self)@.well_formed() ==> final(self)@.well_formed(),
            match old(self)@.read(key@, now) {
                Some(v) => r matches Some(got) && got@ == v,
                None => r is None,
            },
    {
        proof {
            if self@.well_formed() {
                lemma_well_formed_kept(self@, key@, Seq::empty(), None, now);
            }
        }
        match deadline_get(&self.expirations, key) {
            Some(deadline) => {
                if deadline <= now as u128 {
                    value_remove(&mut self.entries, key);
                    deadline_remove(&mut self.expirations, key);
                    return None;
                }
            },
            None => {},
        }
        value_get(&self.entries, key)
    }

    /// Inserts the pairs in order, as when a snapshot is loaded: a key that
    /// comes twice keeps its last value, no deadline is set or cleared, and
    /// the store is not marked as changed.
    pub fn bulk_insert(&mut self, entries: Vec<(String, Vec<u8>)>)
        ensures
            final(self)@ == old(self)@.after_load(pairs_view(entries@), entries@.len()),
            old(self)@.well_formed() ==> final(self)@.well_formed(),
    {
        let ghost pairs = pairs_view(entries@);
        let mut i: usize = 0;
        while i < entries.len()
            invariant
                i <= entries.len(),
                pairs == pairs_view(entries@),
                self@ == old(self)@.after_load(pairs, i as nat),
                old(self)@.well_formed() ==> self@.well_formed(),
            decreases entries.len() - i,
        {
            let key = entries[i].0.clone();
            let value = slice_to_vec(entries[i].1.as_slice());
            let ghost before = self@;
            value_insert(&mut self.entries, key, value);
            proof {
                if before.well_formed() {
                    assert forall|k: Seq<char>| #[trigger]
                        self@.expirations.contains_key(k) implies self@.entries.contains_key(k) by {
                        assert(before.expirations.contains_key(k));
                    }
                }
            }
            i = i + 1;
        }
    }

    /// One round of active expiration at the instant `now`: looks at up to
    /// `limit` keys that have a deadline and evicts those whose deadline has
    /// come. The keys that lose their deadline lose their value too, and
    /// nothing else changes; the result is the number of those keys. Which
    /// keys it looks at is not fixed, but a round with a limit above the
    /// number of deadlines looks at all of them and leaves no expired key,
    /// and a round with a limit above zero evicts at least one key where
    /// every deadline has passed.
    pub fn evict_expired(&mut self, now: u64, limit: usize) -> (evicted: usize)
        ensures
            old(self)@.evicted_to(final(self)@, now),
            final(self)@ == old(self)@.without_all(old(self)@.evicted_keys(final(self)@)),
            old(self)@.evicted_keys(final(self)@).finite(),
            evicted == old(self)@.evicted_keys(final(self)@).len(),
            old(self)@.well_formed() ==> final(self)@.well_formed(),
            evicted <= limit,
            evicted == 0 ==> final(self)@ == old(self)@,
            old(self)@.expirations.dom().finite() && old(self)@.expirations.dom().len() < limit
                ==> final(self)@.none_expired(now),
            limit > 0 && old(self)@.all_deadlines_passed(now) ==> evicted >= 1,
    {
        let keys = deadline_keys(&self.expirations, limit);
        let mut evicted: usize = 0;
        let mut i: usize = 0;
        let ghost mut gone: Set<Seq<char>> = Set::empty();
        let ghost texts = key_texts(keys@);
        let ghost sweeps = old(self)@.expirations.dom().finite() && old(
            self,
        )@.expirations.dom().len() < limit;
        proof {
            if sweeps {
                let dom = self@.expirations.dom();
                texts.unique_seq_to_set();
                assert(texts.to_set().subset_of(dom)) by {
                    assert forall|k: Seq<char>| texts.to_set().contains(k) implies dom.contains(
                        k,
                    ) by {
                        let j = choose|j: int| 0 <= j < texts.len() && texts[j] == k;
                        assert(self@.expirations.contains_key(keys@[j]@));
                    }
                }
                vstd::set_lib::lemma_len_subset(texts.to_set(), dom);
                assert(keys@.len() < limit);
            }
            assert(self@.entries.remove_keys(gone) =~= self@.entries);
            assert(self@.expirations.remove_keys(gone) =~= self@.expirations);
            assert forall|k: Seq<char>| #[trigger] self@.kept_or_evicted(self@, k, now) by {}
            if limit > 0 && self@.all_deadlines_passed(now) {
                let k = choose|k: Seq<char>| self@.expirations.contains_key(k);
                assert(self@.expirations.contains_key(k));
                assert(keys@.len() > 0);
            }
        }
        while i < keys.len()
            invariant
                i <= keys.len(),
                keys.len() <= limit,
                evicted <= i,
                evicted == 0 ==> self@ == old(self)@,
                limit > 0 && old(self)@.all_deadlines_passed(now) ==> keys@.len() > 0
                    && old(self)@.expirations.contains_key(keys@[0]@),
                i > 0 && old(self)@.all_deadlines_passed(now) ==> evicted >= 1,
                old(self)@.evicted_to(self@, now),
                old(self)@.well_formed() ==> self@.well_formed(),
                gone.finite(),
                gone.len() == evicted,
                forall|k: Seq<char>| gone.contains(k) ==> old(self)@.expirations.contains_key(k),
                self@ == old(self)@.without_all(gone),
                texts == key_texts(keys@),
                sweeps ==> forall|k: Seq<char>|
                    old(self)@.expirations.contains_key(k) ==> texts.contains(k),
                forall|j: int|
                    0 <= j < i ==> gone.contains(#[trigger] texts[j]) || !old(self)@.expired(
                        texts[j],
                        now,
                    ),
            decreases keys.len() - i,
        {
            let key = keys[i].as_str();
            assert(key@ == texts[i as int]);
            proof {
                if i == 0 && old(self)@.all_deadlines_passed(now) {
                    assert(self@ == old(self)@);
                    assert(old(self)@.expirations.contains_key(key@));
                    assert(old(self)@.expired(key@, now));
                }
            }
            match deadline_get(&self.expirations, key) {
                Some(deadline) => {
                    if deadline <= now as u128 {
                        proof {
                            lemma_evict_one_more(old(self)@, self@, key@, now);
                            if self@.well_formed() {
                                lemma_well_formed_kept(self@, key@, Seq::empty(), None, now);
                            }
                        }
                        let ghost before = self@;
                        value_remove(&mut self.entries, key);
                        deadline_remove(&mut self.expirations, key);
                        evicted = evicted + 1;
                        proof {
                            assert(before.expirations.contains_key(key@));
                            assert(!gone.contains(key@));
                            let more = gone.insert(key@);
                            assert(self@.entries =~= old(self)@.entries.remove_keys(more));
                            assert(self@.expirations =~= old(self)@.expirations.remove_keys(more));
                            gone = more;
                        }
                    }
                },
                None => {},
            }
            i = i + 1;
        }
        proof {
            assert(old(self)@.evicted_keys(self@) =~= gone);
            if sweeps {
                assert forall|k: Seq<char>| !#[trigger] self@.expired(k, now) by {
                    if self@.expired(k, now) {
                        assert(old(self)@.expirations.contains_key(k));
                        assert(texts.contains(k));
                        let j = choose|j: int| 0 <= j < texts.len() && texts[j] == k;
                        assert(gone.contains(texts[j]) || !old(self)@.expired(texts[j], now));
                    }
                }
            }
        }
        evicted
    }

    /// A new receiver of `channel`, which gets a sender if it had none.
    pub fn subscribe(&mut self, channel: String) -> (receiver: Receiver<Vec<u8>>)
        ensures
            final(self)@ == (StoreModel {
                channels: old(self)@.channels.insert(channel@),
                ..old(self)@
            }),
    {
        channel_subscribe(&mut self.pub_sub, channel, CHANNEL_CAPACITY)
    }

    /// Publishes `msg` on `channel` and returns how many receivers it was
    /// queued for: none where the channel has no sender or no receiver.
    pub fn publish(&self, channel: String, msg: Vec<u8>) -> (receivers: usize)
        ensures
            !self@.channels.contains(channel@) ==> receivers == 0,
    {
        if !channel_exists(&self.pub_sub, channel.as_str()) {
            return 0;
        }
        receivers_of(channel_send(&self.pub_sub, channel.as_str(), msg))
    }

    /// Whether the dataset changed since the last snapshot was started.
    pub fn is_dirty(&self) -> (dirty: bool)
        ensures
            dirty == self@.dirty,
    {
        self.changed
    }

    /// Starts a snapshot: says whether the dataset changed since the last
    /// one was started, and marks it as unchanged.
    pub fn take_dirty(&mut self) -> (dirty: bool)
        ensures
            dirty == old(self)@.dirty,
            final(self)@ == (StoreModel { dirty: false, ..old(self)@ }),
    {
        let dirty = self.changed;
        self.changed = false;
        dirty
    }

    /// Marks the dataset as changed, as after a snapshot that failed.
    pub fn mark_dirty(&mut self)
        ensures
            final(self)@ == (StoreModel { dirty: true, ..old(self)@ }),
    {
        self.changed = true;
    }

    /// The pairs of the dataset, each once, in no particular order.
    pub fn pairs(&self) -> (r: Vec<(String, Vec<u8>)>)
        ensures
            lists(pairs_view(r@), self@.entries),
    {
        let r = value_pairs(&self.entries);
        proof {
            let pv = pairs_view(r@);
            let m = self@.entries;
            assert forall|k: Seq<char>| m.contains_key(k) implies exists|i: int|
                0 <= i < pv.len() && (#[trigger] pv[i]).0 == k by {
                let i = choose|i: int| 0 <= i < r@.len() && (#[trigger] r@[i]).0@ == k;
                assert(pv[i].0 == k);
            }
            assert forall|i: int, j: int| 0 <= i < j < pv.len() implies (#[trigger] pv[i]).0 != (
            #[trigger] pv[j]).0 by {
                assert(r@[i].0@ != r@[j].0@);
            }
            assert forall|i: int| 0 <= i < pv.len() implies m.contains_key((#[trigger] pv[i]).0)
                && m[pv[i].0] == pv[i].1 by {
                assert(m.contains_key(r@[i].0@));
            }
        }
        r
    }

    /// Deletes `key`, and says whether it had a value.
    pub fn del(&mut self, key: &str) -> (removed: bool)
        ensures
            final(self)@ == old(self)@.after_del(key@),
            old(self)@.well_formed() ==> final(self)@.well_formed(),
            removed == old(self)@.entries.contains_key(key@),
    {
        proof {
            if self@.well_formed() {
                lemma_well_formed_kept(self@, key@, Seq::empty(), None, 0);
            }
        }
        let removed = value_remove(&mut self.entries, key);
        if removed {
            self.changed = true;
        }
        deadline_remove(&mut self.expirations, key);
        removed
    }
}

} // verus!
