//! The key-value store: byte-string keys, byte-string values, and for each
//! entry the instant at which it expires, if it does.
//!
//! Time is a count of milliseconds on a clock that the caller reads and hands
//! in; the store never reads a clock itself. Expiry is lazy: an entry that is
//! past its instant stays where it is, and every lookup treats it as absent.
//!
//! The entries stand in a hash map from the hash of a key to the few entries
//! whose keys have that hash, so that a lookup compares the key with those
//! alone.

use std::collections::hash_map::DefaultHasher;
use std::collections::HashMap;
use std::hash::Hasher;
use vstd::prelude::*;
use vstd::std_specs::hash::*;
use vstd::std_specs::iter::IteratorSpec;

verus! {

broadcast use vstd::std_specs::hash::group_hash_axioms;

/// What the store keeps for a key.
#[derive(Clone, Debug, PartialEq, Eq)]
pub struct StoreEntry {
    /// The value.
    pub value: Vec<u8>,
    /// The first instant at which the entry counts as absent; `None` for an
    /// entry that does not expire.
    pub expires_at: Option<u128>,
}

/// The mathematical value of an entry.
pub struct EntryView {
    pub value: Seq<u8>,
    pub expires_at: Option<nat>,
}

impl EntryView {
    /// Whether the entry can still be read at the instant `now`.
    pub open spec fn live_at(self, now: u64) -> bool {
        match self.expires_at {
            None => true,
            Some(instant) => now < instant,
        }
    }
}

impl View for StoreEntry {
    type V = EntryView;

    open spec fn view(&self) -> EntryView {
        EntryView {
            value: self.value@,
            expires_at: match self.expires_at {
                None => None,
                Some(instant) => Some(instant as nat),
            },
        }
    }
}

impl StoreEntry {
    /// Whether the entry can still be read at the instant `now`.
    pub fn is_live(&self, now: u64) -> (live: bool)
        ensures
            live == self@.live_at(now),
    {
        match self.expires_at {
            None => true,
            Some(instant) => (now as u128) < instant,
        }
    }
}

/// The instant at which an entry written at `now` with the time to live
/// `ttl` expires.
pub open spec fn deadline(now: u64, ttl: Option<u64>) -> Option<nat> {
    match ttl {
        None => None,
        Some(millis) => Some((now + millis) as nat),
    }
}

/// The entry that a write of `value` at the instant `now` leaves.
pub open spec fn written(value: Seq<u8>, ttl: Option<u64>, now: u64) -> EntryView {
    EntryView { value, expires_at: deadline(now, ttl) }
}

/// What a lookup of `key` at the instant `now` finds in `entries`: the value
/// of the key's entry, unless there is none or it has expired.
pub open spec fn lookup(entries: Map<Seq<u8>, EntryView>, key: Seq<u8>, now: u64) -> Option<
    Seq<u8>,
> {
    if entries.dom().contains(key) && entries[key].live_at(now) {
        Some(entries[key].value)
    } else {
        None
    }
}

/// The entries of `entries` that can still be read at the instant `now`.
pub open spec fn unexpired(entries: Map<Seq<u8>, EntryView>, now: u64) -> Map<Seq<u8>, EntryView> {
    Map::new(
        |key: Seq<u8>| entries.dom().contains(key) && entries[key].live_at(now),
        |key: Seq<u8>| entries[key],
    )
}

/// A key with its entry.
struct Slot {
    key: Vec<u8>,
    entry: StoreEntry,
}

/// The store. No key is held twice, and every entry stands under the hash
/// of its key.
pub struct Store {
    buckets: HashMap<u64, Vec<Slot>>,
}

/// The hash under which the entry of `key` stands.
spec fn bucket_of(key: Seq<u8>) -> u64 {
    DefaultHasher::spec_finish(seq![key])
}

/// The entries that stand under the hash `hash`.
spec fn chain(buckets: Map<u64, Vec<Slot>>, hash: u64) -> Seq<Slot> {
    if buckets.contains_key(hash) {
        buckets[hash]@
    } else {
        Seq::empty()
    }
}

/// Whether `slots` may stand under the hash `hash`: their keys have that
/// hash and differ from one another.
spec fn fits(slots: Seq<Slot>, hash: u64) -> bool {
    distinct_keys(slots) && forall|i: int|
        0 <= i < slots.len() ==> bucket_of((#[trigger] slots[i]).key@) == hash
}

/// The entries by key.
spec fn entries_of(buckets: Map<u64, Vec<Slot>>) -> Map<Seq<u8>, EntryView> {
    Map::new(
        |key: Seq<u8>| model(chain(buckets, bucket_of(key))).dom().contains(key),
        |key: Seq<u8>| model(chain(buckets, bucket_of(key)))[key],
    )
}

/// Whether no two of `slots` have the same key.
spec fn distinct_keys(slots: Seq<Slot>) -> bool {
    forall|i: int, j: int| 0 <= i < j < slots.len() ==> slots[i].key@ != slots[j].key@
}

/// The entries of `slots` by key.
spec fn model(slots: Seq<Slot>) -> Map<Seq<u8>, EntryView>
    decreases slots.len(),
{
    if slots.len() == 0 {
        Map::empty()
    } else {
        model(slots.drop_last()).insert(slots.last().key@, slots.last().entry@)
    }
}

/// The keys of the entries of `slots` are the keys of the slots.
proof fn lemma_model_dom(slots: Seq<Slot>, key: Seq<u8>)
    ensures
        model(slots).dom().contains(key) <==> exists|i: int|
            0 <= i < slots.len() && #[trigger] slots[i].key@ == key,
    decreases slots.len(),
{
    if slots.len() > 0 {
        let init = slots.drop_last();
        lemma_model_dom(init, key);
        if model(slots).dom().contains(key) {
            if slots.last().key@ == key {
                assert(slots[slots.len() - 1].key@ == key);
            } else {
                let i = choose|i: int| 0 <= i < init.len() && #[trigger] init[i].key@ == key;
                assert(slots[i].key@ == key);
            }
        }
        if exists|i: int| 0 <= i < slots.len() && #[trigger] slots[i].key@ == key {
            let i = choose|i: int| 0 <= i < slots.len() && #[trigger] slots[i].key@ == key;
            if i < init.len() {
                assert(init[i].key@ == key);
            }
        }
    }
}

/// Where no key stands twice, each slot's key leads to that slot's entry.
proof fn lemma_model_at(slots: Seq<Slot>, i: int)
    requires
        distinct_keys(slots),
        0 <= i < slots.len(),
    ensures
        model(slots).dom().contains(slots[i].key@),
        model(slots)[slots[i].key@] == slots[i].entry@,
    decreases slots.len(),
{
    let init = slots.drop_last();
    if i < slots.len() - 1 {
        assert(distinct_keys(init)) by {
            assert forall|a: int, b: int| 0 <= a < b < init.len() implies init[a].key@
                != init[b].key@ by {
                assert(slots[a].key@ != slots[b].key@);
            }
        }
        lemma_model_at(init, i);
        assert(init[i] == slots[i]);
        assert(slots[i].key@ != slots[slots.len() - 1].key@);
    }
}

/// A slot put in the place of the slot with its key replaces that key's
/// entry and leaves the others alone.
proof fn lemma_model_replace(slots: Seq<Slot>, i: int, slot: Slot)
    requires
        distinct_keys(slots),
        0 <= i < slots.len(),
        slot.key@ == slots[i].key@,
    ensures
        distinct_keys(slots.update(i, slot)),
        model(slots.update(i, slot)) == model(slots).insert(slot.key@, slot.entry@),
    decreases slots.len(),
{
    let next = slots.update(i, slot);
    assert(distinct_keys(next)) by {
        assert forall|a: int, b: int| 0 <= a < b < next.len() implies next[a].key@
            != next[b].key@ by {
            assert(slots[a].key@ != slots[b].key@);
        }
    }
    let init = slots.drop_last();
    if i == slots.len() - 1 {
        assert(next.drop_last() =~= init);
        assert(model(next) =~= model(slots).insert(slot.key@, slot.entry@));
    } else {
        assert(distinct_keys(init)) by {
            assert forall|a: int, b: int| 0 <= a < b < init.len() implies init[a].key@
                != init[b].key@ by {
                assert(slots[a].key@ != slots[b].key@);
            }
        }
        lemma_model_replace(init, i, slot);
        assert(next.drop_last() =~= init.update(i, slot));
        assert(next.last() == slots.last());
        assert(slots[i].key@ != slots[slots.len() - 1].key@);
        assert(model(next) =~= model(slots).insert(slot.key@, slot.entry@));
    }
}

/// Whether `slot` is one of `slots`.
spec fn holds(slots: Seq<Slot>, slot: Slot) -> bool {
    exists|a: int| 0 <= a < slots.len() && slots[a] == slot
}

/// Whether `slot` stands in `slots` at or after `from`.
spec fn stands(slots: Seq<Slot>, from: int, slot: Slot) -> bool {
    exists|j: int| from <= j < slots.len() && slots[j] == slot
}

/// A place at or after `from` at which `slot` stands in `slots`.
spec fn place_of(slots: Seq<Slot>, from: int, slot: Slot) -> int {
    choose|j: int| from <= j < slots.len() && slots[j] == slot
}

/// Whether `slot` stands in `slots` at or after `from` and has not expired
/// by `now`.
spec fn survives(slots: Seq<Slot>, from: int, slot: Slot, now: u64) -> bool {
    stands(slots, from, slot) && slot.entry@.live_at(now)
}

/// The slots that were kept because they had not expired hold the
/// unexpired entries and no others.
proof fn lemma_model_of_survivors(before: Seq<Slot>, kept: Seq<Slot>, now: u64)
    requires
        distinct_keys(before),
        distinct_keys(kept),
        forall|a: int| 0 <= a < kept.len() ==> survives(before, 0, #[trigger] kept[a], now),
        forall|j: int|
            0 <= j < before.len() && before[j].entry@.live_at(now) ==> holds(
                kept,
                #[trigger] before[j],
            ),
    ensures
        model(kept) == unexpired(model(before), now),
{
    let full = model(before);
    let left = model(kept);
    let right = unexpired(full, now);
    assert forall|key: Seq<u8>| #[trigger] left.dom().contains(key) implies right.dom().contains(
        key,
    ) && left[key] == right[key] by {
        lemma_model_dom(kept, key);
        let a = choose|a: int| 0 <= a < kept.len() && #[trigger] kept[a].key@ == key;
        assert(survives(before, 0, kept[a], now));
        let j = place_of(before, 0, kept[a]);
        lemma_model_at(kept, a);
        lemma_model_at(before, j);
    }
    assert forall|key: Seq<u8>| #[trigger] right.dom().contains(key) implies left.dom().contains(
        key,
    ) by {
        lemma_model_dom(before, key);
        let j = choose|j: int| 0 <= j < before.len() && #[trigger] before[j].key@ == key;
        lemma_model_at(before, j);
        assert(holds(kept, before[j]));
        let a = choose|a: int| 0 <= a < kept.len() && kept[a] == before[j];
        lemma_model_at(kept, a);
    }
    assert(left.dom() =~= right.dom());
    assert(left =~= right);
}

/// Compares two byte strings.
fn same_bytes(a: &[u8], b: &[u8]) -> (same: bool)
    ensures
        same == (a@ == b@),
{
    if a.len() != b.len() {
        return false;
    }
    let mut i: usize = 0;
    while i < a.len()
        invariant
            0 <= i <= a.len(),
            a.len() == b.len(),
            forall|j: int| 0 <= j < i ==> a@[j] == b@[j],
        decreases a.len() - i,
    {
        if a[i] != b[i] {
            return false;
        }
        i = i + 1;
    }
    assert(a@ =~= b@);
    true
}

/// Finds the slot that holds `key`.
fn position(slots: &Vec<Slot>, key: &[u8]) -> (at: Option<usize>)
    ensures
        match at {
            Some(i) => i < slots.len() && slots[i as int].key@ == key@,
            None => forall|i: int| 0 <= i < slots.len() ==> (#[trigger] slots[i]).key@ != key@,
        },
{
    let mut i: usize = 0;
    while i < slots.len()
        invariant
            0 <= i <= slots.len(),
            forall|j: int| 0 <= j < i ==> (#[trigger] slots[j]).key@ != key@,
        decreases slots.len() - i,
    {
        if same_bytes(slots[i].key.as_slice(), key) {
            return Some(i);
        }
        i = i + 1;
    }
    None
}

/// The hash of a key.
fn hash_key(key: &[u8]) -> (hash: u64)
    ensures
        hash == bucket_of(key@),
{
    let mut hasher = DefaultHasher::new();
    hasher.write(key);
    hasher.finish()
}

/// Puts `slot` among `slots`, in place of the slot with its key if there
/// is one.
fn put(slots: &mut Vec<Slot>, slot: Slot, hash: Ghost<u64>)
    requires
        fits(old(slots)@, hash@),
        bucket_of(slot.key@) == hash@,
    ensures
        fits(final(slots)@, hash@),
        model(final(slots)@) == model(old(slots)@).insert(slot.key@, slot.entry@),
{
    let ghost before = slots@;
    match position(slots, slot.key.as_slice()) {
        Some(i) => {
            proof {
                lemma_model_replace(before, i as int, slot);
            }
            slots.set(i, slot);
        },
        None => {
            proof {
                let after = before.push(slot);
                assert(after.drop_last() =~= before);
                assert forall|a: int, b: int| 0 <= a < b < after.len() implies after[a].key@
                    != after[b].key@ by {
                    if b < before.len() {
                        assert(before[a].key@ != before[b].key@);
                    } else {
                        assert(before[a].key@ != slot.key@);
                    }
                }
            }
            slots.push(slot);
        },
    }
}

/// Keeps the slots that have not expired by `now`.
fn sift(slots: Vec<Slot>, now: u64, hash: Ghost<u64>) -> (kept: Vec<Slot>)
    requires
        fits(slots@, hash@),
    ensures
        fits(kept@, hash@),
        model(kept@) == unexpired(model(slots@), now),
{
    let mut slots = slots;
    let ghost before = slots@;
    let mut kept: Vec<Slot> = Vec::new();
    while slots.len() > 0
        invariant
            distinct_keys(before),
            slots@ == before.take(slots.len() as int),
            slots.len() <= before.len(),
            distinct_keys(kept@),
            forall|a: int|
                0 <= a < kept.len() ==> survives(before, slots.len() as int, #[trigger] kept[a], now),
            forall|j: int|
                slots.len() <= j < before.len() && before[j].entry@.live_at(now) ==> holds(
                    kept@,
                    #[trigger] before[j],
                ),
        decreases slots.len(),
    {
        let ghost held = kept@;
        let ghost top = slots.len() - 1;
        let slot = slots.pop().unwrap();
        assert(slot == before[top]);
        assert(slots@ =~= before.take(top));
        if slot.entry.is_live(now) {
            kept.push(slot);
            proof {
                assert forall|a: int, b: int| 0 <= a < b < kept.len() implies kept[a].key@
                    != kept[b].key@ by {
                    if b < held.len() {
                        assert(held[a].key@ != held[b].key@);
                    } else {
                        assert(survives(before, top + 1, held[a], now));
                        let j = place_of(before, top + 1, held[a]);
                        assert(before[top].key@ != before[j].key@);
                    }
                }
                assert forall|j: int|
                    top <= j < before.len() && before[j].entry@.live_at(now) implies holds(
                    kept@,
                    #[trigger] before[j],
                ) by {
                    if j == top {
                        assert(kept[held.len() as int] == before[j]);
                    } else {
                        assert(holds(held, before[j]));
                        let a = choose|a: int| 0 <= a < held.len() && held[a] == before[j];
                        assert(kept[a] == before[j]);
                    }
                }
            }
        }
        proof {
            assert forall|a: int| 0 <= a < kept.len() implies survives(
                before,
                top,
                #[trigger] kept[a],
                now,
            ) by {
                if a < held.len() {
                    assert(survives(before, top + 1, held[a], now));
                    let j = place_of(before, top + 1, held[a]);
                    assert(top <= j < before.len() && before[j] == kept[a]);
                } else {
                    assert(before[top] == kept[a]);
                }
            }
        }
    }
    proof {
        lemma_model_of_survivors(before, kept@, now);
        assert forall|a: int| 0 <= a < kept.len() implies bucket_of((#[trigger] kept[a]).key@)
            == hash@ by {
            assert(survives(before, 0, kept[a], now));
            let j = place_of(before, 0, kept[a]);
            assert(bucket_of(before[j].key@) == hash@);
        }
    }
    kept
}

/// What a change of the entries under one hash does to the entries by key.
proof fn lemma_entries_of_insert(
    buckets: Map<u64, Vec<Slot>>,
    hash: u64,
    slots: Vec<Slot>,
    key: Seq<u8>,
    entry: EntryView,
)
    requires
        bucket_of(key) == hash,
        model(slots@) == model(chain(buckets, hash)).insert(key, entry),
    ensures
        entries_of(buckets.insert(hash, slots)) == entries_of(buckets).insert(key, entry),
{
    let after = buckets.insert(hash, slots);
    assert forall|k: Seq<u8>| chain(after, bucket_of(k)) == if bucket_of(k) == hash {
        slots@
    } else {
        chain(buckets, bucket_of(k))
    } by {}
    assert(entries_of(after) =~= entries_of(buckets).insert(key, entry));
}

/// Dropping the expired entries twice drops no more than dropping them once.
proof fn lemma_unexpired_twice(entries: Map<Seq<u8>, EntryView>, now: u64)
    ensures
        unexpired(unexpired(entries, now), now) == unexpired(entries, now),
{
    assert(unexpired(unexpired(entries, now), now) =~= unexpired(entries, now));
}

/// The hashes under which entries stand.
fn hashes_of(buckets: &HashMap<u64, Vec<Slot>>) -> (hashes: Vec<u64>)
    ensures
        forall|hash: u64| buckets@.contains_key(hash) ==> hashes@.contains(hash),
{
    let mut hashes: Vec<u64> = Vec::new();
    let ghost all = spec_keys_iter(buckets).remaining();
    let ghost mut seen: int = 0;
    for hash in it: buckets.keys()
        invariant
            it.seq() == all,
            seen == it.index(),
            forall|j: int| 0 <= j < seen ==> hashes@.contains(*#[trigger] all[j]),
    {
        let ghost held = hashes@;
        hashes.push(*hash);
        proof {
            assert(hashes@[held.len() as int] == *hash);
            assert forall|j: int| 0 <= j < seen + 1 implies hashes@.contains(*#[trigger] all[j]) by {
                if j < seen {
                    let at = choose|at: int| 0 <= at < held.len() && held[at] == *all[j];
                    assert(hashes@[at] == *all[j]);
                }
            }
            seen = seen + 1;
        }
    }
    proof {
        axiom_spec_keys_iter(buckets);
        assert(seen == all.len());
        assert forall|hash: u64| buckets@.contains_key(hash) implies hashes@.contains(hash) by {
            assert(all.unref().to_set().contains(hash));
            let j = choose|j: int| 0 <= j < all.unref().len() && all.unref()[j] == hash;
            assert(*all[j] == hash);
        }
    }
    hashes
}

impl View for Store {
    type V = Map<Seq<u8>, EntryView>;

    closed spec fn view(&self) -> Map<Seq<u8>, EntryView> {
        entries_of(self.buckets@)
    }
}

impl Store {
    #[verifier::type_invariant]
    spec fn sound(self) -> bool {
        forall|hash: u64|
            self.buckets@.contains_key(hash) ==> fits((#[trigger] self.buckets@[hash])@, hash)
    }

    /// An empty store.
    pub fn new() -> (store: Store)
        ensures
            store@ == Map::<Seq<u8>, EntryView>::empty(),
    {
        let store = Store { buckets: HashMap::new() };
        assert(store@ =~= Map::<Seq<u8>, EntryView>::empty());
        store
    }

    /// Writes `value` under `key` at the instant `now`, in place of whatever
    /// the key held. With a time to live the entry expires that many
    /// milliseconds after `now`; without one it does not expire, whether or
    /// not the entry it replaces did.
    pub fn set(&mut self, key: Vec<u8>, value: Vec<u8>, ttl: Option<u64>, now: u64)
        ensures
            final(self)@ == old(self)@.insert(key@, written(value@, ttl, now)),
    {
        proof {
            use_type_invariant(&*self);
        }
        let expires_at: Option<u128> = match ttl {
            None => None,
            Some(millis) => Some(now as u128 + millis as u128),
        };
        let hash = hash_key(key.as_slice());
        let slot = Slot { key, entry: StoreEntry { value, expires_at } };
        let mut buckets: HashMap<u64, Vec<Slot>> = HashMap::new();
        std::mem::swap(&mut buckets, &mut self.buckets);
        let ghost before = buckets@;
        let mut slots: Vec<Slot> = match buckets.remove(&hash) {
            Some(slots) => slots,
            None => Vec::new(),
        };
        assert(slots@ == chain(before, hash));
        put(&mut slots, slot, Ghost(hash));
        proof {
            lemma_entries_of_insert(before, hash, slots, slot.key@, slot.entry@);
            assert(before.remove(hash).insert(hash, slots) =~= before.insert(hash, slots));
        }
        buckets.insert(hash, slots);
        self.buckets = buckets;
    }

    /// Looks `key` up at the instant `now`. An entry that has expired by then
    /// is not found.
    pub fn get(&self, key: &[u8], now: u64) -> (found: Option<&Vec<u8>>)
        ensures
            match found {
                Some(value) => lookup(self@, key@, now) == Some(value@),
                None => lookup(self@, key@, now) is None,
            },
    {
        proof {
            use_type_invariant(self);
        }
        let hash = hash_key(key);
        match self.buckets.get(&hash) {
            None => None,
            Some(slots) => {
                proof {
                    lemma_model_dom(slots@, key@);
                }
                match position(slots, key) {
                    None => None,
                    Some(i) => {
                        proof {
                            lemma_model_at(slots@, i as int);
                        }
                        let entry = &slots[i].entry;
                        if entry.is_live(now) {
                            Some(&entry.value)
                        } else {
                            None
                        }
                    },
                }
            },
        }
    }

    /// Drops the entries that have expired by the instant `now`, so that
    /// they stop taking up memory. No lookup at `now` or later tells the
    /// difference.
    pub fn remove_expired(&mut self, now: u64)
        ensures
            final(self)@ == unexpired(old(self)@, now),
    {
        proof {
            use_type_invariant(&*self);
        }
        let mut buckets: HashMap<u64, Vec<Slot>> = HashMap::new();
        std::mem::swap(&mut buckets, &mut self.buckets);
        let ghost before = buckets@;
        let hashes = hashes_of(&buckets);
        let mut i: usize = 0;
        while i < hashes.len()
            invariant
                0 <= i <= hashes.len(),
                forall|hash: u64|
                    buckets@.contains_key(hash) ==> fits((#[trigger] buckets@[hash])@, hash),
                forall|hash: u64|
                    hashes@.take(i as int).contains(hash) ==> model(
                        #[trigger] chain(buckets@, hash),
                    ) == unexpired(model(chain(before, hash)), now),
                forall|hash: u64|
                    !hashes@.take(i as int).contains(hash) ==> #[trigger] chain(buckets@, hash)
                        == chain(before, hash),
            decreases hashes.len() - i,
        {
            let hash: u64 = hashes[i];
            let ghost during = buckets@;
            let ghost done = hashes@.take(i as int);
            match buckets.remove(&hash) {
                None => {},
                Some(slots) => {
                    let kept = sift(slots, now, Ghost(hash));
                    if kept.len() > 0 {
                        buckets.insert(hash, kept);
                    }
                },
            }
            proof {
                let next = hashes@.take(i + 1);
                assert(next.drop_last() =~= done);
                assert(next.last() == hash);
                lemma_unexpired_twice(model(chain(before, hash)), now);
                assert(model(chain(buckets@, hash)) == unexpired(model(chain(during, hash)), now))
                    by {
                    if !buckets@.contains_key(hash) {
                        assert(model(chain(buckets@, hash)) =~= unexpired(
                            model(chain(during, hash)),
                            now,
                        )) by {
                            if during.contains_key(hash) {
                                let kept = unexpired(model(chain(during, hash)), now);
                                assert(kept =~= model(Seq::<Slot>::empty()));
                            }
                        }
                    }
                }
                assert forall|other: u64| other != hash implies chain(buckets@, other) == chain(
                    during,
                    other,
                ) by {}
                assert(next[i as int] == hash);
                assert forall|other: u64| next.contains(other) <==> done.contains(other) || other
                    == hash by {
                    if next.contains(other) && other != hash {
                        let at = choose|at: int| 0 <= at < next.len() && next[at] == other;
                        assert(done[at] == other);
                    }
                    if done.contains(other) {
                        let at = choose|at: int| 0 <= at < done.len() && done[at] == other;
                        assert(next[at] == other);
                    }
                }
                assert forall|other: u64| next.contains(other) implies model(
                    #[trigger] chain(buckets@, other),
                ) == unexpired(model(chain(before, other)), now) by {
                    if other == hash {
                        if done.contains(hash) {
                            assert(model(chain(during, hash)) == unexpired(
                                model(chain(before, hash)),
                                now,
                            ));
                        } else {
                            assert(chain(during, hash) == chain(before, hash));
                        }
                    } else {
                        assert(done.contains(other));
                        assert(model(chain(during, other)) == unexpired(
                            model(chain(before, other)),
                            now,
                        ));
                    }
                }
                assert forall|other: u64| !next.contains(other) implies #[trigger] chain(
                    buckets@,
                    other,
                ) == chain(before, other) by {
                    assert(!done.contains(other) && other != hash);
                    assert(chain(during, other) == chain(before, other));
                }
            }
            i = i + 1;
        }
        proof {
            assert(hashes@.take(i as int) =~= hashes@);
            assert forall|hash: u64|
                model(#[trigger] chain(buckets@, hash)) == unexpired(
                    model(chain(before, hash)),
                    now,
                ) by {
                if !hashes@.contains(hash) {
                    assert(!before.contains_key(hash));
                    assert(model(chain(before, hash)) =~= unexpired(
                        model(chain(before, hash)),
                        now,
                    ));
                }
            }
            assert(entries_of(buckets@) =~= unexpired(entries_of(before), now)) by {
                assert forall|key: Seq<u8>|
                    model(chain(buckets@, bucket_of(key))) == unexpired(
                        model(chain(before, bucket_of(key))),
                        now,
                    ) by {}
            }
        }
        self.buckets = buckets;
    }
}

} // verus!
