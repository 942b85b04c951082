//! The decision cache: a bounded least-recently-used cache of the
//! `lru_time_cache` crate, from packet fingerprint to classification.

use vstd::prelude::*;
use lru_time_cache::LruCache;
use crate::policy::RuleTarget;

verus! {

#[verifier::external_type_specification]
#[verifier::external_body]
#[verifier::reject_recursive_types(Key)]
#[verifier::reject_recursive_types(Value)]
pub struct ExLruCache<Key, Value>(LruCache<Key, Value>);

/// A cached classification: the matched rule, if any, and the target.
pub type Decision = (Option<usize>, RuleTarget);

/// The entries that a cache holds, the least recently used first.
pub uninterp spec fn cache_items(cache: LruCache<u64, (Option<usize>, RuleTarget)>) -> Seq<(u64, (Option<usize>, RuleTarget))>;

/// The number of entries that a cache was made to hold.
pub uninterp spec fn cache_capacity(cache: LruCache<u64, (Option<usize>, RuleTarget)>) -> nat;

/// Whether entries of a cache expire with time.
pub uninterp spec fn cache_expires(cache: LruCache<u64, (Option<usize>, RuleTarget)>) -> bool;

/// Whether some entry has the key.
pub open spec fn has_key(items: Seq<(u64, Decision)>, key: u64) -> bool {
    exists|i: int| 0 <= i < items.len() && (#[trigger] items[i]).0 == key
}

/// The place of an entry with the key, where there is one.
pub open spec fn place_of(items: Seq<(u64, Decision)>, key: u64) -> int {
    choose|i: int| 0 <= i < items.len() && (#[trigger] items[i]).0 == key
}

/// No two entries have one key.
pub open spec fn distinct_keys(items: Seq<(u64, Decision)>) -> bool {
    forall|i: int, j: int| 0 <= i < j < items.len() ==> (#[trigger] items[i]).0 != (#[trigger] items[j]).0
}

/// The entries as a map from key to decision.
pub open spec fn entries_of(items: Seq<(u64, Decision)>) -> Map<u64, Decision> {
    Map::new(|k: u64| has_key(items, k), |k: u64| items[place_of(items, k)].1)
}

/// The entries after a use of `key`: its entry, if there is one, becomes
/// the most recently used.
pub open spec fn touched(items: Seq<(u64, Decision)>, key: u64) -> Seq<(u64, Decision)> {
    if has_key(items, key) {
        items.remove(place_of(items, key)).push(items[place_of(items, key)])
    } else {
        items
    }
}

/// The entries after `key` is set to `value` in a cache of the given
/// capacity: an entry with the key is replaced; else a full cache first
/// drops from the least recently used end until there is room for one. The
/// new entry is the most recently used.
pub open spec fn inserted(items: Seq<(u64, Decision)>, capacity: nat, key: u64, value: Decision) -> Seq<(u64, Decision)> {
    if has_key(items, key) {
        items.remove(place_of(items, key)).push((key, value))
    } else if items.len() >= capacity {
        items.skip(items.len() - capacity + 1).push((key, value))
    } else {
        items.push((key, value))
    }
}

/// `LruCache::with_capacity`: an empty cache, bounded by `capacity` alone.
#[verifier::external_body]
pub(crate) fn cache_with_capacity(capacity: usize) -> (cache: LruCache<u64, (Option<usize>, RuleTarget)>)
    ensures
        cache_items(cache).len() == 0,
        cache_capacity(cache) == capacity,
        !cache_expires(cache),
{
    LruCache::with_capacity(capacity)
}

/// `LruCache::get` on a cache without expiry: the value stored under `key`,
/// if there is one; that entry then counts as the most recently used.
#[verifier::external_body]
pub(crate) fn cache_get(cache: &mut LruCache<u64, (Option<usize>, RuleTarget)>, key: u64) -> (hit: Option<(Option<usize>, RuleTarget)>)
    requires
        !cache_expires(*old(cache)),
        distinct_keys(cache_items(*old(cache))),
    ensures
        hit == (if has_key(cache_items(*old(cache)), key) {
            Some(cache_items(*old(cache))[place_of(cache_items(*old(cache)), key)].1)
        } else {
            None
        }),
        cache_items(*final(cache)) == touched(cache_items(*old(cache)), key),
        cache_capacity(*final(cache)) == cache_capacity(*old(cache)),
        !cache_expires(*final(cache)),
{
    cache.get(&key).cloned()
}

/// `LruCache::insert` on a cache without expiry: `key` then maps to
/// `value` as the most recently used entry. A full cache first drops its
/// least recently used entry.
#[verifier::external_body]
pub(crate) fn cache_insert(cache: &mut LruCache<u64, (Option<usize>, RuleTarget)>, key: u64, value: (Option<usize>, RuleTarget))
    requires
        !cache_expires(*old(cache)),
        cache_capacity(*old(cache)) > 0,
        distinct_keys(cache_items(*old(cache))),
        cache_items(*old(cache)).len() <= cache_capacity(*old(cache)),
    ensures
        cache_items(*final(cache)) == inserted(cache_items(*old(cache)), cache_capacity(*old(cache)), key, value),
        cache_capacity(*final(cache)) == cache_capacity(*old(cache)),
        !cache_expires(*final(cache)),
{
    cache.insert(key, value);
}

/// With distinct keys, the place of a key is the place of its one entry.
pub proof fn lemma_place(items: Seq<(u64, Decision)>, i: int)
    requires
        distinct_keys(items),
        0 <= i < items.len(),
    ensures
        has_key(items, items[i].0),
        place_of(items, items[i].0) == i,
        entries_of(items).contains_key(items[i].0),
        entries_of(items)[items[i].0] == items[i].1,
{
    assert(has_key(items, items[i].0));
    let j = place_of(items, items[i].0);
    if j < i {
        assert(items[j].0 != items[i].0);
    }
    if i < j {
        assert(items[i].0 != items[j].0);
    }
}

/// A use keeps the keys distinct, the number of entries and what the keys
/// map to.
pub proof fn lemma_touched(items: Seq<(u64, Decision)>, key: u64)
    requires
        distinct_keys(items),
    ensures
        distinct_keys(touched(items, key)),
        touched(items, key).len() == items.len(),
        entries_of(touched(items, key)) == entries_of(items),
{
    let after = touched(items, key);
    if has_key(items, key) {
        let at = place_of(items, key);
        let last = items.len() - 1;
        assert forall|i: int| 0 <= i < after.len() implies #[trigger] after[i] == (if i == last {
            items[at]
        } else if i < at {
            items[i]
        } else {
            items[i + 1]
        }) by {}
        assert forall|i: int, j: int| 0 <= i < j < after.len() implies (#[trigger] after[i]).0 != (#[trigger] after[j]).0 by {
            let a = if i < at { i } else { i + 1 };
            let b = if j == last { at } else if j < at { j } else { j + 1 };
            assert(after[i] == items[a]);
            assert(after[j] == items[b]);
            if a < b {
                assert(items[a].0 != items[b].0);
            } else {
                assert(items[b].0 != items[a].0);
            }
        }
        assert forall|k: u64| has_key(after, k) <==> has_key(items, k) by {
            if has_key(after, k) {
                let i = place_of(after, k);
                let a = if i == last { at } else if i < at { i } else { i + 1 };
                assert(items[a].0 == k);
            }
            if has_key(items, k) {
                let a = place_of(items, k);
                let i = if a == at { last } else if a < at { a } else { a - 1 };
                assert(after[i].0 == k);
            }
        }
        assert forall|k: u64| has_key(items, k) implies #[trigger] entries_of(after)[k] == entries_of(items)[k] by {
            let i = place_of(after, k);
            let a = if i == last { at } else if i < at { i } else { i + 1 };
            assert(after[i] == items[a]);
            lemma_place(items, a);
        }
        assert(entries_of(after) =~= entries_of(items));
    }
}

/// A set keeps the keys distinct and the cache within its capacity. The
/// key then maps to the value; no other key is added or changed; and no
/// key is lost where the key was there or the cache had room.
pub proof fn lemma_inserted(items: Seq<(u64, Decision)>, capacity: nat, key: u64, value: Decision)
    requires
        distinct_keys(items),
        capacity > 0,
        items.len() <= capacity,
    ensures
        distinct_keys(inserted(items, capacity, key, value)),
        inserted(items, capacity, key, value).len() <= capacity,
        entries_of(inserted(items, capacity, key, value)).contains_key(key),
        entries_of(inserted(items, capacity, key, value))[key] == value,
        forall|k: u64| k != key && #[trigger] entries_of(inserted(items, capacity, key, value)).contains_key(k)
            ==> entries_of(items).contains_key(k) && entries_of(inserted(items, capacity, key, value))[k] == entries_of(items)[k],
        has_key(items, key) || items.len() < capacity ==> entries_of(inserted(items, capacity, key, value)) == entries_of(
            items,
        ).insert(key, value),
{
    let after = inserted(items, capacity, key, value);
    let last = after.len() - 1;
    assert(after[last] == (key, value));
    // Where each kept entry came from.
    let at = if has_key(items, key) { place_of(items, key) } else { -1 };
    let cut: int = if has_key(items, key) { 0 } else if items.len() >= capacity { 1 } else { 0 };
    let origin = |i: int| -> int {
        if has_key(items, key) {
            if i < at { i } else { i + 1 }
        } else {
            i + cut
        }
    };
    assert forall|i: int| 0 <= i < last implies 0 <= origin(i) < items.len() && #[trigger] after[i] == items[origin(i)] && items[origin(i)].0 != key by {
        if has_key(items, key) {
            if origin(i) < at {
                assert(items[origin(i)].0 != items[at].0);
            } else {
                assert(items[at].0 != items[origin(i)].0);
            }
        } else {
            if items[origin(i)].0 == key {
                assert(has_key(items, key));
            }
        }
    }
    assert forall|i: int, j: int| 0 <= i < j < after.len() implies (#[trigger] after[i]).0 != (#[trigger] after[j]).0 by {
        assert(after[i] == items[origin(i)]);
        if j < last {
            assert(after[j] == items[origin(j)]);
            assert(origin(i) < origin(j));
            assert(items[origin(i)].0 != items[origin(j)].0);
        }
    }
    lemma_place(after, last);
    assert forall|k: u64| k != key && #[trigger] entries_of(after).contains_key(k) implies entries_of(items).contains_key(k)
        && entries_of(after)[k] == entries_of(items)[k] by {
        let i = place_of(after, k);
        assert(after[i] == items[origin(i)]);
        lemma_place(items, origin(i));
    }
    if has_key(items, key) || items.len() < capacity {
        assert forall|k: u64| k != key && entries_of(items).contains_key(k) implies #[trigger] entries_of(after).contains_key(k) by {
            let a = place_of(items, k);
            let i = if has_key(items, key) { if a < at { a } else { a - 1 } } else { a };
            assert(after[i] == items[a]);
        }
        assert(entries_of(after) =~= entries_of(items).insert(key, value));
    }
}

} // verus!
