//! Properties that relate the operations of the store to one another.
use serde_json::Value;
use vstd::prelude::*;

use crate::memory::{
    hits_have, is_stale, pushed_trail, snapshot, BrainMemory, SearchHit, ASSOCIATION_WIDTH,
    TRAIL_CAPACITY,
};
use crate::text::{key_matches, occurs_at, utf8};

verus! {

/// A value that was stored under a key is what a read of that key finds.
pub proof fn lemma_store_then_retrieve(prev: BrainMemory, next: BrainMemory, key: Seq<char>, value: Value, now: u64)
    requires
        next.is_store_of(prev, key, value, now),
    ensures
        next.lookup(key) == Some(value),
{
    assert(next.working().contains_key(key));
}

/// `s` cut down to the capacity of the trail.
pub open spec fn bounded(s: Seq<Seq<char>>) -> Seq<Seq<char>> {
    if s.len() > TRAIL_CAPACITY {
        s.take(TRAIL_CAPACITY as int)
    } else {
        s
    }
}

/// The trail after the keys `keys` were stored in order, starting from `trail`.
pub open spec fn trail_after(trail: Seq<Seq<char>>, keys: Seq<Seq<char>>) -> Seq<Seq<char>>
    decreases keys.len(),
{
    if keys.len() == 0 {
        trail
    } else {
        pushed_trail(trail_after(trail, keys.drop_last()), keys.last())
    }
}

/// After a run of stores the trail holds the stored keys, most recent first,
/// followed by what it held before, cut to its capacity.
pub proof fn lemma_trail_after_stores(trail: Seq<Seq<char>>, keys: Seq<Seq<char>>)
    requires
        trail.len() <= TRAIL_CAPACITY,
    ensures
        trail_after(trail, keys) == bounded(keys.reverse() + trail),
    decreases keys.len(),
{
    if keys.len() > 0 {
        let p = keys.drop_last();
        lemma_trail_after_stores(trail, p);
        let before = bounded(p.reverse() + trail);
        let full = keys.reverse() + trail;
        assert(keys.reverse() =~= seq![keys.last()] + p.reverse());
        assert(full =~= seq![keys.last()] + (p.reverse() + trail));
        let t = seq![keys.last()] + before;
        if t.len() > TRAIL_CAPACITY {
            assert(t.take(TRAIL_CAPACITY as int) =~= bounded(full));
        } else {
            assert(t =~= bounded(full));
        }
    }
}

/// Once at least as many keys as the trail holds have been stored, the
/// trail holds exactly the most recent of them, most recent first.
pub proof fn lemma_trail_keeps_most_recent(trail: Seq<Seq<char>>, keys: Seq<Seq<char>>)
    requires
        trail.len() <= TRAIL_CAPACITY,
        keys.len() >= TRAIL_CAPACITY,
    ensures
        trail_after(trail, keys).len() == TRAIL_CAPACITY,
        trail_after(trail, keys) == keys.reverse().take(TRAIL_CAPACITY as int),
{
    lemma_trail_after_stores(trail, keys);
    assert((keys.reverse() + trail).take(TRAIL_CAPACITY as int) =~= keys.reverse().take(TRAIL_CAPACITY as int));
}

/// After a store, the stored key's association list has at most five keys
/// and starts with the key itself.
pub proof fn lemma_store_associates_self(prev: BrainMemory, next: BrainMemory, key: Seq<char>, value: Value, now: u64)
    requires
        next.is_store_of(prev, key, value, now),
    ensures
        next.association_map().contains_key(key),
        1 <= next.association_map()[key].len() <= ASSOCIATION_WIDTH,
        next.association_map()[key][0] == key,
{
    let t = pushed_trail(prev.trail(), key);
    assert(t[0] == key);
    assert(snapshot(t)[0] == key);
}

/// The sweep moves an entry of the working tier to the long-term tier
/// exactly when it is stale; an entry that is not stays where it is.
pub proof fn lemma_sweep_moves_stale(prev: BrainMemory, next: BrainMemory, now: u64, key: Seq<char>)
    requires
        next.is_sweep_of(prev, now),
        prev.working().contains_key(key),
    ensures
        is_stale(prev.working()[key], now) <==> !next.working().contains_key(key),
        is_stale(prev.working()[key], now) ==> next.long_term().contains_key(key)
            && next.long_term()[key] == prev.working()[key],
        !is_stale(prev.working()[key], now) ==> next.working()[key] == prev.working()[key],
{
}

proof fn lemma_match_not_shorter(key: Seq<char>, query: Seq<char>)
    requires
        key_matches(key, query),
    ensures
        utf8(query).len() <= utf8(key).len(),
        utf8(query).len() == utf8(key).len() ==> key == query,
{
    let s = choose|s: int| occurs_at(utf8(key), utf8(query), s);
    if utf8(query).len() == utf8(key).len() {
        assert(s == 0);
        assert(utf8(key) =~= utf8(key).subrange(0, utf8(key).len() as int));
        vstd::utf8::encode_utf8_decode_utf8(key);
        vstd::utf8::encode_utf8_decode_utf8(query);
    }
}

/// A search for a key that is in the working tier, with room for a hit,
/// returns that key first, with full relevance.
pub proof fn lemma_exact_match_first(m: BrainMemory, query: Seq<char>, limit: usize, r: Seq<SearchHit>)
    requires
        m.is_search_result(query, limit, r),
        m.working().contains_key(query),
        limit >= 1,
    ensures
        r.len() >= 1,
        r[0].key@ == query,
        r[0].key_len == r[0].query_len,
{
    let q8 = utf8(query);
    assert(occurs_at(q8, q8, 0)) by {
        assert(q8.subrange(0, q8.len() as int) =~= q8);
    }
    assert(m.is_candidate(query, query));
    if !hits_have(r, query) {
        assert(r.len() == limit);
        assert(r[0].key_len <= q8.len());
        lemma_match_not_shorter(r[0].key@, query);
        assert(hits_have(r, query));
    }
    let i = choose|i: int| 0 <= i < r.len() && #[trigger] r[i].key@ == query;
    lemma_match_not_shorter(r[0].key@, query);
    if i != 0 {
        assert(r[0].key_len <= r[i].key_len);
    }
}

} // verus!
