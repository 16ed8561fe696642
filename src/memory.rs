//! The tiered store: a working tier, a long-term tier, the recency trail and
//! the associations between keys.
use std::collections::VecDeque;
use std::time::Instant;
use serde_json::Value;
use vstd::prelude::*;

use crate::clock::millis_since;
use crate::strmap::StrMap;
use crate::text::{key_contains, key_matches, utf8};

verus! {

/// How many keys the recency trail holds.
pub const TRAIL_CAPACITY: usize = 1000;

/// How many keys of the trail a stored key is associated with.
pub const ASSOCIATION_WIDTH: usize = 5;

/// Inactivity, in milliseconds, after which an entry leaves the working tier.
pub const STALE_AFTER_MS: u64 = 300000;

/// Nominal capacity of the working tier in bytes (a display figure).
pub const WORKING_CAPACITY: u64 = 268435456;

/// Nominal capacity of the long-term tier in bytes (a display figure).
pub const LONG_TERM_CAPACITY: u64 = 4294967296;

/// One stored value with its metadata. Times are milliseconds since the
/// store was created.
#[derive(Clone, Debug)]
pub struct MemoryEntry {
    pub value: Value,
    pub timestamp: u64,
    pub access_count: u32,
    pub last_accessed: u64,
}

/// Entry counts and nominal capacity of one tier.
#[derive(Clone, Copy, Debug, PartialEq, Eq)]
pub struct MemoryInfo {
    pub used: usize,
    pub total: u64,
    pub entries: usize,
}

/// Size of the recency trail and its hit and miss counters.
#[derive(Clone, Copy, Debug, PartialEq, Eq)]
pub struct CacheInfo {
    pub size: usize,
    pub hits: u64,
    pub misses: u64,
}

/// Size of the association graph: keys with an association list, and the
/// total length of those lists.
#[derive(Clone, Copy, Debug, PartialEq, Eq)]
pub struct AssociationInfo {
    pub nodes: usize,
    pub edges: u128,
}

/// A snapshot of the store's aggregate figures.
#[derive(Clone, Copy, Debug, PartialEq, Eq)]
pub struct MemoryStats {
    pub working_memory: MemoryInfo,
    pub long_term_memory: MemoryInfo,
    pub context_cache: CacheInfo,
    pub associations: AssociationInfo,
}

/// One result of a search. Its relevance is `query_len / key_len`, both
/// counted in bytes: one for a key equal to the query, less for longer keys.
#[derive(Debug, PartialEq, Eq)]
pub struct SearchHit {
    pub key: String,
    pub key_len: usize,
    pub query_len: usize,
}

/// The hits come in order of key length, so of falling relevance.
pub open spec fn hits_sorted(s: Seq<SearchHit>) -> bool {
    forall|i: int, j: int| 0 <= i < j < s.len() ==> #[trigger] s[i].key_len <= #[trigger] s[j].key_len
}

/// No key occurs twice among the hits.
pub open spec fn hits_distinct(s: Seq<SearchHit>) -> bool {
    forall|i: int, j: int| 0 <= i < s.len() && 0 <= j < s.len() && i != j ==> #[trigger] s[i].key@ != #[trigger] s[j].key@
}

/// Some hit has key `k`.
pub open spec fn hits_have(s: Seq<SearchHit>, k: Seq<char>) -> bool {
    exists|i: int| 0 <= i < s.len() && #[trigger] s[i].key@ == k
}

/// Some pair among the first `n` of `ps` has key `k`.
pub open spec fn key_in_prefix<V>(ps: Seq<(String, V)>, n: int, k: Seq<char>) -> bool {
    exists|j: int| 0 <= j < n && #[trigger] ps[j].0@ == k
}

/// Puts `hit` into the sorted `res` after every hit that is not longer, and
/// drops the last hit when there are then more than `limit`.
fn insert_hit(res: &mut Vec<SearchHit>, hit: SearchHit, limit: usize) -> (pos: usize)
    requires
        hits_sorted(old(res)@),
        old(res)@.len() <= limit,
    ensures
        pos <= old(res)@.len(),
        forall|i: int| 0 <= i < pos ==> #[trigger] old(res)@[i].key_len <= hit.key_len,
        forall|i: int| pos <= i < old(res)@.len() ==> #[trigger] old(res)@[i].key_len > hit.key_len,
        final(res)@ == (if old(res)@.len() + 1 > limit {
            old(res)@.insert(pos as int, hit).drop_last()
        } else {
            old(res)@.insert(pos as int, hit)
        }),
        hits_sorted(old(res)@.insert(pos as int, hit)),
        hits_sorted(final(res)@),
        final(res)@.len() <= limit,
{
    let mut pos: usize = 0;
    while pos < res.len() && res[pos].key_len <= hit.key_len
        invariant
            pos <= res@.len(),
            forall|i: int| 0 <= i < pos ==> #[trigger] res@[i].key_len <= hit.key_len,
        decreases res@.len() - pos,
    {
        pos = pos + 1;
    }
    let ghost before = res@;
    assert forall|i: int| pos <= i < before.len() implies #[trigger] before[i].key_len > hit.key_len by {
        assert(before[pos as int].key_len > hit.key_len);
        if i > pos {
            assert(before[pos as int].key_len <= before[i].key_len);
        }
    }
    res.insert(pos, hit);
    let ghost ins = res@;
    assert(hits_sorted(ins)) by {
        assert forall|i: int, j: int| 0 <= i < j < ins.len() implies #[trigger] ins[i].key_len <= #[trigger] ins[j].key_len by {
            if j < pos {
                assert(ins[i] == before[i] && ins[j] == before[j]);
            } else if j == pos {
                assert(ins[i] == before[i]);
            } else if i == pos {
                assert(ins[j] == before[j - 1]);
            } else if i < pos {
                assert(ins[i] == before[i] && ins[j] == before[j - 1]);
            } else {
                assert(ins[i] == before[i - 1] && ins[j] == before[j - 1]);
            }
        }
    }
    if res.len() > limit {
        res.pop();
        assert(res@ =~= ins.drop_last());
    }
    pos
}

/// The tiered store.
#[derive(Clone, Debug)]
pub struct BrainMemory {
    working_memory: StrMap<MemoryEntry>,
    long_term_memory: StrMap<MemoryEntry>,
    context_cache: VecDeque<String>,
    associations: StrMap<Vec<String>>,
    origin: Instant,
    clock: u64,
}

/// The characters of each string of `s`.
pub open spec fn strings_view(s: Seq<String>) -> Seq<Seq<char>> {
    s.map_values(|x: String| x@)
}

/// A fresh entry written at time `now`.
pub open spec fn new_entry(value: Value, now: u64) -> MemoryEntry {
    MemoryEntry { value, timestamp: now, access_count: 0, last_accessed: now }
}

/// The trail after `key` is pushed to its front: the oldest key falls off
/// once the capacity is passed.
pub open spec fn pushed_trail(trail: Seq<Seq<char>>, key: Seq<char>) -> Seq<Seq<char>> {
    let t = seq![key] + trail;
    if t.len() > TRAIL_CAPACITY {
        t.take(TRAIL_CAPACITY as int)
    } else {
        t
    }
}

/// The most recent keys of `trail` that a stored key is associated with.
pub open spec fn snapshot(trail: Seq<Seq<char>>) -> Seq<Seq<char>> {
    if trail.len() > ASSOCIATION_WIDTH {
        trail.take(ASSOCIATION_WIDTH as int)
    } else {
        trail
    }
}

/// An entry that has been inactive for longer than the threshold at `now`.
pub open spec fn is_stale(e: MemoryEntry, now: u64) -> bool {
    now as int - e.last_accessed as int > STALE_AFTER_MS as int
}

/// Sum of the lengths of the string lists in `s`.
pub open spec fn lens_sum(s: Seq<(String, Vec<String>)>) -> nat
    decreases s.len(),
{
    if s.len() == 0 {
        0
    } else {
        lens_sum(s.drop_last()) + s.last().1@.len()
    }
}

proof fn lemma_lens_sum_push(s: Seq<(String, Vec<String>)>, x: (String, Vec<String>))
    ensures
        lens_sum(s.push(x)) == lens_sum(s) + x.1@.len(),
{
    assert(s.push(x).drop_last() =~= s);
}

proof fn lemma_lens_sum_update(s: Seq<(String, Vec<String>)>, i: int, x: (String, Vec<String>))
    requires
        0 <= i < s.len(),
    ensures
        lens_sum(s.update(i, x)) + s[i].1@.len() == lens_sum(s) + x.1@.len(),
    decreases s.len(),
{
    let t = s.update(i, x);
    if i == s.len() - 1 {
        assert(t.drop_last() =~= s.drop_last());
    } else {
        assert(t.drop_last() =~= s.drop_last().update(i, x));
        lemma_lens_sum_update(s.drop_last(), i, x);
    }
}

/// Length of the association list of `key` in `m`, zero where it has none.
pub open spec fn list_len(m: Map<Seq<char>, Seq<Seq<char>>>, key: Seq<char>) -> nat {
    if m.contains_key(key) {
        m[key].len()
    } else {
        0
    }
}

/// Sum of the lengths of the association lists in `m` of the keys `keys`.
pub open spec fn lists_len_sum(m: Map<Seq<char>, Seq<Seq<char>>>, keys: Seq<Seq<char>>) -> nat
    decreases keys.len(),
{
    if keys.len() == 0 {
        0
    } else {
        lists_len_sum(m, keys.drop_last()) + list_len(m, keys.last())
    }
}

/// Each key of `keys` has in `m` a list as long as the list of the pair of
/// `ps` at the same place.
spec fn lens_agree(ps: Seq<(String, Vec<String>)>, keys: Seq<Seq<char>>, m: Map<Seq<char>, Seq<Seq<char>>>) -> bool {
    forall|i: int| 0 <= i < ps.len() ==> m.contains_key(#[trigger] keys[i]) && m[keys[i]].len() == ps[i].1@.len()
}

proof fn lemma_prefix_sums(
    ps: Seq<(String, Vec<String>)>,
    keys: Seq<Seq<char>>,
    m: Map<Seq<char>, Seq<Seq<char>>>,
    n: int,
)
    requires
        0 <= n <= ps.len(),
        keys.len() == ps.len(),
        lens_agree(ps, keys, m),
    ensures
        lens_sum(ps.take(n)) == lists_len_sum(m, keys.take(n)),
    decreases n,
{
    if n > 0 {
        assert(ps.take(n).drop_last() =~= ps.take(n - 1));
        assert(keys.take(n).drop_last() =~= keys.take(n - 1));
        assert(keys.take(n).last() == keys[n - 1]);
        assert(ps.take(n).last() == ps[n - 1]);
        lemma_prefix_sums(ps, keys, m, n - 1);
    }
}

impl BrainMemory {
    /// Entries of the working tier, by key.
    pub closed spec fn working(&self) -> Map<Seq<char>, MemoryEntry> {
        self.working_memory@
    }

    /// Entries of the long-term tier, by key.
    pub closed spec fn long_term(&self) -> Map<Seq<char>, MemoryEntry> {
        self.long_term_memory@
    }

    /// The recency trail, most recent key first.
    pub closed spec fn trail(&self) -> Seq<Seq<char>> {
        strings_view(self.context_cache@)
    }

    /// The association list of each key that was stored.
    pub closed spec fn association_map(&self) -> Map<Seq<char>, Seq<Seq<char>>> {
        self.associations@.map_values(|v: Vec<String>| strings_view(v@))
    }

    /// The latest time, in milliseconds since creation, that the store has
    /// been given or has read from its clock.
    pub closed spec fn clock(&self) -> u64 {
        self.clock
    }

    /// The keys that have an association list, each once.
    pub closed spec fn association_keys(&self) -> Seq<Seq<char>> {
        self.associations.pairs().map_values(|p: (String, Vec<String>)| p.0@)
    }

    /// The total length of all association lists.
    pub closed spec fn edge_count(&self) -> nat {
        lens_sum(self.associations.pairs())
    }

    /// The invariant of the store.
    pub closed spec fn wf(&self) -> bool {
        &&& self.working_memory.wf()
        &&& self.long_term_memory.wf()
        &&& self.associations.wf()
        &&& self.context_cache@.len() <= TRAIL_CAPACITY
        &&& forall|i: int|
            0 <= i < self.associations.pairs().len()
                ==> #[trigger] self.associations.pairs()[i].1@.len() <= ASSOCIATION_WIDTH
    }

    /// The value a read of `key` finds: the working tier is looked at first.
    pub open spec fn lookup(&self, key: Seq<char>) -> Option<Value> {
        if self.working().contains_key(key) {
            Some(self.working()[key].value)
        } else if self.long_term().contains_key(key) {
            Some(self.long_term()[key].value)
        } else {
            None
        }
    }

    /// `self` is `prev` after `value` was stored under `key` at time `now`.
    pub open spec fn is_store_of(self, prev: BrainMemory, key: Seq<char>, value: Value, now: u64) -> bool {
        &&& self.working() == prev.working().insert(key, new_entry(value, now))
        &&& self.long_term() == prev.long_term()
        &&& self.trail() == pushed_trail(prev.trail(), key)
        &&& self.association_map() == prev.association_map().insert(
            key,
            snapshot(pushed_trail(prev.trail(), key)),
        )
        &&& self.edge_count() + list_len(prev.association_map(), key) == prev.edge_count() + snapshot(
            pushed_trail(prev.trail(), key),
        ).len()
    }

    /// `self` is `prev` after the demotion sweep at time `now`: stale entries
    /// of the working tier move to the long-term tier, replacing what that
    /// tier held under their keys.
    pub open spec fn is_sweep_of(self, prev: BrainMemory, now: u64) -> bool {
        &&& self.working() == prev.working().filter_keys(|k: Seq<char>| !is_stale(prev.working()[k], now))
        &&& self.long_term() == prev.long_term().union_prefer_right(
            prev.working().filter_keys(|k: Seq<char>| is_stale(prev.working()[k], now)),
        )
        &&& self.trail() == prev.trail()
        &&& self.association_map() == prev.association_map()
        &&& self.edge_count() == prev.edge_count()
    }

    /// An empty store.
    pub fn new() -> (r: Self)
        ensures
            r.wf(),
            r.working() == Map::<Seq<char>, MemoryEntry>::empty(),
            r.long_term() == Map::<Seq<char>, MemoryEntry>::empty(),
            r.trail() == Seq::<Seq<char>>::empty(),
            r.association_map() == Map::<Seq<char>, Seq<Seq<char>>>::empty(),
            r.edge_count() == 0,
            r.clock() == 0,
    {
        let r = BrainMemory {
            working_memory: StrMap::new(),
            long_term_memory: StrMap::new(),
            context_cache: VecDeque::new(),
            associations: StrMap::new(),
            origin: Instant::now(),
            clock: 0,
        };
        assert(r.trail() =~= Seq::<Seq<char>>::empty());
        assert(r.association_map() =~= Map::<Seq<char>, Seq<Seq<char>>>::empty());
        assert(r.associations.pairs().len() == 0) by {
            r.associations.lemma_pairs();
            if r.associations.pairs().len() > 0 {
                assert(r.associations@.contains_key(r.associations.pairs()[0].0@));
            }
        }
        r
    }

    /// What the invariant of the store holds: the trail is within its
    /// capacity, each association list within its width, the maps are
    /// finite, and the edge count is the sum of the lengths of the association
    /// lists, one for each key that has one.
    pub proof fn lemma_wf_facts(&self)
        requires
            self.wf(),
        ensures
            self.trail().len() <= TRAIL_CAPACITY,
            self.working().dom().finite(),
            self.long_term().dom().finite(),
            self.association_map().dom().finite(),
            forall|k: Seq<char>| #[trigger]
                self.association_map().contains_key(k) ==> self.association_map()[k].len() <= ASSOCIATION_WIDTH,
            self.association_keys().no_duplicates(),
            self.association_keys().to_set() == self.association_map().dom(),
            self.edge_count() == lists_len_sum(self.association_map(), self.association_keys()),
    {
        self.working_memory.lemma_finite();
        self.long_term_memory.lemma_finite();
        self.associations.lemma_finite();
        self.associations.lemma_pairs();
        let ps = self.associations.pairs();
        let keys = self.association_keys();
        let m = self.association_map();
        assert(m.dom() =~= self.associations@.dom());
        assert forall|k: Seq<char>| #[trigger] m.contains_key(k) implies m[k].len() <= ASSOCIATION_WIDTH by {
            let i = choose|i: int| 0 <= i < ps.len() && #[trigger] ps[i].0@ == k;
            assert(ps[i].1@.len() <= ASSOCIATION_WIDTH);
        }
        assert(keys.no_duplicates()) by {
            assert forall|i: int, j: int| 0 <= i < keys.len() && 0 <= j < keys.len() && i != j implies keys[i] != keys[j] by {
                assert(ps[i].0@ != ps[j].0@);
            }
        }
        assert forall|k: Seq<char>| keys.to_set().contains(k) <==> m.dom().contains(k) by {
            if m.dom().contains(k) {
                let i = choose|i: int| 0 <= i < ps.len() && #[trigger] ps[i].0@ == k;
                assert(keys[i] == k);
            }
            if keys.to_set().contains(k) {
                let i = choose|i: int| 0 <= i < keys.len() && keys[i] == k;
                assert(ps[i].0@ == k);
            }
        }
        assert(keys.to_set() =~= m.dom());
        assert forall|i: int| 0 <= i < ps.len() implies m.contains_key(#[trigger] keys[i]) && m[keys[i]].len()
            == ps[i].1@.len() by {
            assert(keys[i] == ps[i].0@);
            assert(m[ps[i].0@] == strings_view(ps[i].1@));
        }
        lemma_prefix_sums(ps, keys, m, ps.len() as int);
        assert(ps.take(ps.len() as int) =~= ps);
        assert(keys.take(ps.len() as int) =~= keys);
    }

    /// Reads the clock: the milliseconds since the store was created, but
    /// never less than a time seen before.
    fn read_clock(&mut self) -> (r: u64)
        requires
            old(self).wf(),
        ensures
            final(self).wf(),
            r == final(self).clock(),
            final(self).clock() >= old(self).clock(),
            final(self).working() == old(self).working(),
            final(self).long_term() == old(self).long_term(),
            final(self).trail() == old(self).trail(),
            final(self).association_map() == old(self).association_map(),
            final(self).edge_count() == old(self).edge_count(),
    {
        let t: u64 = millis_since(&self.origin);
        if t > self.clock {
            self.clock = t;
        }
        self.clock
    }

    /// Stores `value` under `key` at time `now` (milliseconds since the store
    /// was created): the entry goes to the working tier, the key to the front
    /// of the trail, and the key's association list becomes the front of the
    /// trail after that push, so that it starts with the key itself.
    /// An entry of the key in the long-term tier is left in place; reads look
    /// at the working tier first, so they find the new value.
    pub fn store_at(&mut self, key: &str, value: Value, now: u64)
        requires
            old(self).wf(),
        ensures
            final(self).wf(),
            final(self).is_store_of(*old(self), key@, value, now),
            final(self).clock() == if now > old(self).clock() { now } else { old(self).clock() },
    {
        let k: String = key.to_owned();
        let entry = MemoryEntry { value, timestamp: now, access_count: 0, last_accessed: now };
        self.working_memory.insert(k.clone(), entry);
        self.push_trail(k.clone());
        self.update_associations(k);
        if now > self.clock {
            self.clock = now;
        }
    }

    /// Stores `value` under `key` at the current time.
    pub fn store(&mut self, key: &str, value: Value)
        requires
            old(self).wf(),
        ensures
            final(self).wf(),
            final(self).clock() >= old(self).clock(),
            final(self).is_store_of(*old(self), key@, value, final(self).clock()),
    {
        let now = self.read_clock();
        self.store_at(key, value, now);
    }

    fn push_trail(&mut self, key: String)
        requires
            old(self).wf(),
        ensures
            final(self).wf(),
            final(self).trail() == pushed_trail(old(self).trail(), key@),
            final(self).working() == old(self).working(),
            final(self).long_term() == old(self).long_term(),
            final(self).associations == old(self).associations,
            final(self).clock == old(self).clock,
    {
        let ghost before = self.trail();
        self.context_cache.push_front(key);
        assert(self.trail() =~= seq![key@] + before);
        if self.context_cache.len() > TRAIL_CAPACITY {
            self.context_cache.pop_back();
            assert(self.trail() =~= (seq![key@] + before).take(TRAIL_CAPACITY as int));
        }
    }

    /// Records the front of the trail as the association list of `key`.
    fn update_associations(&mut self, key: String)
        requires
            old(self).wf(),
        ensures
            final(self).wf(),
            final(self).association_map() == old(self).association_map().insert(key@, snapshot(old(self).trail())),
            final(self).edge_count() + list_len(old(self).association_map(), key@) == old(self).edge_count()
                + snapshot(old(self).trail()).len(),
            final(self).trail() == old(self).trail(),
            final(self).working() == old(self).working(),
            final(self).long_term() == old(self).long_term(),
            final(self).clock == old(self).clock,
    {
        let n: usize = if self.context_cache.len() < ASSOCIATION_WIDTH {
            self.context_cache.len()
        } else {
            ASSOCIATION_WIDTH
        };
        let mut recent: Vec<String> = Vec::new();
        let mut i: usize = 0;
        while i < n
            invariant
                n <= self.context_cache@.len(),
                n <= ASSOCIATION_WIDTH,
                i <= n,
                strings_view(recent@) =~= self.trail().take(i as int),
            decreases n - i,
        {
            let s: String = self.context_cache[i].clone();
            assert(s@ == self.trail()[i as int]);
            let ghost prev = recent@;
            recent.push(s);
            assert(strings_view(recent@) =~= strings_view(prev).push(s@));
            i = i + 1;
        }
        assert(strings_view(recent@) =~= snapshot(self.trail()));
        let ghost before = self.associations@;
        self.associations.insert(key, recent);
        proof {
            assert(self.association_map() =~= old(self).association_map().insert(key@, snapshot(old(self).trail())));
            self.associations.lemma_pairs();
            old(self).associations.lemma_pairs();
            let ops = old(self).associations.pairs();
            if old(self).associations@.contains_key(key@) {
                let j = choose|j: int|
                    0 <= j < ops.len() && #[trigger] ops[j].0@ == key@
                        && self.associations.pairs() == ops.update(j, (key, recent));
                lemma_lens_sum_update(ops, j, (key, recent));
            } else {
                if exists|j: int| 0 <= j < ops.len() && #[trigger] ops[j].0@ == key@ {
                    let j = choose|j: int| 0 <= j < ops.len() && #[trigger] ops[j].0@ == key@;
                    assert(old(self).associations@.contains_key(ops[j].0@));
                }
                lemma_lens_sum_push(ops, (key, recent));
            }
            assert forall|j: int|
                0 <= j < self.associations.pairs().len()
                    implies #[trigger] self.associations.pairs()[j].1@.len() <= ASSOCIATION_WIDTH by {
                let kj = self.associations.pairs()[j].0@;
                if kj != key@ {
                    assert(before.contains_key(kj));
                    let m = choose|m: int|
                        0 <= m < old(self).associations.pairs().len() && #[trigger] old(self).associations.pairs()[m].0@ == kj;
                    assert(old(self).associations.pairs()[m].1@.len() <= ASSOCIATION_WIDTH);
                }
            }
        }
    }

    /// The value stored under `key`, from the working tier if it is there,
    /// else from the long-term tier. Reads change nothing: neither the
    /// access time of the entry nor the trail.
    pub fn retrieve(&self, key: &str) -> (r: Option<Value>)
        requires
            self.wf(),
        ensures
            r == self.lookup(key@),
    {
        let k: String = key.to_owned();
        match self.working_memory.get(&k) {
            Some(e) => {
                return Some(e.value.clone());
            },
            None => {},
        }
        match self.long_term_memory.get(&k) {
            Some(e) => Some(e.value.clone()),
            None => None,
        }
    }

    /// The demotion sweep at time `now`: every entry of the working tier
    /// inactive for longer than the threshold moves to the long-term tier.
    pub fn optimize_memory_at(&mut self, now: u64)
        requires
            old(self).wf(),
        ensures
            final(self).wf(),
            final(self).is_sweep_of(*old(self), now),
            final(self).clock() == if now > old(self).clock() { now } else { old(self).clock() },
    {
        let ghost w0 = self.working();
        let ghost l0 = self.long_term();
        let mut kept: StrMap<MemoryEntry> = StrMap::new();
        loop
            invariant
                self.working_memory.wf(),
                self.long_term_memory.wf(),
                kept.wf(),
                self.associations == old(self).associations,
                self.context_cache == old(self).context_cache,
                self.clock == old(self).clock,
                w0 == old(self).working(),
                l0 == old(self).long_term(),
                forall|k: Seq<char>| #[trigger] self.working_memory@.contains_key(k)
                    ==> w0.contains_key(k) && self.working_memory@[k] == w0[k],
                kept@ == w0.filter_keys(|k: Seq<char>| !self.working_memory@.contains_key(k) && !is_stale(w0[k], now)),
                self.long_term_memory@ == l0.union_prefer_right(
                    w0.filter_keys(|k: Seq<char>| !self.working_memory@.contains_key(k) && is_stale(w0[k], now)),
                ),
            ensures
                self.working_memory.wf(),
                self.long_term_memory.wf(),
                kept.wf(),
                self.associations == old(self).associations,
                self.context_cache == old(self).context_cache,
                self.clock == old(self).clock,
                kept@ == w0.filter_keys(|k: Seq<char>| !is_stale(w0[k], now)),
                self.long_term_memory@ == l0.union_prefer_right(
                    w0.filter_keys(|k: Seq<char>| is_stale(w0[k], now)),
                ),
            decreases self.working_memory@.dom().len(),
        {
            proof {
                self.working_memory.lemma_finite();
            }
            let ghost before = self.working_memory@;
            let ghost kept_before = kept@;
            let ghost long_before = self.long_term_memory@;
            match self.working_memory.pop() {
                Some(pair) => {
                    let (k, e) = pair;
                    let ghost kv = k@;
                    let stale: bool = now > e.last_accessed && now - e.last_accessed > STALE_AFTER_MS;
                    assert(stale == is_stale(w0[kv], now));
                    if stale {
                        self.long_term_memory.insert(k, e);
                    } else {
                        kept.insert(k, e);
                    }
                    proof {
                        assert(before.dom().len() > 0) by {
                            if before.dom().len() == 0 {
                                assert(before.dom().contains(kv));
                            }
                        }
                        assert(self.working_memory@.dom() =~= before.dom().remove(kv));
                        assert(kept@ =~= w0.filter_keys(
                            |q: Seq<char>| !self.working_memory@.contains_key(q) && !is_stale(w0[q], now),
                        ));
                        assert(self.long_term_memory@ =~= l0.union_prefer_right(
                            w0.filter_keys(|q: Seq<char>| !self.working_memory@.contains_key(q) && is_stale(w0[q], now)),
                        ));
                    }
                },
                None => {
                    proof {
                        assert(self.working_memory@.dom() =~= Set::<Seq<char>>::empty()) by {
                            assert forall|q: Seq<char>| !self.working_memory@.dom().contains(q) by {
                                if self.working_memory@.dom().contains(q) {
                                    vstd::set_lib::lemma_set_empty_equivalency_len(self.working_memory@.dom());
                                }
                            }
                        }
                        assert(kept@ =~= w0.filter_keys(|k: Seq<char>| !is_stale(w0[k], now)));
                        assert(self.long_term_memory@ =~= l0.union_prefer_right(
                            w0.filter_keys(|k: Seq<char>| is_stale(w0[k], now)),
                        ));
                    }
                    break;
                },
            }
        }
        self.working_memory = kept;
        if now > self.clock {
            self.clock = now;
        }
    }

    /// The demotion sweep at the current time, as read from the store's clock.
    pub fn optimize_memory(&mut self)
        requires
            old(self).wf(),
        ensures
            final(self).wf(),
            final(self).clock() >= old(self).clock(),
            final(self).is_sweep_of(*old(self), final(self).clock()),
    {
        let now = self.read_clock();
        let ghost before = *self;
        self.optimize_memory_at(now);
        assert(self.is_sweep_of(before, now));
    }

    fn total_edges(&self) -> (r: u128)
        requires
            self.wf(),
        ensures
            r == self.edge_count(),
    {
        let n: usize = self.associations.pair_count();
        let ghost ps = self.associations.pairs();
        let mut sum: u128 = 0;
        let mut i: usize = 0;
        while i < n
            invariant
                n == ps.len(),
                ps == self.associations.pairs(),
                self.wf(),
                i <= n,
                sum == lens_sum(ps.take(i as int)),
                sum <= ASSOCIATION_WIDTH * i,
            decreases n - i,
        {
            let pair = self.associations.pair_at(i);
            assert(ps.take(i + 1).drop_last() =~= ps.take(i as int));
            assert(pair.1@.len() <= ASSOCIATION_WIDTH);
            sum = sum + pair.1.len() as u128;
            i = i + 1;
        }
        assert(ps.take(n as int) =~= ps);
        sum
    }

    /// The aggregate figures, computed from the current contents.
    pub fn get_stats(&self) -> (r: MemoryStats)
        requires
            self.wf(),
        ensures
            self.working().dom().finite(),
            self.long_term().dom().finite(),
            self.association_map().dom().finite(),
            r.working_memory.used == 0,
            r.working_memory.total == WORKING_CAPACITY,
            r.working_memory.entries == self.working().dom().len(),
            r.long_term_memory.used == 0,
            r.long_term_memory.total == LONG_TERM_CAPACITY,
            r.long_term_memory.entries == self.long_term().dom().len(),
            r.context_cache.size == self.trail().len(),
            r.context_cache.hits == 0,
            r.context_cache.misses == 0,
            r.associations.nodes == self.association_map().dom().len(),
            r.associations.edges == self.edge_count(),
    {
        let working = MemoryInfo { used: 0, total: WORKING_CAPACITY, entries: self.working_memory.len() };
        let long_term = MemoryInfo { used: 0, total: LONG_TERM_CAPACITY, entries: self.long_term_memory.len() };
        let cache = CacheInfo { size: self.context_cache.len(), hits: 0, misses: 0 };
        let nodes: usize = self.associations.len();
        assert(self.association_map().dom() =~= self.associations@.dom());
        let edges: u128 = self.total_edges();
        MemoryStats {
            working_memory: working,
            long_term_memory: long_term,
            context_cache: cache,
            associations: AssociationInfo { nodes, edges },
        }
    }

    /// A key of the working tier that holds `query` as a substring.
    pub open spec fn is_candidate(&self, key: Seq<char>, query: Seq<char>) -> bool {
        self.working().contains_key(key) && key_matches(key, query)
    }

    /// `r` is an answer to a search for `query` with at most `limit` hits:
    /// distinct keys of the working tier that hold `query`, most relevant
    /// first; where matching keys are left out, the list is full and none of
    /// them is more relevant than a hit.
    pub open spec fn is_search_result(&self, query: Seq<char>, limit: usize, r: Seq<SearchHit>) -> bool {
        &&& r.len() <= limit
        &&& forall|i: int|
            0 <= i < r.len() ==> {
                &&& self.is_candidate(#[trigger] r[i].key@, query)
                &&& r[i].key_len == utf8(r[i].key@).len()
                &&& r[i].query_len == utf8(query).len()
            }
        &&& hits_distinct(r)
        &&& hits_sorted(r)
        &&& forall|k: Seq<char>|
            #[trigger] self.is_candidate(k, query) && !hits_have(r, k) ==> r.len() == limit
                && forall|i: int| 0 <= i < r.len() ==> #[trigger] r[i].key_len <= utf8(k).len()
    }

    /// The keys of the working tier that hold `query` as a substring, most
    /// relevant first, at most `limit` of them.
    pub fn search(&self, query: &str, limit: usize) -> (r: Vec<SearchHit>)
        requires
            self.wf(),
        ensures
            self.is_search_result(query@, limit, r@),
    {
        let n: usize = self.working_memory.pair_count();
        let ghost ps = self.working_memory.pairs();
        proof {
            self.working_memory.lemma_pairs();
        }
        let query_len: usize = query.as_bytes().len();
        let mut res: Vec<SearchHit> = Vec::new();
        let mut p: usize = 0;
        while p < n
            invariant
                n == ps.len(),
                ps == self.working_memory.pairs(),
                self.wf(),
                crate::strmap::keys_unique(ps),
                forall|i: int|
                    0 <= i < ps.len() ==> self.working().contains_key(#[trigger] ps[i].0@),
                query_len == utf8(query@).len(),
                p <= n,
                res@.len() <= limit,
                hits_sorted(res@),
                hits_distinct(res@),
                forall|i: int|
                    0 <= i < res@.len() ==> {
                        &&& self.is_candidate(#[trigger] res@[i].key@, query@)
                        &&& res@[i].key_len == utf8(res@[i].key@).len()
                        &&& res@[i].query_len == query_len
                    },
                forall|i: int| 0 <= i < res@.len() ==> key_in_prefix(ps, p as int, #[trigger] res@[i].key@),
                forall|j: int|
                    0 <= j < p && #[trigger] self.is_candidate(ps[j].0@, query@) && !hits_have(res@, ps[j].0@)
                        ==> res@.len() == limit && forall|i: int|
                        0 <= i < res@.len() ==> #[trigger] res@[i].key_len <= utf8(ps[j].0@).len(),
            decreases n - p,
        {
            let pair = self.working_memory.pair_at(p);
            if key_contains(pair.0.as_str(), query) {
                let ghost before = res@;
                let ghost kp = ps[p as int].0@;
                let hit = SearchHit { key: pair.0.clone(), key_len: pair.0.as_str().as_bytes().len(), query_len };
                let pos = insert_hit(&mut res, hit, limit);
                proof {
                    assert(!hits_have(before, kp)) by {
                        if hits_have(before, kp) {
                            let i = choose|i: int| 0 <= i < before.len() && #[trigger] before[i].key@ == kp;
                            let j = choose|j: int| 0 <= j < p && #[trigger] ps[j].0@ == before[i].key@;
                            assert(ps[j].0@ == ps[p as int].0@);
                        }
                    }
                    let ins = before.insert(pos as int, hit);
                    assert forall|i: int| 0 <= i < ins.len() implies (#[trigger] ins[i] == hit && i == pos) || (i < pos && ins[i] == before[i]) || (i > pos && ins[i] == before[i - 1]) by {
                    }
                    assert forall|i: int|
                        0 <= i < res@.len() implies {
                            &&& self.is_candidate(#[trigger] res@[i].key@, query@)
                            &&& res@[i].key_len == utf8(res@[i].key@).len()
                            &&& res@[i].query_len == query_len
                            &&& key_in_prefix(ps, p + 1, res@[i].key@)
                        } by {
                        assert(res@[i] == ins[i]);
                        if i == pos {
                            assert(ps[p as int].0@ == res@[i].key@);
                            assert(key_in_prefix(ps, p + 1, res@[i].key@));
                        } else {
                            let b = if i < pos { i } else { i - 1 };
                            assert(ins[i] == before[b]);
                            let j = choose|j: int| 0 <= j < p && #[trigger] ps[j].0@ == before[b].key@;
                            assert(ps[j].0@ == res@[i].key@);
                            assert(key_in_prefix(ps, p + 1, res@[i].key@));
                        }
                    }
                    assert(hits_distinct(res@)) by {
                        assert forall|i: int, j: int|
                            0 <= i < res@.len() && 0 <= j < res@.len() && i != j implies #[trigger] res@[i].key@ != #[trigger] res@[j].key@ by {
                            assert(res@[i] == ins[i] && res@[j] == ins[j]);
                            if i == pos {
                                let b = if j < pos { j } else { j - 1 };
                                assert(before[b].key@ != kp);
                            } else if j == pos {
                                let b = if i < pos { i } else { i - 1 };
                                assert(before[b].key@ != kp);
                            } else {
                                let bi = if i < pos { i } else { i - 1 };
                                let bj = if j < pos { j } else { j - 1 };
                                assert(ins[i] == before[bi] && ins[j] == before[bj]);
                            }
                        }
                    }
                    assert forall|j: int|
                        0 <= j < p + 1 && #[trigger] self.is_candidate(ps[j].0@, query@) && !hits_have(res@, ps[j].0@)
                            implies res@.len() == limit && forall|i: int|
                            0 <= i < res@.len() ==> #[trigger] res@[i].key_len <= utf8(ps[j].0@).len() by {
                        if j == p {
                            // the new hit was dropped: it was the last of the insertion
                            assert(hit.key@ == kp);
                            if before.len() + 1 <= limit {
                                assert(res@[pos as int] == hit);
                                assert(hits_have(res@, kp));
                            } else {
                                if pos < before.len() {
                                    assert(res@[pos as int] == hit);
                                    assert(hits_have(res@, kp));
                                }
                                assert(pos == before.len());
                                assert(ins[ins.len() - 1] == hit);
                                assert forall|i: int| 0 <= i < res@.len() implies #[trigger] res@[i].key_len <= utf8(ps[j].0@).len() by {
                                    assert(res@[i] == ins[i]);
                                    assert(ins[i].key_len <= ins[ins.len() - 1].key_len);
                                }
                            }
                        } else {
                            let z = ps[j].0@;
                            if hits_have(before, z) {
                                // `z` was the last hit and has been dropped
                                let b = choose|b: int| 0 <= b < before.len() && #[trigger] before[b].key@ == z;
                                let i0 = if b < pos { b } else { b + 1 };
                                assert(ins[i0] == before[b]);
                                if i0 < res@.len() {
                                    assert(res@[i0] == ins[i0]);
                                    assert(hits_have(res@, z));
                                }
                                assert(i0 == ins.len() - 1);
                                assert forall|i: int| 0 <= i < res@.len() implies #[trigger] res@[i].key_len <= utf8(z).len() by {
                                    assert(res@[i] == ins[i]);
                                    assert(ins[i].key_len <= ins[i0].key_len);
                                }
                            } else if hit.key_len > utf8(z).len() {
                                assert(before.len() == limit);
                                if pos < before.len() {
                                    assert(before[pos as int].key_len > hit.key_len);
                                }
                                assert(pos == before.len());
                                assert(res@ =~= before);
                            } else {
                                assert(before.len() == limit);
                                assert forall|i: int| 0 <= i < res@.len() implies #[trigger] res@[i].key_len <= utf8(z).len() by {
                                    assert(res@[i] == ins[i]);
                                    if i != pos {
                                        let b = if i < pos { i } else { i - 1 };
                                        assert(ins[i] == before[b]);
                                    }
                                }
                            }
                        }
                    }
                }
            } else {
                proof {
                    assert(!key_matches(ps[p as int].0@, query@));
                    assert forall|i: int| 0 <= i < res@.len() implies key_in_prefix(ps, p + 1, #[trigger] res@[i].key@) by {
                        let j = choose|j: int| 0 <= j < p && #[trigger] ps[j].0@ == res@[i].key@;
                        assert(ps[j].0@ == res@[i].key@);
                    }
                }
            }
            p = p + 1;
        }
        proof {
            assert forall|k: Seq<char>|
                #[trigger] self.is_candidate(k, query@) && !hits_have(res@, k) implies res@.len() == limit
                    && forall|i: int| 0 <= i < res@.len() ==> #[trigger] res@[i].key_len <= utf8(k).len() by {
                let j = choose|j: int| 0 <= j < ps.len() && #[trigger] ps[j].0@ == k;
                assert(self.is_candidate(ps[j].0@, query@));
            }
        }
        res
    }

    /// The keys of the recency trail, most recent first.
    pub fn recent_keys(&self) -> (r: Vec<String>)
        requires
            self.wf(),
        ensures
            strings_view(r@) == self.trail(),
    {
        let mut r: Vec<String> = Vec::new();
        let mut i: usize = 0;
        while i < self.context_cache.len()
            invariant
                i <= self.context_cache@.len(),
                strings_view(r@) =~= self.trail().take(i as int),
            decreases self.context_cache@.len() - i,
        {
            let s: String = self.context_cache[i].clone();
            let ghost prev = r@;
            r.push(s);
            assert(strings_view(r@) =~= strings_view(prev).push(s@));
            i = i + 1;
        }
        assert(self.trail().take(i as int) =~= self.trail());
        r
    }

    /// The association list of `key`, if it was ever stored.
    pub fn associations_of(&self, key: &str) -> (r: Option<Vec<String>>)
        requires
            self.wf(),
        ensures
            match r {
                Some(v) => self.association_map().contains_key(key@) && strings_view(v@)
                    == self.association_map()[key@],
                None => !self.association_map().contains_key(key@),
            },
    {
        let k: String = key.to_owned();
        match self.associations.get(&k) {
            Some(v) => {
                let mut out: Vec<String> = Vec::new();
                let mut i: usize = 0;
                while i < v.len()
                    invariant
                        i <= v@.len(),
                        strings_view(out@) =~= strings_view(v@).take(i as int),
                    decreases v@.len() - i,
                {
                    let s: String = v[i].clone();
                    let ghost prev = out@;
                    out.push(s);
                    assert(strings_view(out@) =~= strings_view(prev).push(s@));
                    i = i + 1;
                }
                assert(strings_view(v@).take(i as int) =~= strings_view(v@));
                Some(out)
            },
            None => None,
        }
    }
}

} // verus!
