//! A map from string keys to values, kept as a vector of pairs with unique keys.
use vstd::prelude::*;

verus! {

/// No key occurs twice among the pairs.
pub open spec fn keys_unique<V>(s: Seq<(String, V)>) -> bool {
    forall|i: int, j: int|
        0 <= i < s.len() && 0 <= j < s.len() && i != j ==> #[trigger] s[i].0@ != #[trigger] s[j].0@
}

/// Some pair of `s` has key `k`.
pub open spec fn has_key<V>(s: Seq<(String, V)>, k: Seq<char>) -> bool {
    exists|i: int| 0 <= i < s.len() && #[trigger] s[i].0@ == k
}

/// The map that the pairs of `s` describe.
pub open spec fn map_of<V>(s: Seq<(String, V)>) -> Map<Seq<char>, V> {
    Map::new(
        |k: Seq<char>| has_key(s, k),
        |k: Seq<char>| s[choose|i: int| 0 <= i < s.len() && #[trigger] s[i].0@ == k].1,
    )
}

proof fn lemma_map_of_index<V>(s: Seq<(String, V)>, i: int)
    requires
        keys_unique(s),
        0 <= i < s.len(),
    ensures
        map_of(s).contains_key(s[i].0@),
        map_of(s)[s[i].0@] == s[i].1,
{
    let k = s[i].0@;
    assert(has_key(s, k));
    let j = choose|j: int| 0 <= j < s.len() && #[trigger] s[j].0@ == k;
    assert(j == i);
}

proof fn lemma_map_of_push<V>(s: Seq<(String, V)>, x: (String, V))
    requires
        keys_unique(s),
        !has_key(s, x.0@),
    ensures
        keys_unique(s.push(x)),
        map_of(s.push(x)) == map_of(s).insert(x.0@, x.1),
{
    let t = s.push(x);
    assert forall|i: int, j: int|
        0 <= i < t.len() && 0 <= j < t.len() && i != j implies #[trigger] t[i].0@ != #[trigger] t[j].0@ by {
        if i < s.len() && j < s.len() {
            assert(t[i] == s[i] && t[j] == s[j]);
        } else if i < s.len() {
            assert(t[i] == s[i]);
        } else if j < s.len() {
            assert(t[j] == s[j]);
        }
    }
    assert forall|k: Seq<char>| #[trigger] map_of(t).contains_key(k) == map_of(s).insert(x.0@, x.1).contains_key(k) by {
        if has_key(s, k) {
            let i = choose|i: int| 0 <= i < s.len() && #[trigger] s[i].0@ == k;
            assert(t[i] == s[i]);
        }
        if k == x.0@ {
            assert(t[s.len() as int] == x);
        }
        if has_key(t, k) && k != x.0@ {
            let i = choose|i: int| 0 <= i < t.len() && #[trigger] t[i].0@ == k;
            assert(i < s.len());
            assert(t[i] == s[i]);
        }
    }
    assert forall|k: Seq<char>| #[trigger] map_of(t).contains_key(k) implies map_of(t)[k] == map_of(s).insert(x.0@, x.1)[k] by {
        if k == x.0@ {
            lemma_map_of_index(t, s.len() as int);
        } else {
            let i = choose|i: int| 0 <= i < t.len() && #[trigger] t[i].0@ == k;
            assert(i < s.len());
            assert(t[i] == s[i]);
            lemma_map_of_index(t, i);
            lemma_map_of_index(s, i);
        }
    }
    assert(map_of(t) =~= map_of(s).insert(x.0@, x.1));
}

proof fn lemma_map_of_size<V>(s: Seq<(String, V)>)
    requires
        keys_unique(s),
    ensures
        map_of(s).dom().finite(),
        map_of(s).dom().len() == s.len(),
    decreases s.len(),
{
    if s.len() == 0 {
        assert(map_of(s).dom() =~= Set::empty());
    } else {
        let p = s.drop_last();
        assert(s == p.push(s.last()));
        assert(keys_unique(p)) by {
            assert forall|i: int, j: int|
                0 <= i < p.len() && 0 <= j < p.len() && i != j implies #[trigger] p[i].0@ != #[trigger] p[j].0@ by {
                assert(p[i] == s[i] && p[j] == s[j]);
            }
        }
        assert(!has_key(p, s.last().0@)) by {
            if has_key(p, s.last().0@) {
                let i = choose|i: int| 0 <= i < p.len() && #[trigger] p[i].0@ == s.last().0@;
                assert(p[i] == s[i]);
                assert(s[i].0@ == s[s.len() - 1].0@);
            }
        }
        lemma_map_of_size(p);
        lemma_map_of_push(p, s.last());
    }
}

/// A finite map from string keys to values.
#[derive(Clone, Debug)]
pub struct StrMap<V> {
    items: Vec<(String, V)>,
}

impl<V> View for StrMap<V> {
    type V = Map<Seq<char>, V>;

    closed spec fn view(&self) -> Map<Seq<char>, V> {
        map_of(self.items@)
    }
}

impl<V> StrMap<V> {
    /// The keys are unique, so the map has as many keys as there are pairs.
    pub closed spec fn wf(&self) -> bool {
        keys_unique(self.items@)
    }

    pub fn new() -> (r: Self)
        ensures
            r.wf(),
            r@ == Map::<Seq<char>, V>::empty(),
    {
        let r = StrMap { items: Vec::new() };
        assert(r@ =~= Map::<Seq<char>, V>::empty());
        r
    }

    /// The pairs of the map, in the order in which they are kept.
    pub closed spec fn pairs(&self) -> Seq<(String, V)> {
        self.items@
    }

    /// The pairs list each key of the map once, with its value.
    pub proof fn lemma_pairs(&self)
        requires
            self.wf(),
        ensures
            keys_unique(self.pairs()),
            forall|i: int|
                0 <= i < self.pairs().len() ==> self@.contains_key(#[trigger] self.pairs()[i].0@)
                    && self@[self.pairs()[i].0@] == self.pairs()[i].1,
            forall|k: Seq<char>| #[trigger]
                self@.contains_key(k) ==> exists|i: int|
                    0 <= i < self.pairs().len() && #[trigger] self.pairs()[i].0@ == k,
    {
        assert forall|i: int|
            0 <= i < self.pairs().len() implies self@.contains_key(#[trigger] self.pairs()[i].0@)
                && self@[self.pairs()[i].0@] == self.pairs()[i].1 by {
            lemma_map_of_index(self.items@, i);
        }
        assert forall|k: Seq<char>| #[trigger] self@.contains_key(k) implies exists|i: int|
            0 <= i < self.pairs().len() && #[trigger] self.pairs()[i].0@ == k by {
            assert(has_key(self.items@, k));
            let i = choose|i: int| 0 <= i < self.items@.len() && #[trigger] self.items@[i].0@ == k;
            assert(self.pairs()[i].0@ == k);
        }
    }

    /// The number of pairs.
    pub fn pair_count(&self) -> (r: usize)
        ensures
            r == self.pairs().len(),
    {
        self.items.len()
    }

    /// The pair at position `i`.
    pub fn pair_at(&self, i: usize) -> (r: &(String, V))
        requires
            i < self.pairs().len(),
        ensures
            *r == self.pairs()[i as int],
    {
        &self.items[i]
    }

    /// A map that is well formed has finitely many keys.
    pub proof fn lemma_finite(&self)
        requires
            self.wf(),
        ensures
            self@.dom().finite(),
    {
        lemma_map_of_size(self.items@);
    }

    /// The number of keys.
    pub fn len(&self) -> (r: usize)
        requires
            self.wf(),
        ensures
            self@.dom().finite(),
            r == self@.dom().len(),
    {
        proof {
            lemma_map_of_size(self.items@);
        }
        self.items.len()
    }

    fn find(&self, key: &String) -> (r: Option<usize>)
        requires
            self.wf(),
        ensures
            match r {
                Some(i) => i < self.items@.len() && self.items@[i as int].0@ == key@,
                None => !has_key(self.items@, key@),
            },
    {
        let mut i: usize = 0;
        while i < self.items.len()
            invariant
                i <= self.items@.len(),
                forall|j: int| 0 <= j < i ==> #[trigger] self.items@[j].0@ != key@,
            decreases self.items@.len() - i,
        {
            if self.items[i].0 == *key {
                return Some(i);
            }
            i = i + 1;
        }
        None
    }

    /// The value stored under `key`, if any.
    pub fn get(&self, key: &String) -> (r: Option<&V>)
        requires
            self.wf(),
        ensures
            match r {
                Some(v) => self@.contains_key(key@) && *v == self@[key@],
                None => !self@.contains_key(key@),
            },
    {
        match self.find(key) {
            Some(i) => {
                proof {
                    lemma_map_of_index(self.items@, i as int);
                }
                Some(&self.items[i].1)
            },
            None => None,
        }
    }

    /// Puts `value` under `key`, replacing what was there.
    pub fn insert(&mut self, key: String, value: V)
        requires
            old(self).wf(),
        ensures
            final(self).wf(),
            final(self)@ == old(self)@.insert(key@, value),
            (exists|i: int|
                0 <= i < old(self).pairs().len() && #[trigger] old(self).pairs()[i].0@ == key@
                    && final(self).pairs() == old(self).pairs().update(i, (key, value)))
                || (!old(self)@.contains_key(key@) && final(self).pairs() == old(self).pairs().push((key, value))),
    {
        match self.find(&key) {
            Some(i) => {
                let ghost s = self.items@;
                let ghost k = key@;
                self.items.set(i, (key, value));
                proof {
                    let t = self.items@;
                    assert(keys_unique(t)) by {
                        assert forall|a: int, b: int|
                            0 <= a < t.len() && 0 <= b < t.len() && a != b implies #[trigger] t[a].0@ != #[trigger] t[b].0@ by {
                            if a != i && b != i {
                                assert(t[a] == s[a] && t[b] == s[b]);
                            } else if a == i {
                                assert(t[b] == s[b]);
                            } else {
                                assert(t[a] == s[a]);
                            }
                        }
                    }
                    assert forall|q: Seq<char>| #[trigger] map_of(t).contains_key(q) == map_of(s).insert(k, value).contains_key(q) by {
                        if has_key(s, q) {
                            let j = choose|j: int| 0 <= j < s.len() && #[trigger] s[j].0@ == q;
                            assert(t[j].0@ == q);
                        }
                        if has_key(t, q) {
                            let j = choose|j: int| 0 <= j < t.len() && #[trigger] t[j].0@ == q;
                            assert(s[j].0@ == q);
                        }
                    }
                    assert forall|q: Seq<char>| #[trigger] map_of(t).contains_key(q) implies map_of(t)[q] == map_of(s).insert(k, value)[q] by {
                        let j = choose|j: int| 0 <= j < t.len() && #[trigger] t[j].0@ == q;
                        lemma_map_of_index(t, j);
                        if j != i {
                            assert(t[j] == s[j]);
                            lemma_map_of_index(s, j);
                        }
                    }
                    assert(map_of(t) =~= map_of(s).insert(k, value));
                    assert(s[i as int].0@ == k);
                    assert(t == s.update(i as int, (key, value)));
                    assert(self.pairs() == old(self).pairs().update(i as int, (key, value)));
                }
            },
            None => {
                proof {
                    lemma_map_of_push(self.items@, (key, value));
                }
                self.items.push((key, value));
                assert(!old(self)@.contains_key(key@));
            },
        }
    }

    /// Takes one pair out of the map, or gives `None` when it is empty.
    pub fn pop(&mut self) -> (r: Option<(String, V)>)
        requires
            old(self).wf(),
        ensures
            final(self).wf(),
            match r {
                Some(p) => old(self)@.contains_key(p.0@) && old(self)@[p.0@] == p.1 && final(self)@
                    == old(self)@.remove(p.0@),
                None => old(self)@.dom().len() == 0 && final(self)@ == old(self)@,
            },
    {
        let ghost s = self.items@;
        proof {
            lemma_map_of_size(s);
        }
        match self.items.pop() {
            Some(p) => {
                proof {
                    let t = self.items@;
                    assert(s == t.push(p));
                    assert(keys_unique(t)) by {
                        assert forall|a: int, b: int|
                            0 <= a < t.len() && 0 <= b < t.len() && a != b implies #[trigger] t[a].0@ != #[trigger] t[b].0@ by {
                            assert(t[a] == s[a] && t[b] == s[b]);
                        }
                    }
                    assert(!has_key(t, p.0@)) by {
                        if has_key(t, p.0@) {
                            let a = choose|a: int| 0 <= a < t.len() && #[trigger] t[a].0@ == p.0@;
                            assert(t[a] == s[a]);
                            assert(s[a].0@ == s[s.len() - 1].0@);
                        }
                    }
                    lemma_map_of_push(t, p);
                    assert(!map_of(t).contains_key(p.0@));
                    assert(map_of(t) =~= map_of(s).remove(p.0@));
                }
                Some(p)
            },
            None => None,
        }
    }
}

} // verus!
