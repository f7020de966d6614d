//! A finite map from strings to values, kept as a list of entries sorted by key.
//! Its entries come out in the order of their keys, as a `BTreeMap<String, V>` gives them.

use vstd::prelude::*;
use crate::text::{seq_lt, str_lt, lemma_seq_lt_irreflexive, lemma_seq_lt_transitive, lemma_seq_lt_total};

verus! {

/// Whether the keys of `p` strictly increase.
pub open spec fn keys_sorted<V>(p: Seq<(Seq<char>, V)>) -> bool {
    forall|i: int, j: int| 0 <= i < j < p.len() ==> seq_lt(#[trigger] p[i].0, #[trigger] p[j].0)
}

/// In a sorted list each key comes before the next one and after the first.
pub proof fn law_sorted_keys_increase<V>(p: Seq<(Seq<char>, V)>, i: int)
    requires
        keys_sorted(p),
        0 <= i < p.len() - 1,
    ensures
        seq_lt(p[i].0, p[i + 1].0),
        seq_lt(p[0].0, p[i + 1].0),
        !seq_lt(p[i + 1].0, p[i].0),
{
    lemma_seq_lt_total(p[i].0, p[i + 1].0);
}

/// Whether `k` is the key of some entry of `p`.
pub open spec fn has_key<V>(p: Seq<(Seq<char>, V)>, k: Seq<char>) -> bool {
    exists|i: int| 0 <= i < p.len() && #[trigger] p[i].0 == k
}

/// The map that a list of entries with distinct keys stands for.
pub open spec fn map_of_pairs<V>(p: Seq<(Seq<char>, V)>) -> Map<Seq<char>, V> {
    Map::new(
        |k: Seq<char>| has_key(p, k),
        |k: Seq<char>| p[choose|i: int| 0 <= i < p.len() && #[trigger] p[i].0 == k].1,
    )
}

/// In a list sorted by key, the map holds each entry.
pub proof fn lemma_map_of_pairs_index<V>(p: Seq<(Seq<char>, V)>, j: int)
    requires
        keys_sorted(p),
        0 <= j < p.len(),
    ensures
        map_of_pairs(p).dom().contains(p[j].0),
        map_of_pairs(p)[p[j].0] == p[j].1,
{
    assert(has_key(p, p[j].0));
    let i = choose|i: int| 0 <= i < p.len() && #[trigger] p[i].0 == p[j].0;
    if i < j {
        lemma_seq_lt_irreflexive(p[j].0);
    } else if j < i {
        lemma_seq_lt_irreflexive(p[j].0);
    }
}

/// Inserting an entry at the place its key belongs keeps the keys sorted and adds it to the map.
proof fn lemma_insert_pairs<V>(p: Seq<(Seq<char>, V)>, i: int, k: Seq<char>, v: V)
    requires
        keys_sorted(p),
        0 <= i <= p.len(),
        forall|j: int| 0 <= j < i ==> seq_lt(#[trigger] p[j].0, k),
        i < p.len() ==> seq_lt(k, p[i].0),
    ensures
        keys_sorted(p.insert(i, (k, v))),
        map_of_pairs(p.insert(i, (k, v))) =~= map_of_pairs(p).insert(k, v),
{
    let q = p.insert(i, (k, v));
    assert forall|a: int, b: int| 0 <= a < b < q.len() implies seq_lt(#[trigger] q[a].0, #[trigger] q[b].0) by {
        if a < i && b == i {
        } else if a < i && b > i {
            if b - 1 > i {
                lemma_seq_lt_transitive(k, p[i].0, p[b - 1].0);
            }
            lemma_seq_lt_transitive(p[a].0, k, p[b - 1].0);
            assert(q[a] == p[a] && q[b] == p[b - 1]);
        } else if a == i && b > i {
            if b - 1 > i {
                lemma_seq_lt_transitive(k, p[i].0, p[b - 1].0);
            }
        } else if a > i {
            assert(q[a] == p[a - 1] && q[b] == p[b - 1]);
        }
    }
    assert forall|key: Seq<char>| #[trigger] has_key(q, key) <==> (has_key(p, key) || key == k) by {
        if has_key(q, key) {
            let j = choose|j: int| 0 <= j < q.len() && #[trigger] q[j].0 == key;
            if j < i {
                assert(p[j].0 == key);
            } else if j > i {
                assert(p[j - 1].0 == key);
            }
        }
        if has_key(p, key) {
            let j = choose|j: int| 0 <= j < p.len() && #[trigger] p[j].0 == key;
            if j < i {
                assert(q[j].0 == key);
            } else {
                assert(q[j + 1].0 == key);
            }
        }
        if key == k {
            assert(q[i].0 == key);
        }
    }
    assert forall|key: Seq<char>| #[trigger] map_of_pairs(q).dom().contains(key) implies map_of_pairs(q)[key]
        == map_of_pairs(p).insert(k, v)[key] by {
        let j = choose|j: int| 0 <= j < q.len() && #[trigger] q[j].0 == key;
        lemma_map_of_pairs_index(q, j);
        if j < i {
            assert(q[j] == p[j]);
            lemma_map_of_pairs_index(p, j);
            lemma_seq_lt_irreflexive(k);
            assert(key != k);
        } else if j > i {
            assert(q[j] == p[j - 1]);
            lemma_map_of_pairs_index(p, j - 1);
            if j - 1 > i {
                lemma_seq_lt_transitive(k, p[i].0, p[j - 1].0);
            }
            lemma_seq_lt_irreflexive(k);
            assert(key != k);
        } else {
            assert(q[j] == (k, v));
        }
    }
}

/// Replacing the value of an entry keeps the keys and sets the value in the map.
proof fn lemma_update_pairs<V>(p: Seq<(Seq<char>, V)>, i: int, v: V)
    requires
        keys_sorted(p),
        0 <= i < p.len(),
    ensures
        keys_sorted(p.update(i, (p[i].0, v))),
        map_of_pairs(p.update(i, (p[i].0, v))) =~= map_of_pairs(p).insert(p[i].0, v),
{
    let k = p[i].0;
    let q = p.update(i, (k, v));
    assert forall|a: int, b: int| 0 <= a < b < q.len() implies seq_lt(#[trigger] q[a].0, #[trigger] q[b].0) by {
        assert(q[a].0 == p[a].0 && q[b].0 == p[b].0);
    }
    assert forall|key: Seq<char>| #[trigger] has_key(q, key) <==> has_key(p, key) by {
        if has_key(q, key) {
            let j = choose|j: int| 0 <= j < q.len() && #[trigger] q[j].0 == key;
            assert(p[j].0 == key);
        }
        if has_key(p, key) {
            let j = choose|j: int| 0 <= j < p.len() && #[trigger] p[j].0 == key;
            assert(q[j].0 == key);
        }
    }
    lemma_map_of_pairs_index(p, i);
    assert forall|key: Seq<char>| #[trigger] map_of_pairs(q).dom().contains(key) implies map_of_pairs(q)[key]
        == map_of_pairs(p).insert(k, v)[key] by {
        let j = choose|j: int| 0 <= j < q.len() && #[trigger] q[j].0 == key;
        lemma_map_of_pairs_index(q, j);
        if j != i {
            lemma_map_of_pairs_index(p, j);
            if key == k {
                lemma_seq_lt_irreflexive(k);
            }
        }
    }
}

/// Removing an entry keeps the keys sorted and removes its key from the map.
proof fn lemma_remove_pairs<V>(p: Seq<(Seq<char>, V)>, i: int)
    requires
        keys_sorted(p),
        0 <= i < p.len(),
    ensures
        keys_sorted(p.remove(i)),
        map_of_pairs(p.remove(i)) =~= map_of_pairs(p).remove(p[i].0),
{
    let k = p[i].0;
    let q = p.remove(i);
    assert forall|a: int, b: int| 0 <= a < b < q.len() implies seq_lt(#[trigger] q[a].0, #[trigger] q[b].0) by {
        if a < i && b >= i {
            lemma_seq_lt_transitive(p[a].0, p[i].0, p[b + 1].0);
        }
        let a2 = if a < i { a } else { a + 1 };
        let b2 = if b < i { b } else { b + 1 };
        assert(q[a] == p[a2] && q[b] == p[b2]);
    }
    assert forall|key: Seq<char>| #[trigger] has_key(q, key) <==> (has_key(p, key) && key != k) by {
        if has_key(q, key) {
            let j = choose|j: int| 0 <= j < q.len() && #[trigger] q[j].0 == key;
            if j < i {
                assert(p[j].0 == key);
                lemma_seq_lt_irreflexive(k);
            } else {
                assert(p[j + 1].0 == key);
                lemma_seq_lt_irreflexive(k);
            }
        }
        if has_key(p, key) && key != k {
            let j = choose|j: int| 0 <= j < p.len() && #[trigger] p[j].0 == key;
            if j < i {
                assert(q[j].0 == key);
            } else {
                assert(q[j - 1].0 == key);
            }
        }
    }
    assert forall|key: Seq<char>| #[trigger] map_of_pairs(q).dom().contains(key) implies map_of_pairs(q)[key]
        == map_of_pairs(p).remove(k)[key] by {
        let j = choose|j: int| 0 <= j < q.len() && #[trigger] q[j].0 == key;
        lemma_map_of_pairs_index(q, j);
        if j < i {
            lemma_map_of_pairs_index(p, j);
        } else {
            lemma_map_of_pairs_index(p, j + 1);
        }
    }
}

/// The entries of `m` listed in strictly increasing key order.
pub open spec fn sorted_listing<V>(m: Map<Seq<char>, V>) -> Seq<(Seq<char>, V)> {
    choose|o: Seq<(Seq<char>, V)>| keys_sorted(o) && map_of_pairs(o) == m
}

/// A map has at most one listing in strictly increasing key order: two sorted lists of
/// entries that stand for the same map are the same list.
pub proof fn lemma_sorted_listing_unique<V>(o1: Seq<(Seq<char>, V)>, o2: Seq<(Seq<char>, V)>)
    requires
        keys_sorted(o1),
        keys_sorted(o2),
        map_of_pairs(o1) == map_of_pairs(o2),
    ensures
        o1 == o2,
    decreases o1.len(),
{
    if o1.len() == 0 {
        if o2.len() > 0 {
            lemma_map_of_pairs_index(o2, 0);
        }
        assert(o1 =~= o2);
    } else if o2.len() == 0 {
        lemma_map_of_pairs_index(o1, 0);
    } else {
        let k1 = o1[0].0;
        let k2 = o2[0].0;
        lemma_map_of_pairs_index(o1, 0);
        lemma_map_of_pairs_index(o2, 0);
        if k1 != k2 {
            lemma_seq_lt_total(k1, k2);
            if seq_lt(k1, k2) {
                let j = choose|j: int| 0 <= j < o2.len() && #[trigger] o2[j].0 == k1;
                if j > 0 {
                    lemma_seq_lt_total(k2, k1);
                } else {
                    lemma_seq_lt_irreflexive(k1);
                }
            } else {
                let j = choose|j: int| 0 <= j < o1.len() && #[trigger] o1[j].0 == k2;
                if j > 0 {
                    lemma_seq_lt_total(k1, k2);
                } else {
                    lemma_seq_lt_irreflexive(k2);
                }
            }
        }
        assert(o1[0] == o2[0]);
        lemma_remove_pairs(o1, 0);
        lemma_remove_pairs(o2, 0);
        lemma_sorted_listing_unique(o1.remove(0), o2.remove(0));
        assert(o1 =~= seq![o1[0]] + o1.remove(0));
        assert(o2 =~= seq![o2[0]] + o2.remove(0));
    }
}

/// A sorted list of entries is the sorted listing of the map it stands for.
pub proof fn lemma_sorted_listing<V>(o: Seq<(Seq<char>, V)>)
    requires
        keys_sorted(o),
    ensures
        sorted_listing(map_of_pairs(o)) == o,
{
    let m = map_of_pairs(o);
    assert(keys_sorted(o) && map_of_pairs(o) == m);
    let l = sorted_listing(m);
    lemma_sorted_listing_unique(l, o);
}

/// The texts of a map whose values are strings.
pub open spec fn texts(m: Map<Seq<char>, String>) -> Map<Seq<char>, Seq<char>> {
    m.map_values(|v: String| v@)
}

/// A list of entries whose values are strings, with each value taken as its text.
pub open spec fn text_pairs(p: Seq<(Seq<char>, String)>) -> Seq<(Seq<char>, Seq<char>)> {
    p.map_values(|e: (Seq<char>, String)| (e.0, e.1@))
}

/// Taking the values of a sorted list as texts keeps it sorted and gives the texts of its map.
pub proof fn lemma_text_pairs(p: Seq<(Seq<char>, String)>)
    requires
        keys_sorted(p),
    ensures
        keys_sorted(text_pairs(p)),
        map_of_pairs(text_pairs(p)) == texts(map_of_pairs(p)),
{
    let q = text_pairs(p);
    assert forall|a: int, b: int| 0 <= a < b < q.len() implies seq_lt(#[trigger] q[a].0, #[trigger] q[b].0) by {
        assert(q[a].0 == p[a].0 && q[b].0 == p[b].0);
    }
    assert forall|key: Seq<char>| #[trigger] has_key(q, key) <==> has_key(p, key) by {
        if has_key(q, key) {
            let j = choose|j: int| 0 <= j < q.len() && #[trigger] q[j].0 == key;
            assert(p[j].0 == key);
        }
        if has_key(p, key) {
            let j = choose|j: int| 0 <= j < p.len() && #[trigger] p[j].0 == key;
            assert(q[j].0 == key);
        }
    }
    assert forall|key: Seq<char>| #[trigger] map_of_pairs(q).dom().contains(key) implies map_of_pairs(q)[key]
        == texts(map_of_pairs(p))[key] by {
        let j = choose|j: int| 0 <= j < q.len() && #[trigger] q[j].0 == key;
        lemma_map_of_pairs_index(q, j);
        lemma_map_of_pairs_index(p, j);
    }
    assert(map_of_pairs(q) =~= texts(map_of_pairs(p)));
}

/// The (key, value) pairs that a list of string-keyed entries stands for.
pub open spec fn pairs_of<V>(e: Seq<(String, V)>) -> Seq<(Seq<char>, V)> {
    e.map_values(|x: (String, V)| (x.0@, x.1))
}

/// A map from strings to values whose entries are listed in increasing key order.
#[derive(Debug)]
pub struct StrMap<V> {
    entries: Vec<(String, V)>,
}

impl<V> View for StrMap<V> {
    type V = Map<Seq<char>, V>;

    open spec fn view(&self) -> Map<Seq<char>, V> {
        map_of_pairs(self.pairs())
    }
}

impl<V> StrMap<V> {
    /// The entries as (key, value) pairs, in the order in which they are kept.
    pub closed spec fn pairs(self) -> Seq<(Seq<char>, V)> {
        pairs_of(self.entries@)
    }

    /// Every map keeps its entries in strictly increasing key order.
    #[verifier::type_invariant]
    pub open spec fn sorted(self) -> bool {
        keys_sorted(self.pairs())
    }

    /// An empty map.
    pub fn new() -> (r: Self)
        ensures
            r@ == Map::<Seq<char>, V>::empty(),
            r.pairs().len() == 0,
    {
        let r = StrMap { entries: Vec::new() };
        assert(r@ =~= Map::<Seq<char>, V>::empty());
        r
    }

    /// The number of entries.
    pub fn len(&self) -> (n: usize)
        ensures
            n == self.pairs().len(),
    {
        self.entries.len()
    }

    /// The key and value of the entry at position `i` in key order.
    pub fn entry(&self, i: usize) -> (r: (&String, &V))
        requires
            i < self.pairs().len(),
        ensures
            r.0@ == self.pairs()[i as int].0,
            *r.1 == self.pairs()[i as int].1,
    {
        let e = &self.entries[i];
        (&e.0, &e.1)
    }

    /// The position at which `key` stands or would be inserted: every entry before it
    /// has a smaller key, and the entry there, if any, has a key that is not smaller.
    fn position(&self, key: &str) -> (i: usize)
        ensures
            i <= self.pairs().len(),
            forall|j: int| 0 <= j < i ==> seq_lt(#[trigger] self.pairs()[j].0, key@),
            i < self.pairs().len() ==> !seq_lt(self.pairs()[i as int].0, key@),
    {
        let mut i: usize = 0;
        while i < self.entries.len()
            invariant
                i <= self.entries@.len(),
                self.pairs().len() == self.entries@.len(),
                forall|j: int| 0 <= j < i ==> seq_lt(#[trigger] self.pairs()[j].0, key@),
            decreases self.entries@.len() - i,
        {
            if !str_lt(self.entries[i].0.as_str(), key) {
                return i;
            }
            i = i + 1;
        }
        i
    }

    /// Stores `value` under `key`, replacing any value stored there before.
    pub fn insert(&mut self, key: String, value: V)
        ensures
            final(self)@ == old(self)@.insert(key@, value),
    {
        proof {
            use_type_invariant(&*self);
        }
        let i = self.position(key.as_str());
        let mut entries: Vec<(String, V)> = Vec::new();
        std::mem::swap(&mut entries, &mut self.entries);
        let ghost p = pairs_of(entries@);
        if i < entries.len() && !str_lt(key.as_str(), entries[i].0.as_str()) {
            proof {
                lemma_seq_lt_total(p[i as int].0, key@);
                lemma_update_pairs(p, i as int, value);
            }
            entries.set(i, (key, value));
            assert(pairs_of(entries@) =~= p.update(i as int, (p[i as int].0, value)));
        } else {
            proof {
                lemma_insert_pairs(p, i as int, key@, value);
            }
            entries.insert(i, (key, value));
            assert(pairs_of(entries@) =~= p.insert(i as int, (key@, value)));
        }
        self.entries = entries;
    }

    /// Removes the entry stored under `key`, if there is one.
    pub fn remove(&mut self, key: &str)
        ensures
            final(self)@ == old(self)@.remove(key@),
    {
        proof {
            use_type_invariant(&*self);
        }
        let i = self.position(key);
        if i < self.entries.len() && !str_lt(key, self.entries[i].0.as_str()) {
            let mut entries: Vec<(String, V)> = Vec::new();
            std::mem::swap(&mut entries, &mut self.entries);
            let ghost p = pairs_of(entries@);
            proof {
                lemma_seq_lt_total(p[i as int].0, key@);
                lemma_remove_pairs(p, i as int);
            }
            let _ = entries.remove(i);
            assert(pairs_of(entries@) =~= p.remove(i as int));
            self.entries = entries;
        } else {
            proof {
                if self@.dom().contains(key@) {
                    let j = choose|j: int| 0 <= j < self.pairs().len() && #[trigger] self.pairs()[j].0 == key@;
                    if j < i {
                        lemma_seq_lt_irreflexive(key@);
                    } else if j > i {
                        lemma_seq_lt_total(self.pairs()[i as int].0, key@);
                        lemma_seq_lt_transitive(key@, self.pairs()[i as int].0, key@);
                        lemma_seq_lt_irreflexive(key@);
                    }
                }
                assert(self@ =~= self@.remove(key@));
            }
        }
    }

    /// The value stored under `key`, if any.
    pub fn get(&self, key: &str) -> (r: Option<&V>)
        ensures
            r is Some <==> self@.dom().contains(key@),
            r matches Some(v) ==> *v == self@[key@],
    {
        proof {
            use_type_invariant(self);
        }
        let i = self.position(key);
        if i < self.entries.len() && !str_lt(key, self.entries[i].0.as_str()) {
            proof {
                lemma_seq_lt_total(self.pairs()[i as int].0, key@);
                lemma_map_of_pairs_index(self.pairs(), i as int);
            }
            Some(&self.entries[i].1)
        } else {
            proof {
                if self@.dom().contains(key@) {
                    let j = choose|j: int| 0 <= j < self.pairs().len() && #[trigger] self.pairs()[j].0 == key@;
                    if j < i {
                        lemma_seq_lt_irreflexive(key@);
                    } else if j > i {
                        lemma_seq_lt_total(self.pairs()[i as int].0, key@);
                    }
                }
            }
            None
        }
    }
}

} // verus!
