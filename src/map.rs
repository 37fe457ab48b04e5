use vstd::prelude::*;
use crate::order::{key_lt, bytes_less, lemma_key_lt_irreflexive, lemma_key_lt_transitive, lemma_key_lt_total};

verus! {

/// The abstract content of a resource map: its entries, in order.
pub type Entries = Seq<(Seq<char>, Seq<u8>)>;

/// No key occurs twice.
pub open spec fn keys_distinct(s: Entries) -> bool {
    forall|i: int, j: int|
        0 <= i < s.len() && 0 <= j < s.len() && i != j ==> #[trigger] s[i].0 != #[trigger] s[j].0
}

/// Keys strictly ascend, in the order in which strings compare.
pub open spec fn keys_sorted(s: Entries) -> bool {
    forall|i: int, j: int| 0 <= i < j < s.len() ==> #[trigger] key_lt(s[i].0, s[j].0)
}

pub proof fn lemma_sorted_distinct(s: Entries)
    requires
        keys_sorted(s),
    ensures
        keys_distinct(s),
{
    assert forall|i: int, j: int| 0 <= i < s.len() && 0 <= j < s.len() && i != j implies #[trigger] s[i].0 != #[trigger] s[j].0 by {
        if i < j {
            assert(key_lt(s[i].0, s[j].0));
            lemma_key_lt_irreflexive(s[i].0);
        } else {
            assert(key_lt(s[j].0, s[i].0));
            lemma_key_lt_irreflexive(s[j].0);
        }
    }
}

/// `s` with the entry `(k, v)` placed where its key belongs in key order.
pub open spec fn sorted_insert(s: Entries, k: Seq<char>, v: Seq<u8>) -> Entries
    decreases s.len(),
{
    if s.len() == 0 || key_lt(s.last().0, k) {
        s.push((k, v))
    } else {
        sorted_insert(s.drop_last(), k, v).push(s.last())
    }
}

proof fn lemma_sorted_insert(s: Entries, k: Seq<char>, v: Seq<u8>, p: int)
    requires
        keys_sorted(s),
        0 <= p <= s.len(),
        forall|i: int| 0 <= i < p ==> #[trigger] key_lt(s[i].0, k),
        forall|i: int| p <= i < s.len() ==> #[trigger] key_lt(k, s[i].0),
    ensures
        sorted_insert(s, k, v) == s.insert(p, (k, v)),
        keys_sorted(s.insert(p, (k, v))),
        map_of(s.insert(p, (k, v))) == map_of(s).insert(k, v),
    decreases s.len(),
{
    let t = s.insert(p, (k, v));
    assert forall|i: int, j: int| 0 <= i < j < t.len() implies #[trigger] key_lt(t[i].0, t[j].0) by {
        if i < p && j < p {
            assert(key_lt(s[i].0, s[j].0));
        } else if i < p && j == p {
        } else if i < p {
            lemma_key_lt_transitive(s[i].0, k, s[j - 1].0);
        } else if i == p {
        } else {
            assert(key_lt(s[i - 1].0, s[j - 1].0));
        }
    }
    if p == s.len() {
        assert(t =~= s.push((k, v)));
        if s.len() > 0 {
            assert(key_lt(s[s.len() - 1].0, k));
        }
        assert(t.drop_last() =~= s);
    } else {
        let d = s.drop_last();
        assert(key_lt(k, s[s.len() - 1].0));
        lemma_key_lt_irreflexive(k);
        assert(!key_lt(s.last().0, k)) by {
            if key_lt(s.last().0, k) {
                lemma_key_lt_transitive(k, s.last().0, k);
            }
        }
        assert(keys_sorted(d)) by {
            assert forall|i: int, j: int| 0 <= i < j < d.len() implies #[trigger] key_lt(d[i].0, d[j].0) by {
                assert(key_lt(s[i].0, s[j].0));
            }
        }
        assert forall|i: int| 0 <= i < p implies #[trigger] key_lt(d[i].0, k) by {
            assert(key_lt(s[i].0, k));
        }
        assert forall|i: int| p <= i < d.len() implies #[trigger] key_lt(k, d[i].0) by {
            assert(key_lt(k, s[i].0));
        }
        lemma_sorted_insert(d, k, v, p);
        assert(t =~= d.insert(p, (k, v)).push(s.last()));
        assert(t.drop_last() =~= d.insert(p, (k, v)));
        assert(s.last().0 != k);
        assert(map_of(t) =~= map_of(s).insert(k, v));
    }
}

/// A key above every key of sorted entries is appended.
pub proof fn lemma_sorted_insert_last(s: Entries, k: Seq<char>, v: Seq<u8>)
    requires
        keys_sorted(s),
        forall|i: int| 0 <= i < s.len() ==> #[trigger] key_lt(s[i].0, k),
    ensures
        upsert(s, k, v) == s.push((k, v)),
        keys_sorted(s.push((k, v))),
{
    assert forall|i: int| 0 <= i < s.len() implies #[trigger] s[i].0 != k by {
        if s[i].0 == k {
            assert(key_lt(s[i].0, k));
            lemma_key_lt_irreflexive(k);
        }
    }
    lemma_sorted_insert(s, k, v, s.len() as int);
    assert(s.insert(s.len() as int, (k, v)) =~= s.push((k, v)));
}

/// The mapping that the entries describe, later entries overriding earlier ones.
pub open spec fn map_of(s: Entries) -> Map<Seq<char>, Seq<u8>>
    decreases s.len(),
{
    if s.len() == 0 {
        Map::empty()
    } else {
        map_of(s.drop_last()).insert(s.last().0, s.last().1)
    }
}

/// The keys of `map_of(s)` are exactly the keys that occur in `s`.
pub proof fn lemma_map_of_dom(s: Entries, k: Seq<char>)
    ensures
        map_of(s).contains_key(k) <==> exists|i: int| 0 <= i < s.len() && #[trigger] s[i].0 == k,
    decreases s.len(),
{
    if s.len() > 0 {
        let p = s.drop_last();
        lemma_map_of_dom(p, k);
        if map_of(p).contains_key(k) {
            let i = choose|i: int| 0 <= i < p.len() && #[trigger] p[i].0 == k;
            assert(s[i].0 == k);
        }
        if exists|i: int| 0 <= i < s.len() && #[trigger] s[i].0 == k {
            let i = choose|i: int| 0 <= i < s.len() && #[trigger] s[i].0 == k;
            if i < s.len() - 1 {
                assert(p[i].0 == k);
            }
        }
    }
}

/// With distinct keys, each entry's value is what the mapping holds for its key.
pub proof fn lemma_map_of_index(s: Entries, i: int)
    requires
        keys_distinct(s),
        0 <= i < s.len(),
    ensures
        map_of(s).contains_key(s[i].0),
        map_of(s)[s[i].0] == s[i].1,
    decreases s.len(),
{
    if i < s.len() - 1 {
        let p = s.drop_last();
        assert(p[i] == s[i]);
        assert(s[s.len() - 1].0 != s[i].0);
        lemma_map_of_index(p, i);
    }
}

proof fn lemma_map_of_update(s: Entries, i: int, v: Seq<u8>)
    requires
        keys_distinct(s),
        0 <= i < s.len(),
    ensures
        map_of(s.update(i, (s[i].0, v))) == map_of(s).insert(s[i].0, v),
    decreases s.len(),
{
    let k = s[i].0;
    let t = s.update(i, (k, v));
    let p = s.drop_last();
    if i == s.len() - 1 {
        assert(t.drop_last() =~= p);
        assert(map_of(t) =~= map_of(s).insert(k, v));
    } else {
        assert(t.drop_last() =~= p.update(i, (k, v)));
        assert(p[i] == s[i]);
        lemma_map_of_update(p, i, v);
        assert(s[s.len() - 1].0 != k);
        assert(map_of(t) =~= map_of(s).insert(k, v));
    }
}

/// `s` with `k` bound to `v`: the entry with key `k` is overwritten in place,
/// or a new entry is appended when there is none.
pub open spec fn upsert(s: Entries, k: Seq<char>, v: Seq<u8>) -> Entries {
    if exists|i: int| 0 <= i < s.len() && #[trigger] s[i].0 == k {
        s.update(choose|i: int| 0 <= i < s.len() && #[trigger] s[i].0 == k, (k, v))
    } else {
        sorted_insert(s, k, v)
    }
}

/// Upserting keeps keys sorted and binds the key in the mapping.
pub proof fn lemma_upsert(s: Entries, k: Seq<char>, v: Seq<u8>)
    requires
        keys_sorted(s),
    ensures
        keys_sorted(upsert(s, k, v)),
        keys_distinct(upsert(s, k, v)),
        map_of(upsert(s, k, v)) == map_of(s).insert(k, v),
{
    lemma_sorted_distinct(s);
    if exists|i: int| 0 <= i < s.len() && #[trigger] s[i].0 == k {
        let i = choose|i: int| 0 <= i < s.len() && #[trigger] s[i].0 == k;
        lemma_map_of_update(s, i, v);
        let t = s.update(i, (s[i].0, v));
        assert(upsert(s, k, v) == t);
        assert forall|a: int, b: int| 0 <= a < b < t.len() implies #[trigger] key_lt(t[a].0, t[b].0) by {
            assert(key_lt(s[a].0, s[b].0));
        }
    } else {
        let p = insertion_point(s, k);
        lemma_sorted_insert(s, k, v, p);
    }
    lemma_sorted_distinct(upsert(s, k, v));
}

/// The position at which a key absent from sorted entries belongs.
proof fn insertion_point(s: Entries, k: Seq<char>) -> (p: int)
    requires
        keys_sorted(s),
        forall|i: int| 0 <= i < s.len() ==> #[trigger] s[i].0 != k,
    ensures
        0 <= p <= s.len(),
        forall|i: int| 0 <= i < p ==> #[trigger] key_lt(s[i].0, k),
        forall|i: int| p <= i < s.len() ==> #[trigger] key_lt(k, s[i].0),
    decreases s.len(),
{
    if s.len() == 0 {
        0
    } else {
        lemma_key_lt_total(s.last().0, k);
        if key_lt(s.last().0, k) {
            assert forall|i: int| 0 <= i < s.len() implies #[trigger] key_lt(s[i].0, k) by {
                if i < s.len() - 1 {
                    assert(key_lt(s[i].0, s[s.len() - 1].0));
                    lemma_key_lt_transitive(s[i].0, s.last().0, k);
                }
            }
            s.len() as int
        } else {
            let d = s.drop_last();
            assert(keys_sorted(d)) by {
                assert forall|i: int, j: int| 0 <= i < j < d.len() implies #[trigger] key_lt(d[i].0, d[j].0) by {
                    assert(key_lt(s[i].0, s[j].0));
                }
            }
            assert(forall|i: int| 0 <= i < d.len() ==> #[trigger] d[i] == s[i]);
            let p = insertion_point(d, k);
            assert(key_lt(k, s[s.len() - 1].0));
            assert forall|i: int| 0 <= i < p implies #[trigger] key_lt(s[i].0, k) by {
                assert(key_lt(d[i].0, k));
            }
            assert forall|i: int| p <= i < s.len() implies #[trigger] key_lt(k, s[i].0) by {
                if i < d.len() {
                    assert(key_lt(k, d[i].0));
                }
            }
            p
        }
    }
}

/// A map from canonical resource keys to byte strings, kept as a list of
/// entries whose keys strictly ascend in the order in which strings compare.
#[derive(Clone, Debug, PartialEq, Eq)]
pub struct ResourceMap {
    entries: Vec<(String, Vec<u8>)>,
}

impl View for ResourceMap {
    type V = Entries;

    closed spec fn view(&self) -> Entries {
        self.entries@.map_values(|e: (String, Vec<u8>)| (e.0@, e.1@))
    }
}

impl ResourceMap {
    /// Well-formed: keys strictly ascend, so no key occurs twice.
    pub open spec fn wf(&self) -> bool {
        keys_sorted(self@)
    }

    /// The mapping from keys to values that this map holds.
    pub open spec fn as_map(&self) -> Map<Seq<char>, Seq<u8>> {
        map_of(self@)
    }

    /// An empty map.
    pub fn new() -> (r: ResourceMap)
        ensures
            r@ == Seq::<(Seq<char>, Seq<u8>)>::empty(),
            r.wf(),
    {
        let r = ResourceMap { entries: Vec::new() };
        assert(r@ =~= Seq::<(Seq<char>, Seq<u8>)>::empty());
        r
    }

    /// The number of entries.
    pub fn len(&self) -> (r: usize)
        ensures
            r == self@.len(),
    {
        self.entries.len()
    }

    /// The key and value of the entry at position `i`.
    pub fn entry(&self, i: usize) -> (r: (&String, &Vec<u8>))
        requires
            i < self@.len(),
        ensures
            (r.0@, r.1@) == self@[i as int],
    {
        let e = &self.entries[i];
        (&e.0, &e.1)
    }

    /// The position of `key`, if present.
    pub fn position(&self, key: &String) -> (r: Option<usize>)
        ensures
            r matches Some(i) ==> i < self@.len() && self@[i as int].0 == key@,
            r is None ==> forall|i: int| 0 <= i < self@.len() ==> #[trigger] self@[i].0 != key@,
    {
        let mut i: usize = 0;
        while i < self.entries.len()
            invariant
                i <= self@.len(),
                self@.len() == self.entries@.len(),
                forall|j: int| 0 <= j < i ==> #[trigger] self@[j].0 != key@,
            decreases self.entries.len() - i,
        {
            if self.entries[i].0 == *key {
                return Some(i);
            }
            i = i + 1;
        }
        None
    }

    /// The value stored under `key`, if any.
    pub fn get(&self, key: &String) -> (r: Option<&Vec<u8>>)
        requires
            self.wf(),
        ensures
            r matches Some(v) ==> self.as_map().contains_key(key@) && self.as_map()[key@] == v@,
            r is None ==> !self.as_map().contains_key(key@),
    {
        proof {
            lemma_map_of_dom(self@, key@);
            lemma_sorted_distinct(self@);
        }
        match self.position(key) {
            Some(i) => {
                proof {
                    lemma_map_of_index(self@, i as int);
                }
                Some(&self.entries[i].1)
            },
            None => None,
        }
    }

    /// Stores `value` under `key`: an entry with that key is overwritten in place,
    /// otherwise a new entry is placed where its key belongs in key order.
    pub fn insert(&mut self, key: String, value: Vec<u8>)
        requires
            old(self).wf(),
        ensures
            final(self).wf(),
            final(self)@ == upsert(old(self)@, key@, value@),
            final(self).as_map() == old(self).as_map().insert(key@, value@),
    {
        let ghost k = key@;
        let ghost v = value@;
        proof {
            lemma_upsert(old(self)@, k, v);
            lemma_sorted_distinct(old(self)@);
        }
        match self.position(&key) {
            Some(i) => {
                proof {
                    lemma_map_of_update(self@, i as int, v);
                }
                let ghost before = self@;
                let ghost j = choose|j: int| 0 <= j < before.len() && #[trigger] before[j].0 == k;
                assert(j == i);
                self.entries.set(i, (key, value));
                assert(self@ =~= before.update(i as int, (k, v)));
            },
            None => {
                let ghost before = self@;
                let p = self.insertion_index(&key);
                proof {
                    lemma_sorted_insert(before, k, v, p as int);
                }
                self.entries.insert(p, (key, value));
                assert(self@ =~= before.insert(p as int, (k, v)));
            },
        }
    }

    /// The number of entries whose key comes before `key`.
    fn insertion_index(&self, key: &String) -> (p: usize)
        requires
            self.wf(),
            forall|i: int| 0 <= i < self@.len() ==> #[trigger] self@[i].0 != key@,
        ensures
            p <= self@.len(),
            forall|i: int| 0 <= i < p ==> #[trigger] key_lt(self@[i].0, key@),
            forall|i: int| p <= i < self@.len() ==> #[trigger] key_lt(key@, self@[i].0),
    {
        let mut p: usize = 0;
        while p < self.entries.len()
            invariant
                p <= self@.len(),
                self@.len() == self.entries@.len(),
                self.wf(),
                forall|i: int| 0 <= i < self@.len() ==> #[trigger] self@[i].0 != key@,
                forall|i: int| 0 <= i < p ==> #[trigger] key_lt(self@[i].0, key@),
            decreases self.entries.len() - p,
        {
            if bytes_less(key.as_str().as_bytes(), self.entries[p].0.as_str().as_bytes()) {
                proof {
                    assert forall|i: int| p <= i < self@.len() implies #[trigger] key_lt(key@, self@[i].0) by {
                        if i > p {
                            assert(key_lt(self@[p as int].0, self@[i].0));
                            lemma_key_lt_transitive(key@, self@[p as int].0, self@[i].0);
                        }
                    }
                }
                return p;
            }
            proof {
                assert(self@[p as int].0 != key@);
                lemma_key_lt_total(key@, self@[p as int].0);
            }
            p = p + 1;
        }
        p
    }
}

} // verus!
