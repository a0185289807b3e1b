//! A map from strings to strings that remembers insertion order.
//!
//! It stands for the `HashMap<String, String>` of runtime resources and the
//! `BTreeMap<String, String>` of configuration variables: lookups go by
//! exact key, a later insertion of a key replaces its value, and the entries
//! can be walked in the order their keys were first inserted.

use vstd::prelude::*;

verus! {

/// The map that a sequence of `(key, value)` insertions builds: the last
/// insertion of a key wins.
pub open spec fn to_map(pairs: Seq<(Seq<char>, Seq<char>)>) -> Map<Seq<char>, Seq<char>>
    decreases pairs.len(),
{
    if pairs.len() == 0 {
        Map::empty()
    } else {
        to_map(pairs.drop_last()).insert(pairs.last().0, pairs.last().1)
    }
}

/// No key occurs twice.
pub open spec fn unique_keys(pairs: Seq<(Seq<char>, Seq<char>)>) -> bool {
    forall|i: int, j: int|
        0 <= i < pairs.len() && 0 <= j < pairs.len() && i != j ==> #[trigger] pairs[i].0
            != #[trigger] pairs[j].0
}

/// The views of string pairs.
pub open spec fn pair_views(v: Seq<(String, String)>) -> Seq<(Seq<char>, Seq<char>)> {
    v.map_values(|p: (String, String)| (p.0@, p.1@))
}

/// The keys of `to_map(pairs)` are the keys of the pairs.
pub proof fn lemma_to_map_dom(pairs: Seq<(Seq<char>, Seq<char>)>, k: Seq<char>)
    ensures
        to_map(pairs).dom().contains(k) <==> exists|i: int| 0 <= i < pairs.len() && #[trigger] pairs[i].0 == k,
    decreases pairs.len(),
{
    if pairs.len() > 0 {
        lemma_to_map_dom(pairs.drop_last(), k);
        if to_map(pairs).dom().contains(k) && k != pairs.last().0 {
            let i = choose|i: int| 0 <= i < pairs.drop_last().len() && #[trigger] pairs.drop_last()[i].0 == k;
            assert(pairs[i].0 == k);
        }
        if exists|i: int| 0 <= i < pairs.len() && #[trigger] pairs[i].0 == k {
            let i = choose|i: int| 0 <= i < pairs.len() && #[trigger] pairs[i].0 == k;
            if i < pairs.len() - 1 {
                assert(pairs.drop_last()[i].0 == k);
            }
        }
    }
}

/// With unique keys, each pair's value is what the map holds for its key.
pub proof fn lemma_to_map_value(pairs: Seq<(Seq<char>, Seq<char>)>, i: int)
    requires
        unique_keys(pairs),
        0 <= i < pairs.len(),
    ensures
        to_map(pairs).dom().contains(pairs[i].0),
        to_map(pairs)[pairs[i].0] == pairs[i].1,
    decreases pairs.len(),
{
    if i < pairs.len() - 1 {
        let p = pairs.drop_last();
        assert(unique_keys(p)) by {
            assert forall|a: int, b: int| 0 <= a < p.len() && 0 <= b < p.len() && a != b implies #[trigger] p[a].0
                != #[trigger] p[b].0 by {
                assert(p[a] == pairs[a] && p[b] == pairs[b]);
            }
        }
        lemma_to_map_value(p, i);
        assert(p[i] == pairs[i]);
        assert(pairs[i].0 != pairs[pairs.len() - 1].0);
    }
}

proof fn lemma_to_map_update(pairs: Seq<(Seq<char>, Seq<char>)>, i: int, v: Seq<char>)
    requires
        unique_keys(pairs),
        0 <= i < pairs.len(),
    ensures
        to_map(pairs.update(i, (pairs[i].0, v))) == to_map(pairs).insert(pairs[i].0, v),
    decreases pairs.len(),
{
    let k = pairs[i].0;
    let q = pairs.update(i, (k, v));
    assert(q.drop_last() =~= if i == pairs.len() - 1 { pairs.drop_last() } else { pairs.drop_last().update(i, (k, v)) });
    if i == pairs.len() - 1 {
        assert(to_map(q) =~= to_map(pairs).insert(k, v));
    } else {
        let p = pairs.drop_last();
        assert(unique_keys(p)) by {
            assert forall|a: int, b: int| 0 <= a < p.len() && 0 <= b < p.len() && a != b implies #[trigger] p[a].0
                != #[trigger] p[b].0 by {
                assert(p[a] == pairs[a] && p[b] == pairs[b]);
            }
        }
        assert(p[i] == pairs[i]);
        lemma_to_map_update(p, i, v);
        assert(pairs.last().0 != k);
        assert(to_map(q) =~= to_map(pairs).insert(k, v));
    }
}

/// The last insertion of a key wins: when no later pair has the key of
/// pair `i`, the map holds that pair's value for it.
pub proof fn lemma_to_map_last_wins(pairs: Seq<(Seq<char>, Seq<char>)>, i: int)
    requires
        0 <= i < pairs.len(),
        forall|j: int| i < j < pairs.len() ==> #[trigger] pairs[j].0 != pairs[i].0,
    ensures
        to_map(pairs).dom().contains(pairs[i].0),
        to_map(pairs)[pairs[i].0] == pairs[i].1,
    decreases pairs.len(),
{
    if i < pairs.len() - 1 {
        let p = pairs.drop_last();
        assert forall|j: int| i < j < p.len() implies #[trigger] p[j].0 != p[i].0 by {
            assert(p[j] == pairs[j] && p[i] == pairs[i]);
        }
        lemma_to_map_last_wins(p, i);
        assert(p[i] == pairs[i]);
        assert(pairs[pairs.len() - 1].0 != pairs[i].0);
    }
}


/// A string-to-string map with insertion order.
pub struct StringMap {
    entries: Vec<(String, String)>,
}

impl View for StringMap {
    type V = Map<Seq<char>, Seq<char>>;

    open spec fn view(&self) -> Map<Seq<char>, Seq<char>> {
        to_map(self.pairs())
    }
}

impl StringMap {
    /// The entries in the order their keys were first inserted.
    pub closed spec fn pairs(&self) -> Seq<(Seq<char>, Seq<char>)> {
        pair_views(self.entries@)
    }

    /// Keys are unique.
    #[verifier::type_invariant]
    spec fn inv(&self) -> bool {
        unique_keys(pair_views(self.entries@))
    }

    /// An empty map.
    pub fn new() -> (m: Self)
        ensures
            m.pairs() == Seq::<(Seq<char>, Seq<char>)>::empty(),
            m@ == Map::<Seq<char>, Seq<char>>::empty(),
    {
        let m = StringMap { entries: Vec::new() };
        assert(m.pairs() =~= Seq::<(Seq<char>, Seq<char>)>::empty());
        m
    }

    /// The number of keys.
    pub fn len(&self) -> (n: usize)
        ensures
            n == self.pairs().len(),
            unique_keys(self.pairs()),
    {
        proof {
            use_type_invariant(self);
        }
        self.entries.len()
    }

    /// The entry at `i` in insertion order.
    pub fn entry(&self, i: usize) -> (r: (&String, &String))
        requires
            i < self.pairs().len(),
        ensures
            (r.0@, r.1@) == self.pairs()[i as int],
    {
        let e = &self.entries[i];
        (&e.0, &e.1)
    }

    fn find(&self, key: &str) -> (r: Option<usize>)
        ensures
            match r {
                Some(i) => i < self.pairs().len() && self.pairs()[i as int].0 == key@,
                None => forall|i: int| 0 <= i < self.pairs().len() ==> #[trigger] self.pairs()[i].0 != key@,
            },
    {
        let mut i: usize = 0;
        while i < self.entries.len()
            invariant
                0 <= i <= self.entries@.len(),
                self.pairs().len() == self.entries@.len(),
                forall|j: int| 0 <= j < i ==> #[trigger] self.pairs()[j].0 != key@,
            decreases self.entries@.len() - i,
        {
            if crate::text::str_eq(self.entries[i].0.as_str(), key) {
                return Some(i);
            }
            i = i + 1;
        }
        None
    }

    /// The value for `key`, if any.
    pub fn get(&self, key: &str) -> (r: Option<&String>)
        ensures
            match r {
                Some(v) => self@.dom().contains(key@) && self@[key@] == v@,
                None => !self@.dom().contains(key@),
            },
    {
        proof {
            use_type_invariant(self);
            lemma_to_map_dom(self.pairs(), key@);
        }
        match self.find(key) {
            Some(i) => {
                proof {
                    lemma_to_map_value(self.pairs(), i as int);
                }
                Some(&self.entries[i].1)
            },
            None => None,
        }
    }

    /// Sets `key` to `value`: a present key keeps its position, a new key
    /// goes last.
    pub fn insert(&mut self, key: String, value: String)
        ensures
            final(self)@ == old(self)@.insert(key@, value@),
            old(self)@.dom().contains(key@) ==> exists|i: int|
                0 <= i < old(self).pairs().len() && #[trigger] old(self).pairs()[i].0 == key@ && final(self).pairs()
                    == old(self).pairs().update(i, (key@, value@)),
            !old(self)@.dom().contains(key@) ==> final(self).pairs() == old(self).pairs().push((key@, value@)),
    {
        proof {
            use_type_invariant(&*self);
            lemma_to_map_dom(self.pairs(), key@);
        }
        let ghost old_pairs = self.pairs();
        match self.find(key.as_str()) {
            Some(i) => {
                let ghost kv = key@;
                let mut entries: Vec<(String, String)> = Vec::new();
                std::mem::swap(&mut entries, &mut self.entries);
                entries.set(i, (key, value));
                proof {
                    assert(pair_views(entries@) =~= old_pairs.update(i as int, (kv, value@)));
                    lemma_to_map_update(old_pairs, i as int, value@);
                    assert(old_pairs[i as int].0 == kv);
                    assert(unique_keys(pair_views(entries@))) by {
                        let p = pair_views(entries@);
                        assert forall|a: int, b: int| 0 <= a < p.len() && 0 <= b < p.len() && a != b implies #[trigger] p[a].0
                            != #[trigger] p[b].0 by {
                            assert(p[a].0 == old_pairs[a].0 && p[b].0 == old_pairs[b].0);
                        }
                    }
                }
                self.entries = entries;
            },
            None => {
                let ghost kv = (key@, value@);
                let mut entries: Vec<(String, String)> = Vec::new();
                std::mem::swap(&mut entries, &mut self.entries);
                entries.push((key, value));
                proof {
                    assert(pair_views(entries@) =~= old_pairs.push(kv));
                    assert(pair_views(entries@).drop_last() =~= old_pairs);
                    assert(unique_keys(pair_views(entries@))) by {
                        let p = pair_views(entries@);
                        assert forall|a: int, b: int| 0 <= a < p.len() && 0 <= b < p.len() && a != b implies #[trigger] p[a].0
                            != #[trigger] p[b].0 by {
                            if a < old_pairs.len() && b < old_pairs.len() {
                                assert(p[a].0 == old_pairs[a].0 && p[b].0 == old_pairs[b].0);
                            } else if a < old_pairs.len() {
                                assert(p[a].0 == old_pairs[a].0);
                            } else {
                                assert(p[b].0 == old_pairs[b].0);
                            }
                        }
                    }
                }
                self.entries = entries;
            },
        }
    }
}

} // verus!
