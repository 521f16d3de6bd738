//! A map keyed by strings, kept as a list of entries with distinct keys.
//!
//! It stands where a `HashMap<String, V>` would: its view is the finite map
//! from each key's characters to its value, and what it states does not
//! depend on the order in which entries were added.
use vstd::prelude::*;

verus! {

/// The map that a list of entries describes; a later entry for a key wins
/// over an earlier one.
pub open spec fn assoc_map<V>(s: Seq<(String, V)>) -> Map<Seq<char>, V>
    decreases s.len(),
{
    if s.len() == 0 {
        Map::empty()
    } else {
        assoc_map(s.drop_last()).insert(s.last().0@, s.last().1)
    }
}

/// No two entries share a key.
pub open spec fn distinct_keys<V>(s: Seq<(String, V)>) -> bool {
    forall|i: int, j: int|
        0 <= i < s.len() && 0 <= j < s.len() && i != j ==> #[trigger] s[i].0@ != #[trigger] s[j].0@
}

/// A key is in the map exactly when some entry carries it.
pub proof fn lemma_assoc_contains<V>(s: Seq<(String, V)>, k: Seq<char>)
    ensures
        assoc_map(s).contains_key(k) <==> exists|i: int| 0 <= i < s.len() && #[trigger] s[i].0@ == k,
    decreases s.len(),
{
    if s.len() > 0 {
        lemma_assoc_contains(s.drop_last(), k);
        if assoc_map(s).contains_key(k) && k != s.last().0@ {
            let i = choose|i: int| 0 <= i < s.drop_last().len() && #[trigger] s.drop_last()[i].0@ == k;
            assert(s[i].0@ == k);
        }
        if exists|i: int| 0 <= i < s.len() && #[trigger] s[i].0@ == k {
            let i = choose|i: int| 0 <= i < s.len() && #[trigger] s[i].0@ == k;
            if i < s.len() - 1 {
                assert(s.drop_last()[i].0@ == k);
            }
        }
    }
}

/// With distinct keys, each entry's value is what the map holds for its key.
pub proof fn lemma_assoc_index<V>(s: Seq<(String, V)>, i: int)
    requires
        distinct_keys(s),
        0 <= i < s.len(),
    ensures
        assoc_map(s).contains_key(s[i].0@),
        assoc_map(s)[s[i].0@] == s[i].1,
    decreases s.len(),
{
    if i < s.len() - 1 {
        assert(distinct_keys(s.drop_last()));
        lemma_assoc_index(s.drop_last(), i);
        assert(s.drop_last()[i] == s[i]);
        assert(s[i].0@ != s[s.len() - 1].0@);
    }
}

/// With distinct keys, the map has one key per entry.
pub proof fn lemma_assoc_len<V>(s: Seq<(String, V)>)
    requires
        distinct_keys(s),
    ensures
        assoc_map(s).dom().finite(),
        assoc_map(s).len() == s.len(),
    decreases s.len(),
{
    if s.len() > 0 {
        let t = s.drop_last();
        assert(distinct_keys(t));
        lemma_assoc_len(t);
        lemma_assoc_contains(t, s.last().0@);
        if assoc_map(t).contains_key(s.last().0@) {
            let i = choose|i: int| 0 <= i < t.len() && #[trigger] t[i].0@ == s.last().0@;
            assert(s[i].0@ == s[s.len() - 1].0@);
        }
    }
}

/// Replacing the entry of an existing key updates that key only.
pub proof fn lemma_assoc_update<V>(s: Seq<(String, V)>, i: int, e: (String, V))
    requires
        distinct_keys(s),
        0 <= i < s.len(),
        e.0@ == s[i].0@,
    ensures
        distinct_keys(s.update(i, e)),
        assoc_map(s.update(i, e)) == assoc_map(s).insert(e.0@, e.1),
    decreases s.len(),
{
    let u = s.update(i, e);
    assert(distinct_keys(u)) by {
        assert forall|a: int, b: int| 0 <= a < u.len() && 0 <= b < u.len() && a != b implies
            #[trigger] u[a].0@ != #[trigger] u[b].0@ by {
            assert(u[a].0@ == s[a].0@);
            assert(u[b].0@ == s[b].0@);
        }
    }
    if i == s.len() - 1 {
        assert(u.drop_last() =~= s.drop_last());
        lemma_assoc_contains(s.drop_last(), e.0@);
        assert(assoc_map(u) =~= assoc_map(s).insert(e.0@, e.1));
    } else {
        let t = s.drop_last();
        assert(distinct_keys(t));
        lemma_assoc_update(t, i, e);
        assert(u.drop_last() =~= t.update(i, e));
        assert(e.0@ != s.last().0@);
        assert(assoc_map(u) =~= assoc_map(s).insert(e.0@, e.1));
    }
}

/// Appending an entry with a new key adds that key.
pub proof fn lemma_assoc_push<V>(s: Seq<(String, V)>, e: (String, V))
    requires
        distinct_keys(s),
        !assoc_map(s).contains_key(e.0@),
    ensures
        distinct_keys(s.push(e)),
        assoc_map(s.push(e)) == assoc_map(s).insert(e.0@, e.1),
{
    let u = s.push(e);
    assert(u.drop_last() =~= s);
    lemma_assoc_contains(s, e.0@);
    assert(distinct_keys(u)) by {
        assert forall|a: int, b: int| 0 <= a < u.len() && 0 <= b < u.len() && a != b implies
            #[trigger] u[a].0@ != #[trigger] u[b].0@ by {
            if a < s.len() && b < s.len() {
                assert(u[a] == s[a]);
                assert(u[b] == s[b]);
            } else if a < s.len() {
                assert(u[a] == s[a]);
            } else {
                assert(u[b] == s[b]);
            }
        }
    }
}

/// A map from strings to values.
#[derive(Debug)]
pub struct StrMap<V> {
    entries: Vec<(String, V)>,
}

impl<V> View for StrMap<V> {
    type V = Map<Seq<char>, V>;

    closed spec fn view(&self) -> Map<Seq<char>, V> {
        assoc_map(self.entries@)
    }
}

impl<V> StrMap<V> {
    #[verifier::type_invariant]
    closed spec fn keys_distinct(&self) -> bool {
        distinct_keys(self.entries@)
    }

    /// An empty map.
    pub fn new() -> (res: StrMap<V>)
        ensures
            res@ == Map::<Seq<char>, V>::empty(),
    {
        StrMap { entries: Vec::new() }
    }

    /// The number of keys.
    pub fn len(&self) -> (res: usize)
        ensures
            self@.dom().finite(),
            res == self@.len(),
    {
        proof {
            use_type_invariant(self);
            lemma_assoc_len(self.entries@);
        }
        self.entries.len()
    }

    /// The position of the entry for `key`, if there is one.
    fn find(&self, key: &String) -> (res: Option<usize>)
        ensures
            match res {
                Some(i) => i < self.entries@.len() && self.entries@[i as int].0@ == key@,
                None => !self@.contains_key(key@),
            },
    {
        let n = self.entries.len();
        let mut i: usize = 0;
        while i < n
            invariant
                n == self.entries@.len(),
                i <= n,
                forall|j: int| 0 <= j < i ==> #[trigger] self.entries@[j].0@ != key@,
            decreases n - i,
        {
            if self.entries[i].0 == *key {
                return Some(i);
            }
            i = i + 1;
        }
        proof {
            lemma_assoc_contains(self.entries@, key@);
        }
        None
    }

    /// The value held for `key`, if any.
    pub fn get(&self, key: &String) -> (res: Option<&V>)
        ensures
            res == (if self@.contains_key(key@) { Some(&self@[key@]) } else { None::<&V> }),
    {
        proof {
            use_type_invariant(self);
        }
        match self.find(key) {
            Some(i) => {
                proof {
                    lemma_assoc_index(self.entries@, i as int);
                }
                Some(&self.entries[i].1)
            },
            None => None,
        }
    }

    /// Holds `value` for `key`, replacing what was held for it.
    pub fn insert(&mut self, key: String, value: V)
        ensures
            final(self)@ == old(self)@.insert(key@, value),
    {
        proof {
            use_type_invariant(&*self);
        }
        let ghost k = key@;
        match self.find(&key) {
            Some(i) => {
                let mut entries = Vec::new();
                std::mem::swap(&mut entries, &mut self.entries);
                proof {
                    lemma_assoc_update(entries@, i as int, (key, value));
                }
                entries.set(i, (key, value));
                self.entries = entries;
            },
            None => {
                let mut entries = Vec::new();
                std::mem::swap(&mut entries, &mut self.entries);
                proof {
                    lemma_assoc_push(entries@, (key, value));
                }
                entries.push((key, value));
                self.entries = entries;
            },
        }
    }

    /// The entries, one per key, in the order their keys were first added.
    pub fn into_entries(self) -> (res: Vec<(String, V)>)
        ensures
            distinct_keys(res@),
            assoc_map(res@) == self@,
    {
        proof {
            use_type_invariant(&self);
        }
        self.entries
    }

    /// The entries, one per key, in the order their keys were first added.
    pub fn entries(&self) -> (res: &Vec<(String, V)>)
        ensures
            distinct_keys(res@),
            assoc_map(res@) == self@,
    {
        proof {
            use_type_invariant(self);
        }
        &self.entries
    }
}

impl<V: Clone> StrMap<V> {
    /// A copy of the map: the same keys, each value a clone of the original.
    pub fn clone_map(&self) -> (res: StrMap<V>)
        ensures
            res@.dom() == self@.dom(),
            forall|k: Seq<char>| #[trigger] self@.contains_key(k) ==> cloned(self@[k], res@[k]),
    {
        proof {
            use_type_invariant(self);
        }
        let n = self.entries.len();
        let mut entries: Vec<(String, V)> = Vec::new();
        let mut i: usize = 0;
        while i < n
            invariant
                n == self.entries@.len(),
                i <= n,
                distinct_keys(self.entries@),
                entries@.len() == i,
                forall|j: int| 0 <= j < i ==> #[trigger] entries@[j].0@ == self.entries@[j].0@,
                forall|j: int| 0 <= j < i ==> cloned(self.entries@[j].1, #[trigger] entries@[j].1),
            decreases n - i,
        {
            let key = self.entries[i].0.clone();
            let value = self.entries[i].1.clone();
            entries.push((key, value));
            i = i + 1;
        }
        assert(distinct_keys(entries@)) by {
            assert forall|a: int, b: int| 0 <= a < entries@.len() && 0 <= b < entries@.len() && a != b implies
                #[trigger] entries@[a].0@ != #[trigger] entries@[b].0@ by {
                assert(entries@[a].0@ == self.entries@[a].0@);
                assert(entries@[b].0@ == self.entries@[b].0@);
            }
        }
        assert forall|k: Seq<char>| #[trigger] self@.contains_key(k) implies
            res_has(entries@, self.entries@, k) by {
            lemma_assoc_contains(self.entries@, k);
            let j = choose|j: int| 0 <= j < self.entries@.len() && #[trigger] self.entries@[j].0@ == k;
            lemma_assoc_index(self.entries@, j);
            lemma_assoc_index(entries@, j);
        }
        assert forall|k: Seq<char>| #[trigger] assoc_map(entries@).contains_key(k) implies
            self@.contains_key(k) by {
            lemma_assoc_contains(entries@, k);
            let j = choose|j: int| 0 <= j < entries@.len() && #[trigger] entries@[j].0@ == k;
            lemma_assoc_index(self.entries@, j);
        }
        assert(assoc_map(entries@).dom() =~= self@.dom());
        StrMap { entries }
    }
}

/// `k` is held in both lists, the value in `copy` a clone of that in `orig`.
spec fn res_has<V: Clone>(copy: Seq<(String, V)>, orig: Seq<(String, V)>, k: Seq<char>) -> bool {
    assoc_map(copy).contains_key(k) && cloned(assoc_map(orig)[k], assoc_map(copy)[k])
}

} // verus!
