//! A map from strings to strings that remembers the order in which its keys
//! first came in.

use vstd::hash_map::StringHashMap;
use vstd::prelude::*;

verus! {

/// Tells whether some entry has the key `key`.
pub open spec fn has_key(entries: Seq<(Seq<char>, Seq<char>)>, key: Seq<char>) -> bool {
    exists|i: int| 0 <= i < entries.len() && #[trigger] entries[i].0 == key
}

/// Tells whether no key occurs twice.
pub open spec fn distinct_keys(entries: Seq<(Seq<char>, Seq<char>)>) -> bool {
    forall|i: int, j: int|
        0 <= i < j < entries.len() ==> (#[trigger] entries[i]).0 != (#[trigger] entries[j]).0
}

/// The value under `key`, if there is one.
pub open spec fn lookup(entries: Seq<(Seq<char>, Seq<char>)>, key: Seq<char>) -> Option<Seq<char>>
    decreases entries.len(),
{
    if entries.len() == 0 {
        None
    } else if entries.last().0 == key {
        Some(entries.last().1)
    } else {
        lookup(entries.drop_last(), key)
    }
}

/// The entries after `value` has been put under `key`: in place where the key
/// is known, at the end where it is new.
pub open spec fn put(
    entries: Seq<(Seq<char>, Seq<char>)>,
    key: Seq<char>,
    value: Seq<char>,
) -> Seq<(Seq<char>, Seq<char>)> {
    if has_key(entries, key) {
        Seq::new(
            entries.len(),
            |i: int|
                if entries[i].0 == key {
                    (key, value)
                } else {
                    entries[i]
                },
        )
    } else {
        entries.push((key, value))
    }
}

/// What `lookup` finds stands in an entry, and a miss means that none has the
/// key.
pub proof fn lemma_lookup(entries: Seq<(Seq<char>, Seq<char>)>, key: Seq<char>)
    ensures
        lookup(entries, key) is Some <==> has_key(entries, key),
        lookup(entries, key) matches Some(v) ==> entries.contains((key, v)),
    decreases entries.len(),
{
    if entries.len() > 0 {
        let rest = entries.drop_last();
        let n = entries.len() - 1;
        if entries.last().0 == key {
            assert(entries[n].0 == key);
            assert(entries[n] == (key, entries.last().1));
        } else {
            lemma_lookup(rest, key);
            if has_key(entries, key) {
                let i = choose|i: int| 0 <= i < entries.len() && #[trigger] entries[i].0 == key;
                assert(rest[i].0 == key);
            }
            if let Some(v) = lookup(rest, key) {
                let i = choose|i: int| 0 <= i < rest.len() && rest[i] == (key, v);
                assert(entries[i] == (key, v));
                assert(has_key(entries, key));
            }
        }
    }
}

/// With distinct keys, the entry at `i` is what `lookup` finds under its key.
pub proof fn lemma_lookup_at(entries: Seq<(Seq<char>, Seq<char>)>, i: int)
    requires
        distinct_keys(entries),
        0 <= i < entries.len(),
    ensures
        lookup(entries, entries[i].0) == Some(entries[i].1),
{
    let key = entries[i].0;
    assert(has_key(entries, key));
    lemma_lookup(entries, key);
    let v = lookup(entries, key)->0;
    let j = choose|j: int| 0 <= j < entries.len() && entries[j] == (key, v);
    assert(entries[j].0 == entries[i].0);
    if i < j {
        assert(entries[i].0 != entries[j].0);
    } else if j < i {
        assert(entries[j].0 != entries[i].0);
    }
}

/// After a value has been put under a key, that key gives the value and every
/// other key gives what it gave before; the keys stay distinct.
pub proof fn law_put_then_lookup(
    entries: Seq<(Seq<char>, Seq<char>)>,
    key: Seq<char>,
    value: Seq<char>,
    other: Seq<char>,
)
    requires
        distinct_keys(entries),
    ensures
        distinct_keys(put(entries, key, value)),
        lookup(put(entries, key, value), key) == Some(value),
        other != key ==> lookup(put(entries, key, value), other) == lookup(entries, other),
{
    let after = put(entries, key, value);
    lemma_put_distinct(entries, key, value);
    if has_key(entries, key) {
        let i = choose|i: int| 0 <= i < entries.len() && #[trigger] entries[i].0 == key;
        assert(after[i] == (key, value));
        lemma_lookup_at(after, i);
    } else {
        assert(after[entries.len() as int] == (key, value));
        lemma_lookup_at(after, entries.len() as int);
    }
    if other != key {
        lemma_lookup(entries, other);
        lemma_lookup(after, other);
        if has_key(entries, other) {
            let i = choose|i: int| 0 <= i < entries.len() && #[trigger] entries[i].0 == other;
            assert(after[i] == entries[i]);
            lemma_lookup_at(entries, i);
            lemma_lookup_at(after, i);
        } else if has_key(after, other) {
            let i = choose|i: int| 0 <= i < after.len() && #[trigger] after[i].0 == other;
            if i < entries.len() {
                assert(entries[i].0 == other);
            }
        }
    }
}

proof fn lemma_put_distinct(
    entries: Seq<(Seq<char>, Seq<char>)>,
    key: Seq<char>,
    value: Seq<char>,
)
    requires
        distinct_keys(entries),
    ensures
        distinct_keys(put(entries, key, value)),
{
    let after = put(entries, key, value);
    assert forall|i: int, j: int| 0 <= i < j < after.len() implies (#[trigger] after[i]).0 != (
    #[trigger] after[j]).0 by {
        assert(i < entries.len());
        assert(after[i].0 == entries[i].0);
        if j < entries.len() {
            assert(after[j].0 == entries[j].0);
            assert(entries[i].0 != entries[j].0);
        } else {
            assert(entries[i].0 != key);
        }
    }
}

/// A map from strings to strings, in the order in which the keys first came
/// in.
pub struct StringTable {
    entries: Vec<(String, String)>,
    index: StringHashMap<usize>,
}

impl View for StringTable {
    type V = Seq<(Seq<char>, Seq<char>)>;

    closed spec fn view(&self) -> Self::V {
        self.entries.deep_view()
    }
}

impl StringTable {
    /// No key occurs twice, and the index knows where each key stands.
    pub closed spec fn wf(&self) -> bool {
        &&& distinct_keys(self@)
        &&& forall|key: Seq<char>|
            #![trigger self.index@.contains_key(key)]
            self.index@.contains_key(key) <==> has_key(self@, key)
        &&& forall|key: Seq<char>|
            #![trigger self.index@[key]]
            self.index@.contains_key(key) ==> self.index@[key] < self@.len()
                && self@[self.index@[key] as int].0 == key
    }

    /// The keys of a well-formed table are distinct.
    pub proof fn law_keys_are_distinct(&self)
        requires
            self.wf(),
        ensures
            distinct_keys(self@),
    {
    }

    /// A table without entries.
    pub fn new() -> (r: StringTable)
        ensures
            r.wf(),
            r@ == Seq::<(Seq<char>, Seq<char>)>::empty(),
    {
        let r = StringTable { entries: Vec::new(), index: StringHashMap::new() };
        assert(r@ =~= Seq::<(Seq<char>, Seq<char>)>::empty());
        r
    }

    /// The number of entries.
    pub fn len(&self) -> (r: usize)
        ensures
            r == self@.len(),
    {
        self.entries.len()
    }

    /// The key of the entry at position `i`.
    pub fn key_at(&self, i: usize) -> (r: &str)
        requires
            i < self@.len(),
        ensures
            r@ == self@[i as int].0,
    {
        self.entries[i].0.as_str()
    }

    /// The value of the entry at position `i`.
    pub fn value_at(&self, i: usize) -> (r: &str)
        requires
            i < self@.len(),
        ensures
            r@ == self@[i as int].1,
    {
        self.entries[i].1.as_str()
    }

    /// The value under `key`.
    pub fn get(&self, key: &str) -> (r: Option<&str>)
        requires
            self.wf(),
        ensures
            match r {
                Some(v) => lookup(self@, key@) == Some(v@),
                None => lookup(self@, key@) is None,
            },
    {
        proof {
            lemma_lookup(self@, key@);
        }
        match self.index.get(key) {
            Some(i) => {
                let i: usize = *i;
                assert(self.index@[key@] == i);
                proof {
                    lemma_lookup_at(self@, i as int);
                }
                Some(self.entries[i].1.as_str())
            },
            None => None,
        }
    }

    /// Puts `value` under `key`; an earlier value under that key is replaced.
    pub fn insert(&mut self, key: String, value: String)
        requires
            old(self).wf(),
        ensures
            final(self).wf(),
            final(self)@ == put(old(self)@, key@, value@),
    {
        let ghost before = self@;
        proof {
            lemma_put_distinct(before, key@, value@);
        }
        let known: Option<usize> = match self.index.get(key.as_str()) {
            Some(i) => Some(*i),
            None => None,
        };
        match known {
            Some(i) => {
                assert(self.index@[key@] == i);
                let ghost k = key@;
                let ghost v = value@;
                self.entries.set(i, (key, value));
                proof {
                    assert forall|j: int| 0 <= j < before.len() && j != i implies before[j].0
                        != k by {
                        assert(before[i as int].0 == k);
                        if j < i {
                            assert(before[j].0 != before[i as int].0);
                        } else {
                            assert(before[i as int].0 != before[j].0);
                        }
                    }
                    assert(has_key(before, k));
                    assert(self@ =~= put(before, k, v));
                    assert forall|key: Seq<char>| has_key(self@, key) <==> has_key(
                        before,
                        key,
                    ) by {
                        assert forall|j: int| 0 <= j < before.len() implies self@[j].0
                            == before[j].0 by {}
                        if has_key(before, key) {
                            let j = choose|j: int|
                                0 <= j < before.len() && #[trigger] before[j].0 == key;
                            assert(self@[j].0 == key);
                        }
                        if has_key(self@, key) {
                            let j = choose|j: int|
                                0 <= j < before.len() && #[trigger] self@[j].0 == key;
                            assert(before[j].0 == key);
                        }
                    }
                }
            },
            None => {
                let at: usize = self.entries.len();
                let ghost k = key@;
                let ghost v = value@;
                let ghost index_before = self.index@;
                self.index.insert(key.clone(), at);
                self.entries.push((key, value));
                proof {
                    assert(!has_key(before, k));
                    assert(self@ =~= before.push((k, v)));
                    assert forall|key: Seq<char>| has_key(self@, key) <==> (has_key(before, key)
                        || key == k) by {
                        if has_key(before, key) {
                            let j = choose|j: int|
                                0 <= j < before.len() && #[trigger] before[j].0 == key;
                            assert(self@[j].0 == key);
                        }
                        if has_key(self@, key) {
                            let j = choose|j: int|
                                0 <= j < self@.len() && #[trigger] self@[j].0 == key;
                            if j < before.len() {
                                assert(before[j].0 == key);
                            }
                        }
                        if key == k {
                            assert(self@[at as int].0 == key);
                        }
                    }
                    assert forall|key: Seq<char>|
                        #![trigger self.index@[key]]
                        self.index@.contains_key(key) implies self.index@[key] < self@.len()
                        && self@[self.index@[key] as int].0 == key by {
                        if key != k {
                            assert(index_before.contains_key(key));
                            assert(index_before[key] == self.index@[key]);
                            assert(self@[self.index@[key] as int] == before[self.index@[key] as int]);
                        }
                    }
                }
            },
        }
    }
}

/// Putting a value under a key leaves the other entries where they are and as
/// they are; a new key comes last.
pub proof fn law_put_keeps_the_order(
    entries: Seq<(Seq<char>, Seq<char>)>,
    key: Seq<char>,
    value: Seq<char>,
    i: int,
)
    requires
        0 <= i < entries.len(),
    ensures
        put(entries, key, value)[i].0 == entries[i].0,
        entries[i].0 == key ==> put(entries, key, value)[i].1 == value,
        entries[i].0 != key ==> put(entries, key, value)[i].1 == entries[i].1,
        has_key(entries, key) ==> put(entries, key, value).len() == entries.len(),
        !has_key(entries, key) ==> put(entries, key, value) == entries.push((key, value)),
{
}

/// Of several entries with one key, the last one counts.
pub proof fn law_last_entry_counts(entries: Seq<(Seq<char>, Seq<char>)>, i: int)
    requires
        0 <= i < entries.len(),
        forall|j: int| i < j < entries.len() ==> (#[trigger] entries[j]).0 != entries[i].0,
    ensures
        lookup(entries, entries[i].0) == Some(entries[i].1),
    decreases entries.len(),
{
    if i < entries.len() - 1 {
        assert(entries[entries.len() - 1].0 != entries[i].0);
        law_last_entry_counts(entries.drop_last(), i);
    }
}

} // verus!
