//! Ordered collections of text: a map from keys to values and a set of ids,
//! both held in key order without repetition.

use vstd::prelude::*;
use crate::text::{copied, is_before, text_eq, text_lt, texts};
use crate::text::{text_lt_irreflexive, text_lt_total, text_lt_transitive};

verus! {

/// Whether `keys` ascend strictly in the order of strings.
pub open spec fn ascending(keys: Seq<Seq<char>>) -> bool {
    forall|i: int, j: int|
        #![trigger keys[i], keys[j]]
        0 <= i < j < keys.len() ==> text_lt(keys[i], keys[j])
}

/// The keys of a sequence of entries.
pub open spec fn keys_of(entries: Seq<(String, String)>) -> Seq<Seq<char>> {
    Seq::new(entries.len(), |i: int| entries[i].0@)
}

/// The map that a sequence of entries with different keys spells.
pub open spec fn map_of(entries: Seq<(String, String)>) -> Map<Seq<char>, Seq<char>> {
    Map::new(
        |k: Seq<char>| keys_of(entries).contains(k),
        |k: Seq<char>| entries[keys_of(entries).index_of(k)].1@,
    )
}

/// A strictly ascending sequence holds no key twice.
pub proof fn ascending_distinct(keys: Seq<Seq<char>>)
    requires
        ascending(keys),
    ensures
        keys.no_duplicates(),
{
    assert forall|i: int, j: int|
        0 <= i < keys.len() && 0 <= j < keys.len() && i != j implies keys[i] != keys[j] by {
        text_lt_irreflexive(keys[i]);
        if i < j {
            assert(text_lt(keys[i], keys[j]));
        } else {
            assert(text_lt(keys[j], keys[i]));
        }
    }
}

/// A key inserted between the smaller and the greater ones keeps the order.
pub proof fn ascending_insert(keys: Seq<Seq<char>>, at: int, key: Seq<char>)
    requires
        ascending(keys),
        0 <= at <= keys.len(),
        forall|i: int| 0 <= i < at ==> text_lt(#[trigger] keys[i], key),
        at < keys.len() ==> text_lt(key, keys[at]),
    ensures
        ascending(keys.insert(at, key)),
{
    let after = keys.insert(at, key);
    assert forall|i: int, j: int|
        #![trigger after[i], after[j]]
        0 <= i < j < after.len() implies text_lt(after[i], after[j]) by {
        if i == at {
            if j - 1 > at {
                assert(text_lt(keys[at], keys[j - 1]));
                text_lt_transitive(key, keys[at], keys[j - 1]);
            }
        } else if j == at {
            assert(text_lt(keys[i], key));
        } else {
            let x = if i < at {
                i
            } else {
                i - 1
            };
            let y = if j < at {
                j
            } else {
                j - 1
            };
            assert(text_lt(keys[x], keys[y]));
        }
    }
}

/// A key that is not at its place in an ascending sequence is not in it.
proof fn ascending_absent(keys: Seq<Seq<char>>, at: int, key: Seq<char>)
    requires
        ascending(keys),
        0 <= at <= keys.len(),
        forall|i: int| 0 <= i < at ==> text_lt(#[trigger] keys[i], key),
        at < keys.len() ==> text_lt(key, keys[at]),
    ensures
        !keys.contains(key),
{
    if keys.contains(key) {
        let i = keys.index_of(key);
        text_lt_irreflexive(key);
        if i > at {
            assert(text_lt(keys[at], keys[i]));
            text_lt_transitive(key, keys[at], key);
        } else if i < at {
            assert(text_lt(keys[i], key));
        }
    }
}

/// A map from text to text, iterated in key order.
#[derive(Debug, PartialEq, Eq)]
pub struct Tags {
    entries: Vec<(String, String)>,
}

impl View for Tags {
    type V = Map<Seq<char>, Seq<char>>;

    closed spec fn view(&self) -> Map<Seq<char>, Seq<char>> {
        map_of(self.entries@)
    }
}

impl Tags {
    /// The keys ascend.
    #[verifier::type_invariant]
    spec fn inv(self) -> bool {
        ascending(keys_of(self.entries@))
    }

    /// The empty map.
    pub fn new() -> (r: Self)
        ensures
            r@ == Map::<Seq<char>, Seq<char>>::empty(),
    {
        let r = Tags { entries: Vec::new() };
        assert(r@ =~= Map::<Seq<char>, Seq<char>>::empty());
        r
    }

    /// The entries, in key order.
    pub fn entries(&self) -> (r: &Vec<(String, String)>)
        ensures
            ascending(keys_of(r@)),
            map_of(r@) == self@,
    {
        proof {
            use_type_invariant(self);
        }
        &self.entries
    }

    /// The first place whose key is not before `key`.
    fn place(entries: &Vec<(String, String)>, key: &str) -> (r: usize)
        ensures
            r <= entries.len(),
            forall|i: int| 0 <= i < r ==> text_lt(#[trigger] keys_of(entries@)[i], key@),
            r < entries.len() ==> !text_lt(keys_of(entries@)[r as int], key@),
    {
        let mut at: usize = 0;
        while at < entries.len()
            invariant
                at <= entries.len(),
                forall|i: int| 0 <= i < at ==> text_lt(#[trigger] keys_of(entries@)[i], key@),
            decreases entries.len() - at,
        {
            if !is_before(&entries[at].0, key) {
                return at;
            }
            at += 1;
        }
        at
    }

    /// The value of `key`, if it has one.
    pub fn get(&self, key: &str) -> (r: Option<&str>)
        ensures
            r is Some <==> self@.contains_key(key@),
            r matches Some(value) ==> value@ == self@[key@],
    {
        proof {
            use_type_invariant(self);
        }
        let at = Self::place(&self.entries, key);
        let ghost keys = keys_of(self.entries@);
        if at < self.entries.len() && text_eq(&self.entries[at].0, key) {
            assert(keys[at as int] == key@);
            proof {
                ascending_distinct(keys);
            }
            return Some(self.entries[at].1.as_str());
        }
        proof {
            if at < keys.len() {
                text_lt_total(keys[at as int], key@);
            }
            ascending_absent(keys, at as int, key@);
        }
        None
    }

    /// Whether `key` has a value.
    pub fn contains_key(&self, key: &str) -> (r: bool)
        ensures
            r == self@.contains_key(key@),
    {
        self.get(key).is_some()
    }

    /// Give `key` the value `value`, in place of the one it had.
    pub fn insert(&mut self, key: String, value: String)
        ensures
            final(self)@ == old(self)@.insert(key@, value@),
    {
        proof {
            use_type_invariant(&*self);
        }
        let ghost before = self.entries@;
        let ghost keys = keys_of(before);
        let ghost k = key@;
        let ghost v = value@;
        let mut entries: Vec<(String, String)> = Vec::new();
        std::mem::swap(&mut entries, &mut self.entries);
        let at = Self::place(&entries, &key);
        let found = at < entries.len() && text_eq(&entries[at].0, &key);
        if found {
            entries.set(at, (key, value));
            assert(keys_of(entries@) =~= keys);
        } else {
            proof {
                if at < keys.len() {
                    text_lt_total(keys[at as int], k);
                }
                ascending_insert(keys, at as int, k);
                ascending_absent(keys, at as int, k);
            }
            entries.insert(at, (key, value));
            assert(keys_of(entries@) =~= keys.insert(at as int, k));
        }
        proof {
            let after = keys_of(entries@);
            ascending_distinct(keys);
            ascending_distinct(after);
            assert(after[at as int] == k);
            assert forall|x: Seq<char>| #[trigger] map_of(entries@).contains_key(x) == map_of(
                before,
            ).insert(k, v).contains_key(x) by {
                if keys.contains(x) && x != k {
                    let i = keys.index_of(x);
                    if found || i < at {
                        assert(after[i] == x);
                    } else {
                        assert(after[i + 1] == x);
                    }
                }
                if after.contains(x) && x != k {
                    let i = after.index_of(x);
                    if found || i < at {
                        assert(keys[i] == x);
                    } else {
                        assert(keys[i - 1] == x);
                    }
                }
            }
            assert forall|x: Seq<char>| map_of(entries@).contains_key(x) implies #[trigger] map_of(
                entries@,
            )[x] == map_of(before).insert(k, v)[x] by {
                let i = after.index_of(x);
                if x != k {
                    if found || i < at {
                        assert(keys[i] == x);
                    } else {
                        assert(keys[i - 1] == x);
                    }
                }
            }
            assert(map_of(entries@) =~= map_of(before).insert(k, v));
        }
        self.entries = entries;
    }
}

impl Clone for Tags {
    fn clone(&self) -> (r: Self)
        ensures
            r@ == self@,
    {
        proof {
            use_type_invariant(self);
        }
        let mut entries: Vec<(String, String)> = Vec::new();
        let mut i: usize = 0;
        while i < self.entries.len()
            invariant
                i <= self.entries.len(),
                entries.len() == i,
                forall|j: int|
                    0 <= j < i ==> (#[trigger] entries@[j]).0@ == self.entries@[j].0@
                        && entries@[j].1@ == self.entries@[j].1@,
            decreases self.entries.len() - i,
        {
            entries.push((copied(&self.entries[i].0), copied(&self.entries[i].1)));
            i += 1;
        }
        proof {
            ascending_distinct(keys_of(self.entries@));
            assert(keys_of(entries@) =~= keys_of(self.entries@));
            assert(map_of(entries@) =~= map_of(self.entries@));
        }
        Tags { entries }
    }
}

/// A set of ids, iterated in order.
#[derive(Debug, PartialEq, Eq)]
pub struct IdSet {
    ids: Vec<String>,
}

impl View for IdSet {
    type V = Set<Seq<char>>;

    closed spec fn view(&self) -> Set<Seq<char>> {
        texts(self.ids@).to_set()
    }
}

impl IdSet {
    /// The ids ascend.
    #[verifier::type_invariant]
    spec fn inv(self) -> bool {
        ascending(texts(self.ids@))
    }

    /// The empty set.
    pub fn new() -> (r: Self)
        ensures
            r@ == Set::<Seq<char>>::empty(),
    {
        let r = IdSet { ids: Vec::new() };
        assert(r@ =~= Set::<Seq<char>>::empty());
        r
    }

    /// The ids, in order.
    pub fn ids(&self) -> (r: &Vec<String>)
        ensures
            ascending(texts(r@)),
            texts(r@).to_set() == self@,
    {
        proof {
            use_type_invariant(self);
        }
        &self.ids
    }

    /// The number of ids.
    pub fn len(&self) -> (r: usize)
        ensures
            r == self@.len(),
            self@.finite(),
    {
        proof {
            use_type_invariant(self);
            ascending_distinct(texts(self.ids@));
            texts(self.ids@).unique_seq_to_set();
            vstd::seq_lib::seq_to_set_is_finite(texts(self.ids@));
        }
        self.ids.len()
    }

    /// Add `id` to the set.
    pub fn insert(&mut self, id: String)
        ensures
            final(self)@ == old(self)@.insert(id@),
    {
        proof {
            use_type_invariant(&*self);
        }
        let ghost before = texts(self.ids@);
        let ghost k = id@;
        let mut ids: Vec<String> = Vec::new();
        std::mem::swap(&mut ids, &mut self.ids);
        let mut at: usize = 0;
        while at < ids.len() && is_before(&ids[at], &id)
            invariant
                at <= ids.len(),
                texts(ids@) == before,
                id@ == k,
                forall|i: int| 0 <= i < at ==> text_lt(#[trigger] before[i], k),
            decreases ids.len() - at,
        {
            at += 1;
        }
        if at < ids.len() && text_eq(&ids[at], &id) {
            assert(before[at as int] == k);
            assert(before.to_set() =~= before.to_set().insert(k));
        } else {
            proof {
                if at < before.len() {
                    text_lt_total(before[at as int], k);
                }
                ascending_insert(before, at as int, k);
            }
            ids.insert(at, id);
            proof {
                let after = before.insert(at as int, k);
                assert(texts(ids@) =~= after);
                assert forall|x: Seq<char>| #[trigger] after.to_set().contains(x)
                    == before.to_set().insert(k).contains(x) by {
                    assert(after[at as int] == k);
                    if before.contains(x) {
                        let i = before.index_of(x);
                        assert(after[if i < at {
                            i
                        } else {
                            i + 1
                        }] == x);
                    }
                    if after.contains(x) && x != k {
                        let i = after.index_of(x);
                        assert(before[if i < at {
                            i
                        } else {
                            i - 1
                        }] == x);
                    }
                }
                assert(after.to_set() =~= before.to_set().insert(k));
            }
        }
        self.ids = ids;
    }
}

impl Clone for IdSet {
    fn clone(&self) -> (r: Self)
        ensures
            r@ == self@,
    {
        proof {
            use_type_invariant(self);
        }
        IdSet { ids: crate::text::copied_all(&self.ids) }
    }
}

} // verus!
