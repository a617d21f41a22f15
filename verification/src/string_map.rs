//! Maps and indices keyed by text.
//!
//! A `StringMap` keeps its entries in a vector and finds a key by
//! scanning. No key occurs twice. An `IdIndex` maps a key to a list of
//! certificate ids, which a caller fills either as a sequence or as a set.

use vstd::prelude::*;
use crate::merkle::texts;

verus! {

struct Entry<V> {
    key: String,
    value: V,
}

/// A map from text keys to values.
pub struct StringMap<V> {
    entries: Vec<Entry<V>>,
}

/// `list` with `item` at its end, unless `list` holds it already.
pub open spec fn with_member(list: Seq<Seq<char>>, item: Seq<char>) -> Seq<Seq<char>> {
    if list.contains(item) {
        list
    } else {
        list.push(item)
    }
}

/// The list under `key`, or the empty list where the key is absent.
pub open spec fn ids_under(lists: Map<Seq<char>, Seq<Seq<char>>>, key: Seq<char>) -> Seq<
    Seq<char>,
> {
    if lists.contains_key(key) {
        lists[key]
    } else {
        Seq::empty()
    }
}

/// The keys of entries, in their order.
spec fn keys_of<V>(entries: Seq<Entry<V>>) -> Seq<Seq<char>> {
    Seq::new(entries.len(), |i: int| entries[i].key@)
}

/// The map that entries with distinct keys stand for.
spec fn map_of<V>(entries: Seq<Entry<V>>) -> Map<Seq<char>, V> {
    Map::new(
        |key: Seq<char>| keys_of(entries).contains(key),
        |key: Seq<char>| entries[keys_of(entries).index_of(key)].value,
    )
}

/// An entry under a key that occurs once is what the map holds there.
proof fn lemma_entry<V>(entries: Seq<Entry<V>>, i: int)
    requires
        keys_of(entries).no_duplicates(),
        0 <= i < entries.len(),
    ensures
        map_of(entries).contains_key(entries[i].key@),
        map_of(entries)[entries[i].key@] == entries[i].value,
{
    let keys = keys_of(entries);
    assert(keys[i] == entries[i].key@);
    let j = keys.index_of(keys[i]);
    assert(0 <= j < keys.len() && keys[j] == keys[i]);
}

/// Entries with a value replaced stand for the map with that value under
/// the key of the entry.
proof fn lemma_replaced<V>(before: Seq<Entry<V>>, after: Seq<Entry<V>>, i: int)
    requires
        keys_of(before).no_duplicates(),
        0 <= i < before.len(),
        after.len() == before.len(),
        after[i].key@ == before[i].key@,
        forall|j: int| 0 <= j < before.len() && j != i ==> after[j] == before[j],
    ensures
        keys_of(after) == keys_of(before),
        map_of(after) == map_of(before).insert(before[i].key@, after[i].value),
{
    let key = before[i].key@;
    assert(keys_of(after) =~= keys_of(before));
    let keys = keys_of(before);
    assert(keys[i] == key);
    assert forall|k: Seq<char>| map_of(after).contains_key(k) implies #[trigger] map_of(after)[k]
        == map_of(before).insert(key, after[i].value)[k] by {
        let j = keys.index_of(k);
        assert(0 <= j < keys.len() && keys[j] == k);
    }
    assert(map_of(after) =~= map_of(before).insert(key, after[i].value));
}

/// Entries with a new key appended stand for the map with the new value
/// under the new key.
proof fn lemma_appended<V>(before: Seq<Entry<V>>, entry: Entry<V>)
    requires
        keys_of(before).no_duplicates(),
        !keys_of(before).contains(entry.key@),
    ensures
        keys_of(before.push(entry)).no_duplicates(),
        map_of(before.push(entry)) == map_of(before).insert(entry.key@, entry.value),
{
    let after = before.push(entry);
    let keys = keys_of(before);
    let grown = keys_of(after);
    let last = before.len() as int;
    assert(grown =~= keys.push(entry.key@));
    assert forall|i: int, j: int| 0 <= i < grown.len() && 0 <= j < grown.len() && i != j
        implies grown[i] != grown[j] by {
        if i < last && j < last {
            assert(keys[i] != keys[j]);
        } else if i < last {
            assert(keys[i] == grown[i]);
        } else {
            assert(keys[j] == grown[j]);
        }
    }
    assert forall|k: Seq<char>| #[trigger]
        map_of(after).contains_key(k) == map_of(before).insert(
            entry.key@,
            entry.value,
        ).contains_key(k) by {
        if keys.contains(k) {
            let j = keys.index_of(k);
            assert(grown[j] == k);
        }
        if grown.contains(k) && k != entry.key@ {
            let j = choose|j: int| 0 <= j < grown.len() && grown[j] == k;
            assert(keys[j] == k);
        }
        assert(grown[last] == entry.key@);
    }
    assert forall|k: Seq<char>| map_of(after).contains_key(k) implies #[trigger] map_of(after)[k]
        == map_of(before).insert(entry.key@, entry.value)[k] by {
        let j = grown.index_of(k);
        assert(0 <= j < grown.len() && grown[j] == k);
        if j < last {
            assert(keys[j] == k);
            let i = keys.index_of(k);
            assert(0 <= i < keys.len() && keys[i] == k);
        }
    }
    assert(map_of(after) =~= map_of(before).insert(entry.key@, entry.value));
}

/// The texts of a vector that has grown by one string.
proof fn lemma_texts_push(strings: Seq<String>, last: String)
    ensures
        texts(strings.push(last)) == texts(strings).push(last@),
{
    assert(texts(strings.push(last)) =~= texts(strings).push(last@));
}

fn find<V>(entries: &Vec<Entry<V>>, key: &String) -> (slot: Option<usize>)
    requires
        keys_of(entries@).no_duplicates(),
    ensures
        match slot {
            Some(i) => i < entries@.len() && entries@[i as int].key@ == key@ && map_of(
                entries@,
            ).contains_key(key@) && map_of(entries@)[key@] == entries@[i as int].value,
            None => !map_of(entries@).contains_key(key@),
        },
{
    let mut i: usize = 0;
    while i < entries.len()
        invariant
            keys_of(entries@).no_duplicates(),
            i <= entries@.len(),
            forall|k: int| 0 <= k < i ==> #[trigger] keys_of(entries@)[k] != key@,
        decreases entries@.len() - i,
    {
        if entries[i].key == *key {
            proof {
                lemma_entry(entries@, i as int);
            }
            return Some(i);
        }
        i = i + 1;
    }
    None
}

impl<V> View for StringMap<V> {
    type V = Map<Seq<char>, V>;

    closed spec fn view(&self) -> Map<Seq<char>, V> {
        map_of(self.entries@)
    }
}

impl<V> StringMap<V> {
    #[verifier::type_invariant]
    spec fn distinct_keys(self) -> bool {
        keys_of(self.entries@).no_duplicates()
    }

    /// An empty map.
    pub fn new() -> (map: Self)
        ensures
            map@ == Map::<Seq<char>, V>::empty(),
    {
        let map = StringMap { entries: Vec::new() };
        assert(map@ =~= Map::<Seq<char>, V>::empty());
        map
    }

    /// The number of keys.
    pub fn len(&self) -> (len: usize)
        ensures
            self@.dom().finite(),
            len == self@.dom().len(),
    {
        proof {
            use_type_invariant(self);
            let keys = keys_of(self.entries@);
            assert(self@.dom() =~= keys.to_set());
            vstd::seq_lib::seq_to_set_is_finite(keys);
            keys.unique_seq_to_set();
        }
        self.entries.len()
    }

    /// Tells whether the map holds the key.
    pub fn contains_key(&self, key: &String) -> (found: bool)
        ensures
            found == self@.contains_key(key@),
    {
        proof {
            use_type_invariant(self);
        }
        find(&self.entries, key).is_some()
    }

    /// The value under the key, if the map holds it.
    pub fn get(&self, key: &String) -> (value: Option<&V>)
        ensures
            match value {
                Some(v) => self@.contains_key(key@) && *v == self@[key@],
                None => !self@.contains_key(key@),
            },
    {
        proof {
            use_type_invariant(self);
        }
        match find(&self.entries, key) {
            Some(i) => Some(&self.entries[i].value),
            None => None,
        }
    }

    /// Puts a value under the key, in place of any value that was there.
    pub fn insert(&mut self, key: String, value: V)
        ensures
            final(self)@ == old(self)@.insert(key@, value),
    {
        proof {
            use_type_invariant(&*self);
        }
        let mut entries: Vec<Entry<V>> = Vec::new();
        std::mem::swap(&mut entries, &mut self.entries);
        let ghost before = entries@;
        match find(&entries, &key) {
            Some(i) => {
                entries[i].value = value;
                proof {
                    lemma_replaced(before, entries@, i as int);
                }
            },
            None => {
                let entry = Entry { key, value };
                proof {
                    lemma_appended(before, entry);
                }
                entries.push(entry);
            },
        }
        self.entries = entries;
    }
}

/// Tells whether a list of ids holds `id`.
pub fn holds_id(ids: &Vec<String>, id: &String) -> (found: bool)
    ensures
        found == texts(ids@).contains(id@),
{
    let mut i: usize = 0;
    while i < ids.len()
        invariant
            i <= ids@.len(),
            forall|k: int| 0 <= k < i ==> #[trigger] texts(ids@)[k] != id@,
        decreases ids@.len() - i,
    {
        if ids[i] == *id {
            assert(texts(ids@)[i as int] == id@);
            return true;
        }
        i = i + 1;
    }
    false
}

/// Adds `id` at the end of a list of ids, unless the list holds it.
pub fn add_id(ids: &mut Vec<String>, id: String)
    ensures
        texts(final(ids)@) == with_member(texts(old(ids)@), id@),
{
    if !holds_id(ids, &id) {
        proof {
            lemma_texts_push(ids@, id);
        }
        ids.push(id);
    }
}

/// An index from a text key to a list of certificate ids.
pub struct IdIndex {
    lists: StringMap<Vec<String>>,
}

impl View for IdIndex {
    type V = Map<Seq<char>, Seq<Seq<char>>>;

    closed spec fn view(&self) -> Map<Seq<char>, Seq<Seq<char>>> {
        self.lists@.map_values(|ids: Vec<String>| texts(ids@))
    }
}

impl IdIndex {
    /// An empty index.
    pub fn new() -> (index: Self)
        ensures
            index@ == Map::<Seq<char>, Seq<Seq<char>>>::empty(),
    {
        let index = IdIndex { lists: StringMap::new() };
        assert(index@ =~= Map::<Seq<char>, Seq<Seq<char>>>::empty());
        index
    }

    /// A list of the index is a vector: its length fits a `usize`.
    pub proof fn lemma_list_len(&self, key: Seq<char>)
        requires
            self@.contains_key(key),
        ensures
            self@[key].len() <= usize::MAX,
    {
        let list = self.lists@[key];
        assert(list.len() == list@.len());
    }

    /// The list under the key, if the index holds it.
    pub fn get(&self, key: &String) -> (ids: Option<&Vec<String>>)
        ensures
            match ids {
                Some(list) => self@.contains_key(key@) && texts(list@) == self@[key@],
                None => !self@.contains_key(key@),
            },
    {
        self.lists.get(key)
    }

    /// Appends `id` to the list under `key`; an absent key starts a list.
    pub fn append(&mut self, key: &String, id: String)
        ensures
            final(self)@ == old(self)@.insert(key@, ids_under(old(self)@, key@).push(id@)),
    {
        proof {
            use_type_invariant(&self.lists);
        }
        let mut entries: Vec<Entry<Vec<String>>> = Vec::new();
        std::mem::swap(&mut entries, &mut self.lists.entries);
        let ghost before = entries@;
        match find(&entries, key) {
            Some(i) => {
                proof {
                    lemma_texts_push(entries@[i as int].value@, id);
                }
                entries[i].value.push(id);
                proof {
                    lemma_replaced(before, entries@, i as int);
                }
            },
            None => {
                let mut ids: Vec<String> = Vec::new();
                proof {
                    lemma_texts_push(ids@, id);
                    assert(texts(ids@) =~= Seq::<Seq<char>>::empty());
                }
                ids.push(id);
                let entry = Entry { key: key.clone(), value: ids };
                proof {
                    lemma_appended(before, entry);
                }
                entries.push(entry);
            },
        }
        self.lists.entries = entries;
        assert(self@ =~= old(self)@.insert(key@, ids_under(old(self)@, key@).push(id@)));
    }

    /// Adds `id` to the list under `key` unless the list holds it; an
    /// absent key starts a list.
    pub fn add_member(&mut self, key: &String, id: String)
        ensures
            final(self)@ == old(self)@.insert(key@, with_member(ids_under(old(self)@, key@), id@)),
    {
        proof {
            use_type_invariant(&self.lists);
        }
        let mut entries: Vec<Entry<Vec<String>>> = Vec::new();
        std::mem::swap(&mut entries, &mut self.lists.entries);
        let ghost before = entries@;
        match find(&entries, key) {
            Some(i) => {
                add_id(&mut entries[i].value, id);
                proof {
                    lemma_replaced(before, entries@, i as int);
                }
            },
            None => {
                let mut ids: Vec<String> = Vec::new();
                proof {
                    lemma_texts_push(ids@, id);
                    assert(texts(ids@) =~= Seq::<Seq<char>>::empty());
                }
                ids.push(id);
                let entry = Entry { key: key.clone(), value: ids };
                proof {
                    lemma_appended(before, entry);
                }
                entries.push(entry);
            },
        }
        self.lists.entries = entries;
        assert(self@ =~= old(self)@.insert(
            key@,
            with_member(ids_under(old(self)@, key@), id@),
        ));
    }
}

} // verus!
