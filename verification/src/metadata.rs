//! The `# key = value` comments of one sentence block.

use vstd::hash_map::StringHashMap;
use vstd::prelude::*;

verus! {

/// The value stored under `key`, or the empty text if there is none.
pub open spec fn value_or_empty(entries: Map<Seq<char>, Seq<char>>, key: Seq<char>) -> Seq<char> {
    if entries.contains_key(key) {
        entries[key]
    } else {
        Seq::<char>::empty()
    }
}

/// A mapping from keys to values; a key holds the value stored last.
pub struct Metadata {
    entries: StringHashMap<String>,
}

impl View for Metadata {
    type V = Map<Seq<char>, Seq<char>>;

    closed spec fn view(&self) -> Map<Seq<char>, Seq<char>> {
        self.entries@.map_values(|value: String| value@)
    }
}

impl Metadata {
    /// The mapping without entries.
    pub fn new() -> (m: Metadata)
        ensures
            m@ == Map::<Seq<char>, Seq<char>>::empty(),
    {
        let m = Metadata { entries: StringHashMap::new() };
        m
    }

    /// Stores `value` under `key`, in place of what was stored there.
    pub fn insert(&mut self, key: String, value: String)
        ensures
            final(self)@ == old(self)@.insert(key@, value@),
    {
        self.entries.insert(key, value);
    }

    /// Stores `value` under `key`, in place of what was stored there.
    pub fn set(&mut self, key: &str, value: &str)
        ensures
            final(self)@ == old(self)@.insert(key@, value@),
    {
        self.insert(key.to_owned(), value.to_owned());
    }

    /// The value stored under `key`.
    pub fn get(&self, key: &str) -> (r: Option<&String>)
        ensures
            r is Some <==> self@.contains_key(key@),
            r matches Some(value) ==> value@ == self@[key@],
    {
        self.entries.get(key)
    }

    /// The value stored under `key`, or the empty text if there is none.
    pub fn value_or_empty(&self, key: &str) -> (r: String)
        ensures
            r@ == value_or_empty(self@, key@),
    {
        match self.entries.get(key) {
            Some(value) => value.clone(),
            None => String::new(),
        }
    }

    /// Removes every entry.
    pub fn clear(&mut self)
        ensures
            final(self)@ == Map::<Seq<char>, Seq<char>>::empty(),
    {
        self.entries.clear();
    }
}

} // verus!
