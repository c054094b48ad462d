//! A table from texts to texts.

use vstd::prelude::*;

use crate::text;

verus! {

/// A table from texts to texts. Where a key stands more than once, its last entry counts.
pub struct Table {
    pub entries: Vec<(String, String)>,
}

/// The map that a list of entries stands for.
pub open spec fn entry_map(entries: Seq<(String, String)>) -> Map<Seq<char>, Seq<char>>
    decreases entries.len(),
{
    if entries.len() == 0 {
        Map::empty()
    } else {
        entry_map(entries.drop_last()).insert(entries.last().0@, entries.last().1@)
    }
}

/// What a map holds under a key.
pub open spec fn looked_up(map: Map<Seq<char>, Seq<char>>, key: Seq<char>) -> Option<Seq<char>> {
    if map.contains_key(key) {
        Some(map[key])
    } else {
        None
    }
}

proof fn lemma_replace_last(entries: Seq<(String, String)>, i: int, entry: (String, String))
    requires
        0 <= i < entries.len(),
        entries[i].0@ == entry.0@,
        forall|j: int| i < j < entries.len() ==> #[trigger] entries[j].0@ != entry.0@,
    ensures
        entry_map(entries.update(i, entry)) == entry_map(entries).insert(entry.0@, entry.1@),
    decreases entries.len(),
{
    let updated = entries.update(i, entry);
    if i == entries.len() - 1 {
        assert(updated.drop_last() =~= entries.drop_last());
        assert(entry_map(updated) =~= entry_map(entries).insert(entry.0@, entry.1@));
    } else {
        assert(updated.drop_last() =~= entries.drop_last().update(i, entry));
        assert forall|j: int| i < j < entries.drop_last().len() implies #[trigger]
            entries.drop_last()[j].0@ != entry.0@ by {
            assert(entries.drop_last()[j] == entries[j]);
        }
        lemma_replace_last(entries.drop_last(), i, entry);
        assert(entries[entries.len() - 1].0@ != entry.0@);
        assert(entry_map(updated) =~= entry_map(entries).insert(entry.0@, entry.1@));
    }
}

impl Table {
    pub open spec fn view(&self) -> Map<Seq<char>, Seq<char>> {
        entry_map(self.entries@)
    }

    /// A table without entries.
    pub fn new() -> (r: Table)
        ensures
            r@ == Map::<Seq<char>, Seq<char>>::empty(),
    {
        Table { entries: Vec::new() }
    }

    /// The position of the entry that counts for `key`.
    fn position(&self, key: &str) -> (r: Option<usize>)
        ensures
            match r {
                Some(i) => {
                    &&& i < self.entries@.len()
                    &&& self.entries@[i as int].0@ == key@
                    &&& forall|j: int|
                        i < j < self.entries@.len() ==> #[trigger] self.entries@[j].0@ != key@
                    &&& looked_up(self@, key@) == Some(self.entries@[i as int].1@)
                },
                None => looked_up(self@, key@) is None,
            },
    {
        let mut n: usize = self.entries.len();
        assert(self.entries@.take(n as int) =~= self.entries@);
        while n > 0
            invariant
                n <= self.entries@.len(),
                forall|j: int| n <= j < self.entries@.len() ==> #[trigger] self.entries@[j].0@ != key@,
                looked_up(self@, key@) == looked_up(entry_map(self.entries@.take(n as int)), key@),
            decreases n,
        {
            assert(self.entries@.take(n as int).drop_last() =~= self.entries@.take(n - 1));
            if text::same_text(self.entries[n - 1].0.as_str(), key) {
                return Some(n - 1);
            }
            n -= 1;
        }
        None
    }

    /// What the table holds under `key`.
    pub fn get(&self, key: &str) -> (r: Option<String>)
        ensures
            text::opt_text(r) == looked_up(self@, key@),
    {
        match self.position(key) {
            Some(i) => Some(self.entries[i].1.clone()),
            None => None,
        }
    }

    /// Puts `value` under `key`.
    pub fn insert(&mut self, key: String, value: String)
        ensures
            final(self)@ == old(self)@.insert(key@, value@),
    {
        match self.position(key.as_str()) {
            Some(i) => {
                let ghost before = self.entries@;
                let entry = (key, value);
                self.entries.set(i, entry);
                proof {
                    lemma_replace_last(before, i as int, entry);
                }
            },
            None => {
                let ghost before = self.entries@;
                self.entries.push((key, value));
                assert(self.entries@.drop_last() =~= before);
            },
        }
    }
}

/// What is put under a key is found under it, in place of what was there, and what is under other
/// keys stays.
pub proof fn law_what_is_put_in_is_found(
    map: Map<Seq<char>, Seq<char>>,
    key: Seq<char>,
    value: Seq<char>,
    other: Seq<char>,
)
    ensures
        looked_up(map.insert(key, value), key) == Some(value),
        other != key ==> looked_up(map.insert(key, value), other) == looked_up(map, other),
        looked_up(Map::empty(), key) is None,
{
}

} // verus!
