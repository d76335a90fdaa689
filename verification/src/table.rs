//! A transition store in memory.
//!
//! The entries are kept in a hash map under a number computed from the key, so
//! that a lookup reads only the few entries that share that number.

use std::collections::HashMap;
use vstd::prelude::*;
use vstd::string::*;
use crate::cache::{Cache, Table, record};
use crate::text::{Word, word_views};

verus! {

/// A transition recorded in a [`TransitionTable`]: a pair of words and its successors.
struct Entry {
    first: String,
    second: String,
    successors: Vec<String>,
}

impl Entry {
    spec fn key(&self) -> (Word, Word) {
        (self.first@, self.second@)
    }
}

/// Whether `i` is the first place in `entries` where `key` stands.
spec fn first_at(entries: Seq<Entry>, key: (Word, Word), i: int) -> bool {
    &&& 0 <= i < entries.len()
    &&& entries[i].key() == key
    &&& forall|j: int| 0 <= j < i ==> entries[j].key() != key
}

/// The table that `entries` stand for: each key with the successors of the first
/// entry that carries it.
spec fn table_of(entries: Seq<Entry>) -> Table {
    Map::new(
        |key: (Word, Word)| exists|i: int| first_at(entries, key, i),
        |key: (Word, Word)|
            {
                let i = choose|i: int| first_at(entries, key, i);
                word_views(entries[i].successors@)
            },
    )
}

/// The table holds for a key what the first entry of the key holds.
proof fn lemma_entry_found(entries: Seq<Entry>, key: (Word, Word), i: int)
    requires
        first_at(entries, key, i),
    ensures
        table_of(entries).contains_key(key),
        table_of(entries)[key] == word_views(entries[i].successors@),
{
    let c = choose|c: int| first_at(entries, key, c);
    assert(c == i) by {
        if c < i {
            assert(entries[c].key() != key);
        }
        if i < c {
            assert(entries[i].key() != key);
        }
    }
}

/// The table holds nothing for a key that no entry carries.
proof fn lemma_entry_absent(entries: Seq<Entry>, key: (Word, Word))
    requires
        forall|i: int| 0 <= i < entries.len() ==> entries[i].key() != key,
    ensures
        !table_of(entries).contains_key(key),
{
}

/// Appending to the successors of the first entry of `key` records one more
/// successor of `key` and leaves every other key as it was.
proof fn lemma_successor_appended(
    before: Seq<Entry>,
    after: Seq<Entry>,
    key: (Word, Word),
    i: int,
    value: Word,
)
    requires
        first_at(before, key, i),
        after.len() == before.len(),
        forall|j: int| 0 <= j < before.len() ==> after[j].key() == before[j].key(),
        forall|j: int|
            0 <= j < before.len() && j != i ==> after[j].successors@ == before[j].successors@,
        word_views(after[i].successors@) == word_views(before[i].successors@).push(value),
    ensures
        table_of(after) == record(table_of(before), key, value),
{
    let want = record(table_of(before), key, value);
    lemma_entry_found(before, key, i);
    assert forall|k: (Word, Word)| #[trigger]
        table_of(after).contains_key(k) implies want.contains_key(k) by {
        let j = choose|j: int| first_at(after, k, j);
        assert(first_at(before, k, j));
    }
    assert forall|k: (Word, Word)| #[trigger]
        want.contains_key(k) implies table_of(after).contains_key(k) && table_of(after)[k]
        == want[k] by {
        if k == key {
            assert(first_at(after, key, i));
            lemma_entry_found(after, key, i);
        } else {
            let j = choose|j: int| first_at(before, k, j);
            assert(first_at(after, k, j));
            lemma_entry_found(before, k, j);
            lemma_entry_found(after, k, j);
        }
    }
    assert(table_of(after) =~= want);
}

/// A new entry for a key that has none records its one successor and leaves
/// every other key as it was.
proof fn lemma_entry_appended(before: Seq<Entry>, entry: Entry, value: Word)
    requires
        forall|i: int| 0 <= i < before.len() ==> before[i].key() != entry.key(),
        word_views(entry.successors@) == seq![value],
    ensures
        table_of(before.push(entry)) == record(table_of(before), entry.key(), value),
{
    let after = before.push(entry);
    let key = entry.key();
    let want = record(table_of(before), key, value);
    lemma_entry_absent(before, key);
    assert(Seq::<Word>::empty().push(value) =~= seq![value]);
    assert forall|k: (Word, Word)| #[trigger]
        table_of(after).contains_key(k) implies want.contains_key(k) by {
        let j = choose|j: int| first_at(after, k, j);
        if k != key {
            assert(after[before.len() as int] == entry);
            assert(forall|h: int| 0 <= h < before.len() ==> after[h] == before[h]);
            assert(first_at(before, k, j));
        }
    }
    assert forall|k: (Word, Word)| #[trigger]
        want.contains_key(k) implies table_of(after).contains_key(k) && table_of(after)[k]
        == want[k] by {
        if k == key {
            assert(first_at(after, key, before.len() as int));
            lemma_entry_found(after, key, before.len() as int);
        } else {
            let j = choose|j: int| first_at(before, k, j);
            assert(first_at(after, k, j));
            lemma_entry_found(before, k, j);
            lemma_entry_found(after, k, j);
        }
    }
    assert(table_of(after) =~= want);
}

/// No entries hold no key.
proof fn lemma_no_entries(entries: Seq<Entry>)
    requires
        entries.len() == 0,
    ensures
        table_of(entries) == Table::empty(),
{
    assert(table_of(entries) =~= Table::empty());
}

/// Where the hashing of a key starts.
const BASIS: u64 = 0xcbf2_9ce4_8422_2325;

/// What each step of the hashing multiplies by.
const PRIME: u64 = 0x0000_0100_0000_01b3;

/// What is stirred in between the two words of a key: no character has this
/// number.
const GAP: u64 = 0x11_0000;

/// `state` after `item` was stirred in.
spec fn stir(state: u64, item: u64) -> u64 {
    (state ^ item).wrapping_mul(PRIME)
}

/// `state` after each character of `word` was stirred in, from first to last.
spec fn stir_word(state: u64, word: Word) -> u64
    decreases word.len(),
{
    if word.len() == 0 {
        state
    } else {
        stir(stir_word(state, word.drop_last()), word.last() as u64)
    }
}

/// The slot in which the entry of `key` is kept.
spec fn slot_of(key: (Word, Word)) -> u64 {
    stir_word(stir(stir_word(BASIS, key.0), GAP), key.1)
}

/// Stirs the characters of `word` into `state`.
fn stir_in(state: u64, word: &str) -> (out: u64)
    ensures
        out == stir_word(state, word@),
{
    broadcast use vstd::string::group_string_axioms;

    let mut out: u64 = state;
    for c in it: word.chars()
        invariant
            it.seq() == word@,
            out == stir_word(state, word@.take(it.index() as int)),
    {
        assert(word@.take(it.index() + 1).drop_last() =~= word@.take(it.index() as int));
        out = (out ^ (c as u64)).wrapping_mul(PRIME);
    }
    assert(word@.take(word@.len() as int) =~= word@);
    out
}

/// The slot in which the entry of the key `first`, `second` is kept.
fn slot(first: &str, second: &str) -> (at: u64)
    ensures
        at == slot_of((first@, second@)),
{
    let front: u64 = stir_in(BASIS, first);
    stir_in((front ^ GAP).wrapping_mul(PRIME), second)
}

/// Where in `entries` the first entry of the key `first`, `second` stands, if
/// there is one.
fn position(entries: &Vec<Entry>, first: &str, second: &str) -> (at: Option<usize>)
    ensures
        match at {
            Some(i) => first_at(entries@, (first@, second@), i as int),
            None => forall|i: int|
                0 <= i < entries@.len() ==> entries@[i].key() != (first@, second@),
        },
{
    let first_word = String::from_str(first);
    let second_word = String::from_str(second);
    let mut i: usize = 0;
    while i < entries.len()
        invariant
            i <= entries@.len(),
            first_word@ == first@,
            second_word@ == second@,
            forall|j: int| 0 <= j < i ==> entries@[j].key() != (first@, second@),
        decreases entries@.len() - i,
    {
        if entries[i].first == first_word && entries[i].second == second_word {
            return Some(i);
        }
        i += 1;
    }
    None
}

/// The table that `slots` stand for: each key with what the entries in its
/// slot hold for it.
spec fn table_in(slots: Map<u64, Vec<Entry>>) -> Table {
    Map::new(
        |key: (Word, Word)|
            slots.contains_key(slot_of(key)) && table_of(slots[slot_of(key)]@).contains_key(key),
        |key: (Word, Word)| table_of(slots[slot_of(key)]@)[key],
    )
}

/// An in-memory transition store: a hash map from the slot of a key to the
/// entries of the keys that share the slot.
pub struct TransitionTable {
    slots: HashMap<u64, Vec<Entry>>,
}

impl TransitionTable {
    /// An empty store.
    pub fn new() -> (store: Self)
        ensures
            store.table() == Table::empty(),
    {
        let store = TransitionTable { slots: HashMap::new() };
        assert(store.table() =~= Table::empty());
        store
    }
}

impl Cache for TransitionTable {
    closed spec fn table(&self) -> Table {
        table_in(self.slots@)
    }

    fn put(&mut self, key: (&str, &str), value: &str) {
        broadcast use vstd::std_specs::hash::group_hash_axioms;

        let ghost wanted = (key.0@, key.1@);
        let ghost before = self.slots@;
        let ghost shared = if before.contains_key(slot_of(wanted)) {
            before[slot_of(wanted)]@
        } else {
            Seq::<Entry>::empty()
        };
        let at: u64 = slot(key.0, key.1);
        let word = String::from_str(value);
        let mut entries: Vec<Entry> = match self.slots.remove(&at) {
            Some(entries) => entries,
            None => Vec::new(),
        };
        assert(entries@ == shared);
        match position(&entries, key.0, key.1) {
            Some(i) => {
                entries[i].successors.push(word);
                proof {
                    assert(word_views(entries@[i as int].successors@) =~= word_views(
                        shared[i as int].successors@,
                    ).push(value@));
                    lemma_successor_appended(shared, entries@, wanted, i as int, value@);
                }
            },
            None => {
                let mut successors: Vec<String> = Vec::new();
                successors.push(word);
                let entry = Entry {
                    first: String::from_str(key.0),
                    second: String::from_str(key.1),
                    successors,
                };
                proof {
                    assert(word_views(entry.successors@) =~= seq![value@]);
                    lemma_entry_appended(shared, entry, value@);
                }
                entries.push(entry);
            },
        }
        assert(table_of(entries@) == record(table_of(shared), wanted, value@));
        self.slots.insert(at, entries);
        proof {
            let after = self.slots@;
            let want = record(table_in(before), wanted, value@);
            assert(after =~= before.insert(at, entries));
            if !before.contains_key(at) {
                lemma_no_entries(shared);
            }
            assert forall|k: (Word, Word)| slot_of(k) == at implies (table_in(before).contains_key(
                k,
            ) <==> table_of(shared).contains_key(k)) && (table_in(before).contains_key(k)
                ==> table_in(before)[k] == table_of(shared)[k]) by {}
            assert forall|k: (Word, Word)| #[trigger]
                table_in(after).contains_key(k) <==> want.contains_key(k) by {}
            assert forall|k: (Word, Word)| #[trigger]
                table_in(after).contains_key(k) implies table_in(after)[k] == want[k] by {}
            assert(table_in(after) =~= want);
        }
    }

    fn get(&self, key: (&str, &str)) -> (found: Option<&[String]>) {
        broadcast use vstd::std_specs::hash::group_hash_axioms;

        let at: u64 = slot(key.0, key.1);
        match self.slots.get(&at) {
            Some(entries) => match position(entries, key.0, key.1) {
                Some(i) => {
                    proof {
                        lemma_entry_found(entries@, (key.0@, key.1@), i as int);
                    }
                    Some(entries[i].successors.as_slice())
                },
                None => {
                    proof {
                        lemma_entry_absent(entries@, (key.0@, key.1@));
                    }
                    None
                },
            },
            None => None,
        }
    }
}

} // verus!
