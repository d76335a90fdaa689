//! The transition store: for each pair of consecutive words, the words seen to
//! follow it.

use vstd::prelude::*;
use crate::text::{Word, word_views};

verus! {

/// What a transition store holds: for each pair of words, its successors in the
/// order in which they were recorded, repeats included.
pub type Table = Map<(Word, Word), Seq<Word>>;

/// The successors that `table` holds for `key`: none where it does not hold the key.
pub open spec fn successors(table: Table, key: (Word, Word)) -> Seq<Word> {
    if table.contains_key(key) {
        table[key]
    } else {
        Seq::empty()
    }
}

/// `table` after `value` was recorded as one more successor of `key`.
pub open spec fn record(table: Table, key: (Word, Word), value: Word) -> Table {
    table.insert(key, successors(table, key).push(value))
}

/// A store of transitions, whatever backs it.
pub trait Cache {
    /// What the store holds.
    spec fn table(&self) -> Table;

    /// Appends `value` to the successors of `key`; a key not seen before starts
    /// with `value` alone.
    fn put(&mut self, key: (&str, &str), value: &str)
        ensures
            final(self).table() == record(old(self).table(), (key.0@, key.1@), value@),
    ;

    /// The successors of `key`, or `None` where the key was never recorded.
    fn get(&self, key: (&str, &str)) -> (found: Option<&[String]>)
        ensures
            found is Some <==> self.table().contains_key((key.0@, key.1@)),
            found matches Some(words) ==> word_views(words@) == self.table()[(key.0@, key.1@)],
    ;

    /// Whether `key` was ever recorded.
    fn has(&self, key: (&str, &str)) -> (present: bool)
        ensures
            present == self.table().contains_key((key.0@, key.1@)),
    {
        self.get(key).is_some()
    }
}

} // verus!
