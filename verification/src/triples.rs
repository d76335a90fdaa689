//! Sliding windows of three consecutive items over a slice.

use vstd::prelude::*;
use vstd::slice::*;

verus! {

/// The windows of three consecutive items of `items`, in order.
///
/// A sequence of fewer than three items has none.
pub open spec fn trigrams<T>(items: Seq<T>) -> Seq<(T, T, T)> {
    Seq::new(
        if items.len() >= 3 { (items.len() - 2) as nat } else { 0 },
        |i: int| (items[i], items[i + 1], items[i + 2]),
    )
}

/// A forward-only producer of the windows of three consecutive items of a slice.
pub struct Triples<'a, T> {
    rest: &'a [T],
}

impl<'a, T> Triples<'a, T> {
    /// The items that have not been passed over yet.
    pub closed spec fn remaining(&self) -> Seq<T> {
        self.rest@
    }

    /// Starts at the first item of `items`.
    pub fn new(items: &'a [T]) -> (triples: Self)
        ensures
            triples.remaining() == items@,
    {
        Triples { rest: items }
    }

    /// Hands out the window at the front and moves one item forward.
    ///
    /// Once fewer than three items remain there is no window; the attempt still
    /// passes over one item, if there is one.
    pub fn next(&mut self) -> (window: Option<(&'a T, &'a T, &'a T)>)
        ensures
            old(self).remaining().len() >= 3 ==> (window matches Some(w) && *w.0 == old(
                self,
            ).remaining()[0] && *w.1 == old(self).remaining()[1] && *w.2 == old(
                self,
            ).remaining()[2]),
            old(self).remaining().len() < 3 ==> window is None,
            old(self).remaining().len() > 0 ==> final(self).remaining() == old(
                self,
            ).remaining().skip(1),
            old(self).remaining().len() == 0 ==> final(self).remaining() == old(self).remaining(),
    {
        let rest: &'a [T] = self.rest;
        let n: usize = rest.len();
        if n == 0 {
            return None;
        }
        self.rest = slice_subrange(rest, 1, n);
        if n >= 3 {
            Some((&rest[0], &rest[1], &rest[2]))
        } else {
            None
        }
    }
}

} // verus!
