//! The interface that every source of entries offers, and the operators that
//! merge several sources into one.

pub mod concat_iterator;
pub mod merge_iterator;
pub mod two_merge_iterator;

use crate::error::Error;
use vstd::prelude::*;

verus! {

/// What is left of a sequence of entries once its first entry is given.
pub open spec fn rest_of(s: Seq<(Seq<u8>, Seq<u8>)>) -> Seq<(Seq<u8>, Seq<u8>)> {
    if s.len() > 0 {
        s.skip(1)
    } else {
        s
    }
}

/// A source of entries that gives them one at a time.
pub trait StorageIterator {
    /// What the iterator relies on between calls. Verified code uses an
    /// iterator only where this holds; an implementation that states nothing
    /// else is not used by it.
    open spec fn wf(&self) -> bool {
        false
    }

    /// The entries that the iterator has yet to give, the current one first.
    open spec fn remaining(&self) -> Seq<(Seq<u8>, Seq<u8>)> {
        Seq::empty()
    }

    /// The iterator cannot fail: every `next` from here on succeeds.
    open spec fn unfailing(&self) -> bool {
        false
    }

    /// The key of the current entry.
    fn key(&self) -> (k: &[u8])
        requires
            self.wf(),
            self.remaining().len() > 0,
        ensures
            k@ == self.remaining()[0].0,
    ;

    /// The value of the current entry.
    fn value(&self) -> (v: &[u8])
        requires
            self.wf(),
            self.remaining().len() > 0,
        ensures
            v@ == self.remaining()[0].1,
    ;

    /// Whether there is a current entry.
    fn is_valid(&self) -> (b: bool)
        requires
            self.wf(),
        ensures
            b == (self.remaining().len() > 0),
    ;

    /// Moves to the next entry. Running out of entries is no error; after an
    /// error the iterator has no entries left.
    fn next(&mut self) -> (r: Result<(), Error>)
        requires
            old(self).wf(),
        ensures
            final(self).wf(),
            r is Ok ==> final(self).remaining() == rest_of(old(self).remaining()),
            r is Err ==> final(self).remaining().len() == 0,
            old(self).unfailing() ==> r is Ok && final(self).unfailing(),
    ;
}

} // verus!
