//! The iterators that a scan of the storage returns: one that hides deleted
//! keys and stops at the upper end of the range, and one that stays at its
//! end once an error has occurred.

use crate::error::Error;
use crate::iterators::concat_iterator::SstConcatIterator;
use crate::iterators::merge_iterator::MergeIterator;
use crate::iterators::two_merge_iterator::TwoMergeIterator;
use crate::iterators::StorageIterator;
use crate::mem_table::{below_upper, BoundView, MemTableIterator};
use crate::key::{compare_keys, KeyOrder};
use crate::table::iterator::SsTableIterator;
use std::ops::Bound;
use vstd::prelude::*;

verus! {

/// The merge that a scan reads: the memtables before the tables of the
/// first level, and both before the levels below.
pub type LsmIteratorInner = TwoMergeIterator<
    TwoMergeIterator<MergeIterator<MemTableIterator>, MergeIterator<SsTableIterator>>,
    MergeIterator<SstConcatIterator>,
>;

/// The end of a range that a bound on an owned key stands for.
pub open spec fn owned_bound_view(b: Bound<Vec<u8>>) -> BoundView {
    match b {
        Bound::Unbounded => BoundView::Unbounded,
        Bound::Included(k) => BoundView::Included(k@),
        Bound::Excluded(k) => BoundView::Excluded(k@),
    }
}

/// What a scan shows of a sequence of entries: the entries in front of the
/// first whose key is behind the upper end of the range, without those whose
/// value is empty.
pub open spec fn visible(s: Seq<(Seq<u8>, Seq<u8>)>, upper: BoundView) -> Seq<(Seq<u8>, Seq<u8>)>
    decreases s.len(),
{
    if s.len() == 0 || !below_upper(s[0].0, upper) {
        Seq::empty()
    } else if s[0].1.len() == 0 {
        visible(s.skip(1), upper)
    } else {
        seq![s[0]] + visible(s.skip(1), upper)
    }
}

/// Whether the key is not behind the upper end of a range.
fn within(key: &[u8], upper: &Bound<Vec<u8>>) -> (r: bool)
    ensures
        r == below_upper(key@, owned_bound_view(*upper)),
{
    match upper {
        Bound::Unbounded => true,
        Bound::Included(k) => {
            proof {
                crate::key::lemma_key_trichotomy(key@, k@);
            }
            match compare_keys(key, k.as_slice()) {
                KeyOrder::Greater => false,
                _ => true,
            }
        },
        Bound::Excluded(k) => match compare_keys(key, k.as_slice()) {
            KeyOrder::Less => true,
            _ => false,
        },
    }
}

/// An iterator over the merged sources of the storage that hides the keys
/// marked as deleted and ends at the upper end of the range.
pub struct LsmIterator {
    inner: LsmIteratorInner,
    upper: Bound<Vec<u8>>,
    failed: bool,
}

impl LsmIterator {
    /// The upper end of the range.
    pub closed spec fn upper(&self) -> BoundView {
        owned_bound_view(self.upper)
    }

    /// The merge can be used; unless it has failed, it does not stand on an
    /// entry of the range that is marked as deleted.
    pub closed spec fn inv(&self) -> bool {
        &&& self.inner.wf()
        &&& !self.failed ==> {
            let s = self.inner.remaining();
            s.len() > 0 && below_upper(s[0].0, self.upper()) ==> s[0].1.len() > 0
        }
    }

    /// The merge cannot fail and has not failed.
    pub closed spec fn merge_unfailing(&self) -> bool {
        self.inner.unfailing() && !self.failed
    }

    /// The entries that the iterator has yet to give.
    pub closed spec fn shown(&self) -> Seq<(Seq<u8>, Seq<u8>)> {
        if self.failed {
            Seq::empty()
        } else {
            visible(self.inner.remaining(), self.upper())
        }
    }

    /// Creates the iterator over a merge, up to the given end. Fails where
    /// the merge fails while it is moved past entries marked as deleted.
    pub fn new(inner: LsmIteratorInner, upper: Bound<Vec<u8>>) -> (r: Result<LsmIterator, Error>)
        requires
            inner.wf(),
        ensures
            r matches Ok(it) ==> {
                &&& it.inv()
                &&& it.upper() == owned_bound_view(upper)
                &&& it.shown() == visible(inner.remaining(), owned_bound_view(upper))
                &&& inner.unfailing() ==> it.merge_unfailing()
            },
            inner.unfailing() ==> r is Ok,
    {
        let mut it = LsmIterator { inner, upper, failed: false };
        match it.skip_deleted() {
            Ok(()) => Ok(it),
            Err(e) => Err(e),
        }
    }

    /// Moves the merge past the entries of the range that are marked as
    /// deleted.
    fn skip_deleted(&mut self) -> (r: Result<(), Error>)
        requires
            old(self).inner.wf(),
            !old(self).failed,
        ensures
            final(self).inv(),
            final(self).upper() == old(self).upper(),
            r is Ok ==> final(self).shown() == visible(old(self).inner.remaining(), old(self).upper()),
            r is Ok && old(self).inner.unfailing() ==> final(self).merge_unfailing(),
            r is Err ==> final(self).shown().len() == 0,
            old(self).inner.unfailing() ==> r is Ok,
    {
        while self.inner.is_valid() && within(self.inner.key(), &self.upper)
            && self.inner.value().len() == 0
            invariant
                self.inner.wf(),
                !self.failed,
                self.upper == old(self).upper,
                visible(self.inner.remaining(), self.upper()) == visible(
                    old(self).inner.remaining(),
                    old(self).upper(),
                ),
                old(self).inner.unfailing() ==> self.inner.unfailing(),
            decreases self.inner.remaining().len(),
        {
            match self.inner.next() {
                Ok(()) => {},
                Err(e) => {
                    self.failed = true;
                    return Err(e);
                },
            }
        }
        Ok(())
    }
}

impl StorageIterator for LsmIterator {
    open spec fn wf(&self) -> bool {
        self.inv()
    }

    open spec fn remaining(&self) -> Seq<(Seq<u8>, Seq<u8>)> {
        self.shown()
    }

    open spec fn unfailing(&self) -> bool {
        self.merge_unfailing()
    }

    fn key(&self) -> (k: &[u8]) {
        self.inner.key()
    }

    fn value(&self) -> (v: &[u8]) {
        self.inner.value()
    }

    fn is_valid(&self) -> (b: bool) {
        !self.failed && self.inner.is_valid() && within(self.inner.key(), &self.upper)
    }

    fn next(&mut self) -> (r: Result<(), Error>) {
        if !self.is_valid() {
            return Ok(());
        }
        let ghost s = self.inner.remaining();
        match self.inner.next() {
            Ok(()) => {},
            Err(e) => {
                self.failed = true;
                return Err(e);
            },
        }
        proof {
            assert((seq![s[0]] + visible(s.skip(1), self.upper())).skip(1) =~= visible(
                s.skip(1),
                self.upper(),
            ));
        }
        self.skip_deleted()
    }
}

/// An iterator that, once the iterator within has failed, stays at its end
/// and reports the failure again.
pub struct FusedIterator<I: StorageIterator> {
    iter: I,
    error: Option<Error>,
}

impl<I: StorageIterator> FusedIterator<I> {
    /// The iterator within can be used.
    pub closed spec fn inv(&self) -> bool {
        self.iter.wf()
    }

    /// The entries that the iterator has yet to give.
    pub closed spec fn left(&self) -> Seq<(Seq<u8>, Seq<u8>)> {
        if self.error is Some {
            Seq::empty()
        } else {
            self.iter.remaining()
        }
    }

    /// Whether the iterator within has failed.
    pub closed spec fn has_failed(&self) -> bool {
        self.error is Some
    }

    /// The iterator within cannot fail and has not failed.
    pub closed spec fn within_unfailing(&self) -> bool {
        self.iter.unfailing() && self.error is None
    }

    /// Wraps an iterator.
    pub fn new(iter: I) -> (it: FusedIterator<I>)
        requires
            iter.wf(),
        ensures
            it.inv(),
            !it.has_failed(),
            it.left() == iter.remaining(),
            it.within_unfailing() == iter.unfailing(),
    {
        FusedIterator { iter, error: None }
    }
}

impl<I: StorageIterator> StorageIterator for FusedIterator<I> {
    open spec fn wf(&self) -> bool {
        self.inv()
    }

    open spec fn remaining(&self) -> Seq<(Seq<u8>, Seq<u8>)> {
        self.left()
    }

    open spec fn unfailing(&self) -> bool {
        self.within_unfailing()
    }

    fn key(&self) -> (k: &[u8]) {
        self.iter.key()
    }

    fn value(&self) -> (v: &[u8]) {
        self.iter.value()
    }

    fn is_valid(&self) -> (b: bool) {
        match self.error {
            Some(_) => false,
            None => self.iter.is_valid(),
        }
    }

    fn next(&mut self) -> (r: Result<(), Error>)
        ensures
            old(self).has_failed() ==> r is Err,
    {
        match self.error {
            Some(e) => {
                return Err(e);
            },
            None => {},
        }
        if self.iter.is_valid() {
            match self.iter.next() {
                Ok(()) => {},
                Err(e) => {
                    self.error = Some(e);
                    return Err(e);
                },
            }
        }
        Ok(())
    }
}

} // verus!
