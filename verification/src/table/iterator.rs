//! Walks the entries of a table, block after block.

use crate::block::iterator::BlockIterator;
use crate::block::Block;
use crate::entry::{key_from, lemma_filter_ext, lemma_filter_from_is_skip, lemma_filter_is_skip};
use crate::error::Error;
use crate::iterators::StorageIterator;
use crate::key::{key_le, key_lt, keys_equal};
use crate::mem_table::{bound_view, from_bound, lemma_rank, rank, BoundView};
use crate::table::{
    lemma_entries_from_key, lemma_readable_settles, lemma_sorted_entries_increasing,
    lemma_sorted_readable, lemma_sorted_settles, SsTable, TableView,
};
use std::ops::Bound;
use std::sync::Arc;
use vstd::prelude::*;

verus! {

/// An iterator over the entries of a table.
pub struct SsTableIterator {
    table: Arc<SsTable>,
    block_iter: BlockIterator,
    block_idx: usize,
}

impl SsTableIterator {
    /// The table that the iterator walks.
    pub closed spec fn table(&self) -> TableView {
        (*self.table)@
    }

    /// Either the iterator stands on an entry of the block `block_idx` of
    /// the table, or it is at its end, with `block_idx` behind the last block.
    pub closed spec fn inv(&self) -> bool {
        &&& (*self.table).wf()
        &&& self.block_iter.wf()
        &&& if self.block_idx < self.table().len() {
            &&& self.table().block_at(self.block_idx as int) == Some(self.block_iter@.block)
            &&& self.block_iter@.idx < self.block_iter@.block.len()
        } else {
            &&& self.block_idx == self.table().len()
            &&& self.block_iter@.idx >= self.block_iter@.block.len()
        }
    }

    /// The index of the block on which the iterator stands; the number of
    /// blocks at the end.
    pub closed spec fn block_index(&self) -> int {
        self.block_idx as int
    }

    /// The index in its block of the entry on which the iterator stands.
    pub closed spec fn entry_index(&self) -> int {
        self.block_iter@.idx as int
    }

    /// The iterator stands on the last entry of its block.
    pub closed spec fn on_last_of_block(&self) -> bool {
        self.block_iter@.idx + 1 == self.block_iter@.block.len()
    }

    /// Where the iterator stands, and what it has yet to give from there.
    /// Before its end it stands on an entry of a block that can be read, and
    /// has yet to give the entries of that block from there on, then those
    /// of the blocks behind it; it is on the last entry of its block where
    /// no entry of the block follows. At its end it stands behind the last
    /// block and has nothing to give.
    pub proof fn lemma_position(&self)
        requires
            self.inv(),
        ensures
            0 <= self.block_index() <= self.table().len(),
            self.block_index() < self.table().len() ==> {
                &&& self.table().block_at(self.block_index()) is Some
                &&& 0 <= self.entry_index() < self.table().block_entries(self.block_index()).len()
                &&& self.rest() == self.table().block_entries(self.block_index()).skip(
                    self.entry_index(),
                ) + self.table().entries_from(self.block_index() + 1)
                &&& self.on_last_of_block() <==> self.entry_index() + 1
                    == self.table().block_entries(self.block_index()).len()
            },
            self.block_index() == self.table().len() ==> {
                &&& self.rest().len() == 0
                &&& !self.on_last_of_block()
            },
    {
    }

    /// The entries that the iterator has yet to give: the rest of its block,
    /// then the entries of the blocks behind it.
    pub closed spec fn rest(&self) -> Seq<(Seq<u8>, Seq<u8>)> {
        if self.block_idx < self.table().len() {
            self.block_iter@.remaining() + self.table().entries_from(self.block_idx + 1)
        } else {
            Seq::empty()
        }
    }

    /// An iterator at its end.
    fn at_end(table: Arc<SsTable>) -> (it: SsTableIterator)
        requires
            (*table).wf(),
        ensures
            it.inv(),
            it.table() == (*table)@,
            it.rest().len() == 0,
    {
        let block_idx = table.num_of_blocks();
        let empty = Block::from_parts(Vec::new(), Vec::new(), table.order());
        let block_iter = BlockIterator::create_and_seek_to_first(Arc::new(empty));
        SsTableIterator { table, block_iter, block_idx }
    }

    /// Moves to the first entry of the first block from block `from` on that
    /// has an entry, or to the end of the table. Fails at the first block
    /// that cannot be read; the iterator is then at its end.
    fn settle(&mut self, from: usize) -> (r: Result<(), Error>)
        requires
            (*old(self).table).wf(),
            from <= old(self).table().len(),
        ensures
            final(self).inv(),
            final(self).table() == old(self).table(),
            match r {
                Ok(()) => {
                    &&& old(self).table().settles(from as int)
                    &&& final(self).rest() == old(self).table().entries_from(from as int)
                },
                Err(e) => {
                    &&& e == Error::Corrupt
                    &&& !old(self).table().settles(from as int)
                    &&& final(self).rest().len() == 0
                },
            },
    {
        let ghost t = self.table();
        let n = self.table.num_of_blocks();
        let mut i = from;
        while i < n
            invariant
                from <= i <= n,
                n == t.len(),
                t == self.table(),
                (*self.table).wf(),
                self.table == old(self).table,
                t.settles(from as int) == t.settles(i as int),
                t.entries_from(from as int) == t.entries_from(i as int),
            decreases n - i,
        {
            match self.table.read_block(i) {
                Ok(block) => {
                    let block_iter = BlockIterator::create_and_seek_to_first(block);
                    if block_iter.is_valid() {
                        self.block_iter = block_iter;
                        self.block_idx = i;
                        assert(self.block_iter@.remaining() =~= t.block_entries(i as int));
                        return Ok(());
                    }
                    assert(t.block_entries(i as int) =~= Seq::empty());
                    assert(t.entries_from(i as int) =~= t.entries_from(i + 1));
                },
                Err(e) => {
                    let table = self.table.clone();
                    *self = SsTableIterator::at_end(table);
                    return Err(e);
                },
            }
            i += 1;
        }
        let table = self.table.clone();
        *self = SsTableIterator::at_end(table);
        assert(self.rest() =~= t.entries_from(from as int));
        Ok(())
    }

    /// Creates an iterator and seeks to the first entry of the table.
    pub fn create_and_seek_to_first(table: Arc<SsTable>) -> (r: Result<Self, Error>)
        requires
            (*table).wf(),
        ensures
            match r {
                Ok(it) => {
                    &&& it.inv()
                    &&& it.table() == (*table)@
                    &&& (*table)@.settles(0)
                    &&& it.rest() == (*table)@.entries()
                },
                Err(e) => e == Error::Corrupt && !(*table)@.settles(0),
            },
    {
        let mut it = SsTableIterator::at_end(table);
        match it.settle(0) {
            Ok(()) => Ok(it),
            Err(e) => Err(e),
        }
    }

    /// Seeks to the first entry of the table.
    pub fn seek_to_first(&mut self) -> (r: Result<(), Error>)
        requires
            old(self).inv(),
        ensures
            final(self).inv(),
            final(self).table() == old(self).table(),
            match r {
                Ok(()) => {
                    &&& final(self).table().settles(0)
                    &&& final(self).rest() == final(self).table().entries()
                },
                Err(e) => {
                    &&& e == Error::Corrupt
                    &&& !final(self).table().settles(0)
                    &&& final(self).rest().len() == 0
                },
            },
    {
        self.settle(0)
    }
}

impl SsTableIterator {
    /// Creates an iterator and seeks to the first entry whose key is not
    /// below `key`. In a sorted table that is the first of all entries with
    /// such a key, and the seek does not fail.
    pub fn create_and_seek_to_key(table: Arc<SsTable>, key: &[u8]) -> (r: Result<Self, Error>)
        requires
            (*table).wf(),
        ensures
            match r {
                Ok(it) => {
                    &&& it.inv()
                    &&& it.table() == (*table)@
                    &&& (*table)@.sought(key@) == Some(it.rest())
                    &&& (*table)@.sorted() ==> it.rest() == (*table)@.entries().filter(key_from(key@))
                },
                Err(e) => {
                    &&& e == Error::Corrupt
                    &&& (*table)@.sought(key@) is None
                    &&& !(*table)@.sorted()
                },
            },
    {
        let mut it = SsTableIterator::at_end(table);
        match it.seek_to_key(key) {
            Ok(()) => Ok(it),
            Err(e) => Err(e),
        }
    }

    /// Seeks to the first entry whose key is not below `key`: in the block
    /// that may hold `key`, or, if that block has no such entry, the first of
    /// the next block that has an entry. In a sorted table that is the first
    /// of all entries with such a key, and the seek does not fail.
    pub fn seek_to_key(&mut self, key: &[u8]) -> (r: Result<(), Error>)
        requires
            old(self).inv(),
        ensures
            final(self).inv(),
            final(self).table() == old(self).table(),
            match r {
                Ok(()) => {
                    &&& final(self).table().sought(key@) == Some(final(self).rest())
                    &&& final(self).table().sorted() ==> final(self).rest()
                        == final(self).table().entries().filter(key_from(key@))
                },
                Err(e) => {
                    &&& e == Error::Corrupt
                    &&& final(self).table().sought(key@) is None
                    &&& !final(self).table().sorted()
                    &&& final(self).rest().len() == 0
                },
            },
    {
        let ghost t = self.table();
        let n = self.table.num_of_blocks();
        if n == 0 {
            let table = self.table.clone();
            *self = SsTableIterator::at_end(table);
            proof {
                reveal(Seq::filter);
                assert(t.entries() =~= Seq::empty());
            }
            return Ok(());
        }
        let idx = self.table.find_block_idx(key);
        let block = match self.table.read_block(idx) {
            Ok(block) => block,
            Err(e) => {
                let table = self.table.clone();
                *self = SsTableIterator::at_end(table);
                proof {
                    if t.sorted() {
                        assert(t.block_sorted(idx as int));
                    }
                }
                return Err(e);
            },
        };
        let block_iter = BlockIterator::create_and_seek_to_key(block, key);
        let ghost b = block_iter@.block;
        let ghost p = block_iter@.idx as int;
        proof {
            if t.sorted() {
                assert(t.block_sorted(idx as int));
                assert(b.entries() == t.block_entries(idx as int));
                assert forall|j: int| 0 <= j < p implies key_lt(
                    (#[trigger] t.block_entries(idx as int)[j]).0,
                    key@,
                ) by {
                    assert(key_lt(b.key_at(j), key@));
                }
                assert forall|j: int| p <= j < t.block_entries(idx as int).len() implies key_le(
                    key@,
                    (#[trigger] t.block_entries(idx as int)[j]).0,
                ) by {
                    assert(key_le(key@, b.key_at(j)));
                }
                lemma_entries_from_key(t, idx as int, key@, p);
                lemma_sorted_settles(t, idx + 1);
            }
        }
        if block_iter.is_valid() {
            self.block_iter = block_iter;
            self.block_idx = idx;
            return Ok(());
        }
        proof {
            assert(b.entries().skip(p) =~= Seq::empty());
            assert(Seq::<(Seq<u8>, Seq<u8>)>::empty() + t.entries_from(idx + 1) =~= t.entries_from(
                idx + 1,
            ));
        }
        self.settle(idx + 1)
    }
}

/// Of increasing entries, those whose keys are above a key are those whose
/// keys are not below it, without the first of them if that has the key.
pub proof fn lemma_behind_key(all: Seq<(Seq<u8>, Seq<u8>)>, key: Seq<u8>)
    requires
        crate::entry::keys_increasing(all),
    ensures
        ({
            let from = all.filter(key_from(key));
            all.filter(from_bound(BoundView::Excluded(key))) == if from.len() > 0 && from[0].0
                == key {
                from.skip(1)
            } else {
                from
            }
        }),
{
    let pred = from_bound(BoundView::Excluded(key));
    let from = all.filter(key_from(key));
    lemma_rank(all, key);
    let p = rank(all, key);
    lemma_filter_from_is_skip(all, key, p);
    let q = if p < all.len() && all[p].0 == key {
        p + 1
    } else {
        p
    };
    assert forall|j: int| 0 <= j < q implies !pred(#[trigger] all[j]) by {
        crate::key::lemma_key_trichotomy(all[j].0, key);
    }
    assert forall|j: int| q <= j < all.len() implies pred(#[trigger] all[j]) by {
        crate::key::lemma_key_trichotomy(all[j].0, key);
        if j > p {
            assert(key_lt(all[p].0, all[j].0));
            crate::key::lemma_key_le_lt(key, all[p].0, all[j].0);
        }
    }
    lemma_filter_is_skip(all, pred, q);
    if q > p {
        assert(all.skip(p).skip(1) =~= all.skip(q));
        assert(from[0] == all[p]);
    } else if from.len() > 0 {
        assert(from[0] == all[p]);
    }
}

impl SsTableIterator {
    /// Creates an iterator and seeks to the first entry whose key is not in
    /// front of the lower end of a range. In a sorted table what the
    /// iterator gives are the entries with such keys, and the seek does not
    /// fail.
    pub fn create_and_seek_from(table: Arc<SsTable>, lower: Bound<&[u8]>) -> (r: Result<
        Self,
        Error,
    >)
        requires
            (*table).wf(),
        ensures
            match r {
                Ok(it) => {
                    &&& it.inv()
                    &&& it.table() == (*table)@
                    &&& (*table)@.sorted() ==> it.rest() == (*table)@.entries().filter(
                        from_bound(bound_view(lower)),
                    )
                },
                Err(e) => e == Error::Corrupt && !(*table)@.sorted(),
            },
    {
        let ghost t = (*table)@;
        let ghost all = t.entries();
        let ghost pred = from_bound(bound_view(lower));
        match lower {
            Bound::Unbounded => {
                proof {
                    if t.sorted() {
                        lemma_sorted_settles(t, 0);
                    }
                    lemma_filter_is_skip(all, pred, 0);
                    assert(all.skip(0) =~= all);
                }
                SsTableIterator::create_and_seek_to_first(table)
            },
            Bound::Included(key) => {
                proof {
                    lemma_filter_ext(all, pred, key_from(key@));
                }
                SsTableIterator::create_and_seek_to_key(table, key)
            },
            Bound::Excluded(key) => {
                let mut it = match SsTableIterator::create_and_seek_to_key(table, key) {
                    Ok(it) => it,
                    Err(e) => {
                        return Err(e);
                    },
                };
                let ghost from = it.rest();
                if it.is_valid() && keys_equal(it.key(), key) {
                    proof {
                        if t.sorted() {
                            lemma_sorted_readable(t);
                        }
                    }
                    match it.next() {
                        Ok(()) => {},
                        Err(e) => {
                            return Err(e);
                        },
                    }
                }
                proof {
                    if t.sorted() {
                        lemma_sorted_entries_increasing(t);
                        lemma_behind_key(all, key@);
                    }
                }
                Ok(it)
            },
        }
    }
}

impl StorageIterator for SsTableIterator {
    open spec fn wf(&self) -> bool {
        self.inv()
    }

    open spec fn remaining(&self) -> Seq<(Seq<u8>, Seq<u8>)> {
        self.rest()
    }

    open spec fn unfailing(&self) -> bool {
        self.table().readable()
    }

    /// The key of the current entry.
    fn key(&self) -> (k: &[u8]) {
        self.block_iter.key()
    }

    /// The value of the current entry.
    fn value(&self) -> (v: &[u8]) {
        self.block_iter.value()
    }

    /// Whether the iterator stands on an entry.
    fn is_valid(&self) -> (b: bool) {
        self.block_iter.is_valid()
    }

    /// Moves to the next entry: the next of the block, or the first of the
    /// next block that has an entry.
    fn next(&mut self) -> (r: Result<(), Error>)
        ensures
            final(self).table() == old(self).table(),
            r matches Err(e) ==> e == Error::Corrupt,
            r is Err <==> old(self).on_last_of_block() && !old(self).table().settles(
                old(self).block_index() + 1,
            ),
    {
        if !self.block_iter.is_valid() {
            return Ok(());
        }
        let n = self.table.num_of_blocks();
        let ghost before = self.block_iter@.remaining();
        let ghost behind = self.table().entries_from(self.block_idx + 1);
        self.block_iter.next();
        if !self.block_iter.is_valid() {
            assert((before + behind).skip(1) =~= behind);
            proof {
                if self.table().readable() {
                    lemma_readable_settles(self.table(), self.block_idx + 1);
                }
            }
            return self.settle(self.block_idx + 1);
        }
        assert((before + behind).skip(1) =~= before.skip(1) + behind);
        Ok(())
    }
}

} // verus!
