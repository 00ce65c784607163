//! Walks the entries of a block in order and seeks by key.

use crate::block::{Block, BlockView};
use crate::codec::get_u16;
use crate::key::{compare_keys, key_le, key_lt, KeyOrder};
use std::sync::Arc;
use vstd::prelude::*;
use vstd::slice::slice_subrange;

verus! {

/// What a block iterator holds: the block, and the index of the current entry.
pub ghost struct BlockIteratorView {
    pub block: BlockView,
    pub idx: nat,
}

impl BlockIteratorView {
    /// The entries from the current one on.
    pub open spec fn remaining(self) -> Seq<(Seq<u8>, Seq<u8>)> {
        self.block.entries().skip(self.idx as int)
    }

    /// The first index whose key is not below `key`, or the number of entries
    /// if there is none: `idx` is that index.
    pub open spec fn at_lower_bound(self, key: Seq<u8>) -> bool {
        &&& self.idx <= self.block.len()
        &&& forall|j: int| 0 <= j < self.idx ==> key_lt(#[trigger] self.block.key_at(j), key)
        &&& forall|j: int|
            self.idx <= j < self.block.len() ==> key_le(key, #[trigger] self.block.key_at(j))
    }
}

/// Iterates on a block.
pub struct BlockIterator {
    block: Arc<Block>,
    idx: usize,
}

impl View for BlockIterator {
    type V = BlockIteratorView;

    closed spec fn view(&self) -> BlockIteratorView {
        BlockIteratorView { block: (*self.block)@, idx: self.idx as nat }
    }
}

impl BlockIterator {
    /// The block can be read, and the cursor is an index of it or one past
    /// the last.
    pub closed spec fn wf(&self) -> bool {
        &&& (*self.block)@.wf()
        &&& self.idx <= (*self.block)@.len()
    }

    fn new(block: Arc<Block>) -> (it: BlockIterator)
        requires
            (*block)@.wf(),
        ensures
            it.wf(),
            it@ == (BlockIteratorView { block: (*block)@, idx: 0 }),
    {
        BlockIterator { block, idx: 0 }
    }

    /// Creates a block iterator and seeks to the first entry.
    pub fn create_and_seek_to_first(block: Arc<Block>) -> (it: BlockIterator)
        requires
            (*block)@.wf(),
        ensures
            it.wf(),
            it@ == (BlockIteratorView { block: (*block)@, idx: 0 }),
    {
        BlockIterator::new(block)
    }

    /// Creates a block iterator and seeks to the first entry whose key is not
    /// below `key`.
    pub fn create_and_seek_to_key(block: Arc<Block>, key: &[u8]) -> (it: BlockIterator)
        requires
            (*block)@.wf(),
        ensures
            it.wf(),
            it@.block == (*block)@,
            it@.idx == it@.block.lower_bound(key@, 0, it@.block.len() as int),
            it@.idx <= it@.block.len(),
            it@.block.sorted() ==> it@.at_lower_bound(key@),
    {
        let mut s = BlockIterator::new(block);
        s.seek_to_key(key);
        s
    }

    /// The key of the current entry.
    pub fn key(&self) -> (k: &[u8])
        requires
            self.wf(),
            self@.idx < self@.block.len(),
        ensures
            k@ == self@.block.key_at(self@.idx as int),
            k@ == self@.remaining()[0].0,
    {
        key_of(&self.block, self.idx)
    }

    /// The value of the current entry.
    pub fn value(&self) -> (v: &[u8])
        requires
            self.wf(),
            self@.idx < self@.block.len(),
        ensures
            v@ == self@.block.value_at(self@.idx as int),
            v@ == self@.remaining()[0].1,
    {
        let b: &Block = &self.block;
        assert(b@.entry_in_bounds(self.idx as int));
        let offset = b.offsets()[self.idx] as usize;
        let key_len = get_u16(b.data(), offset, b.order()) as usize;
        let offset = offset + key_len + 2;
        let value_len = get_u16(b.data(), offset, b.order()) as usize;
        slice_subrange(b.data(), offset + 2, offset + value_len + 2)
    }

    /// Whether the cursor stands on an entry.
    pub fn is_valid(&self) -> (b: bool)
        requires
            self.wf(),
        ensures
            b == (self@.idx < self@.block.len()),
            b == (self@.remaining().len() > 0),
    {
        self.idx < self.block.offsets().len()
    }

    /// Seeks to the first entry.
    pub fn seek_to_first(&mut self)
        requires
            old(self).wf(),
        ensures
            final(self).wf(),
            final(self)@ == (BlockIteratorView { block: old(self)@.block, idx: 0 }),
    {
        self.idx = 0;
    }

    /// Moves to the next entry; past the last entry the cursor stays.
    pub fn next(&mut self)
        requires
            old(self).wf(),
        ensures
            final(self).wf(),
            final(self)@.block == old(self)@.block,
            final(self)@.idx == if old(self)@.idx < old(self)@.block.len() {
                old(self)@.idx + 1
            } else {
                old(self)@.idx
            },
            final(self)@.remaining() == if old(self)@.remaining().len() > 0 {
                old(self)@.remaining().skip(1)
            } else {
                old(self)@.remaining()
            },
    {
        if self.idx < self.block.offsets().len() {
            self.idx += 1;
            assert(self@.remaining() =~= old(self)@.remaining().skip(1));
        }
    }

    /// Seeks to the first entry whose key is not below `key`, by binary
    /// search; past the last entry if every key is below `key`.
    pub fn seek_to_key(&mut self, key: &[u8])
        requires
            old(self).wf(),
        ensures
            final(self).wf(),
            final(self)@.block == old(self)@.block,
            final(self)@.idx == old(self)@.block.lower_bound(key@, 0, old(self)@.block.len() as int),
            final(self)@.idx <= final(self)@.block.len(),
            final(self)@.block.sorted() ==> final(self)@.at_lower_bound(key@),
    {
        let ghost bv = self@.block;
        let block: &Block = &self.block;
        let mut l: usize = 0;
        let mut r: usize = block.offsets().len();
        while l < r
            invariant
                l <= r <= bv.len(),
                bv == block@,
                bv.wf(),
                bv.lower_bound(key@, l as int, r as int) == bv.lower_bound(
                    key@,
                    0,
                    bv.len() as int,
                ),
                bv.sorted() ==> forall|j: int| 0 <= j < l ==> key_lt(#[trigger] bv.key_at(j), key@),
                bv.sorted() ==> forall|j: int|
                    r <= j < bv.len() ==> key_le(key@, #[trigger] bv.key_at(j)),
            decreases r - l,
        {
            let mid = l + (r - l) / 2;
            let mid_key = key_of(block, mid);
            let order = compare_keys(mid_key, key);
            proof {
                crate::key::lemma_key_trichotomy(mid_key@, key@);
                if bv.sorted() {
                    if order == KeyOrder::Less {
                        assert forall|j: int| 0 <= j < mid + 1 implies key_lt(
                            #[trigger] bv.key_at(j),
                            key@,
                        ) by {
                            if j < mid {
                                assert(key_lt(bv.key_at(j), bv.key_at(mid as int)));
                                crate::key::lemma_key_lt_transitive(
                                    bv.key_at(j),
                                    bv.key_at(mid as int),
                                    key@,
                                );
                            }
                        }
                    } else {
                        assert forall|j: int| mid <= j < bv.len() implies key_le(
                            key@,
                            #[trigger] bv.key_at(j),
                        ) by {
                            if mid < j {
                                assert(key_lt(bv.key_at(mid as int), bv.key_at(j)));
                                crate::key::lemma_key_le_lt(
                                    key@,
                                    bv.key_at(mid as int),
                                    bv.key_at(j),
                                );
                            }
                        }
                    }
                }
            }
            match order {
                KeyOrder::Less => {
                    l = mid + 1;
                },
                _ => {
                    r = mid;
                },
            }
        }
        self.idx = l;
    }
}

/// The key of entry `i` of the block.
fn key_of(block: &Block, i: usize) -> (k: &[u8])
    requires
        block@.wf(),
        i < block@.len(),
    ensures
        k@ == block@.key_at(i as int),
{
    assert(block@.entry_in_bounds(i as int));
    let offset = block.offsets()[i] as usize;
    let key_len = get_u16(block.data(), offset, block.order()) as usize;
    slice_subrange(block.data(), offset + 2, offset + key_len + 2)
}

} // verus!
