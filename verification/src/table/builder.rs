//! Streams entries into the blocks of a table. The builder keeps its blocks
//! in the order of their first keys; an entry goes to the block with the
//! greatest first key that is not above the entry's key, and a block that is
//! full is divided.

use crate::block::builder::{BlockBuilder, BuilderView};
use crate::block::{append_bytes, built};
use crate::cache::BlockCache;
use crate::codec::{host_byte_order, low32, low32_of, put_u32, u32_bytes, ByteOrder};
use crate::entry::{has_key, keys_below, keys_from, keys_increasing};
use crate::key::{compare_keys, key_le, key_lt, KeyOrder};
use crate::table::division::{
    carries, divided, inserted, lemma_accept_holds, lemma_divide_holds, lemma_divide_keeps,
    lemma_division, lemma_placed_wf, lemma_slot_exists, lemma_slot_unique, lemma_step_accept,
    lemma_step_divide,
};
use crate::table::{metas_bytes, metas_of, BlockMeta, FileObject, MetaView, SsTable, TableView};
use std::sync::Arc;
use vstd::prelude::*;
use vstd::slice::slice_to_vec;

verus! {

/// What a table builder holds: its blocks with their first keys, in the
/// order of those keys, the target size of a block and the byte order.
pub ghost struct TableBuilderView {
    pub first_keys: Seq<Seq<u8>>,
    pub blocks: Seq<BuilderView>,
    pub block_size: nat,
    pub order: ByteOrder,
}

impl TableBuilderView {
    /// The number of blocks.
    pub open spec fn len(self) -> nat {
        self.blocks.len()
    }

    /// The first keys are strictly increasing.
    pub open spec fn ascending(self) -> bool {
        forall|i: int, j: int|
            0 <= i < j < self.first_keys.len() ==> key_lt(
                #[trigger] self.first_keys[i],
                #[trigger] self.first_keys[j],
            )
    }

    /// There is a block for every key: each block has a first key, the first
    /// block starts at the empty key, and the first keys increase. Every
    /// block has the target size and the byte order of the builder.
    pub open spec fn wf(self) -> bool {
        &&& self.first_keys.len() == self.blocks.len()
        &&& self.blocks.len() >= 1
        &&& self.first_keys[0].len() == 0
        &&& self.ascending()
        &&& forall|i: int|
            0 <= i < self.len() ==> (#[trigger] self.blocks[i]).block_size == self.block_size
                && self.blocks[i].order == self.order
    }

    /// The keys of block `i` are not below its first key, and below the
    /// first key of the next block; unless it is the first block, block `i`
    /// holds its first key.
    pub open spec fn block_in_range(self, i: int) -> bool {
        &&& keys_from(self.blocks[i].entries, self.first_keys[i])
        &&& i + 1 < self.len() ==> keys_below(self.blocks[i].entries, self.first_keys[i + 1])
        &&& i > 0 ==> has_key(self.blocks[i].entries, self.first_keys[i])
    }

    /// Every block holds keys of its range only.
    pub open spec fn ranged(self) -> bool {
        forall|i: int| 0 <= i < self.len() ==> #[trigger] self.block_in_range(i)
    }

    /// Block `i` is the block for `key`: its first key is the greatest that
    /// is not above `key`.
    pub open spec fn is_slot_of(self, i: int, key: Seq<u8>) -> bool {
        &&& 0 <= i < self.len()
        &&& key_le(self.first_keys[i], key)
        &&& i + 1 < self.len() ==> key_lt(key, self.first_keys[i + 1])
    }

    /// The block for `key`.
    pub open spec fn slot(self, key: Seq<u8>) -> int {
        choose|i: int| self.is_slot_of(i, key)
    }

    /// Some block holds the key.
    pub open spec fn holds_key(self, key: Seq<u8>) -> bool {
        !every_block(self, lacks(key))
    }

    /// No block holds a key twice.
    pub open spec fn strict(self) -> bool {
        every_block(self, is_strict())
    }

    /// Every block is within the target size.
    pub open spec fn bounded(self) -> bool {
        every_block(self, is_bounded())
    }

    /// Some block holds the entry.
    pub open spec fn holds(self, e: (Seq<u8>, Seq<u8>)) -> bool {
        exists|i: int| 0 <= i < self.len() && (#[trigger] self.blocks[i]).entries.contains(e)
    }

    /// The builder with the block `b` entered under the first key `sk`. It
    /// takes the place of a block that has this first key; else it goes
    /// behind block `p`, the block for `sk`.
    pub open spec fn placed(self, p: int, sk: Seq<u8>, b: BuilderView) -> TableBuilderView {
        if self.first_keys[p] == sk {
            TableBuilderView { blocks: self.blocks.update(p, b), ..self }
        } else {
            TableBuilderView {
                first_keys: self.first_keys.insert(p + 1, sk),
                blocks: self.blocks.insert(p + 1, b),
                ..self
            }
        }
    }

    /// The sizes of the blocks, added up.
    pub open spec fn total_size(self) -> nat {
        sizes_sum(self.blocks)
    }

    /// Each block, sorted and encoded.
    pub open spec fn images(self) -> Seq<Seq<u8>> {
        Seq::new(self.len(), |i: int| built(self.blocks[i].sorted(), self.order).encoded())
    }

    /// The meta records of the table: each block starts where the blocks
    /// before it end, and has the key of its first entry.
    pub open spec fn built_metas(self) -> Seq<MetaView> {
        Seq::new(
            self.len(),
            |i: int|
                MetaView {
                    offset: joined(self.images().take(i)).len(),
                    first_key: self.recorded_key(i),
                },
        )
    }

    /// The first key that the table records for block `i`: the least key of
    /// the block. Of a block without an entry it is the first key under
    /// which the builder keeps the block.
    pub open spec fn recorded_key(self, i: int) -> Seq<u8> {
        if self.blocks[i].entries.len() > 0 {
            self.blocks[i].sorted()[0].0
        } else {
            self.first_keys[i]
        }
    }

    /// The table that holds the blocks in the order of their first keys: the
    /// encoded blocks, the encoded meta records, and in four bytes the
    /// position where the meta records start.
    pub open spec fn built_table(self) -> TableView {
        let data = joined(self.images());
        TableView {
            file: data + metas_bytes(self.built_metas(), self.order) + u32_bytes(
                low32(data.len() as int),
                self.order,
            ),
            metas: self.built_metas(),
            meta_offset: data.len(),
            order: self.order,
        }
    }

    /// Where the block entered under `sk` stands afterwards.
    pub open spec fn placed_at(self, p: int, sk: Seq<u8>) -> int {
        if self.first_keys[p] == sk {
            p
        } else {
            p + 1
        }
    }
}

/// Every block of the builder has the property.
pub open spec fn every_block(v: TableBuilderView, p: spec_fn(BuilderView) -> bool) -> bool {
    forall|i: int| 0 <= i < v.len() ==> p(#[trigger] v.blocks[i])
}

/// The blocks that hold no key twice.
pub open spec fn is_strict() -> spec_fn(BuilderView) -> bool {
    |b: BuilderView| keys_increasing(b.sorted())
}

/// The blocks that do not hold the key.
pub open spec fn lacks(key: Seq<u8>) -> spec_fn(BuilderView) -> bool {
    |b: BuilderView| !has_key(b.entries, key)
}

/// The blocks that are within their target size.
pub open spec fn is_bounded() -> spec_fn(BuilderView) -> bool {
    |b: BuilderView| b.size() <= b.block_size
}

/// The sizes of the blocks, added up.
pub open spec fn sizes_sum(blocks: Seq<BuilderView>) -> nat
    decreases blocks.len(),
{
    if blocks.len() == 0 {
        0
    } else {
        sizes_sum(blocks.drop_last()) + blocks.last().size()
    }
}

/// The sequences of bytes, one after the other.
pub open spec fn joined(parts: Seq<Seq<u8>>) -> Seq<u8>
    decreases parts.len(),
{
    if parts.len() == 0 {
        Seq::empty()
    } else {
        joined(parts.drop_last()) + parts.last()
    }
}

/// What each of the block builders holds.
pub open spec fn blocks_of(blocks: Seq<BlockBuilder>) -> Seq<BuilderView> {
    Seq::new(blocks.len(), |i: int| blocks[i]@)
}

/// The keys as sequences of bytes.
pub open spec fn keys_of(keys: Seq<Vec<u8>>) -> Seq<Seq<u8>> {
    Seq::new(keys.len(), |i: int| keys[i]@)
}

/// Every one of the block builders is sound.
pub open spec fn all_blocks_wf(blocks: Seq<BlockBuilder>) -> bool {
    forall|i: int| 0 <= i < blocks.len() ==> (#[trigger] blocks[i]).wf()
}

/// Builds a table from entries.
pub struct SsTableBuilder {
    first_keys: Vec<Vec<u8>>,
    blocks: Vec<BlockBuilder>,
    block_size: usize,
    order: ByteOrder,
}

impl View for SsTableBuilder {
    type V = TableBuilderView;

    closed spec fn view(&self) -> TableBuilderView {
        TableBuilderView {
            first_keys: keys_of(self.first_keys@),
            blocks: blocks_of(self.blocks@),
            block_size: self.block_size as nat,
            order: self.order,
        }
    }
}

impl SsTableBuilder {
    /// There is a block for every key, and every block builder is sound.
    pub closed spec fn wf(&self) -> bool {
        &&& self@.wf()
        &&& all_blocks_wf(self.blocks@)
    }

    /// A sound builder has a block for every key.
    pub proof fn lemma_view_wf(&self)
        requires
            self.wf(),
        ensures
            self@.wf(),
    {
    }

    /// Creates a builder of blocks of the given target size, which encodes in
    /// the byte order of the host.
    pub fn new(block_size: usize) -> (b: SsTableBuilder)
        ensures
            b.wf(),
            b@.wf(),
            b@.ranged(),
            b@.strict(),
            block_size >= 2 ==> b@.bounded(),
            b@.block_size == block_size,
            b@.len() == 1,
            b@.blocks[0].entries.len() == 0,
    {
        SsTableBuilder::with_order(block_size, host_byte_order())
    }

    /// Creates a builder of blocks of the given target size, which encodes in
    /// the given byte order.
    pub fn with_order(block_size: usize, order: ByteOrder) -> (b: SsTableBuilder)
        ensures
            b.wf(),
            b@.wf(),
            b@.ranged(),
            b@.strict(),
            block_size >= 2 ==> b@.bounded(),
            b@.block_size == block_size,
            b@.order == order,
            b@.len() == 1,
            b@.blocks[0].entries.len() == 0,
    {
        let mut first_keys: Vec<Vec<u8>> = Vec::new();
        first_keys.push(Vec::new());
        let mut blocks: Vec<BlockBuilder> = Vec::new();
        blocks.push(BlockBuilder::with_order(block_size, order));
        let b = SsTableBuilder { first_keys, blocks, block_size, order };
        assert(b@.block_in_range(0));
        assert(b@.blocks[0].entries =~= Seq::empty());
        assert(is_strict()(b@.blocks[0]));
        b
    }

    /// The block for `key`: the one with the greatest first key that is not
    /// above `key`.
    fn locate(&self, key: &[u8]) -> (idx: usize)
        requires
            self@.wf(),
        ensures
            self@.is_slot_of(idx as int, key@),
    {
        let ghost fks = self@.first_keys;
        let mut l: usize = 1;
        let mut r: usize = self.first_keys.len();
        proof {
            crate::key::lemma_empty_key_least(key@);
            assert(fks[0] =~= Seq::<u8>::empty());
        }
        while l < r
            invariant
                1 <= l <= r <= fks.len(),
                fks == self@.first_keys,
                self@.ascending(),
                key_le(fks[l - 1], key@),
                r < fks.len() ==> key_lt(key@, fks[r as int]),
            decreases r - l,
        {
            let mid = l + (r - l) / 2;
            proof {
                crate::key::lemma_key_trichotomy(key@, fks[mid as int]);
            }
            match compare_keys(key, self.first_keys[mid].as_slice()) {
                KeyOrder::Less => {
                    r = mid;
                },
                _ => {
                    l = mid + 1;
                },
            }
        }
        l - 1
    }

    /// Enters a block under a first key: in place of the block that has this
    /// first key, if there is one, else in the order of the first keys.
    /// Returns where the block stands.
    fn place(&mut self, split_key: Vec<u8>, block: BlockBuilder) -> (r: (usize, bool))
        requires
            old(self).wf(),
            block.wf(),
            block@.block_size == old(self)@.block_size,
            block@.order == old(self)@.order,
        ensures
            final(self).wf(),
            !r.1 ==> r.0 > 0,
            ({
                let p = if r.1 {
                    r.0 as int
                } else {
                    r.0 - 1
                };
                &&& old(self)@.is_slot_of(p, split_key@)
                &&& r.1 == (old(self)@.first_keys[p] == split_key@)
                &&& final(self)@ == old(self)@.placed(p, split_key@, block@)
            }),
    {
        let p = self.locate(split_key.as_slice());
        let n = self.first_keys.len();
        let ghost v = self@;
        let ghost blocks0 = self.blocks@;
        proof {
            lemma_placed_wf(v, p as int, split_key@, block@);
        }
        if compare_keys(split_key.as_slice(), self.first_keys[p].as_slice()) == KeyOrder::Equal {
            self.blocks[p] = block;
            proof {
                assert(self@.first_keys =~= v.first_keys);
                assert(self@.blocks =~= v.blocks.update(p as int, block@));
                assert forall|i: int| 0 <= i < self.blocks@.len() implies (
                #[trigger] self.blocks@[i]).wf() by {
                    if i != p {
                        assert(self.blocks@[i] == blocks0[i]);
                    }
                }
            }
            (p, true)
        } else {
            self.first_keys.insert(p + 1, split_key);
            self.blocks.insert(p + 1, block);
            proof {
                assert(self@.first_keys =~= v.first_keys.insert(p + 1, split_key@));
                assert(self@.blocks =~= v.blocks.insert(p + 1, block@));
                assert forall|i: int| 0 <= i < self.blocks@.len() implies (
                #[trigger] self.blocks@[i]).wf() by {
                    if i <= p {
                        assert(self.blocks@[i] == blocks0[i]);
                    } else if i > p + 1 {
                        assert(self.blocks@[i] == blocks0[i - 1]);
                    }
                }
            }
            (p + 1, false)
        }
    }

    /// Makes room where block `idx` has rejected the entry. A block of one
    /// entry whose key is not above the key of the entry stays, and a new
    /// block holds the entry; any other block is split, and the entry is
    /// offered to the side of its key. Returns the
    /// first key of the new block, the new block, whether the entry went to
    /// its side, and whether the entry was taken.
    fn divide(&mut self, idx: usize, key: &[u8], value: &[u8]) -> (r: (
        Vec<u8>,
        BlockBuilder,
        bool,
        bool,
    ))
        requires
            old(self).wf(),
            idx < old(self)@.len(),
            old(self)@.blocks[idx as int].entries.len() >= 1,
            8 + key@.len() + value@.len() <= usize::MAX,
        ensures
            final(self).wf(),
            r.1.wf(),
            final(self)@ == (TableBuilderView {
                blocks: old(self)@.blocks.update(idx as int, final(self)@.blocks[idx as int]),
                ..old(self)@
            }),
            divided(
                old(self)@.blocks[idx as int],
                key@,
                value@,
                final(self)@.blocks[idx as int],
                r.0@,
                r.1@,
                r.2,
                r.3,
            ),
    {
        let ghost v0 = self@;
        let ghost b0 = v0.blocks[idx as int];
        let ghost blocks0 = self.blocks@;
        assert(self.blocks@[idx as int].wf());
        assert(b0.block_size == v0.block_size && b0.order == v0.order);
        let afresh = self.blocks[idx].len() == 1 && match compare_keys(
            key,
            self.blocks[idx].key_at(0),
        ) {
            KeyOrder::Less => false,
            _ => true,
        };
        if afresh {
            let mut fresh = BlockBuilder::with_order(self.block_size, self.order);
            let taken = fresh.add(key, value);
            proof {
                assert(fresh@.entries =~= seq![(key@, value@)]);
                assert(self@.blocks =~= v0.blocks.update(idx as int, b0));
            }
            return (slice_to_vec(key), fresh, true, true);
        }
        let (split_key, rhs) = self.blocks[idx].split();
        let mut rhs = rhs;
        let go_right = match compare_keys(key, split_key.as_slice()) {
            KeyOrder::Less => false,
            _ => true,
        };
        let done = if go_right {
            rhs.add(key, value)
        } else {
            self.blocks[idx].add(key, value)
        };
        proof {
            assert(self@.first_keys =~= v0.first_keys);
            assert(self@.blocks =~= v0.blocks.update(idx as int, self@.blocks[idx as int]));
            assert forall|i: int| 0 <= i < self.blocks@.len() implies (
            #[trigger] self.blocks@[i]).wf() by {
                if i != idx {
                    assert(self.blocks@[i] == blocks0[i]);
                }
            }
            assert forall|i: int| 0 <= i < self@.len() implies (#[trigger] self@.blocks[i]).block_size
                == self@.block_size && self@.blocks[i].order == self@.order by {
                if i != idx {
                    assert(self@.blocks[i] == v0.blocks[i]);
                }
            }
        }
        (split_key, rhs, go_right, done)
    }

    /// Adds an entry to the table. The entry goes to the block for its key.
    /// Where that block is full, it is divided: a block of one entry whose
    /// key is not above that of the new entry stays, and the new entry starts
    /// a new block; any other block is split, and the entry goes to the side
    /// of its key, which is divided in turn if it is full. Each new block is
    /// entered under its first key. The blocks keep to their ranges.
    pub fn add(&mut self, key: &[u8], value: &[u8])
        requires
            old(self).wf(),
            8 + key@.len() + value@.len() <= usize::MAX,
        ensures
            final(self).wf(),
            final(self)@.wf(),
            final(self)@ == inserted(old(self)@, old(self)@.slot(key@), (key@, value@)),
            final(self)@.block_size == old(self)@.block_size,
            final(self)@.order == old(self)@.order,
            final(self)@.holds((key@, value@)),
            within_but(final(self)@, old(self)@, (key@, value@)),
            old(self)@.ranged() && old(self)@.strict()
                && !old(self)@.holds_key(key@) ==> within(old(self)@, final(self)@),
            old(self)@.ranged() ==> final(self)@.ranged(),
            old(self)@.strict() && !old(self)@.holds_key(key@) ==> final(self)@.strict(),
            old(self)@.bounded() && 8 + key@.len() + value@.len() <= old(self)@.block_size
                ==> final(self)@.bounded(),
    {
        let mut idx = self.locate(key);
        let ghost ok = old(self)@.ranged();
        let ghost fresh = old(self)@.strict() && !old(self)@.holds_key(key@);
        let ghost small = old(self)@.bounded() && 8 + key@.len() + value@.len() <= old(
            self,
        )@.block_size;
        let ghost e = (key@, value@);
        proof {
            lemma_slot_exists(self@, key@);
            lemma_slot_unique(self@, idx as int, self@.slot(key@), key@);
        }
        loop
            invariant
                self.wf(),
                inserted(self@, idx as int, e) == inserted(old(self)@, old(self)@.slot(key@), e),
                self@.block_size == old(self)@.block_size,
                self@.order == old(self)@.order,
                e == (key@, value@),
                ok == old(self)@.ranged(),
                fresh == (old(self)@.strict() && !old(self)@.holds_key(key@)),
                small == (old(self)@.bounded() && 8 + key@.len() + value@.len() <= old(
                    self,
                )@.block_size),
                carries(self@, idx as int, e, ok, fresh, small),
                within(self@, old(self)@),
                ok && fresh ==> within(old(self)@, self@),
                8 + key@.len() + value@.len() <= usize::MAX,
            decreases self@.blocks[idx as int].entries.len(),
        {
            let ghost v0 = self@;
            let ghost b0 = v0.blocks[idx as int];
            assert(self.blocks@[idx as int].wf());
            let ghost blocks0 = self.blocks@;
            if self.blocks[idx].add(key, value) {
                proof {
                    assert(self@.first_keys =~= v0.first_keys);
                    assert(self@.blocks =~= v0.blocks.update(idx as int, b0.added(key@, value@)));
                    assert forall|i: int| 0 <= i < self.blocks@.len() implies (
                    #[trigger] self.blocks@[i]).wf() by {
                        if i != idx {
                            assert(self.blocks@[i] == blocks0[i]);
                        }
                    }
                    lemma_step_accept(v0, idx as int, e, ok, fresh, small);
                    lemma_accept_holds(v0, idx as int, e);
                    if fresh {
                        assert(lacks(e.0)(b0));
                    }
                }
                return ;
            }
            proof {
                assert(self@.first_keys =~= v0.first_keys);
                assert(self@.blocks =~= v0.blocks);
                assert(b0.entries.len() >= 1);
            }
            let (split_key, rhs, go_right, done) = self.divide(idx, key, value);
            let ghost left1 = self@.blocks[idx as int];
            let ghost right1 = rhs@;
            let ghost sk = split_key@;
            let (pos, replaced) = self.place(split_key, rhs);
            let ghost p = if replaced {
                pos as int
            } else {
                pos - 1
            };
            proof {
                lemma_division(b0, key@, value@, left1, sk, right1, go_right, done);
                lemma_slot_exists(v0, sk);
                lemma_slot_unique(v0, p, v0.slot(sk), sk);
                lemma_step_divide(
                    v0,
                    idx as int,
                    e,
                    left1,
                    sk,
                    right1,
                    go_right,
                    done,
                    p,
                    ok,
                    fresh,
                    small,
                );
                lemma_divide_holds(v0, idx as int, e, left1, sk, right1, go_right, done, p);
                if ok && fresh {
                    assert(lacks(e.0)(b0));
                    assert(is_strict()(b0));
                    lemma_divide_keeps(v0, idx as int, e, left1, sk, right1, go_right, done, p);
                }
            }
            idx = if go_right {
                pos
            } else if !replaced && pos <= idx {
                idx + 1
            } else {
                idx
            };
            if done {
                return ;
            }
        }
    }
}

impl SsTableBuilder {
    /// The estimated size of the table: the sizes of the blocks added up, or
    /// the greatest number that fits if the sum does not.
    pub fn estimated_size(&self) -> (n: usize)
        requires
            self.wf(),
        ensures
            n == if self@.total_size() <= usize::MAX {
                self@.total_size()
            } else {
                usize::MAX as nat
            },
    {
        let ghost blocks = self@.blocks;
        let mut size: usize = 0;
        let mut i: usize = 0;
        assert(blocks.take(0) =~= Seq::empty());
        while i < self.blocks.len()
            invariant
                i <= self.blocks@.len(),
                all_blocks_wf(self.blocks@),
                blocks == blocks_of(self.blocks@),
                size == if sizes_sum(blocks.take(i as int)) <= usize::MAX {
                    sizes_sum(blocks.take(i as int))
                } else {
                    usize::MAX as nat
                },
            decreases self.blocks@.len() - i,
        {
            proof {
                assert(blocks.take(i + 1).drop_last() =~= blocks.take(i as int));
                assert(blocks.take(i + 1).last() == self.blocks@[i as int]@);
            }
            size = size.saturating_add(self.blocks[i].size());
            i += 1;
        }
        assert(blocks.take(i as int) =~= blocks);
        size
    }

    /// Builds the table: the blocks in the order of their first keys, each
    /// sorted and encoded, then the meta records, then the position where
    /// the meta records start.
    pub fn build(self, id: usize, block_cache: Option<Arc<BlockCache>>) -> (t: SsTable)
        requires
            self.wf(),
        ensures
            t.wf(),
            t.id() == id,
            t.cached() == (block_cache is Some),
            t@ == self@.built_table(),
            forall|i: int|
                0 <= i < self@.len() ==> (#[trigger] t@.metas[i]).first_key
                    == self@.recorded_key(i),
            forall|i: int|
                0 <= i < self@.len() && crate::block::encodable(
                    (#[trigger] self@.blocks[i]).sorted(),
                ) ==> {
                    &&& t@.block_entries(i) == self@.blocks[i].sorted()
                    &&& t@.block_entries(i).len() > 0 ==> t@.metas[i].first_key
                        == t@.block_entries(i)[0].0
                },
            self@.ranged() && self@.strict() && self@.encodable() ==> {
                &&& t@.sorted()
                &&& t@.first_keys_true()
                &&& keys_increasing(t@.entries())
                &&& forall|x: (Seq<u8>, Seq<u8>)| #[trigger]
                    t@.entries().contains(x) <==> self@.holds(x)
            },
    {
        let ghost v = self@;
        proof {
            assert forall|i: int|
                0 <= i < v.len() && crate::block::encodable(
                    (#[trigger] v.blocks[i]).sorted(),
                ) implies {
                &&& v.built_table().block_entries(i) == v.blocks[i].sorted()
                &&& v.built_table().block_entries(i).len() > 0 ==> v.built_table().metas[i].first_key
                    == v.built_table().block_entries(i)[0].0
            } by {
                crate::table::built::lemma_built_block(v, i);
                crate::entry::lemma_sort_by_key(v.blocks[i].entries);
            }
            if v.ranged() && v.strict() && v.encodable() {
                crate::table::built::lemma_built_table_sorted(v);
                crate::table::built::lemma_built_table_entries(v);
            }
        }
        let ghost images = v.images();
        let mut builder = self;
        let n = builder.blocks.len();
        let mut block_metas: Vec<BlockMeta> = Vec::new();
        let mut data: Vec<u8> = Vec::new();
        let mut i: usize = 0;
        proof {
            assert(images.take(0) =~= Seq::empty());
            assert(metas_of(block_metas@) =~= v.built_metas().take(0));
        }
        while i < n
            invariant
                i <= n,
                v.wf(),
                n == v.len(),
                n == builder.blocks@.len(),
                n == builder.first_keys@.len(),
                images == v.images(),
                builder.order == v.order,
                keys_of(builder.first_keys@) == v.first_keys,
                all_blocks_wf(builder.blocks@),
                forall|j: int| i <= j < n ==> (#[trigger] builder.blocks@[j])@ == v.blocks[j],
                data@ == joined(images.take(i as int)),
                metas_of(block_metas@) == v.built_metas().take(i as int),
            decreases n - i,
        {
            let ghost before = builder.blocks@;
            let ghost metas_before = metas_of(block_metas@);
            let offset = data.len();
            let block = builder.blocks[i].build();
            let first_key = if builder.blocks[i].len() > 0 {
                slice_to_vec(builder.blocks[i].key_at(0))
            } else {
                slice_to_vec(builder.first_keys[i].as_slice())
            };
            proof {
                crate::entry::lemma_sort_by_key(v.blocks[i as int].entries);
                assert(before[i as int]@ == v.blocks[i as int]);
                assert(first_key@ == v.recorded_key(i as int));
            }
            block_metas.push(BlockMeta { offset, first_key });
            let bytes = block.encode_to_vec();
            append_bytes(&mut data, bytes.as_slice());
            proof {
                assert(before[i as int]@ == v.blocks[i as int]);
                assert(v.blocks[i as int].order == v.order);
                assert(bytes@ == images[i as int]);
                assert(images.take(i + 1).drop_last() =~= images.take(i as int));
                assert(images.take(i + 1).last() == images[i as int]);
                assert(metas_of(block_metas@) =~= metas_before.push(
                    MetaView {
                        offset: joined(images.take(i as int)).len(),
                        first_key: v.recorded_key(i as int),
                    },
                ));
                assert(metas_of(block_metas@) =~= v.built_metas().take(i + 1));
                assert forall|j: int| 0 <= j < builder.blocks@.len() implies (
                #[trigger] builder.blocks@[j]).wf() by {
                    if j != i {
                        assert(builder.blocks@[j] == before[j]);
                    }
                }
                assert forall|j: int| i + 1 <= j < n implies (#[trigger] builder.blocks@[j])@
                    == v.blocks[j] by {
                    assert(builder.blocks@[j] == before[j]);
                }
            }
            i += 1;
        }
        proof {
            assert(images.take(n as int) =~= images);
            assert(v.built_metas().take(n as int) =~= v.built_metas());
        }
        let block_meta_offset = data.len();
        BlockMeta::encode_block_meta_with(block_metas.as_slice(), &mut data, builder.order);
        put_u32(&mut data, low32_of(block_meta_offset), builder.order);
        let file = FileObject::new(data);
        SsTable::from_parts(id, block_cache, file, block_metas, block_meta_offset, builder.order)
    }
}

/// Every entry that `a` holds, `b` holds too.
pub open spec fn within(a: TableBuilderView, b: TableBuilderView) -> bool {
    forall|x: (Seq<u8>, Seq<u8>)| #[trigger] a.holds(x) ==> b.holds(x)
}

/// Every entry that `a` holds, `b` holds too, but for the entry `e`.
pub open spec fn within_but(a: TableBuilderView, b: TableBuilderView, e: (Seq<u8>, Seq<u8>)) -> bool {
    forall|x: (Seq<u8>, Seq<u8>)| #[trigger] a.holds(x) ==> b.holds(x) || x == e
}

} // verus!
