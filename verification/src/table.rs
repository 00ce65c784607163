//! A sorted-string table: an immutable file of blocks, followed by one meta
//! record for each block and the four-byte position where the meta records
//! start.

pub mod builder;
pub mod built;
pub mod division;
pub mod filled;
pub mod iterator;

use crate::block::{append_bytes, decoded, Block, BlockView};
use crate::buffer::{bytes_as_slice, bytes_from_vec, bytes_view};
use crate::cache::{cache_get, cache_insert, BlockCache};
use crate::codec::{
    get_u16, get_u32, host_byte_order, low16, low16_of, low32, low32_of, put_u16, put_u32, u16_at,
    u16_bytes, u32_at, u32_bytes, ByteOrder,
};
use crate::entry::{key_from, keys_below, keys_from};
use crate::error::Error;
use crate::key::{compare_keys, key_le, key_lt, KeyOrder};
use bytes::Bytes;
use std::sync::Arc;
use vstd::prelude::*;
use vstd::slice::{slice_subrange, slice_to_vec};

verus! {

/// Where a block starts in the file, and the first key of the block.
#[derive(Clone, Debug, PartialEq, Eq)]
pub struct BlockMeta {
    /// Offset of this data block.
    pub offset: usize,
    /// The first key of the data block.
    pub first_key: Vec<u8>,
}

/// What a meta record holds.
pub ghost struct MetaView {
    pub offset: nat,
    pub first_key: Seq<u8>,
}

impl View for BlockMeta {
    type V = MetaView;

    open spec fn view(&self) -> MetaView {
        MetaView { offset: self.offset as nat, first_key: self.first_key@ }
    }
}

/// What each of the meta records holds.
pub open spec fn metas_of(metas: Seq<BlockMeta>) -> Seq<MetaView> {
    Seq::new(metas.len(), |i: int| metas[i]@)
}

/// A meta record as bytes: the offset in four bytes, the length of the key in
/// two, the key. Each field keeps the low bits of what it stands for.
pub open spec fn meta_bytes(m: MetaView, order: ByteOrder) -> Seq<u8> {
    u32_bytes(low32(m.offset as int), order) + u16_bytes(low16(m.first_key.len() as int), order)
        + m.first_key
}

/// The meta records as bytes, one after the other.
pub open spec fn metas_bytes(ms: Seq<MetaView>, order: ByteOrder) -> Seq<u8>
    decreases ms.len(),
{
    if ms.len() == 0 {
        Seq::empty()
    } else {
        metas_bytes(ms.drop_last(), order) + meta_bytes(ms.last(), order)
    }
}

/// The meta records that `buf` encodes, if it holds whole records only.
pub open spec fn metas_decoded(buf: Seq<u8>, order: ByteOrder) -> Option<Seq<MetaView>>
    decreases buf.len(),
{
    if buf.len() == 0 {
        Some(Seq::empty())
    } else if buf.len() < 6 || buf.len() < 6 + u16_at(buf, 4, order) {
        None
    } else {
        let key_len = u16_at(buf, 4, order) as int;
        let first = MetaView {
            offset: u32_at(buf, 0, order) as nat,
            first_key: buf.subrange(6, 6 + key_len),
        };
        match metas_decoded(buf.skip(6 + key_len), order) {
            Some(rest) => Some(seq![first] + rest),
            None => None,
        }
    }
}

/// The fields of a meta record can hold it: the offset fits four bytes and
/// the length of the key fits two.
pub open spec fn meta_encodable(m: MetaView) -> bool {
    m.offset <= u32::MAX && m.first_key.len() <= u16::MAX
}

/// The bytes of a meta record followed by more records.
pub proof fn lemma_metas_bytes_cons(m: MetaView, ms: Seq<MetaView>, order: ByteOrder)
    ensures
        metas_bytes(seq![m] + ms, order) == meta_bytes(m, order) + metas_bytes(ms, order),
    decreases ms.len(),
{
    let all = seq![m] + ms;
    if ms.len() == 0 {
        let none = Seq::<MetaView>::empty();
        assert(all.drop_last() =~= none);
        assert(all.last() == m);
        assert(metas_bytes(none, order) =~= Seq::<u8>::empty());
        assert(metas_bytes(ms, order) =~= Seq::<u8>::empty());
        assert(metas_bytes(all, order) =~= meta_bytes(m, order) + metas_bytes(ms, order));
    } else {
        assert(all.last() == ms.last());
        assert(all.drop_last() =~= seq![m] + ms.drop_last());
        lemma_metas_bytes_cons(m, ms.drop_last(), order);
        assert(metas_bytes(all, order) =~= meta_bytes(m, order) + metas_bytes(ms, order));
    }
}

/// Decoding encoded meta records gives the records back, if the fields can
/// hold them.
pub proof fn lemma_metas_roundtrip(ms: Seq<MetaView>, order: ByteOrder)
    requires
        forall|i: int| 0 <= i < ms.len() ==> meta_encodable(#[trigger] ms[i]),
    ensures
        metas_decoded(metas_bytes(ms, order), order) == Some(ms),
    decreases ms.len(),
{
    if ms.len() == 0 {
    } else {
        let m = ms[0];
        let rest = ms.skip(1);
        assert(ms =~= seq![m] + rest);
        lemma_metas_bytes_cons(m, rest, order);
        lemma_metas_roundtrip(rest, order);
        let head = meta_bytes(m, order);
        let buf = metas_bytes(ms, order);
        let klen = m.first_key.len() as int;
        assert(meta_encodable(m));
        assert(buf.subrange(0, head.len() as int) =~= head);
        lemma_meta_read(buf, head, m, order);
        assert(buf.skip(6 + klen) =~= metas_bytes(rest, order));
    }
}

/// The meta record that is read at the start of a buffer encodes to the
/// bytes that it was read from.
proof fn lemma_meta_head(buf: Seq<u8>, order: ByteOrder)
    requires
        buf.len() >= 6,
        buf.len() >= 6 + u16_at(buf, 4, order),
    ensures
        meta_bytes(
            MetaView {
                offset: u32_at(buf, 0, order) as nat,
                first_key: buf.subrange(6, 6 + u16_at(buf, 4, order) as int),
            },
            order,
        ) == buf.subrange(0, 6 + u16_at(buf, 4, order) as int),
{
    let key_len = u16_at(buf, 4, order) as int;
    let offset = u32_at(buf, 0, order);
    let key = buf.subrange(6, 6 + key_len);
    let ob = u32_bytes(low32(offset as int), order);
    let kb = u16_bytes(low16(key_len), order);
    assert(low32(offset as int) == offset);
    assert(low16(key_len) == u16_at(buf, 4, order));
    assert(ob == seq![buf[0], buf[1], buf[2], buf[3]]) by {
        crate::codec::lemma_u32_bytes_of_value(buf[0], buf[1], buf[2], buf[3], order);
    }
    assert(kb == seq![buf[4], buf[5]]) by {
        crate::codec::lemma_u16_bytes_of_value(buf[4], buf[5], order);
    }
    assert(ob + kb + key =~= buf.subrange(0, 6 + key_len));
}

/// Encoding decoded meta records gives the bytes back.
pub proof fn lemma_metas_encode_decode(buf: Seq<u8>, order: ByteOrder)
    requires
        metas_decoded(buf, order) is Some,
    ensures
        metas_bytes(metas_decoded(buf, order).unwrap(), order) == buf,
    decreases buf.len(),
{
    if buf.len() > 0 {
        let key_len = u16_at(buf, 4, order) as int;
        let first = MetaView {
            offset: u32_at(buf, 0, order) as nat,
            first_key: buf.subrange(6, 6 + key_len),
        };
        let tail = buf.skip(6 + key_len);
        let rest = metas_decoded(tail, order).unwrap();
        lemma_metas_encode_decode(tail, order);
        lemma_metas_bytes_cons(first, rest, order);
        lemma_meta_head(buf, order);
        assert(buf.subrange(0, 6 + key_len) + tail =~= buf);
    } else {
        assert(metas_bytes(Seq::<MetaView>::empty(), order) =~= buf);
    }
}

/// What is read at the start of a buffer that begins with a meta record.
proof fn lemma_meta_read(buf: Seq<u8>, head: Seq<u8>, m: MetaView, order: ByteOrder)
    requires
        meta_encodable(m),
        head == meta_bytes(m, order),
        head.len() <= buf.len(),
        buf.subrange(0, head.len() as int) == head,
    ensures
        head.len() == 6 + m.first_key.len(),
        u32_at(buf, 0, order) == m.offset,
        u16_at(buf, 4, order) == m.first_key.len(),
        buf.subrange(6, 6 + m.first_key.len() as int) == m.first_key,
{
    let ob = u32_bytes(low32(m.offset as int), order);
    let kb = u16_bytes(low16(m.first_key.len() as int), order);
    let sub = buf.subrange(0, head.len() as int);
    assert(ob.len() == 4 && kb.len() == 2);
    assert(forall|j: int| 0 <= j < head.len() ==> buf[j] == #[trigger] sub[j]);
    assert(head[0] == ob[0] && head[1] == ob[1] && head[2] == ob[2] && head[3] == ob[3]);
    assert(buf[0] == sub[0] && buf[1] == sub[1] && buf[2] == sub[2] && buf[3] == sub[3]);
    crate::codec::lemma_u32_roundtrip(low32(m.offset as int), order);
    assert(u32_at(buf, 0, order) == m.offset);
    assert(head[4] == kb[0] && head[5] == kb[1]);
    assert(buf[4] == sub[4] && buf[5] == sub[5]);
    crate::codec::lemma_u16_roundtrip(low16(m.first_key.len() as int), order);
    let key = buf.subrange(6, 6 + m.first_key.len() as int);
    assert forall|j: int| 0 <= j < m.first_key.len() implies key[j] == m.first_key[j] by {
        assert(key[j] == sub[6 + j]);
        assert(head[6 + j] == m.first_key[j]);
    }
    assert(key =~= m.first_key);
}

impl BlockMeta {
    /// Appends the encoded meta records to `buf`, in the given byte order.
    pub fn encode_block_meta_with(block_meta: &[BlockMeta], buf: &mut Vec<u8>, order: ByteOrder)
        ensures
            final(buf)@ == old(buf)@ + metas_bytes(metas_of(block_meta@), order),
    {
        let ghost ms = metas_of(block_meta@);
        let mut i: usize = 0;
        assert(ms.take(0) =~= Seq::empty());
        assert(buf@ =~= old(buf)@ + metas_bytes(ms.take(0), order));
        while i < block_meta.len()
            invariant
                i <= block_meta@.len(),
                ms == metas_of(block_meta@),
                buf@ == old(buf)@ + metas_bytes(ms.take(i as int), order),
            decreases block_meta@.len() - i,
        {
            let meta = &block_meta[i];
            let ghost before = buf@;
            put_u32(buf, low32_of(meta.offset), order);
            put_u16(buf, low16_of(meta.first_key.len()), order);
            append_bytes(buf, meta.first_key.as_slice());
            proof {
                assert(ms.take(i + 1).drop_last() =~= ms.take(i as int));
                assert(ms.take(i + 1).last() == meta@);
                assert(buf@ =~= before + meta_bytes(meta@, order));
                assert(buf@ =~= old(buf)@ + metas_bytes(ms.take(i + 1), order));
            }
            i += 1;
        }
        assert(ms.take(i as int) =~= ms);
    }

    /// Appends the encoded meta records to `buf`, in the byte order of the
    /// host.
    pub fn encode_block_meta(block_meta: &[BlockMeta], buf: &mut Vec<u8>)
        ensures
            exists|order: ByteOrder|
                final(buf)@ == old(buf)@ + metas_bytes(metas_of(block_meta@), order),
    {
        BlockMeta::encode_block_meta_with(block_meta, buf, host_byte_order());
    }

    /// Decodes the meta records that `buf` holds, in the given byte order.
    /// Fails where a record runs past the end of `buf`.
    pub fn decode_block_meta_with(buf: &[u8], order: ByteOrder) -> (r: Result<
        Vec<BlockMeta>,
        Error,
    >)
        ensures
            match r {
                Ok(metas) => metas_decoded(buf@, order) == Some(metas_of(metas@)),
                Err(e) => e == Error::Corrupt && metas_decoded(buf@, order) is None,
            },
    {
        let len = buf.len();
        let mut metas: Vec<BlockMeta> = Vec::new();
        let mut pos: usize = 0;
        assert(buf@.skip(0) =~= buf@);
        assert(metas_of(metas@) =~= Seq::empty());
        while pos < len
            invariant
                pos <= len,
                len == buf@.len(),
                metas_decoded(buf@, order) == (match metas_decoded(buf@.skip(pos as int), order) {
                    Some(rest) => Some(metas_of(metas@) + rest),
                    None => None,
                }),
            decreases len - pos,
        {
            let ghost tail = buf@.skip(pos as int);
            if len - pos < 6 {
                return Err(Error::Corrupt);
            }
            let offset = get_u32(buf, pos, order) as usize;
            let key_len = get_u16(buf, pos + 4, order) as usize;
            assert(u16_at(tail, 4, order) == key_len);
            assert(u32_at(tail, 0, order) == offset);
            if len - pos - 6 < key_len {
                return Err(Error::Corrupt);
            }
            let first_key = slice_to_vec(slice_subrange(buf, pos + 6, pos + 6 + key_len));
            proof {
                assert(first_key@ =~= tail.subrange(6, 6 + key_len));
                assert(tail.skip(6 + key_len) =~= buf@.skip(pos + 6 + key_len));
                let first = MetaView { offset: offset as nat, first_key: first_key@ };
                let longer = metas_of(metas@).push(first);
                match metas_decoded(buf@.skip(pos + 6 + key_len), order) {
                    Some(rest) => {
                        assert(metas_of(metas@) + (seq![first] + rest) =~= longer + rest);
                    },
                    None => {},
                }
            }
            let ghost before = metas_of(metas@);
            metas.push(BlockMeta { offset, first_key });
            assert(metas_of(metas@) =~= before.push(
                MetaView { offset: offset as nat, first_key: first_key@ },
            ));
            pos = pos + 6 + key_len;
        }
        assert(buf@.skip(pos as int) =~= Seq::empty());
        assert(metas_of(metas@) + Seq::empty() =~= metas_of(metas@));
        Ok(metas)
    }

    /// Decodes the meta records that `buf` holds, in the byte order of the
    /// host.
    pub fn decode_block_meta(buf: &[u8]) -> (r: Result<Vec<BlockMeta>, Error>)
        ensures
            match r {
                Ok(metas) => exists|order: ByteOrder|
                    metas_decoded(buf@, order) == Some(metas_of(metas@)),
                Err(e) => e == Error::Corrupt && exists|order: ByteOrder|
                    metas_decoded(buf@, order) is None,
            },
    {
        BlockMeta::decode_block_meta_with(buf, host_byte_order())
    }
}

/// A file object: the bytes of a file, held in memory.
pub struct FileObject(Bytes);

impl View for FileObject {
    type V = Seq<u8>;

    closed spec fn view(&self) -> Seq<u8> {
        bytes_view(self.0)
    }
}

impl FileObject {
    /// A file object that holds the given bytes.
    pub fn new(data: Vec<u8>) -> (f: FileObject)
        ensures
            f@ == data@,
    {
        FileObject(bytes_from_vec(data))
    }

    /// The bytes of the file.
    pub fn as_slice(&self) -> (s: &[u8])
        ensures
            s@ == self@,
    {
        bytes_as_slice(&self.0)
    }

    /// The `len` bytes that start at `offset`. Fails where the file ends
    /// before them.
    pub fn read(&self, offset: u64, len: u64) -> (r: Result<Vec<u8>, Error>)
        ensures
            match r {
                Ok(data) => offset + len <= self@.len() && data@ == self@.subrange(
                    offset as int,
                    offset + len,
                ),
                Err(e) => e == Error::Io && offset + len > self@.len(),
            },
    {
        let bytes = bytes_as_slice(&self.0);
        let size = bytes.len() as u64;
        if offset > size || len > size - offset {
            return Err(Error::Io);
        }
        Ok(slice_to_vec(slice_subrange(bytes, offset as usize, (offset + len) as usize)))
    }

    /// The size of the file in bytes.
    pub fn size(&self) -> (n: u64)
        ensures
            n == self@.len(),
    {
        bytes_as_slice(&self.0).len() as u64
    }
}

/// What a table holds: the bytes of its file, the meta records, the position
/// where the meta records start, and the byte order of its fields.
pub ghost struct TableView {
    pub file: Seq<u8>,
    pub metas: Seq<MetaView>,
    pub meta_offset: nat,
    pub order: ByteOrder,
}

impl TableView {
    /// The number of blocks.
    pub open spec fn len(self) -> nat {
        self.metas.len()
    }

    /// Where block `i` starts in the file.
    pub open spec fn block_start(self, i: int) -> int {
        self.metas[i].offset as int
    }

    /// Where block `i` ends: where the next block starts, or the meta
    /// records behind the last block.
    pub open spec fn block_end(self, i: int) -> int {
        if i + 1 < self.metas.len() {
            self.metas[i + 1].offset as int
        } else {
            self.meta_offset as int
        }
    }

    /// Block `i` lies in front of the meta records.
    pub open spec fn block_in_bounds(self, i: int) -> bool {
        self.block_start(i) <= self.block_end(i) <= self.meta_offset
    }

    /// The bytes of block `i`.
    pub open spec fn block_bytes(self, i: int) -> Seq<u8> {
        self.file.subrange(self.block_start(i), self.block_end(i))
    }

    /// Block `i`, if its bytes lie in front of the meta records and decode to
    /// a block whose entries can be read.
    pub open spec fn block_at(self, i: int) -> Option<BlockView> {
        if !self.block_in_bounds(i) {
            None
        } else {
            match decoded(self.block_bytes(i), self.order) {
                Some(b) => if b.wf() {
                    Some(b)
                } else {
                    None
                },
                None => None,
            }
        }
    }

    /// The entries of block `i`; none where the block cannot be read.
    pub open spec fn block_entries(self, i: int) -> Seq<(Seq<u8>, Seq<u8>)> {
        match self.block_at(i) {
            Some(b) => b.entries(),
            None => Seq::empty(),
        }
    }

    /// The entries of the blocks from block `i` on.
    pub open spec fn entries_from(self, i: int) -> Seq<(Seq<u8>, Seq<u8>)>
        decreases self.metas.len() - i,
    {
        if 0 <= i < self.metas.len() {
            self.block_entries(i) + self.entries_from(i + 1)
        } else {
            Seq::empty()
        }
    }

    /// The entries of the table.
    pub open spec fn entries(self) -> Seq<(Seq<u8>, Seq<u8>)> {
        self.entries_from(0)
    }

    /// A walk over the blocks from block `i` on comes to an entry, or to the
    /// end of the table, before it meets a block that cannot be read.
    pub open spec fn settles(self, i: int) -> bool
        decreases self.metas.len() - i,
    {
        if 0 <= i < self.metas.len() {
            match self.block_at(i) {
                Some(b) => b.len() > 0 || self.settles(i + 1),
                None => false,
            }
        } else {
            true
        }
    }

    /// The first keys of the meta records are strictly increasing.
    pub open spec fn ascending(self) -> bool {
        forall|i: int, j: int|
            0 <= i < j < self.metas.len() ==> key_lt(
                (#[trigger] self.metas[i]).first_key,
                (#[trigger] self.metas[j]).first_key,
            )
    }

    /// Every block can be read.
    pub open spec fn readable(self) -> bool {
        forall|i: int| 0 <= i < self.len() ==> (#[trigger] self.block_at(i)) is Some
    }

    /// Block `i` can be read and is sorted, and its keys lie between its
    /// first key and that of the next block.
    pub open spec fn block_sorted(self, i: int) -> bool {
        &&& self.block_at(i) is Some
        &&& self.block_at(i).unwrap().sorted()
        &&& keys_from(self.block_entries(i), self.metas[i].first_key)
        &&& i + 1 < self.len() ==> keys_below(self.block_entries(i), self.metas[i + 1].first_key)
    }

    /// The first key of every block that holds an entry is the key of its
    /// first entry.
    pub open spec fn first_keys_true(self) -> bool {
        forall|i: int|
            0 <= i < self.len() && (#[trigger] self.block_entries(i)).len() > 0
                ==> self.metas[i].first_key == self.block_entries(i)[0].0
    }

    /// The table is sorted: the first keys increase, and every block is
    /// sorted and holds keys of its range.
    pub open spec fn sorted(self) -> bool {
        &&& self.ascending()
        &&& forall|i: int| 0 <= i < self.len() ==> #[trigger] self.block_sorted(i)
    }

    /// Where a binary search between `l` and `r` for the first block whose
    /// first key is above `key` ends.
    pub open spec fn upper_bound(self, key: Seq<u8>, l: int, r: int) -> int
        decreases r - l,
    {
        if l >= r {
            l
        } else {
            let mid = l + (r - l) / 2;
            if key_lt(key, self.metas[mid].first_key) {
                self.upper_bound(key, l, mid)
            } else {
                self.upper_bound(key, mid + 1, r)
            }
        }
    }

    /// The block in which a search for `key` looks: the one in front of the
    /// first block whose first key is above `key`, as a binary search finds
    /// it, or the first block.
    pub open spec fn block_index(self, key: Seq<u8>) -> int {
        let bound = self.upper_bound(key, 0, self.metas.len() as int);
        if bound == 0 {
            0
        } else {
            bound - 1
        }
    }

    /// What is left to give behind a seek to `key`: of the block in which
    /// the search looks, the entries from the place where the search in the
    /// block ends, then the entries of the blocks behind it. `None` where
    /// the seek fails: where that block cannot be read, or where the search
    /// ends behind its last entry and the walk over the blocks behind it
    /// meets a block that cannot be read before it comes to an entry.
    pub open spec fn sought(self, key: Seq<u8>) -> Option<Seq<(Seq<u8>, Seq<u8>)>> {
        if self.len() == 0 {
            Some(Seq::empty())
        } else {
            let i = self.block_index(key);
            match self.block_at(i) {
                None => None,
                Some(b) => {
                    let p = b.lower_bound(key, 0, b.len() as int);
                    if p < b.len() {
                        Some(b.entries().skip(p) + self.entries_from(i + 1))
                    } else if self.settles(i + 1) {
                        Some(self.entries_from(i + 1))
                    } else {
                        None
                    }
                },
            }
        }
    }

    /// What a probe for `key` finds: the value of the entry at which a seek
    /// to `key` ends, if that entry has the key. `None` where the seek
    /// fails.
    pub open spec fn probed(self, key: Seq<u8>) -> Option<Option<Seq<u8>>> {
        match self.sought(key) {
            None => None,
            Some(rest) => Some(
                if rest.len() > 0 && rest[0].0 == key {
                    Some(rest[0].1)
                } else {
                    None
                },
            ),
        }
    }

    /// The table has an entry, and the key of its first entry is the first
    /// key of its first block.
    pub open spec fn starts_true(self) -> bool {
        &&& self.len() > 0
        &&& self.entries().len() > 0
        &&& self.metas[0].first_key == self.entries()[0].0
    }

    /// Block `i` is the block that may hold `key`: the first key of every
    /// later block is above `key`, and unless `i` is the first block its own
    /// first key is not.
    pub open spec fn may_hold(self, i: int, key: Seq<u8>) -> bool {
        &&& forall|j: int| i < j < self.metas.len() ==> key_lt(key, (#[trigger] self.metas[j]).first_key)
        &&& i > 0 ==> key_le(self.metas[i].first_key, key)
    }
}

/// In a table whose blocks can all be read every walk over the blocks
/// settles.
pub proof fn lemma_readable_settles(t: TableView, i: int)
    requires
        t.readable(),
    ensures
        t.settles(i),
    decreases t.metas.len() - i,
{
    if 0 <= i < t.metas.len() {
        assert(t.block_at(i) is Some);
        lemma_readable_settles(t, i + 1);
    }
}

/// Every block of a sorted table can be read.
pub proof fn lemma_sorted_readable(t: TableView)
    requires
        t.sorted(),
    ensures
        t.readable(),
{
    assert forall|i: int| 0 <= i < t.len() implies (#[trigger] t.block_at(i)) is Some by {
        assert(t.block_sorted(i));
    }
}

/// In a sorted table every walk over the blocks settles.
pub proof fn lemma_sorted_settles(t: TableView, i: int)
    requires
        t.sorted(),
    ensures
        t.settles(i),
{
    lemma_sorted_readable(t);
    lemma_readable_settles(t, i);
}

/// Two sequences of increasing keys, the first with keys below a bound and
/// the second with keys from the bound on, have increasing keys when the
/// second follows the first.
pub proof fn lemma_increasing_concat(
    a: Seq<(Seq<u8>, Seq<u8>)>,
    b: Seq<(Seq<u8>, Seq<u8>)>,
    bound: Seq<u8>,
)
    requires
        crate::entry::keys_increasing(a),
        crate::entry::keys_increasing(b),
        keys_below(a, bound),
        keys_from(b, bound),
    ensures
        crate::entry::keys_increasing(a + b),
{
    let s = a + b;
    assert forall|i: int, j: int| 0 <= i < j < s.len() implies key_lt(
        #[trigger] s[i].0,
        #[trigger] s[j].0,
    ) by {
        if j < a.len() {
            assert(s[i] == a[i] && s[j] == a[j]);
        } else if i < a.len() {
            assert(s[i] == a[i] && s[j] == b[j - a.len()]);
            crate::key::lemma_key_lt_le(a[i].0, bound, b[j - a.len()].0);
        } else {
            assert(s[i] == b[i - a.len()] && s[j] == b[j - a.len()]);
        }
    }
}

/// In a sorted table the entries from a block on have increasing keys, none
/// of them below the first key of that block unless it is the first block.
pub proof fn lemma_entries_from_increasing(t: TableView, i: int)
    requires
        t.sorted(),
        0 <= i <= t.len(),
    ensures
        crate::entry::keys_increasing(t.entries_from(i)),
        0 < i < t.len() ==> keys_from(t.entries_from(i), t.metas[i].first_key),
    decreases t.metas.len() - i,
{
    if i < t.len() {
        let block = t.block_entries(i);
        let rest = t.entries_from(i + 1);
        assert(t.block_sorted(i));
        lemma_entries_from_increasing(t, i + 1);
        let b = t.block_at(i).unwrap();
        assert(crate::entry::keys_increasing(block)) by {
            assert forall|x: int, y: int| 0 <= x < y < block.len() implies key_lt(
                #[trigger] block[x].0,
                #[trigger] block[y].0,
            ) by {
                assert(key_lt(b.key_at(x), b.key_at(y)));
            }
        }
        if i + 1 < t.len() {
            lemma_increasing_concat(block, rest, t.metas[i + 1].first_key);
            if i > 0 {
                let s = block + rest;
                assert forall|j: int| 0 <= j < s.len() implies key_le(
                    t.metas[i].first_key,
                    #[trigger] s[j].0,
                ) by {
                    if j < block.len() {
                        assert(s[j] == block[j]);
                    } else {
                        assert(s[j] == rest[j - block.len()]);
                        assert(key_lt(t.metas[i].first_key, t.metas[i + 1].first_key));
                        crate::key::lemma_key_lt_le(
                            t.metas[i].first_key,
                            t.metas[i + 1].first_key,
                            s[j].0,
                        );
                    }
                }
            }
        } else {
            assert(rest =~= Seq::empty());
            assert(block + rest =~= block);
        }
    }
}

/// The entries of a sorted table have increasing keys.
pub proof fn lemma_sorted_entries_increasing(t: TableView)
    requires
        t.sorted(),
    ensures
        crate::entry::keys_increasing(t.entries()),
{
    lemma_entries_from_increasing(t, 0);
}

/// In a sorted table, the blocks in front of the block that may hold `key`
/// hold keys below `key` only.
pub proof fn lemma_entries_before(t: TableView, from: int, idx: int, key: Seq<u8>)
    requires
        t.sorted(),
        0 <= from <= idx < t.len(),
        t.may_hold(idx, key),
    ensures
        t.entries_from(from).filter(key_from(key)) == t.entries_from(idx).filter(key_from(key)),
    decreases idx - from,
{
    if from < idx {
        let block = t.block_entries(from);
        assert(t.block_sorted(from));
        assert(keys_below(block, key)) by {
            assert forall|j: int| 0 <= j < block.len() implies key_lt(#[trigger] block[j].0, key) by {
                assert(key_lt(block[j].0, t.metas[from + 1].first_key));
                if from + 1 < idx {
                    assert(key_lt(t.metas[from + 1].first_key, t.metas[idx].first_key));
                    crate::key::lemma_key_lt_transitive(
                        block[j].0,
                        t.metas[from + 1].first_key,
                        t.metas[idx].first_key,
                    );
                }
                crate::key::lemma_key_lt_le(block[j].0, t.metas[idx].first_key, key);
            }
        }
        crate::entry::lemma_filter_none_from(block, key);
        Seq::filter_distributes_over_add(block, t.entries_from(from + 1), key_from(key));
        lemma_entries_before(t, from + 1, idx, key);
        assert(Seq::<(Seq<u8>, Seq<u8>)>::empty() + t.entries_from(from + 1).filter(key_from(key))
            =~= t.entries_from(from + 1).filter(key_from(key)));
    }
}

/// In a sorted table, the blocks behind the block that may hold `key` hold
/// keys above `key` only.
pub proof fn lemma_entries_behind(t: TableView, from: int, idx: int, key: Seq<u8>)
    requires
        t.sorted(),
        0 <= idx < from,
        t.may_hold(idx, key),
    ensures
        t.entries_from(from).filter(key_from(key)) == t.entries_from(from),
    decreases t.metas.len() - from,
{
    reveal(Seq::filter);
    if from < t.metas.len() {
        let block = t.block_entries(from);
        assert(t.block_sorted(from));
        assert(keys_from(block, key)) by {
            assert forall|j: int| 0 <= j < block.len() implies key_le(key, #[trigger] block[j].0) by {
                assert(key_le(t.metas[from].first_key, block[j].0));
                assert(key_lt(key, t.metas[from].first_key));
                crate::key::lemma_key_lt_le(key, t.metas[from].first_key, block[j].0);
            }
        }
        crate::entry::lemma_filter_all_from(block, key);
        Seq::filter_distributes_over_add(block, t.entries_from(from + 1), key_from(key));
        lemma_entries_behind(t, from + 1, idx, key);
    }
}

/// In a sorted block the binary search for a key ends at the first entry
/// whose key is not below the key.
pub proof fn lemma_lower_bound_sorted(b: BlockView, key: Seq<u8>, l: int, r: int)
    requires
        b.sorted(),
        0 <= l <= r <= b.len(),
        forall|j: int| 0 <= j < l ==> key_lt(#[trigger] b.key_at(j), key),
        forall|j: int| r <= j < b.len() ==> key_le(key, #[trigger] b.key_at(j)),
    ensures
        l <= b.lower_bound(key, l, r) <= r,
        forall|j: int| 0 <= j < b.lower_bound(key, l, r) ==> key_lt(#[trigger] b.key_at(j), key),
        forall|j: int|
            b.lower_bound(key, l, r) <= j < b.len() ==> key_le(key, #[trigger] b.key_at(j)),
    decreases r - l,
{
    if l < r {
        let mid = l + (r - l) / 2;
        crate::key::lemma_key_trichotomy(b.key_at(mid), key);
        if key_lt(b.key_at(mid), key) {
            assert forall|j: int| 0 <= j < mid + 1 implies key_lt(#[trigger] b.key_at(j), key) by {
                if j < mid {
                    assert(key_lt(b.key_at(j), b.key_at(mid)));
                    crate::key::lemma_key_lt_transitive(b.key_at(j), b.key_at(mid), key);
                }
            }
            lemma_lower_bound_sorted(b, key, mid + 1, r);
        } else {
            assert forall|j: int| mid <= j < b.len() implies key_le(key, #[trigger] b.key_at(j)) by {
                if mid < j {
                    assert(key_lt(b.key_at(mid), b.key_at(j)));
                    crate::key::lemma_key_le_lt(key, b.key_at(mid), b.key_at(j));
                }
            }
            lemma_lower_bound_sorted(b, key, l, mid);
        }
    }
}

/// Where the first keys of the blocks increase, the search for the block of
/// a key ends at the block that may hold the key.
pub proof fn lemma_upper_bound_ascending(t: TableView, key: Seq<u8>, l: int, r: int)
    requires
        t.ascending(),
        0 <= l <= r <= t.len(),
        forall|j: int| 0 <= j < l ==> key_le((#[trigger] t.metas[j]).first_key, key),
        forall|j: int| r <= j < t.len() ==> key_lt(key, (#[trigger] t.metas[j]).first_key),
    ensures
        l <= t.upper_bound(key, l, r) <= r,
        forall|j: int|
            0 <= j < t.upper_bound(key, l, r) ==> key_le((#[trigger] t.metas[j]).first_key, key),
        forall|j: int|
            t.upper_bound(key, l, r) <= j < t.len() ==> key_lt(
                key,
                (#[trigger] t.metas[j]).first_key,
            ),
    decreases r - l,
{
    if l < r {
        let mid = l + (r - l) / 2;
        let mk = t.metas[mid].first_key;
        crate::key::lemma_key_trichotomy(key, mk);
        if key_lt(key, mk) {
            assert forall|j: int| mid <= j < t.len() implies key_lt(
                key,
                (#[trigger] t.metas[j]).first_key,
            ) by {
                if mid < j {
                    crate::key::lemma_key_lt_transitive(key, mk, t.metas[j].first_key);
                }
            }
            lemma_upper_bound_ascending(t, key, l, mid);
        } else {
            assert forall|j: int| 0 <= j < mid + 1 implies key_le(
                (#[trigger] t.metas[j]).first_key,
                key,
            ) by {
                if j < mid {
                    crate::key::lemma_key_lt_le(t.metas[j].first_key, mk, key);
                }
            }
            lemma_upper_bound_ascending(t, key, mid + 1, r);
        }
    }
}

/// A seek in a sorted table does not fail, and leaves to give the entries
/// whose keys are not below the key.
pub proof fn lemma_sought_sorted(t: TableView, key: Seq<u8>)
    requires
        t.sorted(),
    ensures
        t.sought(key) == Some(t.entries().filter(key_from(key))),
{
    if t.len() == 0 {
        reveal(Seq::filter);
        assert(t.entries() =~= Seq::empty());
    } else {
        lemma_upper_bound_ascending(t, key, 0, t.len() as int);
        let i = t.block_index(key);
        assert(t.may_hold(i, key));
        assert(t.block_sorted(i));
        let b = t.block_at(i).unwrap();
        lemma_lower_bound_sorted(b, key, 0, b.len() as int);
        let p = b.lower_bound(key, 0, b.len() as int);
        assert forall|j: int| 0 <= j < p implies key_lt(
            (#[trigger] t.block_entries(i)[j]).0,
            key,
        ) by {
            assert(key_lt(b.key_at(j), key));
        }
        assert forall|j: int| p <= j < t.block_entries(i).len() implies key_le(
            key,
            (#[trigger] t.block_entries(i)[j]).0,
        ) by {
            assert(key_le(key, b.key_at(j)));
        }
        lemma_entries_from_key(t, i, key, p);
        lemma_sorted_settles(t, i + 1);
        if p >= b.len() {
            assert(b.entries().skip(p) =~= Seq::empty());
            assert(Seq::<(Seq<u8>, Seq<u8>)>::empty() + t.entries_from(i + 1) =~= t.entries_from(
                i + 1,
            ));
        }
    }
}

/// In a sorted table, the entries with keys from `key` on are those of the
/// block that may hold `key`, from the first such entry on, and all entries
/// of the blocks behind it.
pub proof fn lemma_entries_from_key(t: TableView, idx: int, key: Seq<u8>, p: int)
    requires
        t.sorted(),
        0 <= idx < t.len(),
        t.may_hold(idx, key),
        0 <= p <= t.block_entries(idx).len(),
        forall|j: int| 0 <= j < p ==> key_lt((#[trigger] t.block_entries(idx)[j]).0, key),
        forall|j: int|
            p <= j < t.block_entries(idx).len() ==> key_le(
                key,
                (#[trigger] t.block_entries(idx)[j]).0,
            ),
    ensures
        t.entries().filter(key_from(key)) == t.block_entries(idx).skip(p) + t.entries_from(idx + 1),
{
    let block = t.block_entries(idx);
    lemma_entries_before(t, 0, idx, key);
    lemma_entries_behind(t, idx + 1, idx, key);
    crate::entry::lemma_filter_from_is_skip(block, key, p);
    Seq::filter_distributes_over_add(block, t.entries_from(idx + 1), key_from(key));
}

/// The table that the bytes of a file describe: the last four bytes give the
/// position of the meta records, which fill the room up to those four bytes.
pub open spec fn opened(file: Seq<u8>, order: ByteOrder) -> Option<TableView> {
    if file.len() < 4 {
        None
    } else {
        let meta_offset = u32_at(file, file.len() - 4, order) as int;
        if meta_offset > file.len() - 4 {
            None
        } else {
            match metas_decoded(file.subrange(meta_offset, file.len() - 4), order) {
                Some(metas) => Some(
                    TableView { file, metas, meta_offset: meta_offset as nat, order },
                ),
                None => None,
            }
        }
    }
}

/// A sorted-string table.
pub struct SsTable {
    file: FileObject,
    block_metas: Vec<BlockMeta>,
    block_meta_offset: usize,
    id: usize,
    block_cache: Option<Arc<BlockCache>>,
    order: ByteOrder,
}

impl View for SsTable {
    type V = TableView;

    closed spec fn view(&self) -> TableView {
        TableView {
            file: self.file@,
            metas: metas_of(self.block_metas@),
            meta_offset: self.block_meta_offset as nat,
            order: self.order,
        }
    }
}

/// A block taken from the cache is used only if its entries can be read.
pub fn usable_hit(hit: Option<Arc<Block>>) -> (r: Option<Arc<Block>>)
    ensures
        r == (match hit {
            Some(b) => if (*b)@.wf() {
                Some(b)
            } else {
                None
            },
            None => None,
        }),
{
    match hit {
        Some(b) => {
            if b.is_well_formed() {
                Some(b)
            } else {
                None
            }
        },
        None => None,
    }
}

impl SsTable {
    /// The meta records start inside the file.
    pub closed spec fn wf(&self) -> bool {
        self.block_meta_offset <= self.file@.len()
    }

    /// The id of the table.
    pub closed spec fn id(&self) -> usize {
        self.id
    }

    /// Whether the table reads through a block cache.
    pub closed spec fn cached(&self) -> bool {
        self.block_cache is Some
    }

    /// A table of the given parts.
    pub(crate) fn from_parts(
        id: usize,
        block_cache: Option<Arc<BlockCache>>,
        file: FileObject,
        block_metas: Vec<BlockMeta>,
        block_meta_offset: usize,
        order: ByteOrder,
    ) -> (t: SsTable)
        requires
            block_meta_offset <= file@.len(),
        ensures
            t.wf(),
            t.id() == id,
            t.cached() == (block_cache is Some),
            t@ == (TableView {
                file: file@,
                metas: metas_of(block_metas@),
                meta_offset: block_meta_offset as nat,
                order,
            }),
    {
        SsTable { file, block_metas, block_meta_offset, id, block_cache, order }
    }

    /// Opens a table from a file whose fields are in the given byte order.
    /// Fails where the file is shorter than four bytes, where its last four
    /// bytes point behind the room in front of them, or where a meta record
    /// runs past that room.
    pub fn open_with(
        id: usize,
        block_cache: Option<Arc<BlockCache>>,
        file: FileObject,
        order: ByteOrder,
    ) -> (r: Result<SsTable, Error>)
        ensures
            match r {
                Ok(t) => {
                    &&& t.wf()
                    &&& t.id() == id
                    &&& t.cached() == (block_cache is Some)
                    &&& opened(file@, order) == Some(t@)
                },
                Err(e) => e == Error::Corrupt && opened(file@, order) is None,
            },
    {
        let bytes = file.as_slice();
        let len = bytes.len();
        if len < 4 {
            return Err(Error::Corrupt);
        }
        let block_meta_offset = get_u32(bytes, len - 4, order) as usize;
        if block_meta_offset > len - 4 {
            return Err(Error::Corrupt);
        }
        let decoded = BlockMeta::decode_block_meta_with(
            slice_subrange(bytes, block_meta_offset, len - 4),
            order,
        );
        match decoded {
            Ok(block_metas) => Ok(
                SsTable { file, block_metas, block_meta_offset, id, block_cache, order },
            ),
            Err(e) => Err(e),
        }
    }

    /// Opens a table from a file written by this machine: `open_with` in the
    /// byte order of the host.
    pub fn open(id: usize, block_cache: Option<Arc<BlockCache>>, file: FileObject) -> (r: Result<
        SsTable,
        Error,
    >)
        ensures
            match r {
                Ok(t) => {
                    &&& t.wf()
                    &&& t.id() == id
                    &&& t.cached() == (block_cache is Some)
                    &&& opened(file@, t@.order) == Some(t@)
                },
                Err(e) => e == Error::Corrupt && exists|order: ByteOrder|
                    opened(file@, order) is None,
            },
    {
        SsTable::open_with(id, block_cache, file, host_byte_order())
    }

    /// Reads and decodes a block. Fails where the block does not lie in front
    /// of the meta records, where its bytes do not decode, or where an entry
    /// of it runs out of its data section.
    pub fn read_block(&self, block_idx: usize) -> (r: Result<Arc<Block>, Error>)
        requires
            self.wf(),
            block_idx < self@.len(),
        ensures
            match r {
                Ok(b) => self@.block_at(block_idx as int) == Some((*b)@),
                Err(e) => e == Error::Corrupt && self@.block_at(block_idx as int) is None,
            },
    {
        let n = self.block_metas.len();
        let start = self.block_metas[block_idx].offset;
        let end = if block_idx + 1 < n {
            self.block_metas[block_idx + 1].offset
        } else {
            self.block_meta_offset
        };
        if start > end || end > self.block_meta_offset {
            return Err(Error::Corrupt);
        }
        let data = slice_subrange(self.file.as_slice(), start, end);
        match Block::decode_with(data, self.order) {
            Ok(block) => {
                if block.is_well_formed() {
                    Ok(Arc::new(block))
                } else {
                    Err(Error::Corrupt)
                }
            },
            Err(e) => Err(e),
        }
    }

    /// The block for a lookup in the cache that has given `hit`: the block
    /// found, if its entries can be read, else the block read from the file.
    /// Returns with it whether the block was read from the file.
    pub fn read_block_unless_hit(&self, block_idx: usize, hit: Option<Arc<Block>>) -> (r: (
        Result<Arc<Block>, Error>,
        bool,
    ))
        requires
            self.wf(),
            block_idx < self@.len(),
        ensures
            match hit {
                Some(h) => if (*h)@.wf() {
                    r.0 == Ok::<Arc<Block>, Error>(h) && !r.1
                } else {
                    self.read_from_file(block_idx as int, r.0) && r.1 == (r.0 is Ok)
                },
                None => self.read_from_file(block_idx as int, r.0) && r.1 == (r.0 is Ok),
            },
    {
        match usable_hit(hit) {
            Some(block) => (Ok(block), false),
            None => {
                match self.read_block(block_idx) {
                    Ok(block) => (Ok(block), true),
                    Err(e) => (Err(e), false),
                }
            },
        }
    }

    /// The result is that of reading block `i` from the file: the block, or
    /// the error that it cannot be read.
    pub open spec fn read_from_file(&self, i: int, r: Result<Arc<Block>, Error>) -> bool {
        match r {
            Ok(b) => self@.block_at(i) == Some((*b)@),
            Err(e) => e == Error::Corrupt && self@.block_at(i) is None,
        }
    }

    /// Reads a block through the block cache. A block found in the cache is
    /// returned if its entries can be read; otherwise the block is read from
    /// the file and offered to the cache.
    pub fn read_block_cached(&self, block_idx: usize) -> (r: Result<Arc<Block>, Error>)
        requires
            self.wf(),
            block_idx < self@.len(),
        ensures
            match r {
                Ok(b) => (*b)@.wf() && (!self.cached() ==> self@.block_at(block_idx as int) == Some(
                    (*b)@,
                )),
                Err(e) => e == Error::Corrupt && self@.block_at(block_idx as int) is None,
            },
    {
        match &self.block_cache {
            None => self.read_block(block_idx),
            Some(cache) => {
                let hit = cache_get(cache, self.id, block_idx);
                let (found, from_file) = self.read_block_unless_hit(block_idx, hit);
                match found {
                    Ok(block) => {
                        if from_file {
                            cache_insert(cache, self.id, block_idx, block.clone());
                        }
                        Ok(block)
                    },
                    Err(e) => Err(e),
                }
            },
        }
    }

    /// Finds the block that may hold `key`: the last block whose first key
    /// is not above `key`, or the first block if every first key is above it.
    pub fn find_block_idx(&self, key: &[u8]) -> (idx: usize)
        ensures
            idx == self@.block_index(key@),
            idx == 0 || idx < self@.len(),
            self@.ascending() ==> self@.may_hold(idx as int, key@),
    {
        let ghost t = self@;
        let mut l: usize = 0;
        let mut r: usize = self.block_metas.len();
        while l < r
            invariant
                l <= r <= t.len(),
                t == self@,
                t.upper_bound(key@, l as int, r as int) == t.upper_bound(key@, 0, t.len() as int),
                t.ascending() ==> forall|j: int|
                    0 <= j < l ==> key_le((#[trigger] t.metas[j]).first_key, key@),
                t.ascending() ==> forall|j: int|
                    r <= j < t.len() ==> key_lt(key@, (#[trigger] t.metas[j]).first_key),
            decreases r - l,
        {
            let mid = l + (r - l) / 2;
            let mid_key = self.block_metas[mid].first_key.as_slice();
            let order = compare_keys(key, mid_key);
            proof {
                let mk = t.metas[mid as int].first_key;
                assert(mid_key@ == mk);
                crate::key::lemma_key_trichotomy(key@, mk);
                if t.ascending() {
                    if order == KeyOrder::Less {
                        assert forall|j: int| mid <= j < t.len() implies key_lt(
                            key@,
                            (#[trigger] t.metas[j]).first_key,
                        ) by {
                            if mid < j {
                                crate::key::lemma_key_lt_transitive(key@, mk, t.metas[j].first_key);
                            }
                        }
                    } else {
                        assert forall|j: int| 0 <= j < mid + 1 implies key_le(
                            (#[trigger] t.metas[j]).first_key,
                            key@,
                        ) by {
                            if j < mid {
                                crate::key::lemma_key_lt_le(t.metas[j].first_key, mk, key@);
                            }
                        }
                    }
                }
            }
            match order {
                KeyOrder::Less => {
                    r = mid;
                },
                _ => {
                    l = mid + 1;
                },
            }
        }
        if l == 0 {
            0
        } else {
            l - 1
        }
    }

    /// The number of data blocks.
    pub fn num_of_blocks(&self) -> (n: usize)
        ensures
            n == self@.len(),
    {
        self.block_metas.len()
    }

    /// The id of the table.
    pub fn sst_id(&self) -> (id: usize)
        ensures
            id == self.id(),
    {
        self.id
    }

    /// The file of the table.
    pub fn file(&self) -> (f: &FileObject)
        ensures
            f@ == self@.file,
    {
        &self.file
    }

    /// The byte order of the fields of the table.
    pub fn order(&self) -> (o: ByteOrder)
        ensures
            o == self@.order,
    {
        self.order
    }

    /// The first key that the meta record of block `i` holds.
    pub fn first_key(&self, i: usize) -> (k: &[u8])
        requires
            i < self@.len(),
        ensures
            k@ == self@.metas[i as int].first_key,
    {
        self.block_metas[i].first_key.as_slice()
    }
}

} // verus!
