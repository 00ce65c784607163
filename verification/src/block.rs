//! A block: the smallest unit of storage and caching.
//!
//! Encoded, a block is its entries back to back, then one two-byte offset for
//! each entry, then the two-byte number of entries. An entry is a two-byte key
//! length, the key, a two-byte value length and the value.

pub mod builder;
pub mod iterator;

use crate::buffer::{bytes_from_vec, bytes_view};
use crate::codec::{get_u16, low16, low16_of, put_u16, u16_at, u16_bytes, ByteOrder};
use crate::codec::{host_byte_order, lemma_u16_bytes_of_value};
use crate::error::Error;
use crate::key::key_lt;
use bytes::Bytes;
use vstd::prelude::*;
use vstd::slice::{slice_subrange, slice_to_vec};

verus! {

/// What a block holds: the bytes of its entries, where each entry starts, and
/// the byte order of its two-byte fields.
pub ghost struct BlockView {
    pub data: Seq<u8>,
    pub offsets: Seq<u16>,
    pub order: ByteOrder,
}

impl BlockView {
    /// The number of entries.
    pub open spec fn len(self) -> nat {
        self.offsets.len()
    }

    /// The length of the key of entry `i`, as its first field says.
    pub open spec fn key_len(self, i: int) -> int {
        u16_at(self.data, self.offsets[i] as int, self.order) as int
    }

    /// Where the key of entry `i` starts.
    pub open spec fn key_start(self, i: int) -> int {
        self.offsets[i] + 2
    }

    /// Where the key of entry `i` ends and its value length starts.
    pub open spec fn key_end(self, i: int) -> int {
        self.key_start(i) + self.key_len(i)
    }

    /// The length of the value of entry `i`, as the field behind its key says.
    pub open spec fn value_len(self, i: int) -> int {
        u16_at(self.data, self.key_end(i), self.order) as int
    }

    /// Where the value of entry `i` starts.
    pub open spec fn value_start(self, i: int) -> int {
        self.key_end(i) + 2
    }

    /// Where entry `i` ends.
    pub open spec fn value_end(self, i: int) -> int {
        self.value_start(i) + self.value_len(i)
    }

    /// Entry `i` lies inside the data section.
    pub open spec fn entry_in_bounds(self, i: int) -> bool {
        &&& self.value_start(i) <= self.data.len()
        &&& self.value_end(i) <= self.data.len()
    }

    /// Every entry lies inside the data section, so each can be read.
    pub open spec fn wf(self) -> bool {
        forall|i: int| 0 <= i < self.len() ==> #[trigger] self.entry_in_bounds(i)
    }

    /// The key of entry `i`.
    pub open spec fn key_at(self, i: int) -> Seq<u8> {
        self.data.subrange(self.key_start(i), self.key_end(i))
    }

    /// The value of entry `i`.
    pub open spec fn value_at(self, i: int) -> Seq<u8> {
        self.data.subrange(self.value_start(i), self.value_end(i))
    }

    /// The entries, as pairs of key and value, in the order of the offsets.
    pub open spec fn entries(self) -> Seq<(Seq<u8>, Seq<u8>)> {
        Seq::new(self.len(), |i: int| (self.key_at(i), self.value_at(i)))
    }

    /// The keys are strictly increasing.
    pub open spec fn sorted(self) -> bool {
        forall|i: int, j: int|
            0 <= i < j < self.len() ==> key_lt(#[trigger] self.key_at(i), #[trigger] self.key_at(j))
    }

    /// Where a binary search between `l` and `r` for the first key that is
    /// not below `key` ends. In a sorted block that is the first such entry
    /// between the two, or `r`.
    pub open spec fn lower_bound(self, key: Seq<u8>, l: int, r: int) -> int
        decreases r - l,
    {
        if l >= r {
            l
        } else {
            let mid = l + (r - l) / 2;
            if key_lt(self.key_at(mid), key) {
                self.lower_bound(key, mid + 1, r)
            } else {
                self.lower_bound(key, l, mid)
            }
        }
    }

    /// The encoded block: the data section, the offsets, the number of entries.
    pub open spec fn encoded(self) -> Seq<u8> {
        self.data + offsets_bytes(self.offsets, self.order) + u16_bytes(
            low16(self.offsets.len() as int),
            self.order,
        )
    }
}

/// The offsets as bytes, two for each, one after the other.
pub open spec fn offsets_bytes(offsets: Seq<u16>, order: ByteOrder) -> Seq<u8> {
    Seq::new(2 * offsets.len(), |j: int| u16_bytes(offsets[j / 2], order)[j % 2])
}

/// The number of entries that the last two bytes of `buf` announce.
pub open spec fn announced_len(buf: Seq<u8>, order: ByteOrder) -> int {
    u16_at(buf, buf.len() - 2, order) as int
}

/// The block that `buf` encodes, if `buf` is long enough to hold the offsets
/// that its last two bytes announce.
pub open spec fn decoded(buf: Seq<u8>, order: ByteOrder) -> Option<BlockView> {
    if buf.len() < 2 || buf.len() < 2 + 2 * announced_len(buf, order) {
        None
    } else {
        let n = announced_len(buf, order);
        let base = buf.len() - 2 - 2 * n;
        Some(
            BlockView {
                data: buf.subrange(0, base),
                offsets: Seq::new(n as nat, |i: int| u16_at(buf, base + 2 * i, order)),
                order,
            },
        )
    }
}

/// Decoding an encoded block gives the block back, as long as the number of
/// its entries fits the two-byte field.
pub proof fn lemma_decode_encode(b: BlockView)
    requires
        b.len() <= u16::MAX,
    ensures
        decoded(b.encoded(), b.order) == Some(b),
{
    let buf = b.encoded();
    let n = b.len() as int;
    let tail = u16_bytes(low16(n), b.order);
    assert(buf.len() == b.data.len() + 2 * n + 2);
    assert(buf[buf.len() - 2] == tail[0]);
    assert(buf[buf.len() - 1] == tail[1]);
    assert(announced_len(buf, b.order) == n);
    let d = decoded(buf, b.order).unwrap();
    let base = b.data.len() as int;
    assert(d.data =~= b.data);
    assert forall|i: int| 0 <= i < n implies d.offsets[i] == b.offsets[i] by {
        let ob = u16_bytes(b.offsets[i], b.order);
        assert(buf[base + 2 * i] == offsets_bytes(b.offsets, b.order)[2 * i]);
        assert(buf[base + 2 * i + 1] == offsets_bytes(b.offsets, b.order)[2 * i + 1]);
        assert((2 * i) / 2 == i && (2 * i) % 2 == 0);
        assert((2 * i + 1) / 2 == i && (2 * i + 1) % 2 == 1);
        assert(buf[base + 2 * i] == ob[0]);
        assert(buf[base + 2 * i + 1] == ob[1]);
    }
    assert(d.offsets =~= b.offsets);
}

/// Encoding a decoded block gives the bytes back.
pub proof fn lemma_encode_decode(buf: Seq<u8>, order: ByteOrder)
    requires
        decoded(buf, order) is Some,
    ensures
        decoded(buf, order).unwrap().encoded() == buf,
{
    let b = decoded(buf, order).unwrap();
    let n = announced_len(buf, order);
    let base = buf.len() - 2 - 2 * n;
    let out = b.encoded();
    assert(out.len() == buf.len());
    assert forall|j: int| 0 <= j < buf.len() implies out[j] == buf[j] by {
        if j < base {
        } else if j < base + 2 * n {
            let k = j - base;
            let i = k / 2;
            lemma_u16_bytes_of_value(buf[base + 2 * i], buf[base + 2 * i + 1], order);
            assert(out[j] == offsets_bytes(b.offsets, order)[k]);
            assert(b.offsets[i] == u16_at(buf, base + 2 * i, order));
            let two = seq![buf[base + 2 * i], buf[base + 2 * i + 1]];
            assert(u16_bytes(b.offsets[i], order) == two);
            assert(two[k % 2] == buf[j]);
        } else {
            lemma_u16_bytes_of_value(buf[buf.len() - 2], buf[buf.len() - 1], order);
            let two = seq![buf[buf.len() - 2], buf[buf.len() - 1]];
            assert(u16_bytes(low16(n), order) == two);
            assert(out[j] == two[j - base - 2 * n]);
        }
    }
    assert(out =~= buf);
}

/// An entry as bytes: the length of the key, the key, the length of the value,
/// the value. A length field keeps the low sixteen bits of the length.
pub open spec fn entry_bytes(e: (Seq<u8>, Seq<u8>), order: ByteOrder) -> Seq<u8> {
    u16_bytes(low16(e.0.len() as int), order) + e.0 + u16_bytes(low16(e.1.len() as int), order)
        + e.1
}

/// The data section that holds the entries of `s` back to back.
pub open spec fn data_bytes(s: Seq<(Seq<u8>, Seq<u8>)>, order: ByteOrder) -> Seq<u8>
    decreases s.len(),
{
    if s.len() == 0 {
        Seq::empty()
    } else {
        data_bytes(s.drop_last(), order) + entry_bytes(s.last(), order)
    }
}

/// The length of the data section that holds the entries of `s`.
pub open spec fn data_size(s: Seq<(Seq<u8>, Seq<u8>)>) -> nat
    decreases s.len(),
{
    if s.len() == 0 {
        0
    } else {
        data_size(s.drop_last()) + 4 + s.last().0.len() + s.last().1.len()
    }
}

/// The block that holds the entries of `s` in that order: each offset keeps
/// the low sixteen bits of the place where its entry starts.
pub open spec fn built(s: Seq<(Seq<u8>, Seq<u8>)>, order: ByteOrder) -> BlockView {
    BlockView {
        data: data_bytes(s, order),
        offsets: Seq::new(s.len(), |i: int| low16(data_size(s.take(i)) as int)),
        order,
    }
}

/// The two-byte fields of a block can hold the entries of `s`: no key and no
/// value is longer than 65535 bytes, and every entry starts within the first
/// 65536 bytes of the data section.
pub open spec fn encodable(s: Seq<(Seq<u8>, Seq<u8>)>) -> bool {
    forall|i: int|
        0 <= i < s.len() ==> {
            &&& (#[trigger] s[i]).0.len() <= u16::MAX
            &&& s[i].1.len() <= u16::MAX
            &&& data_size(s.take(i)) <= u16::MAX
        }
}

/// The data section is as long as `data_size` says.
pub proof fn lemma_data_bytes_len(s: Seq<(Seq<u8>, Seq<u8>)>, order: ByteOrder)
    ensures
        data_bytes(s, order).len() == data_size(s),
    decreases s.len(),
{
    if s.len() > 0 {
        lemma_data_bytes_len(s.drop_last(), order);
    }
}

/// The data section grows with the entries: a prefix of the entries takes no
/// more room than all of them.
pub proof fn lemma_data_size_take(s: Seq<(Seq<u8>, Seq<u8>)>, i: int)
    requires
        0 <= i <= s.len(),
    ensures
        data_size(s.take(i)) + 4 * (s.len() - i) <= data_size(s),
    decreases s.len(),
{
    if i == s.len() {
        assert(s.take(i) =~= s);
    } else {
        assert(s.drop_last().take(i) =~= s.take(i));
        lemma_data_size_take(s.drop_last(), i);
    }
}

/// In the data section, entry `i` stands where the entries before it end.
pub proof fn lemma_data_bytes_entry(s: Seq<(Seq<u8>, Seq<u8>)>, order: ByteOrder, i: int)
    requires
        0 <= i < s.len(),
    ensures
        data_size(s.take(i)) + entry_bytes(s[i], order).len() <= data_bytes(s, order).len(),
        data_bytes(s, order).subrange(
            data_size(s.take(i)) as int,
            (data_size(s.take(i)) + entry_bytes(s[i], order).len()) as int,
        ) == entry_bytes(s[i], order),
    decreases s.len(),
{
    let init = s.drop_last();
    let start = data_size(s.take(i)) as int;
    let eb = entry_bytes(s[i], order);
    lemma_data_bytes_len(init, order);
    if i == s.len() - 1 {
        assert(s.take(i) =~= init);
        assert(data_bytes(s, order).subrange(start, start + eb.len()) =~= eb);
    } else {
        assert(init.take(i) =~= s.take(i));
        lemma_data_bytes_entry(init, order, i);
        assert(data_bytes(s, order).subrange(start, start + eb.len()) =~= data_bytes(
            init,
            order,
        ).subrange(start, start + eb.len()));
    }
}

/// What is read where an entry stands in a data section: its two lengths, its
/// key and its value.
pub proof fn lemma_read_entry(data: Seq<u8>, start: int, e: (Seq<u8>, Seq<u8>), order: ByteOrder)
    requires
        0 <= start,
        start + entry_bytes(e, order).len() <= data.len(),
        data.subrange(start, start + entry_bytes(e, order).len()) == entry_bytes(e, order),
        e.0.len() <= u16::MAX,
        e.1.len() <= u16::MAX,
    ensures
        entry_bytes(e, order).len() == 4 + e.0.len() + e.1.len(),
        u16_at(data, start, order) == e.0.len(),
        data.subrange(start + 2, start + 2 + e.0.len()) == e.0,
        u16_at(data, start + 2 + e.0.len(), order) == e.1.len(),
        data.subrange(start + 4 + e.0.len(), start + 4 + e.0.len() + e.1.len()) == e.1,
{
    let eb = entry_bytes(e, order);
    let klen = e.0.len() as int;
    let vlen = e.1.len() as int;
    let kb = u16_bytes(low16(klen), order);
    let vb = u16_bytes(low16(vlen), order);
    let sub = data.subrange(start, start + eb.len());
    assert(forall|j: int| 0 <= j < eb.len() ==> data[start + j] == #[trigger] sub[j]);
    assert(kb.len() == 2 && vb.len() == 2);
    assert(eb[0] == kb[0] && eb[1] == kb[1]);
    assert(data[start] == sub[0] && data[start + 1] == sub[1]);
    crate::codec::lemma_u16_roundtrip(low16(klen), order);
    assert(u16_at(data, start, order) == klen);
    assert(eb[2 + klen] == vb[0] && eb[3 + klen] == vb[1]);
    assert(data[start + 2 + klen] == sub[2 + klen] && data[start + 3 + klen] == sub[3 + klen]);
    crate::codec::lemma_u16_roundtrip(low16(vlen), order);
    assert(u16_at(data, start + 2 + klen, order) == vlen);
    let key = data.subrange(start + 2, start + 2 + klen);
    assert forall|j: int| 0 <= j < klen implies key[j] == e.0[j] by {
        assert(key[j] == sub[2 + j]);
        assert(eb[2 + j] == e.0[j]);
    }
    assert(key =~= e.0);
    let value = data.subrange(start + 4 + klen, start + 4 + klen + vlen);
    assert forall|j: int| 0 <= j < vlen implies value[j] == e.1[j] by {
        assert(value[j] == sub[4 + klen + j]);
        assert(eb[4 + klen + j] == e.1[j]);
    }
    assert(value =~= e.1);
}

/// In a block built from entries that its fields can hold, entry `i` lies
/// inside the data section and reads as the `i`-th of those entries.
pub proof fn lemma_built_entry(s: Seq<(Seq<u8>, Seq<u8>)>, order: ByteOrder, i: int)
    requires
        encodable(s),
        0 <= i < s.len(),
    ensures
        built(s, order).entry_in_bounds(i),
        built(s, order).key_at(i) == s[i].0,
        built(s, order).value_at(i) == s[i].1,
{
    let b = built(s, order);
    let start = data_size(s.take(i)) as int;
    let e = s[i];
    assert(e.0.len() <= u16::MAX && e.1.len() <= u16::MAX && start <= u16::MAX);
    assert(b.offsets[i] == start) by {
        assert(b.offsets[i] == low16(start));
    }
    assert(start + entry_bytes(e, order).len() <= b.data.len() && b.data.subrange(
        start,
        start + entry_bytes(e, order).len(),
    ) == entry_bytes(e, order)) by {
        lemma_data_bytes_entry(s, order, i);
    }
    lemma_read_entry(b.data, start, e, order);
    lemma_entry_at(b, i, start, e);
}

/// An entry that reads as `e` at `start`, where offset `i` points, is entry `i`.
proof fn lemma_entry_at(b: BlockView, i: int, start: int, e: (Seq<u8>, Seq<u8>))
    requires
        0 <= i < b.len(),
        b.offsets[i] == start,
        start + 4 + e.0.len() + e.1.len() <= b.data.len(),
        u16_at(b.data, start, b.order) == e.0.len(),
        b.data.subrange(start + 2, start + 2 + e.0.len()) == e.0,
        u16_at(b.data, start + 2 + e.0.len(), b.order) == e.1.len(),
        b.data.subrange(start + 4 + e.0.len(), start + 4 + e.0.len() + e.1.len()) == e.1,
    ensures
        b.entry_in_bounds(i),
        b.key_at(i) == e.0,
        b.value_at(i) == e.1,
{
}

/// A block built from entries that its fields can hold is well formed and
/// holds those entries; where their keys increase, it is sorted.
pub proof fn lemma_built_entries(s: Seq<(Seq<u8>, Seq<u8>)>, order: ByteOrder)
    requires
        encodable(s),
    ensures
        built(s, order).wf(),
        built(s, order).entries() == s,
        built(s, order).len() <= u16::MAX,
        crate::entry::keys_increasing(s) ==> built(s, order).sorted(),
{
    let b = built(s, order);
    assert forall|i: int| 0 <= i < s.len() implies #[trigger] b.entry_in_bounds(i) && b.key_at(i)
        == s[i].0 && b.value_at(i) == s[i].1 by {
        lemma_built_entry(s, order, i);
    }
    assert forall|i: int| 0 <= i < s.len() implies b.entries()[i] == s[i] by {
        lemma_built_entry(s, order, i);
    }
    assert(b.entries() =~= s);
    if s.len() > 0 {
        let last = s.len() - 1;
        assert(data_size(s.take(last)) <= u16::MAX) by {
            assert(s[last].0.len() <= u16::MAX);
        }
        lemma_data_size_take(s.take(last), 0);
        assert(s.take(last).take(0) =~= Seq::<(Seq<u8>, Seq<u8>)>::empty());
    }
    if crate::entry::keys_increasing(s) {
        assert forall|i: int, j: int| 0 <= i < j < b.len() implies key_lt(
            #[trigger] b.key_at(i),
            #[trigger] b.key_at(j),
        ) by {
            assert(key_lt(s[i].0, s[j].0));
        }
    }
}

/// Entries that take less than 65536 bytes in a block fit the two-byte
/// fields of the block.
pub proof fn lemma_small_is_encodable(s: Seq<(Seq<u8>, Seq<u8>)>)
    requires
        data_size(s) <= u16::MAX,
    ensures
        encodable(s),
{
    assert forall|i: int| 0 <= i < s.len() implies {
        &&& (#[trigger] s[i]).0.len() <= u16::MAX
        &&& s[i].1.len() <= u16::MAX
        &&& data_size(s.take(i)) <= u16::MAX
    } by {
        lemma_data_size_take(s, i);
        lemma_data_size_take(s, i + 1);
        assert(s.take(i + 1).drop_last() =~= s.take(i));
        assert(s.take(i + 1).last() == s[i]);
    }
}

/// Entries with increasing keys that fit the fields of a block come back
/// from the block built of them: sorting leaves them as they are, the built
/// block decodes from its encoding, and a walk over the decoded block from
/// its first entry gives the entries in their order.
pub proof fn lemma_block_roundtrip(s: Seq<(Seq<u8>, Seq<u8>)>, order: ByteOrder)
    requires
        crate::entry::keys_increasing(s),
        encodable(s),
    ensures
        crate::entry::sort_by_key(s) == s,
        decoded(built(s, order).encoded(), order) == Some(built(s, order)),
        built(s, order).wf(),
        built(s, order).sorted(),
        built(s, order).entries() == s,
        (crate::block::iterator::BlockIteratorView { block: built(s, order), idx: 0 }).remaining()
            == s,
{
    crate::entry::lemma_increasing_is_ordered(s);
    crate::entry::lemma_sort_ordered(s);
    lemma_built_entries(s, order);
    lemma_decode_encode(built(s, order));
    assert(s.skip(0) =~= s);
}

/// A sorted batch of entries with an index of where each starts.
pub struct Block {
    data: Vec<u8>,
    offsets: Vec<u16>,
    order: ByteOrder,
}

impl View for Block {
    type V = BlockView;

    closed spec fn view(&self) -> BlockView {
        BlockView { data: self.data@, offsets: self.offsets@, order: self.order }
    }
}

/// Appends the bytes of `src` to `buf`.
pub fn append_bytes(buf: &mut Vec<u8>, src: &[u8])
    ensures
        final(buf)@ == old(buf)@ + src@,
{
    let mut i: usize = 0;
    while i < src.len()
        invariant
            i <= src@.len(),
            buf@ == old(buf)@ + src@.subrange(0, i as int),
        decreases src@.len() - i,
    {
        buf.push(src[i]);
        i += 1;
        assert(buf@ =~= old(buf)@ + src@.subrange(0, i as int));
    }
    assert(src@.subrange(0, i as int) =~= src@);
}

impl Block {
    /// A block of the given parts.
    pub fn from_parts(data: Vec<u8>, offsets: Vec<u16>, order: ByteOrder) -> (b: Block)
        ensures
            b@ == (BlockView { data: data@, offsets: offsets@, order }),
    {
        Block { data, offsets, order }
    }

    /// The bytes of the entries.
    pub fn data(&self) -> (d: &[u8])
        ensures
            d@ == self@.data,
    {
        self.data.as_slice()
    }

    /// Where each entry starts in the data section.
    pub fn offsets(&self) -> (o: &[u16])
        ensures
            o@ == self@.offsets,
    {
        self.offsets.as_slice()
    }

    /// The byte order of the two-byte fields.
    pub fn order(&self) -> (o: ByteOrder)
        ensures
            o == self@.order,
    {
        self.order
    }

    /// The encoded block as a vector of bytes.
    pub fn encode_to_vec(&self) -> (buf: Vec<u8>)
        ensures
            buf@ == self@.encoded(),
    {
        let mut buf = slice_to_vec(self.data.as_slice());
        let n = self.offsets.len();
        let mut i: usize = 0;
        while i < n
            invariant
                i <= n,
                n == self.offsets@.len(),
                buf@ == self.data@ + offsets_bytes(self.offsets@.subrange(0, i as int), self.order),
            decreases n - i,
        {
            let ghost before = buf@;
            put_u16(&mut buf, self.offsets[i], self.order);
            proof {
                let prev = offsets_bytes(self.offsets@.subrange(0, i as int), self.order);
                let next = offsets_bytes(self.offsets@.subrange(0, i + 1), self.order);
                assert(next =~= prev + u16_bytes(self.offsets@[i as int], self.order)) by {
                    assert forall|j: int| 0 <= j < next.len() implies next[j] == (prev + u16_bytes(
                        self.offsets@[i as int],
                        self.order,
                    ))[j] by {
                        if j < 2 * i {
                            assert(j / 2 < i);
                        } else {
                            assert(j / 2 == i);
                            assert(j % 2 == j - 2 * i);
                        }
                    }
                }
                assert(buf@ =~= self.data@ + next);
            }
            i += 1;
        }
        assert(self.offsets@.subrange(0, n as int) =~= self.offsets@);
        put_u16(&mut buf, low16_of(n), self.order);
        buf
    }

    /// The encoded block: the data section, the offsets, the number of
    /// entries.
    pub fn encode(&self) -> (buf: Bytes)
        ensures
            bytes_view(buf) == self@.encoded(),
    {
        bytes_from_vec(self.encode_to_vec())
    }

    /// Decodes a block whose two-byte fields are in the given byte order.
    /// Fails when `data` is shorter than two bytes, or shorter than the
    /// offsets that its last two bytes announce.
    pub fn decode_with(data: &[u8], order: ByteOrder) -> (r: Result<Block, Error>)
        ensures
            match r {
                Ok(b) => decoded(data@, order) == Some(b@),
                Err(e) => e == Error::Corrupt && decoded(data@, order) is None,
            },
    {
        let len = data.len();
        if len < 2 {
            return Err(Error::Corrupt);
        }
        let n = get_u16(data, len - 2, order) as usize;
        if (len - 2) / 2 < n {
            return Err(Error::Corrupt);
        }
        let base = len - 2 - 2 * n;
        let kv = slice_to_vec(slice_subrange(data, 0, base));
        let mut offsets: Vec<u16> = Vec::new();
        let mut i: usize = 0;
        while i < n
            invariant
                i <= n,
                base + 2 * n + 2 == len,
                len == data@.len(),
                offsets@ == Seq::new(i as nat, |k: int| u16_at(data@, base + 2 * k, order)),
            decreases n - i,
        {
            offsets.push(get_u16(data, base + 2 * i, order));
            i += 1;
            assert(offsets@ =~= Seq::new(i as nat, |k: int| u16_at(data@, base + 2 * k, order)));
        }
        Ok(Block { data: kv, offsets, order })
    }

    /// Decodes a block written by this machine: `decode_with` in the byte
    /// order of the host.
    pub fn decode(data: &[u8]) -> (r: Result<Block, Error>)
        ensures
            match r {
                Ok(b) => decoded(data@, b@.order) == Some(b@),
                Err(e) => e == Error::Corrupt && exists|order: ByteOrder|
                    decoded(data@, order) is None,
            },
    {
        Block::decode_with(data, host_byte_order())
    }

    /// Whether every entry lies inside the data section.
    pub fn is_well_formed(&self) -> (ok: bool)
        ensures
            ok == self@.wf(),
    {
        let n = self.offsets.len();
        let len = self.data.len();
        let mut i: usize = 0;
        while i < n
            invariant
                i <= n,
                n == self@.len(),
                len == self@.data.len(),
                forall|k: int| 0 <= k < i ==> #[trigger] self@.entry_in_bounds(k),
            decreases n - i,
        {
            let off = self.offsets[i] as usize;
            if off + 2 > len {
                assert(!self@.entry_in_bounds(i as int));
                return false;
            }
            let key_len = get_u16(self.data.as_slice(), off, self.order) as usize;
            if off + 2 + key_len + 2 > len {
                assert(!self@.entry_in_bounds(i as int));
                return false;
            }
            let value_len = get_u16(self.data.as_slice(), off + 2 + key_len, self.order) as usize;
            if off + 2 + key_len + 2 + value_len > len {
                assert(!self@.entry_in_bounds(i as int));
                return false;
            }
            assert(self@.entry_in_bounds(i as int));
            i += 1;
        }
        true
    }
}

} // verus!
