//! Packs entries into a block of a target size.

use crate::block::{append_bytes, built, data_bytes, data_size, entry_bytes, Block};
use crate::codec::{host_byte_order, low16_of, put_u16, ByteOrder};
use crate::entry::{
    entries_of, entries_size, entry_size, has_key, key_above, key_below, key_is, keys_below,
    keys_from, keys_increasing, lemma_entries_size_bounds, lemma_entries_size_push,
    lemma_entries_size_take, lemma_filter_push, lemma_sort_by_key, reverse_pairs, sort_by_key,
    sort_pairs,
};
use crate::key::{compare_keys, key_le, key_lt, keys_equal, KeyOrder};
use vstd::prelude::*;
use vstd::slice::slice_to_vec;

verus! {

/// What a block builder holds: the pending entries in the order in which they
/// came, the target size of the block, and the byte order to encode in.
pub ghost struct BuilderView {
    pub entries: Seq<(Seq<u8>, Seq<u8>)>,
    pub block_size: nat,
    pub order: ByteOrder,
}

impl BuilderView {
    /// The size of the block so far: two bytes for the number of entries, and
    /// the room that each entry takes.
    pub open spec fn size(self) -> nat {
        2 + entries_size(self.entries)
    }

    /// One more entry is taken as a new entry: the block is empty, or stays
    /// within the target size.
    pub open spec fn fits(self, key: Seq<u8>, value: Seq<u8>) -> bool {
        self.entries.len() == 0 || self.size() + entry_size((key, value)) <= self.block_size
    }

    /// One more entry does not fit, but the block holds a single entry of the
    /// same key, whose value it replaces.
    pub open spec fn replaces(self, key: Seq<u8>, value: Seq<u8>) -> bool {
        !self.fits(key, value) && self.entries.len() == 1 && self.entries[0].0 == key
    }

    /// The builder takes the entry.
    pub open spec fn accepts(self, key: Seq<u8>, value: Seq<u8>) -> bool {
        self.fits(key, value) || self.replaces(key, value)
    }

    /// The builder after it was offered the entry.
    pub open spec fn added(self, key: Seq<u8>, value: Seq<u8>) -> BuilderView {
        if self.fits(key, value) {
            BuilderView { entries: self.entries.push((key, value)), ..self }
        } else if self.replaces(key, value) {
            BuilderView { entries: seq![(key, value)], ..self }
        } else {
            self
        }
    }

    /// The pending entries sorted by key.
    pub open spec fn sorted(self) -> Seq<(Seq<u8>, Seq<u8>)> {
        sort_by_key(self.entries)
    }

    /// The key on which a split divides the entries: that of the middle entry.
    pub open spec fn split_key(self) -> Seq<u8> {
        self.sorted()[self.entries.len() as int / 2].0
    }

    /// The entries that stay after a split: those below the split key.
    pub open spec fn kept(self) -> Seq<(Seq<u8>, Seq<u8>)> {
        self.sorted().filter(key_below(self.split_key()))
    }

    /// The entry of the split key: where several have that key, the last.
    pub open spec fn split_pair(self) -> (Seq<u8>, Seq<u8>) {
        self.sorted().filter(key_is(self.split_key())).last()
    }

    /// The entries that move to the new builder in a split: those above the
    /// split key, then the entry of the split key.
    pub open spec fn moved(self) -> Seq<(Seq<u8>, Seq<u8>)> {
        self.sorted().filter(key_above(self.split_key())).push(self.split_pair())
    }
}

impl BuilderView {
    /// The block is within its target size, or holds one entry at most: a
    /// single entry may be larger than the target.
    pub open spec fn within_target(self) -> bool {
        self.entries.len() <= 1 || self.size() <= self.block_size
    }
}

/// A block stays within its target size, but for a single entry that is
/// larger: offering an entry keeps it so.
pub proof fn lemma_added_within_target(b: BuilderView, key: Seq<u8>, value: Seq<u8>)
    requires
        b.within_target(),
    ensures
        b.added(key, value).within_target(),
{
    if b.fits(key, value) {
        lemma_entries_size_push(b.entries, (key, value));
    }
}

/// The builder after it was offered the entries of `s` one after the other.
pub open spec fn offered(b: BuilderView, s: Seq<(Seq<u8>, Seq<u8>)>) -> BuilderView
    decreases s.len(),
{
    if s.len() == 0 {
        b
    } else {
        offered(b, s.drop_last()).added(s.last().0, s.last().1)
    }
}

/// An empty builder takes every entry of a sequence that is no longer than
/// one entry, or whose block stays within the target size.
pub proof fn lemma_offered_fits(b: BuilderView, s: Seq<(Seq<u8>, Seq<u8>)>)
    requires
        b.entries.len() == 0,
        s.len() <= 1 || 2 + entries_size(s) <= b.block_size,
    ensures
        offered(b, s) == (BuilderView { entries: s, ..b }),
    decreases s.len(),
{
    if s.len() == 0 {
        assert(b.entries =~= s);
    } else {
        let init = s.drop_last();
        crate::entry::lemma_entries_size_take(s, s.len() - 1);
        assert(s.take(s.len() - 1) =~= init);
        lemma_offered_fits(b, init);
        let mid = BuilderView { entries: init, ..b };
        assert(mid.fits(s.last().0, s.last().1));
        assert(init.push(s.last()) =~= s);
    }
}

/// The encoded block of a sequence of entries is as long as the size that
/// the builder counts for them.
pub proof fn lemma_built_len(s: Seq<(Seq<u8>, Seq<u8>)>, order: ByteOrder)
    ensures
        built(s, order).encoded().len() == 2 + entries_size(s),
        data_size(s) + 2 * s.len() == entries_size(s),
    decreases s.len(),
{
    crate::block::lemma_data_bytes_len(s, order);
    if s.len() > 0 {
        lemma_built_len(s.drop_last(), order);
        crate::block::lemma_data_bytes_len(s.drop_last(), order);
    }
}

/// A split leaves fewer entries on the side that stays, and at least one on
/// the side that moves; of two or more entries it leaves fewer on that side
/// too.
pub proof fn lemma_split_shrinks(b: BuilderView)
    requires
        b.entries.len() >= 1,
    ensures
        b.kept().len() < b.entries.len(),
        1 <= b.moved().len() <= b.entries.len(),
        b.entries.len() >= 2 ==> b.moved().len() < b.entries.len(),
        b.kept().len() + b.moved().len() <= b.entries.len(),
{
    let s = b.sorted();
    let k = b.split_key();
    let n = b.entries.len() as int;
    lemma_sort_by_key(b.entries);
    crate::entry::lemma_filter_partition(s, k);
    assert(key_is(k)(s[n / 2]));
    s.lemma_filter_contains(key_is(k), n / 2);
    if n >= 2 && s.filter(key_below(k)).len() == 0 {
        assert(s[0].0 == k) by {
            crate::key::lemma_key_trichotomy(s[0].0, k);
            if key_lt(s[0].0, k) {
                assert(key_below(k)(s[0]));
                s.lemma_filter_contains(key_below(k), 0);
            }
            if key_lt(k, s[0].0) {
                assert(key_le(s[0].0, s[n / 2].0));
                crate::key::lemma_key_lt_le(k, s[0].0, k);
                crate::key::lemma_key_lt_asymmetric(k, k);
            }
        }
        crate::entry::lemma_filter_two(s, key_is(k), 0, n / 2);
    }
}

/// A split of one entry has the key of the entry as its split key, and moves
/// the entry.
pub proof fn lemma_split_single(b: BuilderView)
    requires
        b.entries.len() == 1,
    ensures
        b.sorted() == b.entries,
        b.split_key() == b.entries[0].0,
        b.kept().len() == 0,
        b.moved() == b.entries,
{
    let e = b.entries[0];
    lemma_sort_by_key(b.entries);
    crate::entry::lemma_sort_contains(b.entries, b.sorted()[0]);
    assert(b.sorted() =~= b.entries);
    lemma_split_shrinks(b);
    lemma_split_parts(b);
    assert(b.moved().contains(b.moved()[0]));
    assert(b.moved() =~= b.entries);
}

/// What a split does with the entries: each side holds entries of the
/// builder only; the side that stays holds every entry below the split key,
/// the side that moves holds the split key, and the split key is a key of
/// the builder.
pub proof fn lemma_split_parts(b: BuilderView)
    requires
        b.entries.len() > 0,
    ensures
        has_key(b.entries, b.split_key()),
        has_key(b.moved(), b.split_key()),
        forall|e: (Seq<u8>, Seq<u8>)| #[trigger] b.kept().contains(e) ==> b.entries.contains(e),
        forall|e: (Seq<u8>, Seq<u8>)| #[trigger] b.moved().contains(e) ==> b.entries.contains(e),
        forall|e: (Seq<u8>, Seq<u8>)|
            #[trigger] b.entries.contains(e) && key_lt(e.0, b.split_key()) ==> b.kept().contains(e),
        forall|e: (Seq<u8>, Seq<u8>)|
            #[trigger] b.entries.contains(e) && key_lt(b.split_key(), e.0) ==> b.moved().contains(
                e,
            ),
{
    let s = b.sorted();
    let k = b.split_key();
    let n = b.entries.len() as int;
    lemma_sort_by_key(b.entries);
    let mid = s[n / 2];
    assert(s.contains(mid));
    crate::entry::lemma_sort_contains(b.entries, mid);
    let at = s.filter(key_is(k));
    let above = s.filter(key_above(k));
    assert(key_is(k)(mid));
    s.lemma_filter_contains(key_is(k), n / 2);
    s.lemma_filter_pred(key_is(k), at.len() - 1);
    assert(b.moved()[above.len() as int] == b.split_pair());
    assert(b.split_pair().0 == k);
    assert forall|e: (Seq<u8>, Seq<u8>)| #[trigger] b.kept().contains(e) implies b.entries.contains(
        e,
    ) by {
        s.lemma_filter_contains_rev(key_below(k), e);
        crate::entry::lemma_sort_contains(b.entries, e);
    }
    assert forall|e: (Seq<u8>, Seq<u8>)| #[trigger] b.moved().contains(e) implies b.entries.contains(
        e,
    ) by {
        let j = choose|j: int| 0 <= j < b.moved().len() && b.moved()[j] == e;
        if j < above.len() {
            assert(above[j] == e);
            assert(above.contains(e));
            s.lemma_filter_contains_rev(key_above(k), e);
        } else {
            assert(at.contains(at.last()));
            s.lemma_filter_contains_rev(key_is(k), e);
        }
        crate::entry::lemma_sort_contains(b.entries, e);
    }
    assert forall|e: (Seq<u8>, Seq<u8>)| #[trigger]
        b.entries.contains(e) && key_lt(e.0, k) implies b.kept().contains(e) by {
        crate::entry::lemma_sort_contains(b.entries, e);
        let j = choose|j: int| 0 <= j < s.len() && s[j] == e;
        assert(key_below(k)(s[j]));
        s.lemma_filter_contains(key_below(k), j);
    }
    assert forall|e: (Seq<u8>, Seq<u8>)| #[trigger]
        b.entries.contains(e) && key_lt(k, e.0) implies b.moved().contains(e) by {
        crate::entry::lemma_sort_contains(b.entries, e);
        let j = choose|j: int| 0 <= j < s.len() && s[j] == e;
        assert(key_above(k)(s[j]));
        s.lemma_filter_contains(key_above(k), j);
        let i = choose|i: int| 0 <= i < above.len() && above[i] == e;
        assert(b.moved()[i] == e);
    }
}

/// After a split the keys that stay are below the split key and the keys
/// that move are not.
pub proof fn lemma_split_keys(b: BuilderView)
    requires
        b.entries.len() > 0,
    ensures
        keys_below(b.kept(), b.split_key()),
        keys_from(b.moved(), b.split_key()),
{
    let s = b.sorted();
    let k = b.split_key();
    let above = s.filter(key_above(k));
    let at = s.filter(key_is(k));
    lemma_split_parts(b);
    assert forall|j: int| 0 <= j < b.kept().len() implies key_lt(#[trigger] b.kept()[j].0, k) by {
        s.lemma_filter_pred(key_below(k), j);
    }
    assert forall|j: int| 0 <= j < b.moved().len() implies key_le(k, #[trigger] b.moved()[j].0) by {
        if j < above.len() {
            s.lemma_filter_pred(key_above(k), j);
        } else {
            let h = choose|h: int| 0 <= h < b.moved().len() && (#[trigger] b.moved()[h]).0 == k;
            crate::entry::lemma_filter_partition(s, k);
            lemma_sort_by_key(b.entries);
            assert(s[b.entries.len() as int / 2].0 == k);
            assert(key_is(k)(s[b.entries.len() as int / 2]));
            s.lemma_filter_contains(key_is(k), b.entries.len() as int / 2);
            s.lemma_filter_pred(key_is(k), at.len() - 1);
        }
    }
}

/// A builder that holds no key twice does not after it was offered an entry
/// of a key that it does not hold.
pub proof fn lemma_added_strict(b: BuilderView, key: Seq<u8>, value: Seq<u8>)
    requires
        keys_increasing(b.sorted()),
        !has_key(b.entries, key),
    ensures
        keys_increasing(b.added(key, value).sorted()),
{
    let e = (key, value);
    if b.fits(key, value) {
        let s = b.sorted();
        assert(b.entries.push(e).drop_last() =~= b.entries);
        if has_key(s, key) {
            let j = choose|j: int| 0 <= j < s.len() && (#[trigger] s[j]).0 == key;
            assert(s.contains(s[j]));
            crate::entry::lemma_sort_contains(b.entries, s[j]);
            let i = choose|i: int| 0 <= i < b.entries.len() && b.entries[i] == s[j];
            assert(b.entries[i].0 == key);
        }
        crate::entry::lemma_insert_increasing(s, e);
    } else if b.replaces(key, value) {
        assert(b.entries[0].0 == key);
    }
}

/// A builder within its target size stays within it when it is offered an
/// entry that an empty block of that size can hold.
pub proof fn lemma_added_bounded(b: BuilderView, key: Seq<u8>, value: Seq<u8>)
    requires
        b.size() <= b.block_size,
        2 + entry_size((key, value)) <= b.block_size,
    ensures
        b.added(key, value).size() <= b.block_size,
{
    let e = (key, value);
    if b.fits(key, value) {
        lemma_entries_size_push(b.entries, e);
        lemma_entries_size_bounds(b.entries);
    } else if b.replaces(key, value) {
        let none = Seq::<(Seq<u8>, Seq<u8>)>::empty();
        assert(seq![e] =~= none.push(e));
        lemma_entries_size_push(none, e);
    }
}

/// After a split of a builder that holds no key twice, neither side holds a
/// key twice.
pub proof fn lemma_split_strict(b: BuilderView)
    requires
        b.entries.len() > 0,
        keys_increasing(b.sorted()),
    ensures
        keys_increasing(sort_by_key(b.kept())),
        keys_increasing(sort_by_key(b.moved())),
{
    let s = b.sorted();
    let k = b.split_key();
    let above = s.filter(key_above(k));
    let pair = b.split_pair();
    lemma_split_parts(b);
    lemma_sort_by_key(b.entries);
    crate::entry::lemma_filter_increasing(s, key_below(k));
    crate::entry::lemma_increasing_is_ordered(b.kept());
    crate::entry::lemma_sort_ordered(b.kept());
    crate::entry::lemma_filter_increasing(s, key_above(k));
    crate::entry::lemma_increasing_is_ordered(above);
    crate::entry::lemma_sort_ordered(above);
    assert(above.push(pair).drop_last() =~= above);
    assert(pair.0 == k) by {
        let at = s.filter(key_is(k));
        assert(key_is(k)(s[b.entries.len() as int / 2]));
        s.lemma_filter_contains(key_is(k), b.entries.len() as int / 2);
        s.lemma_filter_pred(key_is(k), at.len() - 1);
    }
    if has_key(above, k) {
        let j = choose|j: int| 0 <= j < above.len() && (#[trigger] above[j]).0 == k;
        s.lemma_filter_pred(key_above(k), j);
        crate::key::lemma_key_lt_asymmetric(k, above[j].0);
    }
    crate::entry::lemma_insert_increasing(above, pair);
}

/// After a split neither side is larger than the builder was.
pub proof fn lemma_split_sizes(b: BuilderView)
    requires
        b.entries.len() > 0,
    ensures
        entries_size(b.kept()) <= entries_size(b.entries),
        entries_size(b.moved()) <= entries_size(b.entries),
{
    let s = b.sorted();
    let k = b.split_key();
    let at = s.filter(key_is(k));
    lemma_sort_by_key(b.entries);
    crate::entry::lemma_filter_partition_size(s, k);
    assert(key_is(k)(s[b.entries.len() as int / 2]));
    s.lemma_filter_contains(key_is(k), b.entries.len() as int / 2);
    lemma_entries_size_push(s.filter(key_above(k)), b.split_pair());
    assert(at.drop_last().push(at.last()) =~= at);
    lemma_entries_size_push(at.drop_last(), at.last());
}

/// Builds a block.
pub struct BlockBuilder {
    kvs: Vec<(Vec<u8>, Vec<u8>)>,
    size: usize,
    block_size: usize,
    order: ByteOrder,
}

impl View for BlockBuilder {
    type V = BuilderView;

    closed spec fn view(&self) -> BuilderView {
        BuilderView {
            entries: entries_of(self.kvs@),
            block_size: self.block_size as nat,
            order: self.order,
        }
    }
}

/// The room that an entry of these lengths takes.
fn pair_size(kv: &(Vec<u8>, Vec<u8>)) -> (n: usize)
    requires
        entry_size((kv.0@, kv.1@)) <= usize::MAX,
    ensures
        n == entry_size((kv.0@, kv.1@)),
{
    6 + kv.0.len() + kv.1.len()
}

impl BlockBuilder {
    /// The size counter agrees with the entries.
    pub closed spec fn wf(&self) -> bool {
        self.size == 2 + entries_size(entries_of(self.kvs@))
    }

    /// Creates a block builder that encodes in the byte order of the host.
    pub fn new(block_size: usize) -> (b: BlockBuilder)
        ensures
            b.wf(),
            b@.entries == Seq::<(Seq<u8>, Seq<u8>)>::empty(),
            b@.block_size == block_size,
    {
        BlockBuilder::with_order(block_size, host_byte_order())
    }

    /// Creates a block builder that encodes in the given byte order.
    pub fn with_order(block_size: usize, order: ByteOrder) -> (b: BlockBuilder)
        ensures
            b.wf(),
            b@ == (BuilderView { entries: Seq::empty(), block_size: block_size as nat, order }),
    {
        let b = BlockBuilder { kvs: Vec::new(), size: 2, block_size, order };
        assert(entries_of(b.kvs@) =~= Seq::empty());
        b
    }

    /// The number of pending entries.
    pub fn len(&self) -> (n: usize)
        ensures
            n == self@.entries.len(),
    {
        self.kvs.len()
    }

    /// Whether there is no pending entry.
    pub fn is_empty(&self) -> (b: bool)
        requires
            self.wf(),
        ensures
            b == (self@.entries.len() == 0),
    {
        proof {
            lemma_entries_size_bounds(self@.entries);
        }
        self.size == 2
    }

    /// The size of the block so far.
    pub fn size(&self) -> (n: usize)
        requires
            self.wf(),
        ensures
            n == self@.size(),
    {
        self.size
    }

    /// The key of the pending entry `i`, in the order in which the entries
    /// stand.
    pub fn key_at(&self, i: usize) -> (k: &[u8])
        requires
            i < self@.entries.len(),
        ensures
            k@ == self@.entries[i as int].0,
    {
        self.kvs[i].0.as_slice()
    }

    /// The target size of the block.
    pub fn block_size(&self) -> (n: usize)
        ensures
            n == self@.block_size,
    {
        self.block_size
    }

    /// The byte order in which the block will be encoded.
    pub fn order(&self) -> (o: ByteOrder)
        ensures
            o == self@.order,
    {
        self.order
    }

    /// Offers an entry to the block. An empty block takes any entry; another
    /// takes it where the block stays within its target size. A full block of
    /// one entry with the same key takes the new value in place of the old.
    /// Returns whether the entry was taken.
    #[must_use]
    pub fn add(&mut self, key: &[u8], value: &[u8]) -> (accepted: bool)
        requires
            old(self).wf(),
            8 + key@.len() + value@.len() <= usize::MAX,
        ensures
            final(self).wf(),
            accepted == old(self)@.accepts(key@, value@),
            final(self)@ == old(self)@.added(key@, value@),
    {
        let size_add = 6 + key.len() + value.len();
        proof {
            lemma_entries_size_bounds(self@.entries);
        }
        if self.kvs.len() == 0 || (size_add <= self.block_size && self.size <= self.block_size
            - size_add) {
            proof {
                lemma_entries_size_push(self@.entries, (key@, value@));
            }
            self.kvs.push((slice_to_vec(key), slice_to_vec(value)));
            self.size = self.size + size_add;
            assert(entries_of(self.kvs@) =~= old(self)@.entries.push((key@, value@)));
            return true;
        }
        if self.kvs.len() == 1 && keys_equal(self.kvs[0].0.as_slice(), key) {
            let mut kvs: Vec<(Vec<u8>, Vec<u8>)> = Vec::new();
            kvs.push((slice_to_vec(key), slice_to_vec(value)));
            self.kvs = kvs;
            self.size = 2 + size_add;
            proof {
                let one = seq![(key@, value@)];
                assert(entries_of(self.kvs@) =~= one);
                let none = Seq::<(Seq<u8>, Seq<u8>)>::empty();
                assert(one =~= none.push((key@, value@)));
                lemma_entries_size_push(none, (key@, value@));
            }
            return true;
        }
        false
    }

    /// Divides the entries on the key of the middle entry. The entries below
    /// that key stay; those above it move to a new builder, and so does the
    /// entry of that key itself (the last one, where several have it). Both
    /// sizes are counted afresh. Returns the split key and the new builder.
    pub fn split(&mut self) -> (r: (Vec<u8>, BlockBuilder))
        requires
            old(self).wf(),
            old(self)@.entries.len() > 0,
        ensures
            final(self).wf(),
            r.1.wf(),
            r.0@ == old(self)@.split_key(),
            final(self)@ == (BuilderView { entries: old(self)@.kept(), ..old(self)@ }),
            r.1@ == (BuilderView { entries: old(self)@.moved(), ..old(self)@ }),
            keys_below(final(self)@.entries, r.0@),
            keys_from(r.1@.entries, r.0@),
    {
        let ghost view = self@;
        let ghost sorted_e = view.sorted();
        let ghost sk = view.split_key();
        proof {
            lemma_sort_by_key(view.entries);
        }
        let mut all: Vec<(Vec<u8>, Vec<u8>)> = Vec::new();
        std::mem::swap(&mut all, &mut self.kvs);
        let sorted = sort_pairs(all);
        let n = sorted.len();
        let split_idx = n / 2;
        let split_key = slice_to_vec(sorted[split_idx].0.as_slice());
        assert(split_key@ == sk);
        let ghost sorted_kvs = sorted@;
        let mut stack = reverse_pairs(sorted);
        let mut left: Vec<(Vec<u8>, Vec<u8>)> = Vec::new();
        let mut right: Vec<(Vec<u8>, Vec<u8>)> = Vec::new();
        let mut split_kv: Option<(Vec<u8>, Vec<u8>)> = None;
        let mut left_size: usize = 0;
        let mut right_size: usize = 0;
        let mut i: usize = 0;
        proof {
            reveal(Seq::filter);
            assert(sorted_e.take(0) =~= Seq::empty());
            assert(entries_of(left@) =~= Seq::empty());
            assert(entries_of(right@) =~= Seq::empty());
        }
        while i < n
            invariant
                i <= n,
                n == sorted_e.len(),
                sorted_e == entries_of(sorted_kvs),
                split_key@ == sk,
                stack@.len() == n - i,
                forall|j: int| 0 <= j < stack@.len() ==> stack@[j] == sorted_kvs[n - 1 - j],
                entries_of(left@) == sorted_e.take(i as int).filter(key_below(sk)),
                entries_of(right@) == sorted_e.take(i as int).filter(key_above(sk)),
                match split_kv {
                    Some(kv) => {
                        &&& sorted_e.take(i as int).filter(key_is(sk)).len() > 0
                        &&& sorted_e.take(i as int).filter(key_is(sk)).last() == (kv.0@, kv.1@)
                    },
                    None => sorted_e.take(i as int).filter(key_is(sk)).len() == 0,
                },
                left_size == entries_size(entries_of(left@)),
                right_size == entries_size(entries_of(right@)),
                left_size + right_size + (match split_kv {
                    Some(kv) => entry_size((kv.0@, kv.1@)),
                    None => 0,
                }) <= entries_size(sorted_e.take(i as int)),
                entries_size(sorted_e) + 2 <= usize::MAX,
            decreases n - i,
        {
            let kv = stack.pop().unwrap();
            let ghost e = (kv.0@, kv.1@);
            let ghost before = sorted_e.take(i as int);
            proof {
                assert(kv == sorted_kvs[i as int]);
                assert(sorted_e.take(i + 1) =~= before.push(e));
                lemma_filter_push(before, e, key_below(sk));
                lemma_filter_push(before, e, key_above(sk));
                lemma_filter_push(before, e, key_is(sk));
                lemma_entries_size_push(before, e);
                lemma_entries_size_take(sorted_e, i + 1);
                crate::key::lemma_key_trichotomy(e.0, sk);
            }
            let size = pair_size(&kv);
            match compare_keys(kv.0.as_slice(), split_key.as_slice()) {
                KeyOrder::Greater => {
                    proof {
                        lemma_entries_size_push(entries_of(right@), e);
                    }
                    right_size = right_size + size;
                    right.push(kv);
                    assert(entries_of(right@) =~= sorted_e.take(i + 1).filter(key_above(sk)));
                },
                KeyOrder::Less => {
                    proof {
                        lemma_entries_size_push(entries_of(left@), e);
                    }
                    left_size = left_size + size;
                    left.push(kv);
                    assert(entries_of(left@) =~= sorted_e.take(i + 1).filter(key_below(sk)));
                },
                KeyOrder::Equal => {
                    split_kv = Some(kv);
                },
            }
            i += 1;
        }
        proof {
            assert(sorted_e.take(n as int) =~= sorted_e);
            let at = sorted_e.filter(key_is(sk));
            assert(at.len() > 0) by {
                let mid = sorted_e[n as int / 2];
                assert(key_is(sk)(mid));
                sorted_e.lemma_filter_contains(key_is(sk), n as int / 2);
            }
        }
        let pair = split_kv.unwrap();
        let pair_len = pair_size(&pair);
        proof {
            lemma_entries_size_push(entries_of(right@), (pair.0@, pair.1@));
        }
        right_size = right_size + pair_len;
        right.push(pair);
        assert(entries_of(right@) =~= view.moved());
        self.kvs = left;
        self.size = 2 + left_size;
        let rhs = BlockBuilder {
            kvs: right,
            size: 2 + right_size,
            block_size: self.block_size,
            order: self.order,
        };
        proof {
            lemma_split_keys(view);
        }
        (split_key, rhs)
    }

    /// Sorts the pending entries by key and lays them out as a block. Length
    /// and offset fields keep the low sixteen bits of what they stand for.
    pub fn build(&mut self) -> (block: Block)
        requires
            old(self).wf(),
        ensures
            final(self).wf(),
            final(self)@ == (BuilderView { entries: old(self)@.sorted(), ..old(self)@ }),
            block@ == built(old(self)@.sorted(), old(self)@.order),
    {
        let ghost view = self@;
        let ghost sorted_e = view.sorted();
        proof {
            lemma_sort_by_key(view.entries);
        }
        let mut all: Vec<(Vec<u8>, Vec<u8>)> = Vec::new();
        std::mem::swap(&mut all, &mut self.kvs);
        let sorted = sort_pairs(all);
        let n = sorted.len();
        let mut data: Vec<u8> = Vec::new();
        let mut offsets: Vec<u16> = Vec::new();
        let mut i: usize = 0;
        assert(sorted_e.take(0) =~= Seq::empty());
        while i < n
            invariant
                i <= n,
                n == sorted@.len(),
                sorted_e == entries_of(sorted@),
                data@ == data_bytes(sorted_e.take(i as int), self.order),
                data@.len() == data_size(sorted_e.take(i as int)),
                offsets@ == built(sorted_e, self.order).offsets.take(i as int),
            decreases n - i,
        {
            let ghost e = sorted_e[i as int];
            proof {
                assert(sorted_e.take(i + 1).drop_last() =~= sorted_e.take(i as int));
                assert(sorted_e.take(i + 1).last() == e);
            }
            offsets.push(low16_of(data.len()));
            let ghost before = data@;
            put_u16(&mut data, low16_of(sorted[i].0.len()), self.order);
            append_bytes(&mut data, sorted[i].0.as_slice());
            put_u16(&mut data, low16_of(sorted[i].1.len()), self.order);
            append_bytes(&mut data, sorted[i].1.as_slice());
            assert(data@ =~= before + entry_bytes(e, self.order));
            i += 1;
            assert(offsets@ =~= built(sorted_e, self.order).offsets.take(i as int));
        }
        proof {
            assert(sorted_e.take(n as int) =~= sorted_e);
            assert(offsets@ =~= built(sorted_e, self.order).offsets);
        }
        self.kvs = sorted;
        Block::from_parts(data, offsets, self.order)
    }
}

} // verus!
