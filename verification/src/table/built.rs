//! What a built table holds: how the blocks and meta records of the file
//! answer to the blocks of the builder.

use crate::block::{built, encodable, lemma_built_entries, lemma_decode_encode};
use crate::codec::{low32, u32_at, u32_bytes, ByteOrder};
use crate::entry::{
    keys_increasing, lemma_sort_by_key, lemma_sort_contains, lemma_subset_keys_below,
};
use crate::key::{key_le, key_lt};
use crate::table::builder::{joined, TableBuilderView};
use crate::table::{
    lemma_metas_roundtrip, meta_encodable, metas_bytes, metas_decoded, opened, MetaView,
    TableView,
};
use vstd::prelude::*;

verus! {

/// The parts in front of part `i` take no more room than those up to it,
/// and those no more than all parts.
pub proof fn lemma_joined_take(parts: Seq<Seq<u8>>, i: int)
    requires
        0 <= i <= parts.len(),
    ensures
        joined(parts.take(i)).len() <= joined(parts).len(),
        i < parts.len() ==> joined(parts.take(i + 1)).len() == joined(parts.take(i)).len()
            + parts[i].len(),
    decreases parts.len(),
{
    if i == parts.len() {
        assert(parts.take(i) =~= parts);
    } else {
        assert(parts.take(i + 1).drop_last() =~= parts.take(i));
        assert(parts.take(i + 1).last() == parts[i]);
        assert(parts.drop_last().take(i) =~= parts.take(i));
        lemma_joined_take(parts.drop_last(), i);
    }
}

/// Part `i` stands in the joined parts where the parts in front of it end.
pub proof fn lemma_joined_part(parts: Seq<Seq<u8>>, i: int)
    requires
        0 <= i < parts.len(),
    ensures
        joined(parts.take(i)).len() + parts[i].len() <= joined(parts).len(),
        joined(parts).subrange(
            joined(parts.take(i)).len() as int,
            (joined(parts.take(i)).len() + parts[i].len()) as int,
        ) == parts[i],
    decreases parts.len(),
{
    let init = parts.drop_last();
    let start = joined(parts.take(i)).len() as int;
    if i == parts.len() - 1 {
        assert(parts.take(i) =~= init);
        assert(joined(parts).subrange(start, start + parts[i].len()) =~= parts[i]);
    } else {
        assert(init.take(i) =~= parts.take(i));
        lemma_joined_part(init, i);
        assert(joined(parts).subrange(start, start + parts[i].len()) =~= joined(init).subrange(
            start,
            start + parts[i].len(),
        ));
    }
}

impl TableBuilderView {
    /// The fields of a block can hold the entries of each block.
    pub open spec fn encodable(self) -> bool {
        forall|i: int| 0 <= i < self.len() ==> encodable((#[trigger] self.blocks[i]).sorted())
    }

    /// The entries of the blocks from block `i` on, each block sorted.
    pub open spec fn content_from(self, i: int) -> Seq<(Seq<u8>, Seq<u8>)>
        decreases self.blocks.len() - i,
    {
        if 0 <= i < self.blocks.len() {
            self.blocks[i].sorted() + self.content_from(i + 1)
        } else {
            Seq::empty()
        }
    }

    /// The entries of the builder: those of its blocks in the order of
    /// their first keys, each block sorted.
    pub open spec fn content(self) -> Seq<(Seq<u8>, Seq<u8>)> {
        self.content_from(0)
    }
}

/// The entries of the builder from a block on are the entries that the
/// blocks from there on hold.
pub proof fn lemma_content_holds(v: TableBuilderView, i: int, x: (Seq<u8>, Seq<u8>))
    requires
        0 <= i <= v.len(),
    ensures
        v.content_from(i).contains(x) <==> exists|j: int|
            i <= j < v.len() && (#[trigger] v.blocks[j]).entries.contains(x),
    decreases v.len() - i,
{
    if i < v.len() {
        let a = v.blocks[i].sorted();
        let b = v.content_from(i + 1);
        lemma_content_holds(v, i + 1, x);
        lemma_sort_contains(v.blocks[i].entries, x);
        if (a + b).contains(x) {
            let h = choose|h: int| 0 <= h < (a + b).len() && (a + b)[h] == x;
            if h < a.len() {
                assert(a[h] == x);
                assert(v.blocks[i].entries.contains(x));
            } else {
                assert(b[h - a.len()] == x);
                let j = choose|j: int|
                    i + 1 <= j < v.len() && (#[trigger] v.blocks[j]).entries.contains(x);
                assert(i <= j < v.len() && v.blocks[j].entries.contains(x));
            }
        }
        if exists|j: int| i <= j < v.len() && (#[trigger] v.blocks[j]).entries.contains(x) {
            let j = choose|j: int| i <= j < v.len() && (#[trigger] v.blocks[j]).entries.contains(x);
            if j == i {
                let h = choose|h: int| 0 <= h < a.len() && a[h] == x;
                assert((a + b)[h] == x);
            } else {
                assert(i + 1 <= j < v.len() && v.blocks[j].entries.contains(x));
                let h = choose|h: int| 0 <= h < b.len() && b[h] == x;
                assert((a + b)[a.len() + h] == x);
            }
        }
    }
}

/// The table built of blocks that keep to their ranges, hold no key twice
/// and fit the fields holds, with increasing keys, the entries that the
/// builder holds, and no others.
pub proof fn lemma_built_table_entries(v: TableBuilderView)
    requires
        v.wf(),
        v.ranged(),
        v.strict(),
        v.encodable(),
    ensures
        keys_increasing(v.built_table().entries()),
        forall|x: (Seq<u8>, Seq<u8>)| #[trigger]
            v.built_table().entries().contains(x) <==> v.holds(x),
{
    lemma_built_table_sorted(v);
    crate::table::lemma_sorted_entries_increasing(v.built_table());
    assert forall|x: (Seq<u8>, Seq<u8>)| #[trigger]
        v.built_table().entries().contains(x) <==> v.holds(x) by {
        lemma_content_holds(v, 0, x);
    }
}

/// In the built table, a block whose entries fit its fields reads as the
/// sorted block of the builder.
pub proof fn lemma_built_block(v: TableBuilderView, i: int)
    requires
        v.wf(),
        0 <= i < v.len(),
        encodable(v.blocks[i].sorted()),
    ensures
        v.built_table().block_at(i) == Some(built(v.blocks[i].sorted(), v.order)),
        v.built_table().block_entries(i) == v.blocks[i].sorted(),
{
    let t = v.built_table();
    let images = v.images();
    let data = joined(images);
    let b = built(v.blocks[i].sorted(), v.order);
    lemma_joined_take(images, i);
    lemma_joined_take(images, i + 1);
    lemma_joined_part(images, i);
    assert(images.take(images.len() as int) =~= images);
    let start = joined(images.take(i)).len() as int;
    let end = start + images[i].len();
    assert(t.block_start(i) == start);
    assert(t.block_end(i) == end);
    assert(t.block_bytes(i) =~= data.subrange(start, end));
    assert(t.block_bytes(i) == b.encoded());
    lemma_built_entries(v.blocks[i].sorted(), v.order);
    lemma_decode_encode(b);
}

/// In the built table of a builder whose blocks fit the fields, the entries
/// from a block on are those of the builder.
pub proof fn lemma_built_entries_from(v: TableBuilderView, i: int)
    requires
        v.wf(),
        v.encodable(),
        0 <= i <= v.len(),
    ensures
        v.built_table().entries_from(i) == v.content_from(i),
    decreases v.len() - i,
{
    if i < v.len() {
        lemma_built_block(v, i);
        lemma_built_entries_from(v, i + 1);
    }
}

/// In a builder whose blocks keep to their ranges, the first key that the
/// table records for a block lies in the range of the block.
pub proof fn lemma_recorded_key(v: TableBuilderView, i: int)
    requires
        v.wf(),
        v.ranged(),
        0 <= i < v.len(),
    ensures
        key_le(v.first_keys[i], v.recorded_key(i)),
        i + 1 < v.len() ==> key_lt(v.recorded_key(i), v.first_keys[i + 1]),
{
    let entries = v.blocks[i].entries;
    let sorted = v.blocks[i].sorted();
    assert(v.block_in_range(i));
    if entries.len() > 0 {
        lemma_sort_by_key(entries);
        assert(sorted.contains(sorted[0]));
        lemma_sort_contains(entries, sorted[0]);
        let j = choose|j: int| 0 <= j < entries.len() && entries[j] == sorted[0];
        assert(key_le(v.first_keys[i], entries[j].0));
        if i + 1 < v.len() {
            assert(key_lt(entries[j].0, v.first_keys[i + 1]));
        }
    } else if i + 1 < v.len() {
        assert(key_lt(v.first_keys[i], v.first_keys[i + 1]));
    }
}

/// In a builder whose blocks keep to their ranges, the first keys that the
/// table records increase.
pub proof fn lemma_recorded_keys_ascend(v: TableBuilderView, i: int, j: int)
    requires
        v.wf(),
        v.ranged(),
        0 <= i < j < v.len(),
    ensures
        key_lt(v.recorded_key(i), v.recorded_key(j)),
{
    lemma_recorded_key(v, i);
    lemma_recorded_key(v, j);
    if i + 1 < j {
        assert(key_lt(v.first_keys[i + 1], v.first_keys[j]));
        crate::key::lemma_key_lt_transitive(
            v.recorded_key(i),
            v.first_keys[i + 1],
            v.first_keys[j],
        );
    }
    crate::key::lemma_key_lt_le(v.recorded_key(i), v.first_keys[j], v.recorded_key(j));
}

/// In the table built of blocks that fit the fields, the first key of every
/// block that holds an entry is the key of its first entry.
pub proof fn lemma_built_first_keys(v: TableBuilderView)
    requires
        v.wf(),
        v.encodable(),
    ensures
        v.built_table().first_keys_true(),
        forall|i: int|
            0 <= i < v.len() ==> #[trigger] v.built_table().block_entries(i)
                == v.blocks[i].sorted(),
{
    let t = v.built_table();
    assert forall|i: int| 0 <= i < v.len() implies #[trigger] t.block_entries(i)
        == v.blocks[i].sorted() by {
        lemma_built_block(v, i);
    }
    assert forall|i: int| 0 <= i < t.len() && (#[trigger] t.block_entries(i)).len()
        > 0 implies t.metas[i].first_key == t.block_entries(i)[0].0 by {
        lemma_built_block(v, i);
        lemma_sort_by_key(v.blocks[i].entries);
    }
}

/// The table built of blocks that keep to their ranges, hold no key twice
/// and fit the fields is sorted. It holds the entries of the builder, and
/// the first key of every block that holds an entry is the key of the first
/// entry of the block.
pub proof fn lemma_built_table_sorted(v: TableBuilderView)
    requires
        v.wf(),
        v.ranged(),
        v.strict(),
        v.encodable(),
    ensures
        v.built_table().ascending(),
        v.built_table().sorted(),
        v.built_table().first_keys_true(),
        v.built_table().entries() == v.content(),
{
    let t = v.built_table();
    assert forall|i: int, j: int| 0 <= i < j < t.metas.len() implies key_lt(
        (#[trigger] t.metas[i]).first_key,
        (#[trigger] t.metas[j]).first_key,
    ) by {
        lemma_recorded_keys_ascend(v, i, j);
    }
    assert forall|i: int| 0 <= i < t.len() implies #[trigger] t.block_sorted(i) by {
        lemma_built_block_in_range(v, i);
    }
    lemma_built_entries_from(v, 0);
    lemma_built_first_keys(v);
}

/// A block of the built table is sorted and holds keys of its range, from
/// its first key on and below the first key of the next block.
pub proof fn lemma_built_block_in_range(v: TableBuilderView, i: int)
    requires
        v.wf(),
        v.ranged(),
        v.strict(),
        v.encodable(),
        0 <= i < v.len(),
    ensures
        v.built_table().block_sorted(i),
{
    let t = v.built_table();
    let entries = v.blocks[i].entries;
    let sorted = v.blocks[i].sorted();
    lemma_built_block(v, i);
    lemma_built_entries(sorted, v.order);
    lemma_sort_by_key(entries);
    assert(v.block_in_range(i));
    assert forall|e: (Seq<u8>, Seq<u8>)| #[trigger] sorted.contains(e) implies entries.contains(
        e,
    ) by {
        lemma_sort_contains(entries, e);
    }
    assert(t.metas[i].first_key == v.recorded_key(i));
    assert forall|j: int| 0 <= j < sorted.len() implies key_le(
        v.recorded_key(i),
        #[trigger] sorted[j].0,
    ) by {
        if j > 0 {
            assert(key_le(sorted[0].0, sorted[j].0));
        }
    }
    if i + 1 < v.len() {
        lemma_subset_keys_below(sorted, entries, v.first_keys[i + 1]);
        lemma_recorded_key(v, i + 1);
        assert(t.metas[i + 1].first_key == v.recorded_key(i + 1));
        assert forall|j: int| 0 <= j < sorted.len() implies key_lt(
            #[trigger] sorted[j].0,
            v.recorded_key(i + 1),
        ) by {
            crate::key::lemma_key_lt_le(sorted[j].0, v.first_keys[i + 1], v.recorded_key(i + 1));
        }
    }
}

/// Blocks that stay within a target size of at most 65535 bytes fit the
/// fields of a block.
pub proof fn lemma_bounded_encodable(v: TableBuilderView)
    requires
        v.wf(),
        v.bounded(),
        v.block_size <= u16::MAX,
    ensures
        v.encodable(),
{
    assert forall|i: int| 0 <= i < v.len() implies encodable((#[trigger] v.blocks[i]).sorted()) by {
        let b = v.blocks[i];
        assert(b.size() <= v.block_size);
        lemma_sort_by_key(b.entries);
        crate::block::builder::lemma_built_len(b.sorted(), v.order);
        crate::block::lemma_small_is_encodable(b.sorted());
    }
}

/// What is read at the end of a file that ends with four bytes of an
/// integer: the integer, and in front of it what was written there.
pub proof fn lemma_file_tail(data: Seq<u8>, middle: Seq<u8>, x: u32, order: ByteOrder)
    ensures
        ({
            let file = data + middle + u32_bytes(x, order);
            &&& file.len() == data.len() + middle.len() + 4
            &&& u32_at(file, file.len() - 4, order) == x
            &&& file.subrange(data.len() as int, file.len() - 4) == middle
        }),
{
    let tail = u32_bytes(x, order);
    let file = data + middle + tail;
    assert(tail.len() == 4);
    let at = file.len() - 4;
    assert(file[at] == tail[0]);
    assert(file[at + 1] == tail[1]);
    assert(file[at + 2] == tail[2]);
    assert(file[at + 3] == tail[3]);
    crate::codec::lemma_u32_roundtrip(x, order);
    assert(file.subrange(data.len() as int, at) =~= middle);
}

/// A file made of data, meta records that fit their fields, and the length
/// of the data in four bytes opens as the table of those parts.
pub proof fn lemma_parts_open(data: Seq<u8>, metas: Seq<MetaView>, order: ByteOrder)
    requires
        data.len() <= u32::MAX,
        forall|i: int| 0 <= i < metas.len() ==> meta_encodable(#[trigger] metas[i]),
    ensures
        ({
            let file = data + metas_bytes(metas, order) + u32_bytes(
                low32(data.len() as int),
                order,
            );
            opened(file, order) == Some(
                TableView { file, metas, meta_offset: data.len(), order },
            )
        }),
{
    let middle = metas_bytes(metas, order);
    let x = low32(data.len() as int);
    let file = data + middle + u32_bytes(x, order);
    assert(x == data.len());
    assert(metas_decoded(middle, order) == Some(metas)) by {
        lemma_metas_roundtrip(metas, order);
    }
    assert(file.len() == data.len() + middle.len() + 4 && u32_at(file, file.len() - 4, order) == x
        && file.subrange(data.len() as int, file.len() - 4) == middle) by {
        lemma_file_tail(data, middle, x, order);
    }
    lemma_opened(file, order, data.len() as int, metas);
}

/// A file opens as the table of its parts, where its last four bytes give a
/// position in front of them and the room between holds meta records.
proof fn lemma_opened(file: Seq<u8>, order: ByteOrder, at: int, metas: Seq<MetaView>)
    requires
        file.len() >= 4,
        0 <= at <= file.len() - 4,
        u32_at(file, file.len() - 4, order) == at,
        metas_decoded(file.subrange(at, file.len() - 4), order) == Some(metas),
    ensures
        opened(file, order) == Some(TableView { file, metas, meta_offset: at as nat, order }),
{
}

/// The meta records of a built table fit their fields, if the blocks end
/// within the first four gigabytes and no recorded first key is longer than
/// 65535 bytes.
pub proof fn lemma_built_metas_encodable(v: TableBuilderView)
    requires
        v.first_keys.len() == v.blocks.len(),
        joined(v.images()).len() <= u32::MAX,
        forall|i: int| 0 <= i < v.len() ==> (#[trigger] v.recorded_key(i)).len() <= u16::MAX,
    ensures
        forall|i: int|
            0 <= i < v.built_metas().len() ==> meta_encodable(#[trigger] v.built_metas()[i]),
{
    let metas = v.built_metas();
    assert forall|i: int| 0 <= i < metas.len() implies meta_encodable(#[trigger] metas[i]) by {
        lemma_joined_take(v.images(), i);
        assert(v.recorded_key(i).len() <= u16::MAX);
    }
}

/// The file of a built table opens as that table, if the blocks end within
/// the first four gigabytes and no recorded first key is longer than 65535
/// bytes.
pub proof fn lemma_built_table_opens(v: TableBuilderView)
    requires
        v.wf(),
        joined(v.images()).len() <= u32::MAX,
        forall|i: int| 0 <= i < v.len() ==> (#[trigger] v.recorded_key(i)).len() <= u16::MAX,
    ensures
        opened(v.built_table().file, v.order) == Some(v.built_table()),
{
    lemma_built_metas_encodable(v);
    lemma_parts_open(joined(v.images()), v.built_metas(), v.order);
}

} // verus!
