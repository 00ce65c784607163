//! What a table builder holds after entries were added to it, and what the
//! table built of it gives: the laws of adding entries, over the state that
//! adding leaves.

use crate::block::builder::{lemma_split_shrinks, lemma_split_single, BuilderView};
use crate::entry::{has_key, key_from, keys_increasing};
use crate::key::key_lt;
use crate::table::builder::{every_block, is_strict, lacks, within, within_but, TableBuilderView};
use crate::table::built::{
    lemma_bounded_encodable, lemma_built_table_entries, lemma_built_table_sorted,
};
use crate::table::division::{
    after_divide, carries, division, inserted, lemma_accept_holds, lemma_divide_holds,
    lemma_divide_keeps, lemma_divided_shrinks, lemma_division, lemma_placed_every,
    lemma_placed_wf, lemma_slot_exists, lemma_step_accept, lemma_step_divide, side_at,
    starts_afresh, stored,
};
use crate::table::lemma_sought_sorted;
use vstd::prelude::*;

verus! {

/// An entry that belongs into block `idx` finds its place. Afterwards a
/// block holds it, and the builder holds nothing else that it did not hold.
/// Each of three properties that held before holds then: that the blocks
/// keep to their ranges; that no block holds a key twice, where the key of
/// the entry is new; that every block is within the target size, where that
/// size can hold the entry. Where the first two held, the builder still
/// holds all that it held.
pub proof fn lemma_inserted(
    v: TableBuilderView,
    idx: int,
    e: (Seq<u8>, Seq<u8>),
    ok: bool,
    fresh: bool,
    small: bool,
)
    requires
        v.wf(),
        carries(v, idx, e, ok, fresh, small),
    ensures
        stored(inserted(v, idx, e), e, ok, fresh, small),
        within_but(inserted(v, idx, e), v, e),
        ok && fresh ==> within(v, inserted(v, idx, e)),
    decreases v.blocks[idx].entries.len(),
{
    let b0 = v.blocks[idx];
    if b0.accepts(e.0, e.1) {
        lemma_step_accept(v, idx, e, ok, fresh, small);
        lemma_accept_holds(v, idx, e);
        if fresh {
            assert(lacks(e.0)(b0));
        }
    } else {
        let d = division(b0, e.0, e.1);
        let p = v.slot(d.1);
        let w = after_divide(v, idx, d.0, p, d.1, d.2);
        let next = side_at(v, idx, p, d.1, d.3);
        lemma_slot_exists(v, d.1);
        lemma_division(b0, e.0, e.1, d.0, d.1, d.2, d.3, d.4);
        lemma_divided_shrinks(b0, e.0, e.1, d.0, d.1, d.2, d.3, d.4);
        assert(b0.block_size == v.block_size && b0.order == v.order);
        let u = TableBuilderView { blocks: v.blocks.update(idx, d.0), ..v };
        assert(u.wf()) by {
            assert forall|i: int| 0 <= i < u.len() implies (#[trigger] u.blocks[i]).block_size
                == u.block_size && u.blocks[i].order == u.order by {
                if i != idx {
                    assert(u.blocks[i] == v.blocks[i]);
                }
            }
        }
        lemma_placed_wf(u, p, d.1, d.2);
        lemma_step_divide(v, idx, e, d.0, d.1, d.2, d.3, d.4, p, ok, fresh, small);
        lemma_divide_holds(v, idx, e, d.0, d.1, d.2, d.3, d.4, p);
        if ok && fresh {
            assert(lacks(e.0)(b0));
            assert(is_strict()(b0));
            lemma_divide_keeps(v, idx, e, d.0, d.1, d.2, d.3, d.4, p);
        }
        if !d.4 {
            lemma_inserted(w, next, e, ok, fresh, small);
        }
    }
}

/// The blocks that hold an entry.
pub open spec fn is_occupied() -> spec_fn(BuilderView) -> bool {
    |b: BuilderView| b.entries.len() > 0
}

/// A block that was offered an entry holds an entry, if it held one or has
/// taken the one it was offered.
proof fn lemma_added_occupied(b: BuilderView, key: Seq<u8>, value: Seq<u8>)
    requires
        b.entries.len() > 0 || b.accepts(key, value),
    ensures
        b.added(key, value).entries.len() > 0,
{
}

/// Of a block that holds two or more entries and no key twice, a split
/// leaves an entry on the side that stays.
proof fn lemma_split_keeps_one(b: BuilderView)
    requires
        b.entries.len() >= 2,
        is_strict()(b),
    ensures
        b.kept().len() > 0,
{
    let s = b.sorted();
    let n = b.entries.len() as int;
    crate::entry::lemma_sort_by_key(b.entries);
    assert(key_lt(s[0].0, s[n / 2].0));
    assert(crate::entry::key_below(b.split_key())(s[0]));
    s.lemma_filter_contains(crate::entry::key_below(b.split_key()), 0);
}

/// Dividing a block that holds no key twice leaves an entry on both sides.
proof fn lemma_division_occupied(b0: BuilderView, key: Seq<u8>, value: Seq<u8>)
    requires
        b0.entries.len() >= 1,
        is_strict()(b0),
    ensures
        division(b0, key, value).0.entries.len() > 0,
        division(b0, key, value).2.entries.len() > 0,
{
    if !starts_afresh(b0, key) {
        let left = BuilderView { entries: b0.kept(), ..b0 };
        let right = BuilderView { entries: b0.moved(), ..b0 };
        lemma_split_shrinks(b0);
        if b0.entries.len() == 1 {
            lemma_split_single(b0);
            assert(left.accepts(key, value));
        } else {
            lemma_split_keeps_one(b0);
        }
        if key_lt(key, b0.split_key()) {
            lemma_added_occupied(left, key, value);
        } else {
            lemma_added_occupied(right, key, value);
        }
    }
}

/// An entry of a new key finds its place in a builder none of whose blocks
/// holds a key twice. Where every block but the one that the entry belongs
/// into held an entry before, every block holds one afterwards.
pub proof fn lemma_inserted_occupied(
    v: TableBuilderView,
    idx: int,
    e: (Seq<u8>, Seq<u8>),
    ok: bool,
    small: bool,
)
    requires
        v.wf(),
        carries(v, idx, e, ok, true, small),
        forall|i: int| 0 <= i < v.len() && i != idx ==> is_occupied()(#[trigger] v.blocks[i]),
    ensures
        every_block(inserted(v, idx, e), is_occupied()),
    decreases v.blocks[idx].entries.len(),
{
    let b0 = v.blocks[idx];
    if b0.accepts(e.0, e.1) {
        lemma_added_occupied(b0, e.0, e.1);
        let w = inserted(v, idx, e);
        assert forall|i: int| 0 <= i < w.len() implies is_occupied()(#[trigger] w.blocks[i]) by {
            if i != idx {
                assert(w.blocks[i] == v.blocks[i]);
            }
        }
    } else {
        let d = division(b0, e.0, e.1);
        let p = v.slot(d.1);
        let w = after_divide(v, idx, d.0, p, d.1, d.2);
        let next = side_at(v, idx, p, d.1, d.3);
        lemma_slot_exists(v, d.1);
        lemma_division(b0, e.0, e.1, d.0, d.1, d.2, d.3, d.4);
        lemma_divided_shrinks(b0, e.0, e.1, d.0, d.1, d.2, d.3, d.4);
        assert(b0.block_size == v.block_size && b0.order == v.order);
        let u = TableBuilderView { blocks: v.blocks.update(idx, d.0), ..v };
        assert(u.wf()) by {
            assert forall|i: int| 0 <= i < u.len() implies (#[trigger] u.blocks[i]).block_size
                == u.block_size && u.blocks[i].order == u.order by {
                if i != idx {
                    assert(u.blocks[i] == v.blocks[i]);
                }
            }
        }
        lemma_placed_wf(u, p, d.1, d.2);
        assert(is_strict()(b0));
        lemma_division_occupied(b0, e.0, e.1);
        assert(every_block(v, is_occupied())) by {
            assert forall|i: int| 0 <= i < v.len() implies is_occupied()(#[trigger] v.blocks[i]) by {
                if i == idx {
                    assert(b0.entries.len() > 0);
                }
            }
        }
        lemma_placed_every(v, idx, d.0, p, d.1, d.2, is_occupied());
        if !d.4 {
            lemma_step_divide(v, idx, e, d.0, d.1, d.2, d.3, d.4, p, ok, true, small);
            lemma_inserted_occupied(w, next, e, ok, small);
        }
    }
}

/// The builder after the entries of `entries` were added to it one after the
/// other.
pub open spec fn filled(v: TableBuilderView, entries: Seq<(Seq<u8>, Seq<u8>)>) -> TableBuilderView
    decreases entries.len(),
{
    if entries.len() == 0 {
        v
    } else {
        let u = filled(v, entries.drop_last());
        inserted(u, u.slot(entries.last().0), entries.last())
    }
}

/// No two of the entries have the same key.
pub open spec fn distinct_keys(entries: Seq<(Seq<u8>, Seq<u8>)>) -> bool {
    forall|i: int, j: int|
        0 <= i < j < entries.len() ==> (#[trigger] entries[i]).0 != (#[trigger] entries[j]).0
}

/// An empty block of the target size can hold each of the entries.
pub open spec fn each_fits(entries: Seq<(Seq<u8>, Seq<u8>)>, block_size: nat) -> bool {
    forall|i: int|
        0 <= i < entries.len() ==> 2 + crate::entry::entry_size(#[trigger] entries[i])
            <= block_size
}

/// A builder that holds nothing, to which entries of distinct keys are
/// added in any order, each of which an empty block can hold: its blocks
/// keep to their ranges, none holds a key twice, each is within the target
/// size, and it holds just the entries that were added. Where it had one
/// block and an entry was added, every block holds an entry.
pub proof fn lemma_filled(v: TableBuilderView, entries: Seq<(Seq<u8>, Seq<u8>)>)
    requires
        v.wf(),
        v.ranged(),
        v.strict(),
        v.bounded(),
        forall|x: (Seq<u8>, Seq<u8>)| !v.holds(x),
        distinct_keys(entries),
        each_fits(entries, v.block_size),
    ensures
        filled(v, entries).wf(),
        filled(v, entries).ranged(),
        filled(v, entries).strict(),
        filled(v, entries).bounded(),
        filled(v, entries).block_size == v.block_size,
        filled(v, entries).order == v.order,
        forall|x: (Seq<u8>, Seq<u8>)| #[trigger]
            filled(v, entries).holds(x) <==> entries.contains(x),
        v.len() == 1 && entries.len() > 0 ==> every_block(filled(v, entries), is_occupied()),
    decreases entries.len(),
{
    if entries.len() > 0 {
        let init = entries.drop_last();
        let e = entries.last();
        let u = filled(v, init);
        assert(distinct_keys(init)) by {
            assert forall|i: int, j: int| 0 <= i < j < init.len() implies (#[trigger] init[i]).0 != (
            #[trigger] init[j]).0 by {
                assert(init[i] == entries[i] && init[j] == entries[j]);
            }
        }
        assert(each_fits(init, v.block_size)) by {
            assert forall|i: int| 0 <= i < init.len() implies 2 + crate::entry::entry_size(
                #[trigger] init[i],
            ) <= v.block_size by {
                assert(init[i] == entries[i]);
            }
        }
        lemma_filled(v, init);
        lemma_slot_exists(u, e.0);
        let idx = u.slot(e.0);
        assert(every_block(u, lacks(e.0))) by {
            assert forall|i: int| 0 <= i < u.len() implies lacks(e.0)(#[trigger] u.blocks[i]) by {
                if has_key(u.blocks[i].entries, e.0) {
                    let j = choose|j: int|
                        0 <= j < u.blocks[i].entries.len() && (#[trigger] u.blocks[i].entries[j]).0
                            == e.0;
                    let x = u.blocks[i].entries[j];
                    assert(u.blocks[i].entries.contains(x));
                    assert(u.holds(x));
                    assert(init.contains(x));
                    let h = choose|h: int| 0 <= h < init.len() && init[h] == x;
                    assert(entries[h] == x);
                    assert(entries[h].0 != entries[entries.len() - 1].0);
                }
            }
        }
        assert(2 + crate::entry::entry_size(entries[entries.len() - 1]) <= v.block_size);
        assert(carries(u, idx, e, true, true, true));
        lemma_inserted(u, idx, e, true, true, true);
        if v.len() == 1 {
            if init.len() == 0 {
                assert(idx == 0);
            }
            lemma_inserted_occupied(u, idx, e, true, true);
        }
        let w = filled(v, entries);
        lemma_inserted_keeps_frame(u, idx, e);
        assert forall|x: (Seq<u8>, Seq<u8>)| #[trigger] w.holds(x) <==> entries.contains(x) by {
            if w.holds(x) {
                if x != e {
                    assert(u.holds(x));
                    let h = choose|h: int| 0 <= h < init.len() && init[h] == x;
                    assert(entries[h] == x);
                } else {
                    assert(entries[entries.len() - 1] == x);
                }
            }
            if entries.contains(x) {
                let h = choose|h: int| 0 <= h < entries.len() && entries[h] == x;
                if h < init.len() {
                    assert(init[h] == x);
                    assert(init.contains(x));
                    assert(u.holds(x));
                }
            }
        }
    }
}

/// Adding an entry leaves the target size and the byte order of the builder
/// as they were.
pub proof fn lemma_inserted_keeps_frame(v: TableBuilderView, idx: int, e: (Seq<u8>, Seq<u8>))
    requires
        v.wf(),
        0 <= idx < v.len(),
        crate::key::key_le(v.first_keys[idx], e.0),
    ensures
        inserted(v, idx, e).block_size == v.block_size,
        inserted(v, idx, e).order == v.order,
    decreases v.blocks[idx].entries.len(),
{
    let b0 = v.blocks[idx];
    if !b0.accepts(e.0, e.1) {
        let d = division(b0, e.0, e.1);
        let p = v.slot(d.1);
        let w = after_divide(v, idx, d.0, p, d.1, d.2);
        let next = side_at(v, idx, p, d.1, d.3);
        if !d.4 {
            lemma_slot_exists(v, d.1);
            lemma_division(b0, e.0, e.1, d.0, d.1, d.2, d.3, d.4);
            lemma_divided_shrinks(b0, e.0, e.1, d.0, d.1, d.2, d.3, d.4);
            assert(b0.block_size == v.block_size && b0.order == v.order);
            let u = TableBuilderView { blocks: v.blocks.update(idx, d.0), ..v };
            assert(u.wf()) by {
                assert forall|i: int| 0 <= i < u.len() implies (#[trigger] u.blocks[i]).block_size
                    == u.block_size && u.blocks[i].order == u.order by {
                    if i != idx {
                        assert(u.blocks[i] == v.blocks[i]);
                    }
                }
            }
            lemma_placed_wf(u, p, d.1, d.2);
            crate::key::lemma_key_trichotomy(e.0, d.1);
            crate::table::division::lemma_step_sides(v, idx, e.0, d.0, d.1, d.2, d.3, p);
            lemma_inserted_keeps_frame(w, next, e);
        }
    }
}

/// The table built of entries of distinct keys, added in any order to a
/// builder that holds nothing, whose target size is at most 65535 and can
/// hold each entry: the table is sorted, the first key of every block that
/// holds an entry is the key of its first entry, and the table holds just
/// the entries that were added, in the order of their keys. A seek to a key
/// that was added does not fail and stands on the entry of that key, with
/// the entries of all greater keys behind it. Where the builder had one
/// block, every block of the table holds an entry.
pub proof fn lemma_table_of_entries(
    v: TableBuilderView,
    entries: Seq<(Seq<u8>, Seq<u8>)>,
    key: Seq<u8>,
)
    requires
        v.wf(),
        v.ranged(),
        v.strict(),
        v.bounded(),
        v.block_size <= u16::MAX,
        forall|x: (Seq<u8>, Seq<u8>)| !v.holds(x),
        distinct_keys(entries),
        each_fits(entries, v.block_size),
        has_key(entries, key),
    ensures
        ({
            let t = filled(v, entries).built_table();
            let rest = t.entries().filter(key_from(key));
            &&& t.sorted()
            &&& t.first_keys_true()
            &&& keys_increasing(t.entries())
            &&& forall|x: (Seq<u8>, Seq<u8>)| #[trigger] t.entries().contains(x) <==> entries.contains(x)
            &&& t.sought(key) == Some(rest)
            &&& rest.len() > 0
            &&& rest[0].0 == key
            &&& entries.contains(rest[0])
            &&& v.len() == 1 ==> forall|i: int|
                0 <= i < t.len() ==> (#[trigger] t.block_entries(i)).len() > 0
        }),
{
    let w = filled(v, entries);
    let t = w.built_table();
    lemma_filled(v, entries);
    lemma_bounded_encodable(w);
    if v.len() == 1 {
        assert forall|i: int| 0 <= i < t.len() implies (#[trigger] t.block_entries(i)).len()
            > 0 by {
            assert(is_occupied()(w.blocks[i]));
            crate::entry::lemma_sort_by_key(w.blocks[i].entries);
            crate::table::built::lemma_built_block(w, i);
        }
    }
    lemma_built_table_sorted(w);
    lemma_built_table_entries(w);
    lemma_sought_sorted(t, key);
    let j = choose|j: int| 0 <= j < entries.len() && (#[trigger] entries[j]).0 == key;
    assert(entries.contains(entries[j]));
    assert(t.entries().contains(entries[j]));
    let h = choose|h: int| 0 <= h < t.entries().len() && t.entries()[h] == entries[j];
    crate::mem_table::lemma_key_index_unique(t.entries(), key, h);
    crate::lsm_storage::lemma_first_from_is_lookup(t.entries(), key);
    let rest = t.entries().filter(key_from(key));
    assert(rest.contains(rest[0]));
    t.entries().lemma_filter_contains_rev(key_from(key), rest[0]);
}

} // verus!
