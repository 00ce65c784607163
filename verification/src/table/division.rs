//! What dividing a full block does to a table builder: the properties of the
//! builder that each step of adding an entry keeps.

use crate::block::builder::{
    lemma_split_keys, lemma_split_parts, lemma_split_shrinks, BuilderView,
};
use crate::entry::{
    has_key, keys_below, keys_from, keys_increasing, lemma_subset_keys_below,
    lemma_subset_keys_from,
};
use crate::key::{key_le, key_lt};
use crate::table::builder::{
    every_block, is_bounded, is_strict, lacks, within, within_but, TableBuilderView,
};
use vstd::prelude::*;

verus! {

/// The block holds one entry, and the key is not below the key of that
/// entry: an entry of this key that the block rejects starts a new block.
pub open spec fn starts_afresh(b0: BuilderView, key: Seq<u8>) -> bool {
    b0.entries.len() == 1 && !key_lt(key, b0.entries[0].0)
}

/// What becomes of a block `b0` that has rejected an entry. A block of one
/// entry whose key is not above that of the new entry stays as it is, and
/// the new entry starts a new block at its key. Any other block is split,
/// and the entry is offered to the side of its key: to the new block unless
/// its key is below the split key. So a block of one entry whose key is
/// above that of the new entry gives its entry to the new block and takes
/// the new one. The outcome is the block that stays, the first key of the
/// new block, the new block, whether the entry went to the new block's
/// side, and whether it was taken.
pub open spec fn divided(
    b0: BuilderView,
    key: Seq<u8>,
    value: Seq<u8>,
    left1: BuilderView,
    sk: Seq<u8>,
    right1: BuilderView,
    go_right: bool,
    done: bool,
) -> bool {
    if starts_afresh(b0, key) {
        &&& sk == key
        &&& go_right
        &&& done
        &&& left1 == b0
        &&& right1 == (BuilderView { entries: seq![(key, value)], ..b0 })
    } else {
        let left = BuilderView { entries: b0.kept(), ..b0 };
        let right = BuilderView { entries: b0.moved(), ..b0 };
        &&& sk == b0.split_key()
        &&& go_right == !key_lt(key, sk)
        &&& if go_right {
            &&& left1 == left
            &&& right1 == right.added(key, value)
            &&& done == right.accepts(key, value)
        } else {
            &&& right1 == right
            &&& left1 == left.added(key, value)
            &&& done == left.accepts(key, value)
        }
    }
}

/// What becomes of a block that has rejected an entry, as `divided` says it:
/// the block that stays, the first key of the new block, the new block,
/// whether the entry went to the new block's side, and whether it was taken.
pub open spec fn division(b0: BuilderView, key: Seq<u8>, value: Seq<u8>) -> (
    BuilderView,
    Seq<u8>,
    BuilderView,
    bool,
    bool,
) {
    if starts_afresh(b0, key) {
        (b0, key, BuilderView { entries: seq![(key, value)], ..b0 }, true, true)
    } else {
        let left = BuilderView { entries: b0.kept(), ..b0 };
        let right = BuilderView { entries: b0.moved(), ..b0 };
        let sk = b0.split_key();
        if !key_lt(key, sk) {
            (left, sk, right.added(key, value), true, right.accepts(key, value))
        } else {
            (left.added(key, value), sk, right, false, left.accepts(key, value))
        }
    }
}

/// The outcome of dividing a block is the one that `division` gives.
pub proof fn lemma_division(
    b0: BuilderView,
    key: Seq<u8>,
    value: Seq<u8>,
    left1: BuilderView,
    sk: Seq<u8>,
    right1: BuilderView,
    go_right: bool,
    done: bool,
)
    ensures
        divided(b0, key, value, left1, sk, right1, go_right, done) <==> division(b0, key, value)
            == (left1, sk, right1, go_right, done),
{
}

/// Every key has its block in a builder.
pub proof fn lemma_slot_exists(v: TableBuilderView, key: Seq<u8>)
    requires
        v.wf(),
    ensures
        v.is_slot_of(v.slot(key), key),
{
    let i = lemma_slot_below(v, key, v.len() as int);
    assert(v.is_slot_of(i, key));
}

/// Among the first `n` blocks there is one whose first key is not above the
/// key, while that of the next of them is.
proof fn lemma_slot_below(v: TableBuilderView, key: Seq<u8>, n: int) -> (i: int)
    requires
        v.wf(),
        1 <= n <= v.len(),
        n < v.len() ==> key_lt(key, v.first_keys[n]),
    ensures
        v.is_slot_of(i, key),
    decreases n,
{
    crate::key::lemma_key_trichotomy(key, v.first_keys[n - 1]);
    if key_lt(key, v.first_keys[n - 1]) {
        if n == 1 {
            crate::key::lemma_empty_key_least(key);
            assert(v.first_keys[0] =~= Seq::<u8>::empty());
            0
        } else {
            lemma_slot_below(v, key, n - 1)
        }
    } else {
        n - 1
    }
}

/// The builder after the entry `e`, which belongs into block `idx`, found
/// its place. The block takes the entry, or it is divided and the new block
/// entered under its first key; then the entry has its place, or it belongs
/// into the side that was offered it.
pub open spec fn inserted(v: TableBuilderView, idx: int, e: (Seq<u8>, Seq<u8>)) -> TableBuilderView
    decreases v.blocks[idx].entries.len(),
    when v.wf() && 0 <= idx < v.len() && key_le(v.first_keys[idx], e.0)
    via inserted_decreases
{
    let b0 = v.blocks[idx];
    if b0.accepts(e.0, e.1) {
        TableBuilderView { blocks: v.blocks.update(idx, b0.added(e.0, e.1)), ..v }
    } else {
        let d = division(b0, e.0, e.1);
        let p = v.slot(d.1);
        let w = after_divide(v, idx, d.0, p, d.1, d.2);
        if d.4 {
            w
        } else {
            inserted(w, side_at(v, idx, p, d.1, d.3), e)
        }
    }
}

#[via_fn]
proof fn inserted_decreases(v: TableBuilderView, idx: int, e: (Seq<u8>, Seq<u8>)) {
    let b0 = v.blocks[idx];
    if !b0.accepts(e.0, e.1) {
        let d = division(b0, e.0, e.1);
        let p = v.slot(d.1);
        if !d.4 {
            lemma_division(b0, e.0, e.1, d.0, d.1, d.2, d.3, d.4);
            lemma_divided_shrinks(b0, e.0, e.1, d.0, d.1, d.2, d.3, d.4);
            lemma_slot_exists(v, d.1);
            crate::key::lemma_key_trichotomy(e.0, d.1);
            lemma_step_sides(v, idx, e.0, d.0, d.1, d.2, d.3, p);
        }
    }
}

/// The builder after block `idx` gave way to `left` and the block `right`
/// was entered under `sk`, where block `p` is the block for `sk`.
pub open spec fn after_divide(
    v: TableBuilderView,
    idx: int,
    left: BuilderView,
    p: int,
    sk: Seq<u8>,
    right: BuilderView,
) -> TableBuilderView {
    (TableBuilderView { blocks: v.blocks.update(idx, left), ..v }).placed(p, sk, right)
}

/// Where the side that was offered the entry stands after a block was
/// divided.
pub open spec fn side_at(v: TableBuilderView, idx: int, p: int, sk: Seq<u8>, go_right: bool) -> int {
    if go_right {
        v.placed_at(p, sk)
    } else if v.first_keys[p] != sk && p < idx {
        idx + 1
    } else {
        idx
    }
}

/// What holds of the builder while an entry looks for its place in block
/// `idx`: the first key of the block is not above the key of the entry, and
/// of the three properties that held when the entry came, each still holds.
/// The properties are that the blocks keep to their ranges, with the entry
/// in order; that no block holds a key twice, nor the key of the entry; and
/// that every block is within the target size, which can hold the entry.
pub open spec fn carries(
    v: TableBuilderView,
    idx: int,
    e: (Seq<u8>, Seq<u8>),
    ok: bool,
    fresh: bool,
    small: bool,
) -> bool {
    &&& 0 <= idx < v.len()
    &&& key_le(v.first_keys[idx], e.0)
    &&& ok ==> v.ranged() && v.is_slot_of(idx, e.0)
    &&& fresh ==> every_block(v, is_strict()) && every_block(v, lacks(e.0))
    &&& small ==> every_block(v, is_bounded()) && 2 + crate::entry::entry_size(e) <= v.block_size
}

/// What holds of the builder once the entry has its place: a block holds
/// it, and each of the three properties that held when it came holds.
pub open spec fn stored(
    v: TableBuilderView,
    e: (Seq<u8>, Seq<u8>),
    ok: bool,
    fresh: bool,
    small: bool,
) -> bool {
    &&& v.wf()
    &&& v.holds(e)
    &&& ok ==> v.ranged()
    &&& fresh ==> v.strict()
    &&& small ==> v.bounded()
}

/// Where every block has a property, and so have the two blocks that come
/// of dividing one of them, every block has it after the new block is
/// entered.
pub proof fn lemma_placed_every(
    v: TableBuilderView,
    idx: int,
    left: BuilderView,
    p: int,
    sk: Seq<u8>,
    right: BuilderView,
    pred: spec_fn(BuilderView) -> bool,
)
    requires
        0 <= idx < v.len(),
        0 <= p < v.len(),
        every_block(v, pred),
        pred(left),
        pred(right),
    ensures
        every_block(
            (TableBuilderView { blocks: v.blocks.update(idx, left), ..v }).placed(p, sk, right),
            pred,
        ),
{
    let u = TableBuilderView { blocks: v.blocks.update(idx, left), ..v };
    let w = u.placed(p, sk, right);
    assert forall|i: int| 0 <= i < w.len() implies pred(#[trigger] w.blocks[i]) by {
        if u.first_keys[p] == sk {
            if i == p {
            } else if i == idx {
            } else {
                assert(w.blocks[i] == v.blocks[i]);
            }
        } else {
            let j = if i <= p {
                i
            } else {
                i - 1
            };
            if i == p + 1 {
            } else if j == idx {
                assert(w.blocks[i] == left);
            } else {
                assert(w.blocks[i] == v.blocks[j]);
            }
        }
    }
}

/// The builder stays sound where a block is entered under a first key.
pub proof fn lemma_placed_wf(v: TableBuilderView, p: int, sk: Seq<u8>, b: BuilderView)
    requires
        v.wf(),
        v.is_slot_of(p, sk),
        b.block_size == v.block_size,
        b.order == v.order,
    ensures
        v.placed(p, sk, b).wf(),
{
    let w = v.placed(p, sk, b);
    if v.first_keys[p] == sk {
        assert forall|i: int| 0 <= i < w.len() implies (#[trigger] w.blocks[i]).block_size
            == w.block_size && w.blocks[i].order == w.order by {
            if i != p {
                assert(w.blocks[i] == v.blocks[i]);
            }
        }
    } else {
        assert forall|i: int, j: int| 0 <= i < j < w.first_keys.len() implies key_lt(
            #[trigger] w.first_keys[i],
            #[trigger] w.first_keys[j],
        ) by {
            let a = if i <= p { i } else { i - 1 };
            let c = if j <= p { j } else { j - 1 };
            if i == p + 1 {
                assert(w.first_keys[j] == v.first_keys[j - 1]);
                if j - 1 > p + 1 {
                    assert(key_lt(v.first_keys[p + 1], v.first_keys[j - 1]));
                    crate::key::lemma_key_lt_transitive(
                        sk,
                        v.first_keys[p + 1],
                        v.first_keys[j - 1],
                    );
                }
            } else if j == p + 1 {
                assert(w.first_keys[i] == v.first_keys[i]);
                if i < p {
                    assert(key_lt(v.first_keys[i], v.first_keys[p]));
                    crate::key::lemma_key_lt_transitive(v.first_keys[i], v.first_keys[p], sk);
                }
            } else {
                assert(w.first_keys[i] == v.first_keys[a]);
                assert(w.first_keys[j] == v.first_keys[c]);
                assert(key_lt(v.first_keys[a], v.first_keys[c]));
            }
        }
        assert forall|i: int| 0 <= i < w.len() implies (#[trigger] w.blocks[i]).block_size
            == w.block_size && w.blocks[i].order == w.order by {
            if i <= p {
                assert(w.blocks[i] == v.blocks[i]);
            } else if i > p + 1 {
                assert(w.blocks[i] == v.blocks[i - 1]);
            }
        }
        assert(w.first_keys[0] == v.first_keys[0]);
    }
}

/// The blocks keep to their ranges where block `p` gives a part of its
/// entries to a block that is entered under a key of its range.
pub proof fn lemma_placed_ranged(
    v: TableBuilderView,
    p: int,
    sk: Seq<u8>,
    left: BuilderView,
    right: BuilderView,
)
    requires
        v.wf(),
        v.ranged(),
        v.is_slot_of(p, sk),
        keys_from(left.entries, v.first_keys[p]),
        keys_below(left.entries, sk),
        p > 0 && v.first_keys[p] != sk ==> has_key(left.entries, v.first_keys[p]),
        keys_from(right.entries, sk),
        p + 1 < v.len() ==> keys_below(right.entries, v.first_keys[p + 1]),
        has_key(right.entries, sk),
    ensures
        (TableBuilderView { blocks: v.blocks.update(p, left), ..v }).placed(p, sk, right).ranged(),
{
    let u = TableBuilderView { blocks: v.blocks.update(p, left), ..v };
    let w = u.placed(p, sk, right);
    assert forall|i: int| 0 <= i < w.len() implies #[trigger] w.block_in_range(i) by {
        if v.first_keys[p] == sk {
            assert(v.block_in_range(i));
            if i != p {
                assert(w.blocks[i] == v.blocks[i]);
            }
        } else if i < p {
            assert(v.block_in_range(i));
            assert(w.blocks[i] == v.blocks[i]);
            assert(w.first_keys[i] == v.first_keys[i]);
            assert(w.first_keys[i + 1] == v.first_keys[i + 1]);
        } else if i == p {
            assert(w.blocks[i] == left);
            assert(w.first_keys[i] == v.first_keys[i]);
            assert(w.first_keys[i + 1] == sk);
        } else if i == p + 1 {
            assert(w.blocks[i] == right);
            assert(w.first_keys[i] == sk);
            if i + 1 < w.len() {
                assert(w.first_keys[i + 1] == v.first_keys[p + 1]);
            }
        } else {
            assert(v.block_in_range(i - 1));
            assert(w.blocks[i] == v.blocks[i - 1]);
            assert(w.first_keys[i] == v.first_keys[i - 1]);
            if i + 1 < w.len() {
                assert(w.first_keys[i + 1] == v.first_keys[i]);
            }
        }
    }
}

/// A block that takes an entry not below `bound` keeps its keys from `bound`
/// on.
pub proof fn lemma_added_from(b: BuilderView, key: Seq<u8>, value: Seq<u8>, bound: Seq<u8>)
    requires
        keys_from(b.entries, bound),
        key_le(bound, key),
    ensures
        keys_from(b.added(key, value).entries, bound),
{
    let a = b.added(key, value).entries;
    assert forall|i: int| 0 <= i < a.len() implies key_le(bound, #[trigger] a[i].0) by {
        if b.fits(key, value) {
            if i < b.entries.len() {
                assert(a[i] == b.entries[i]);
            }
        } else if b.replaces(key, value) {
        } else {
            assert(a[i] == b.entries[i]);
        }
    }
}

/// A block that takes an entry below `bound` keeps its keys below `bound`.
pub proof fn lemma_added_below(b: BuilderView, key: Seq<u8>, value: Seq<u8>, bound: Seq<u8>)
    requires
        keys_below(b.entries, bound),
        key_lt(key, bound),
    ensures
        keys_below(b.added(key, value).entries, bound),
{
    let a = b.added(key, value).entries;
    assert forall|i: int| 0 <= i < a.len() implies key_lt(#[trigger] a[i].0, bound) by {
        if b.fits(key, value) {
            if i < b.entries.len() {
                assert(a[i] == b.entries[i]);
            }
        } else if b.replaces(key, value) {
        } else {
            assert(a[i] == b.entries[i]);
        }
    }
}

/// A block that holds a key still holds it after it was offered an entry.
pub proof fn lemma_added_keeps_key(b: BuilderView, key: Seq<u8>, value: Seq<u8>, k: Seq<u8>)
    requires
        has_key(b.entries, k),
    ensures
        has_key(b.added(key, value).entries, k),
{
    let a = b.added(key, value).entries;
    let j = choose|j: int| 0 <= j < b.entries.len() && (#[trigger] b.entries[j]).0 == k;
    if b.fits(key, value) {
        assert(a[j] == b.entries[j]);
    } else if b.replaces(key, value) {
        assert(j == 0);
        assert(a[0].0 == k);
    } else {
        assert(a[j] == b.entries[j]);
    }
}

/// A block that accepts an entry holds it.
pub proof fn lemma_added_holds(b: BuilderView, key: Seq<u8>, value: Seq<u8>)
    requires
        b.accepts(key, value),
    ensures
        b.added(key, value).entries.contains((key, value)),
        has_key(b.added(key, value).entries, key),
{
    let a = b.added(key, value).entries;
    if b.fits(key, value) {
        assert(a[b.entries.len() as int] == (key, value));
    } else {
        assert(a[0] == (key, value));
    }
}

/// After a block is divided, the side that was offered the entry has fewer
/// entries than the block had, unless it took the entry; the side that took
/// the entry holds it.
pub proof fn lemma_divided_shrinks(
    b0: BuilderView,
    key: Seq<u8>,
    value: Seq<u8>,
    left1: BuilderView,
    sk: Seq<u8>,
    right1: BuilderView,
    go_right: bool,
    done: bool,
)
    requires
        b0.entries.len() >= 1,
        divided(b0, key, value, left1, sk, right1, go_right, done),
    ensures
        left1.block_size == b0.block_size && left1.order == b0.order,
        right1.block_size == b0.block_size && right1.order == b0.order,
        go_right ==> key_le(sk, key),
        !done && go_right ==> right1.entries.len() < b0.entries.len(),
        !done && !go_right ==> left1.entries.len() < b0.entries.len(),
        done && go_right ==> right1.entries.contains((key, value)),
        done && !go_right ==> left1.entries.contains((key, value)),
{
    if starts_afresh(b0, key) {
        assert(right1.entries[0] == (key, value));
    } else {
        lemma_split_shrinks(b0);
        if b0.entries.len() == 1 {
            crate::block::builder::lemma_split_single(b0);
        }
        crate::key::lemma_key_trichotomy(key, sk);
        let left = BuilderView { entries: b0.kept(), ..b0 };
        let right = BuilderView { entries: b0.moved(), ..b0 };
        if done {
            if go_right {
                lemma_added_holds(right, key, value);
            } else {
                lemma_added_holds(left, key, value);
            }
        }
    }
}

/// Dividing a block that holds no key twice and does not hold the key of
/// the entry leaves two such blocks, but that the side that took the entry
/// holds its key.
pub proof fn lemma_divided_strict(
    b0: BuilderView,
    key: Seq<u8>,
    value: Seq<u8>,
    left1: BuilderView,
    sk: Seq<u8>,
    right1: BuilderView,
    go_right: bool,
    done: bool,
)
    requires
        b0.entries.len() >= 1,
        keys_increasing(b0.sorted()),
        !has_key(b0.entries, key),
        divided(b0, key, value, left1, sk, right1, go_right, done),
    ensures
        keys_increasing(left1.sorted()),
        keys_increasing(right1.sorted()),
        !done ==> !has_key(left1.entries, key) && !has_key(right1.entries, key),
{
    if starts_afresh(b0, key) {
        let none = BuilderView { entries: Seq::empty(), ..b0 };
        assert(none.added(key, value).entries =~= right1.entries);
        assert(!has_key(none.entries, key));
        crate::block::builder::lemma_added_strict(none, key, value);
    } else {
        let left = BuilderView { entries: b0.kept(), ..b0 };
        let right = BuilderView { entries: b0.moved(), ..b0 };
        lemma_split_parts(b0);
        crate::block::builder::lemma_split_strict(b0);
        assert(!has_key(left.entries, key)) by {
            if has_key(left.entries, key) {
                let j = choose|j: int|
                    0 <= j < left.entries.len() && (#[trigger] left.entries[j]).0 == key;
                assert(left.entries.contains(left.entries[j]));
                let i = choose|i: int| 0 <= i < b0.entries.len() && b0.entries[i] == left.entries[j];
                assert(b0.entries[i].0 == key);
            }
        }
        assert(!has_key(right.entries, key)) by {
            if has_key(right.entries, key) {
                let j = choose|j: int|
                    0 <= j < right.entries.len() && (#[trigger] right.entries[j]).0 == key;
                assert(right.entries.contains(right.entries[j]));
                let i = choose|i: int|
                    0 <= i < b0.entries.len() && b0.entries[i] == right.entries[j];
                assert(b0.entries[i].0 == key);
            }
        }
        if go_right {
            crate::block::builder::lemma_added_strict(right, key, value);
        } else {
            crate::block::builder::lemma_added_strict(left, key, value);
        }
    }
}

/// Dividing a block within its target size leaves two blocks within it, if
/// an empty block of that size can hold the entry.
pub proof fn lemma_divided_bounded(
    b0: BuilderView,
    key: Seq<u8>,
    value: Seq<u8>,
    left1: BuilderView,
    sk: Seq<u8>,
    right1: BuilderView,
    go_right: bool,
    done: bool,
)
    requires
        b0.entries.len() >= 1,
        b0.size() <= b0.block_size,
        2 + crate::entry::entry_size((key, value)) <= b0.block_size,
        divided(b0, key, value, left1, sk, right1, go_right, done),
    ensures
        left1.size() <= left1.block_size,
        right1.size() <= right1.block_size,
{
    if starts_afresh(b0, key) {
        let none = Seq::<(Seq<u8>, Seq<u8>)>::empty();
        assert(seq![(key, value)] =~= none.push((key, value)));
        crate::entry::lemma_entries_size_push(none, (key, value));
    } else {
        let left = BuilderView { entries: b0.kept(), ..b0 };
        let right = BuilderView { entries: b0.moved(), ..b0 };
        crate::block::builder::lemma_split_sizes(b0);
        if go_right {
            crate::block::builder::lemma_added_bounded(right, key, value);
        } else {
            crate::block::builder::lemma_added_bounded(left, key, value);
        }
    }
}

/// In a builder whose blocks keep to their ranges, dividing the block for a
/// key leaves two blocks that keep to theirs: the split key is a key of the
/// block's range, the block that stays holds keys below it, and the new
/// block holds keys from it on.
pub proof fn lemma_divided_ranged(
    v: TableBuilderView,
    idx: int,
    key: Seq<u8>,
    value: Seq<u8>,
    left1: BuilderView,
    sk: Seq<u8>,
    right1: BuilderView,
    go_right: bool,
    done: bool,
)
    requires
        v.wf(),
        v.ranged(),
        v.is_slot_of(idx, key),
        v.blocks[idx].entries.len() >= 1,
        !v.blocks[idx].accepts(key, value),
        divided(v.blocks[idx], key, value, left1, sk, right1, go_right, done),
    ensures
        v.is_slot_of(idx, sk),
        keys_from(left1.entries, v.first_keys[idx]),
        keys_below(left1.entries, sk),
        idx > 0 && v.first_keys[idx] != sk ==> has_key(left1.entries, v.first_keys[idx]),
        keys_from(right1.entries, sk),
        idx + 1 < v.len() ==> keys_below(right1.entries, v.first_keys[idx + 1]),
        has_key(right1.entries, sk),
        !go_right ==> key_lt(key, sk),
{
    let b0 = v.blocks[idx];
    let fk = v.first_keys[idx];
    assert(v.block_in_range(idx));
    crate::key::lemma_key_trichotomy(key, sk);
    crate::key::lemma_key_trichotomy(fk, sk);
    if starts_afresh(b0, key) {
        let e = b0.entries[0];
        assert(e.0 != key);
        assert(right1.entries[0] == (key, value));
        crate::key::lemma_key_trichotomy(e.0, key);
        assert(key_lt(e.0, key));
        assert(key_le(fk, e.0));
        crate::key::lemma_key_le_lt(fk, e.0, key);
    } else {
        lemma_split_parts(b0);
        lemma_split_keys(b0);
        let left = BuilderView { entries: b0.kept(), ..b0 };
        let right = BuilderView { entries: b0.moved(), ..b0 };
        lemma_subset_keys_from(left.entries, b0.entries, fk);
        lemma_subset_keys_from(right.entries, b0.entries, fk);
        let j = choose|j: int| 0 <= j < b0.entries.len() && (#[trigger] b0.entries[j]).0 == sk;
        assert(key_le(fk, b0.entries[j].0));
        if idx + 1 < v.len() {
            lemma_subset_keys_below(left.entries, b0.entries, v.first_keys[idx + 1]);
            lemma_subset_keys_below(right.entries, b0.entries, v.first_keys[idx + 1]);
            assert(key_lt(b0.entries[j].0, v.first_keys[idx + 1]));
        }
        if idx > 0 && fk != sk {
            let i = choose|i: int| 0 <= i < b0.entries.len() && (#[trigger] b0.entries[i]).0 == fk;
            assert(b0.entries.contains(b0.entries[i]));
            assert(b0.kept().contains(b0.entries[i]));
            let h = choose|h: int| 0 <= h < left.entries.len() && left.entries[h] == b0.entries[i];
            assert(left.entries[h].0 == fk);
        }
        if go_right {
            lemma_added_from(right, key, value, sk);
            lemma_added_keeps_key(right, key, value, sk);
            if idx + 1 < v.len() {
                lemma_added_below(right, key, value, v.first_keys[idx + 1]);
            }
        } else {
            lemma_added_from(left, key, value, fk);
            lemma_added_below(left, key, value, sk);
            if idx > 0 && fk != sk {
                lemma_added_keeps_key(left, key, value, fk);
            }
        }
    }
}

/// The block for a key is the only block for it.
pub proof fn lemma_slot_unique(v: TableBuilderView, i: int, j: int, key: Seq<u8>)
    requires
        v.wf(),
        v.is_slot_of(i, key),
        v.is_slot_of(j, key),
    ensures
        i == j,
{
    if i < j {
        if i + 1 < j {
            assert(key_lt(v.first_keys[i + 1], v.first_keys[j]));
            crate::key::lemma_key_lt_transitive(key, v.first_keys[i + 1], v.first_keys[j]);
        }
        crate::key::lemma_key_trichotomy(key, v.first_keys[j]);
    } else if j < i {
        if j + 1 < i {
            assert(key_lt(v.first_keys[j + 1], v.first_keys[i]));
            crate::key::lemma_key_lt_transitive(key, v.first_keys[j + 1], v.first_keys[i]);
        }
        crate::key::lemma_key_trichotomy(key, v.first_keys[i]);
    }
}

/// What a block holds after it was offered an entry, it held before, but
/// for the entry; and it still holds what it held, if it did not hold the
/// key of the entry.
pub proof fn lemma_added_entries(b: BuilderView, key: Seq<u8>, value: Seq<u8>)
    ensures
        forall|x: (Seq<u8>, Seq<u8>)|
            #[trigger] b.added(key, value).entries.contains(x) ==> b.entries.contains(x) || x == (
                key,
                value,
            ),
        !has_key(b.entries, key) ==> forall|x: (Seq<u8>, Seq<u8>)|
            #[trigger] b.entries.contains(x) ==> b.added(key, value).entries.contains(x),
{
    let a = b.added(key, value).entries;
    assert forall|x: (Seq<u8>, Seq<u8>)| #[trigger] a.contains(x) implies b.entries.contains(x)
        || x == (key, value) by {
        let j = choose|j: int| 0 <= j < a.len() && a[j] == x;
        if b.fits(key, value) {
            if j < b.entries.len() {
                assert(b.entries[j] == x);
            }
        } else if b.replaces(key, value) {
        } else {
        }
    }
    if !has_key(b.entries, key) {
        assert forall|x: (Seq<u8>, Seq<u8>)| #[trigger] b.entries.contains(x) implies a.contains(
            x,
        ) by {
            let j = choose|j: int| 0 <= j < b.entries.len() && b.entries[j] == x;
            if b.fits(key, value) {
                assert(a[j] == x);
            } else if b.replaces(key, value) {
                assert(b.entries[0].0 == key);
            }
        }
    }
}

/// The two blocks that come of dividing a block hold nothing but what the
/// block held and, if it was taken, the entry. Where the block held no key
/// twice, nor the key of the entry, they hold between them all that it held.
pub proof fn lemma_divided_entries(
    b0: BuilderView,
    key: Seq<u8>,
    value: Seq<u8>,
    left1: BuilderView,
    sk: Seq<u8>,
    right1: BuilderView,
    go_right: bool,
    done: bool,
)
    requires
        b0.entries.len() >= 1,
        divided(b0, key, value, left1, sk, right1, go_right, done),
    ensures
        forall|x: (Seq<u8>, Seq<u8>)|
            #[trigger] left1.entries.contains(x) ==> b0.entries.contains(x) || (done && x == (
                key,
                value,
            )),
        forall|x: (Seq<u8>, Seq<u8>)|
            #[trigger] right1.entries.contains(x) ==> b0.entries.contains(x) || (done && x == (
                key,
                value,
            )),
        keys_increasing(b0.sorted()) && !has_key(b0.entries, key) ==> forall|
            x: (Seq<u8>, Seq<u8>),
        |
            #[trigger] b0.entries.contains(x) ==> left1.entries.contains(x)
                || right1.entries.contains(x),
{
    let e = (key, value);
    if starts_afresh(b0, key) {
        assert forall|x: (Seq<u8>, Seq<u8>)| #[trigger] right1.entries.contains(x) implies x
            == e by {
            let j = choose|j: int| 0 <= j < right1.entries.len() && right1.entries[j] == x;
        }
        if keys_increasing(b0.sorted()) && !has_key(b0.entries, key) {
            assert forall|x: (Seq<u8>, Seq<u8>)| #[trigger]
                b0.entries.contains(x) implies left1.entries.contains(x)
                || right1.entries.contains(x) by {}
        }
    } else {
        let left = BuilderView { entries: b0.kept(), ..b0 };
        let right = BuilderView { entries: b0.moved(), ..b0 };
        lemma_split_parts(b0);
        lemma_added_entries(left, key, value);
        lemma_added_entries(right, key, value);
        if keys_increasing(b0.sorted()) && !has_key(b0.entries, key) {
            assert(!has_key(left.entries, key)) by {
                if has_key(left.entries, key) {
                    let j = choose|j: int|
                        0 <= j < left.entries.len() && (#[trigger] left.entries[j]).0 == key;
                    assert(left.entries.contains(left.entries[j]));
                    let i = choose|i: int|
                        0 <= i < b0.entries.len() && b0.entries[i] == left.entries[j];
                    assert(b0.entries[i].0 == key);
                }
            }
            assert(!has_key(right.entries, key)) by {
                if has_key(right.entries, key) {
                    let j = choose|j: int|
                        0 <= j < right.entries.len() && (#[trigger] right.entries[j]).0 == key;
                    assert(right.entries.contains(right.entries[j]));
                    let i = choose|i: int|
                        0 <= i < b0.entries.len() && b0.entries[i] == right.entries[j];
                    assert(b0.entries[i].0 == key);
                }
            }
            assert forall|x: (Seq<u8>, Seq<u8>)| #[trigger]
                b0.entries.contains(x) implies left1.entries.contains(x)
                || right1.entries.contains(x) by {
                crate::key::lemma_key_trichotomy(x.0, sk);
                if x.0 == sk {
                    lemma_split_pair_unique(b0, x);
                    let above = b0.sorted().filter(crate::entry::key_above(sk));
                    assert(b0.moved()[above.len() as int] == x);
                    assert(right.entries.contains(x));
                } else if key_lt(x.0, sk) {
                    assert(left.entries.contains(x));
                } else {
                    assert(right.entries.contains(x));
                }
            }
        }
    }
}

/// In a block that holds no key twice, the entry of the split key is the
/// one that a split moves.
pub proof fn lemma_split_pair_unique(b: BuilderView, x: (Seq<u8>, Seq<u8>))
    requires
        b.entries.len() > 0,
        keys_increasing(b.sorted()),
        b.entries.contains(x),
        x.0 == b.split_key(),
    ensures
        x == b.split_pair(),
{
    let s = b.sorted();
    let k = b.split_key();
    let at = s.filter(crate::entry::key_is(k));
    crate::entry::lemma_sort_by_key(b.entries);
    crate::entry::lemma_sort_contains(b.entries, x);
    let j = choose|j: int| 0 <= j < s.len() && s[j] == x;
    let mid = b.entries.len() as int / 2;
    assert(crate::entry::key_is(k)(s[mid]));
    s.lemma_filter_contains(crate::entry::key_is(k), mid);
    let pair = at.last();
    assert(at.contains(pair));
    s.lemma_filter_contains_rev(crate::entry::key_is(k), pair);
    s.lemma_filter_pred(crate::entry::key_is(k), at.len() - 1);
    let h = choose|h: int| 0 <= h < s.len() && s[h] == pair;
    if h < j {
        assert(key_lt(s[h].0, s[j].0));
        crate::key::lemma_key_lt_asymmetric(s[h].0, s[j].0);
    } else if j < h {
        assert(key_lt(s[j].0, s[h].0));
        crate::key::lemma_key_lt_asymmetric(s[j].0, s[h].0);
    }
}

/// What the builder holds after a block took an entry, it held before, but
/// for the entry; and it still holds what it held, if the block did not
/// hold the key of the entry.
pub proof fn lemma_accept_holds(v: TableBuilderView, idx: int, e: (Seq<u8>, Seq<u8>))
    requires
        0 <= idx < v.len(),
    ensures
        within_but(
            TableBuilderView { blocks: v.blocks.update(idx, v.blocks[idx].added(e.0, e.1)), ..v },
            v,
            e,
        ),
        !has_key(v.blocks[idx].entries, e.0) ==> within(
            v,
            TableBuilderView { blocks: v.blocks.update(idx, v.blocks[idx].added(e.0, e.1)), ..v },
        ),
{
    let b0 = v.blocks[idx];
    let w = TableBuilderView { blocks: v.blocks.update(idx, b0.added(e.0, e.1)), ..v };
    lemma_added_entries(b0, e.0, e.1);
    assert forall|x: (Seq<u8>, Seq<u8>)| #[trigger] w.holds(x) implies v.holds(x) || x == e by {
        let i = choose|i: int| 0 <= i < w.len() && (#[trigger] w.blocks[i]).entries.contains(x);
        if i == idx {
            if x != e {
                assert(v.blocks[idx].entries.contains(x));
            }
        } else {
            assert(v.blocks[i].entries.contains(x));
        }
    }
    if !has_key(b0.entries, e.0) {
        assert forall|x: (Seq<u8>, Seq<u8>)| #[trigger] v.holds(x) implies w.holds(x) by {
            let i = choose|i: int| 0 <= i < v.len() && (#[trigger] v.blocks[i]).entries.contains(x);
            if i == idx {
                assert(w.blocks[idx].entries.contains(x));
            } else {
                assert(w.blocks[i].entries.contains(x));
            }
        }
    }
}

/// What the builder holds after a block was divided, it held before, but
/// for the entry if that was taken.
pub proof fn lemma_divide_holds(
    v: TableBuilderView,
    idx: int,
    e: (Seq<u8>, Seq<u8>),
    left1: BuilderView,
    sk: Seq<u8>,
    right1: BuilderView,
    go_right: bool,
    done: bool,
    p: int,
)
    requires
        v.first_keys.len() == v.blocks.len(),
        0 <= idx < v.len(),
        0 <= p < v.len(),
        v.blocks[idx].entries.len() >= 1,
        divided(v.blocks[idx], e.0, e.1, left1, sk, right1, go_right, done),
    ensures
        done ==> within_but(after_divide(v, idx, left1, p, sk, right1), v, e),
        !done ==> within(after_divide(v, idx, left1, p, sk, right1), v),
{
    let w = after_divide(v, idx, left1, p, sk, right1);
    let b0 = v.blocks[idx];
    lemma_divided_entries(b0, e.0, e.1, left1, sk, right1, go_right, done);
    assert forall|x: (Seq<u8>, Seq<u8>)| #[trigger] w.holds(x) implies v.holds(x) || (done && x
        == e) by {
        let i = choose|i: int| 0 <= i < w.len() && (#[trigger] w.blocks[i]).entries.contains(x);
        let src = lemma_block_origin(v, idx, left1, p, sk, right1, i);
        if src == -1 {
            assert(left1.entries.contains(x));
            if !(done && x == e) {
                assert(v.blocks[idx].entries.contains(x));
            }
        } else if src == -2 {
            assert(right1.entries.contains(x));
            if !(done && x == e) {
                assert(v.blocks[idx].entries.contains(x));
            }
        } else {
            assert(v.blocks[src].entries.contains(x));
        }
    }
}

/// Where block `i` of the builder after a division comes from: -1 for the
/// block that stayed, -2 for the new block, else the index that the block
/// had before.
pub proof fn lemma_block_origin(
    v: TableBuilderView,
    idx: int,
    left1: BuilderView,
    p: int,
    sk: Seq<u8>,
    right1: BuilderView,
    i: int,
) -> (src: int)
    requires
        v.first_keys.len() == v.blocks.len(),
        0 <= idx < v.len(),
        0 <= p < v.len(),
        0 <= i < after_divide(v, idx, left1, p, sk, right1).len(),
    ensures
        src == -1 ==> after_divide(v, idx, left1, p, sk, right1).blocks[i] == left1,
        src == -2 ==> after_divide(v, idx, left1, p, sk, right1).blocks[i] == right1,
        src >= 0 ==> 0 <= src < v.len() && src != idx && after_divide(
            v,
            idx,
            left1,
            p,
            sk,
            right1,
        ).blocks[i] == v.blocks[src],
        src >= -2,
{
    if v.first_keys[p] == sk {
        if i == p {
            -2
        } else if i == idx {
            -1
        } else {
            i
        }
    } else {
        if i == p + 1 {
            -2
        } else {
            let j = if i <= p {
                i
            } else {
                i - 1
            };
            if j == idx {
                -1
            } else {
                j
            }
        }
    }
}

/// The builder holds after a division all that it held, where its blocks
/// keep to their ranges with the entry in order, and the divided block held
/// no key twice, nor the key of the entry.
pub proof fn lemma_divide_keeps(
    v: TableBuilderView,
    idx: int,
    e: (Seq<u8>, Seq<u8>),
    left1: BuilderView,
    sk: Seq<u8>,
    right1: BuilderView,
    go_right: bool,
    done: bool,
    p: int,
)
    requires
        v.wf(),
        v.ranged(),
        v.is_slot_of(idx, e.0),
        v.blocks[idx].entries.len() >= 1,
        !v.blocks[idx].accepts(e.0, e.1),
        divided(v.blocks[idx], e.0, e.1, left1, sk, right1, go_right, done),
        v.is_slot_of(p, sk),
        keys_increasing(v.blocks[idx].sorted()),
        !has_key(v.blocks[idx].entries, e.0),
    ensures
        within(v, after_divide(v, idx, left1, p, sk, right1)),
{
    let w = after_divide(v, idx, left1, p, sk, right1);
    let b0 = v.blocks[idx];
    lemma_divided_ranged(v, idx, e.0, e.1, left1, sk, right1, go_right, done);
    lemma_slot_unique(v, idx, p, sk);
    lemma_divided_entries(b0, e.0, e.1, left1, sk, right1, go_right, done);
    let at = v.placed_at(p, sk);
    assert(w.blocks[at] == right1);
    assert forall|x: (Seq<u8>, Seq<u8>)| #[trigger] v.holds(x) implies w.holds(x) by {
        let i = choose|i: int| 0 <= i < v.len() && (#[trigger] v.blocks[i]).entries.contains(x);
        if i == idx {
            if right1.entries.contains(x) {
                assert(w.blocks[at].entries.contains(x));
            } else {
                assert(left1.entries.contains(x));
                assert(v.first_keys[idx] != sk) by {
                    let j = choose|j: int| 0 <= j < left1.entries.len() && left1.entries[j] == x;
                    assert(key_le(v.first_keys[idx], left1.entries[j].0));
                    assert(key_lt(left1.entries[j].0, sk));
                    if v.first_keys[idx] == sk {
                        crate::key::lemma_key_le_lt(sk, x.0, sk);
                        crate::key::lemma_key_lt_asymmetric(sk, sk);
                    }
                }
                assert(w.blocks[idx] == left1);
                assert(w.blocks[idx].entries.contains(x));
            }
        } else {
            let j = if v.first_keys[p] == sk || i <= p {
                i
            } else {
                i + 1
            };
            assert(w.blocks[j] == v.blocks[i]);
            assert(w.blocks[j].entries.contains(x));
        }
    }
}

/// The block for the entry takes it: the entry has its place.
pub proof fn lemma_step_accept(
    v: TableBuilderView,
    idx: int,
    e: (Seq<u8>, Seq<u8>),
    ok: bool,
    fresh: bool,
    small: bool,
)
    requires
        v.wf(),
        carries(v, idx, e, ok, fresh, small),
        v.blocks[idx].accepts(e.0, e.1),
    ensures
        stored(
            TableBuilderView { blocks: v.blocks.update(idx, v.blocks[idx].added(e.0, e.1)), ..v },
            e,
            ok,
            fresh,
            small,
        ),
{
    let b0 = v.blocks[idx];
    let w = TableBuilderView { blocks: v.blocks.update(idx, b0.added(e.0, e.1)), ..v };
    assert forall|i: int| 0 <= i < w.len() implies (#[trigger] w.blocks[i]).block_size
        == w.block_size && w.blocks[i].order == w.order by {
        assert(v.blocks[i].block_size == v.block_size);
    }
    lemma_added_holds(b0, e.0, e.1);
    assert(w.blocks[idx].entries.contains(e));
    if ok {
        lemma_add_ranged(v, idx, e.0, e.1);
    }
    if fresh {
        assert(lacks(e.0)(b0));
        assert(is_strict()(b0));
        crate::block::builder::lemma_added_strict(b0, e.0, e.1);
        assert forall|i: int| 0 <= i < w.len() implies is_strict()(#[trigger] w.blocks[i]) by {
            if i != idx {
                assert(w.blocks[i] == v.blocks[i]);
            }
        }
    }
    if small {
        assert(is_bounded()(b0));
        crate::block::builder::lemma_added_bounded(b0, e.0, e.1);
        assert forall|i: int| 0 <= i < w.len() implies is_bounded()(#[trigger] w.blocks[i]) by {
            if i != idx {
                assert(w.blocks[i] == v.blocks[i]);
            }
        }
    }
}

/// Where the sides stand after a block was divided and the new block was
/// entered: the side that was offered the entry is a block whose first key
/// is not above the key of the entry.
pub proof fn lemma_step_sides(
    v: TableBuilderView,
    idx: int,
    key: Seq<u8>,
    left1: BuilderView,
    sk: Seq<u8>,
    right1: BuilderView,
    go_right: bool,
    p: int,
)
    requires
        v.wf(),
        0 <= idx < v.len(),
        key_le(v.first_keys[idx], key),
        v.is_slot_of(p, sk),
        go_right ==> key_le(sk, key),
        !go_right ==> key_lt(key, sk),
    ensures
        ({
            let w = after_divide(v, idx, left1, p, sk, right1);
            let next = side_at(v, idx, p, sk, go_right);
            &&& 0 <= next < w.len()
            &&& key_le(w.first_keys[next], key)
            &&& w.blocks[next] == if go_right {
                right1
            } else {
                left1
            }
            &&& w.first_keys[next] == if go_right {
                sk
            } else {
                v.first_keys[idx]
            }
        }),
{
    if !go_right {
        crate::key::lemma_key_trichotomy(key, sk);
        crate::key::lemma_key_trichotomy(v.first_keys[idx], sk);
        if v.first_keys[p] == sk && p == idx {
            crate::key::lemma_key_le_lt(sk, key, sk);
            crate::key::lemma_key_lt_asymmetric(sk, sk);
        }
    }
}

/// A step of dividing the block that has rejected the entry: afterwards the
/// entry has its place, or it looks for its place in a block with fewer
/// entries.
pub proof fn lemma_step_divide(
    v: TableBuilderView,
    idx: int,
    e: (Seq<u8>, Seq<u8>),
    left1: BuilderView,
    sk: Seq<u8>,
    right1: BuilderView,
    go_right: bool,
    done: bool,
    p: int,
    ok: bool,
    fresh: bool,
    small: bool,
)
    requires
        v.wf(),
        carries(v, idx, e, ok, fresh, small),
        v.blocks[idx].entries.len() >= 1,
        !v.blocks[idx].accepts(e.0, e.1),
        divided(v.blocks[idx], e.0, e.1, left1, sk, right1, go_right, done),
        v.is_slot_of(p, sk),
        after_divide(v, idx, left1, p, sk, right1).wf(),
    ensures
        ({
            let w = after_divide(v, idx, left1, p, sk, right1);
            let next = side_at(v, idx, p, sk, go_right);
            if done {
                stored(w, e, ok, fresh, small)
            } else {
                &&& carries(w, next, e, ok, fresh, small)
                &&& w.blocks[next].entries.len() < v.blocks[idx].entries.len()
            }
        }),
{
    let b0 = v.blocks[idx];
    let w = after_divide(v, idx, left1, p, sk, right1);
    let next = side_at(v, idx, p, sk, go_right);
    lemma_divided_shrinks(b0, e.0, e.1, left1, sk, right1, go_right, done);
    crate::key::lemma_key_trichotomy(e.0, sk);
    if b0.entries.len() > 1 {
        assert(go_right == !key_lt(e.0, sk));
    }
    lemma_step_sides(v, idx, e.0, left1, sk, right1, go_right, p);
    if done {
        assert(w.blocks[next].entries.contains(e));
    }
    if ok {
        lemma_step_ranged(v, idx, e, left1, sk, right1, go_right, done, p);
    }
    if fresh {
        assert(lacks(e.0)(b0));
        assert(is_strict()(b0));
        lemma_divided_strict(b0, e.0, e.1, left1, sk, right1, go_right, done);
        lemma_placed_every(v, idx, left1, p, sk, right1, is_strict());
        if !done {
            lemma_placed_every(v, idx, left1, p, sk, right1, lacks(e.0));
        }
    }
    if small {
        assert(is_bounded()(b0));
        lemma_divided_bounded(b0, e.0, e.1, left1, sk, right1, go_right, done);
        lemma_placed_every(v, idx, left1, p, sk, right1, is_bounded());
    }
}

/// A step of dividing keeps the blocks to their ranges, and the side that
/// was offered the entry is the block for its key.
pub proof fn lemma_step_ranged(
    v: TableBuilderView,
    idx: int,
    e: (Seq<u8>, Seq<u8>),
    left1: BuilderView,
    sk: Seq<u8>,
    right1: BuilderView,
    go_right: bool,
    done: bool,
    p: int,
)
    requires
        v.wf(),
        v.ranged(),
        v.is_slot_of(idx, e.0),
        v.blocks[idx].entries.len() >= 1,
        !v.blocks[idx].accepts(e.0, e.1),
        divided(v.blocks[idx], e.0, e.1, left1, sk, right1, go_right, done),
        v.is_slot_of(p, sk),
    ensures
        ({
            let w = after_divide(v, idx, left1, p, sk, right1);
            let next = side_at(v, idx, p, sk, go_right);
            &&& p == idx
            &&& w.ranged()
            &&& w.is_slot_of(next, e.0)
        }),
{
    let w = after_divide(v, idx, left1, p, sk, right1);
    let next = side_at(v, idx, p, sk, go_right);
    lemma_divided_ranged(v, idx, e.0, e.1, left1, sk, right1, go_right, done);
    lemma_divided_shrinks(v.blocks[idx], e.0, e.1, left1, sk, right1, go_right, done);
    lemma_slot_unique(v, idx, p, sk);
    lemma_placed_ranged(v, idx, sk, left1, right1);
    crate::key::lemma_key_trichotomy(e.0, sk);
    lemma_step_sides(v, idx, e.0, left1, sk, right1, go_right, p);
    if go_right {
        if next + 1 < w.len() {
            assert(w.first_keys[next + 1] == v.first_keys[idx + 1]);
        }
    } else {
        assert(w.first_keys[next + 1] == sk);
    }
}

/// A block that takes an entry of its range keeps the blocks to their
/// ranges.
pub proof fn lemma_add_ranged(v: TableBuilderView, idx: int, key: Seq<u8>, value: Seq<u8>)
    requires
        v.wf(),
        v.ranged(),
        v.is_slot_of(idx, key),
    ensures
        (TableBuilderView {
            blocks: v.blocks.update(idx, v.blocks[idx].added(key, value)),
            ..v
        }).ranged(),
{
    let b0 = v.blocks[idx];
    let w = TableBuilderView { blocks: v.blocks.update(idx, b0.added(key, value)), ..v };
    assert forall|i: int| 0 <= i < w.len() implies #[trigger] w.block_in_range(i) by {
        assert(v.block_in_range(i));
        if i == idx {
            lemma_added_from(b0, key, value, v.first_keys[i]);
            if i + 1 < v.len() {
                lemma_added_below(b0, key, value, v.first_keys[i + 1]);
            }
            if i > 0 {
                lemma_added_keeps_key(b0, key, value, v.first_keys[i]);
            }
        } else {
            assert(w.blocks[i] == v.blocks[i]);
        }
    }
}

} // verus!
