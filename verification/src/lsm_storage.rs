//! The storage coordinator: the memtables and tables of the engine at one
//! instant, and the reads, writes and scans that it serves.

use crate::buffer::{bytes_from_vec, bytes_view};
use crate::entry::{has_key, key_from, keys_increasing};
use crate::error::Error;
use crate::iterators::concat_iterator::{
    all_tables_wf, lemma_level_sorted_readable, lemma_level_suffix_increasing, level_entries,
    level_entries_from, level_sorted, tables_of, SstConcatIterator,
};
use crate::iterators::merge_iterator::{
    all_unfailing, all_wf, merge, sources_of, MergeIterator,
};
use crate::iterators::two_merge_iterator::{two_merge, TwoMergeIterator};
use crate::iterators::StorageIterator;
use crate::key::{compare_keys, key_le, key_lt, keys_equal, KeyOrder};
use crate::lsm_iterator::{owned_bound_view, visible, FusedIterator, LsmIterator};
use crate::mem_table::{
    above_lower, below_upper, bound_view, from_bound, in_range, lemma_upsert, lookup, upsert,
    BoundView, MemTable, MemTableIterator,
};
use crate::reads::{each_increasing, lemma_scan_agrees_with_get};
use crate::table::iterator::SsTableIterator;
use crate::table::{SsTable, TableView};
use bytes::Bytes;
use std::ops::Bound;
use std::sync::Arc;
use vstd::prelude::*;
use vstd::slice::slice_to_vec;

verus! {

/// The value that the newest of the memtables holds for the key; the last
/// memtable is the newest.
pub open spec fn newest_hit(mems: Seq<Seq<(Seq<u8>, Seq<u8>)>>, key: Seq<u8>) -> Option<Seq<u8>>
    decreases mems.len(),
{
    if mems.len() == 0 {
        None
    } else {
        match lookup(mems.last(), key) {
            Some(v) => Some(v),
            None => newest_hit(mems.drop_last(), key),
        }
    }
}

/// The value that a table holds for the key: that of the first entry whose
/// key is not below the key, if that entry has the key.
pub open spec fn table_hit(t: TableView, key: Seq<u8>) -> Option<Seq<u8>> {
    let from = t.entries().filter(key_from(key));
    if from.len() > 0 && from[0].0 == key {
        Some(from[0].1)
    } else {
        None
    }
}

/// Of entries with increasing keys, the first whose key is not below a key
/// has that key just when the entries hold the key, and then its value is
/// the value of the key.
pub proof fn lemma_first_from_is_lookup(s: Seq<(Seq<u8>, Seq<u8>)>, key: Seq<u8>)
    requires
        keys_increasing(s),
    ensures
        ({
            let from = s.filter(key_from(key));
            lookup(s, key) == if from.len() > 0 && from[0].0 == key {
                Some(from[0].1)
            } else {
                None
            }
        }),
{
    let from = s.filter(key_from(key));
    let p = crate::mem_table::rank(s, key);
    crate::mem_table::lemma_rank(s, key);
    crate::entry::lemma_filter_from_is_skip(s, key, p);
    if from.len() > 0 && from[0].0 == key {
        assert(from[0] == s[p]);
        crate::mem_table::lemma_key_index_unique(s, key, p);
    } else if has_key(s, key) {
        let j = crate::mem_table::key_index(s, key);
        if j < p {
            crate::key::lemma_key_lt_asymmetric(s[j].0, key);
        } else {
            assert(from[0] == s[p]);
            if j > p {
                assert(key_lt(s[p].0, s[j].0));
                crate::key::lemma_key_le_lt(key, s[p].0, key);
                crate::key::lemma_key_lt_asymmetric(key, key);
            }
        }
    }
}

/// A sorted table holds for a key the value that its entries hold for it.
pub proof fn lemma_table_hit_is_lookup(t: TableView, key: Seq<u8>)
    requires
        t.sorted(),
    ensures
        table_hit(t, key) == lookup(t.entries(), key),
{
    crate::table::lemma_sorted_entries_increasing(t);
    lemma_first_from_is_lookup(t.entries(), key);
}

/// The value that the newest of the tables holds for the key; the last
/// table is the newest.
pub open spec fn newest_table_hit(tables: Seq<TableView>, key: Seq<u8>) -> Option<Seq<u8>>
    decreases tables.len(),
{
    if tables.len() == 0 {
        None
    } else {
        match table_hit(tables.last(), key) {
            Some(v) => Some(v),
            None => newest_table_hit(tables.drop_last(), key),
        }
    }
}

/// The table has no block, or its first key is not above `key`.
pub open spec fn starts_by(t: TableView, key: Seq<u8>) -> bool {
    t.len() > 0 ==> key_le(t.metas[0].first_key, key)
}

/// The last table of a level that does not start above `key`; -1 if every
/// table starts above it.
pub open spec fn candidate(level: Seq<TableView>, key: Seq<u8>) -> int
    decreases level.len(),
{
    if level.len() == 0 {
        -1
    } else if starts_by(level.last(), key) {
        level.len() - 1
    } else {
        candidate(level.drop_last(), key)
    }
}

/// The value that a level holds for the key: that of the last table that
/// does not start above the key.
pub open spec fn level_hit(level: Seq<TableView>, key: Seq<u8>) -> Option<Seq<u8>> {
    if candidate(level, key) < 0 {
        None
    } else {
        table_hit(level[candidate(level, key)], key)
    }
}

/// The value that the levels from level `i` on hold for the key: that of the
/// first level that holds the key.
pub open spec fn levels_hit(levels: Seq<Seq<TableView>>, i: int, key: Seq<u8>) -> Option<Seq<u8>>
    decreases levels.len() - i,
{
    if 0 <= i < levels.len() {
        match level_hit(levels[i], key) {
            Some(v) => Some(v),
            None => levels_hit(levels, i + 1, key),
        }
    } else {
        None
    }
}

/// The level is sorted, and every table of it has an entry, whose key is the
/// first key of the table.
pub open spec fn level_dense(level: Seq<TableView>) -> bool {
    &&& level_sorted(level)
    &&& forall|i: int| 0 <= i < level.len() ==> (#[trigger] level[i]).starts_true()
}

/// The levels are sorted, and every table of them has an entry, whose key
/// is the first key of the table.
pub open spec fn levels_dense(levels: Seq<Seq<TableView>>) -> bool {
    forall|i: int| 0 <= i < levels.len() ==> level_dense(#[trigger] levels[i])
}

/// What a table holds, the entries of the level from an earlier table on
/// hold.
pub proof fn lemma_level_contains(level: Seq<TableView>, from: int, j: int, x: (Seq<u8>, Seq<u8>))
    requires
        0 <= from <= j < level.len(),
        level[j].entries().contains(x),
    ensures
        level_entries_from(level, from).contains(x),
    decreases j - from,
{
    let a = level[from].entries();
    let b = level_entries_from(level, from + 1);
    if from == j {
        let i = choose|i: int| 0 <= i < a.len() && a[i] == x;
        assert((a + b)[i] == x);
    } else {
        lemma_level_contains(level, from + 1, j, x);
        let i = choose|i: int| 0 <= i < b.len() && b[i] == x;
        assert((a + b)[a.len() + i] == x);
    }
}

/// In a sorted level without empty tables, each table starts above the first
/// key of every table in front of it.
pub proof fn lemma_level_starts_ascend(level: Seq<TableView>, i: int, j: int)
    requires
        level_dense(level),
        0 <= i < j < level.len(),
    ensures
        key_lt(level[i].entries()[0].0, level[j].entries()[0].0),
{
    let a = level[i].entries();
    let b = level_entries_from(level, i + 1);
    let x = level[j].entries()[0];
    lemma_level_suffix_increasing(level, i);
    assert(level[j].entries().contains(x));
    lemma_level_contains(level, i + 1, j, x);
    let h = choose|h: int| 0 <= h < b.len() && b[h] == x;
    assert((a + b)[0] == a[0]);
    assert((a + b)[a.len() + h] == x);
}

/// The candidate for a key is the table with the two properties of one: it
/// does not start above the key, and every table behind it does.
pub proof fn lemma_candidate(level: Seq<TableView>, key: Seq<u8>, c: int)
    requires
        -1 <= c < level.len(),
        c >= 0 ==> starts_by(level[c], key),
        forall|j: int| c < j < level.len() ==> !starts_by(#[trigger] level[j], key),
    ensures
        candidate(level, key) == c,
    decreases level.len(),
{
    if level.len() > 0 {
        if c < level.len() - 1 {
            assert(!starts_by(level[level.len() - 1], key));
            assert forall|j: int| c < j < level.drop_last().len() implies !starts_by(
                #[trigger] level.drop_last()[j],
                key,
            ) by {
                assert(level.drop_last()[j] == level[j]);
            }
            if c >= 0 {
                assert(level.drop_last()[c] == level[c]);
            }
            lemma_candidate(level.drop_last(), key, c);
        }
    }
}

/// What a probe of the tables from the latest to the earliest finds: what
/// the first table finds that holds the key. `None` where a probe fails
/// before the key is found.
pub open spec fn newest_probed(tables: Seq<TableView>, key: Seq<u8>) -> Option<Option<Seq<u8>>>
    decreases tables.len(),
{
    if tables.len() == 0 {
        Some(None)
    } else {
        match tables.last().probed(key) {
            None => None,
            Some(Some(v)) => Some(Some(v)),
            Some(None) => newest_probed(tables.drop_last(), key),
        }
    }
}

/// Where a binary search between `l` and `r` for the first table that
/// starts above `key` ends.
pub open spec fn level_search(level: Seq<TableView>, key: Seq<u8>, l: int, r: int) -> int
    decreases r - l,
{
    if l >= r {
        l
    } else {
        let mid = l + (r - l) / 2;
        if starts_by(level[mid], key) {
            level_search(level, key, mid + 1, r)
        } else {
            level_search(level, key, l, mid)
        }
    }
}

/// What a probe of a level finds: what the table in front of the place
/// where the binary search ends finds, and nothing if the search ends at
/// the first table. `None` where the probe fails.
pub open spec fn level_probed(level: Seq<TableView>, key: Seq<u8>) -> Option<Option<Seq<u8>>> {
    let at = level_search(level, key, 0, level.len() as int);
    if at == 0 {
        Some(None)
    } else {
        level[at - 1].probed(key)
    }
}

/// What a probe of the levels from level `i` on finds: what the first level
/// finds that holds the key. `None` where a probe fails before the key is
/// found.
pub open spec fn levels_probed(levels: Seq<Seq<TableView>>, i: int, key: Seq<u8>) -> Option<
    Option<Seq<u8>>,
>
    decreases levels.len() - i,
{
    if 0 <= i < levels.len() {
        match level_probed(levels[i], key) {
            None => None,
            Some(Some(v)) => Some(Some(v)),
            Some(None) => levels_probed(levels, i + 1, key),
        }
    } else {
        Some(None)
    }
}

/// What a probe finds in a sorted table is the value that the table holds
/// for the key.
pub proof fn lemma_probed_sorted(t: TableView, key: Seq<u8>)
    requires
        t.sorted(),
    ensures
        t.probed(key) == Some(table_hit(t, key)),
{
    crate::table::lemma_sought_sorted(t, key);
}

/// What a read shows of a stored value: an empty value marks the key as
/// deleted.
pub open spec fn shown_value(v: Option<Seq<u8>>) -> Option<Seq<u8>> {
    match v {
        Some(v) => if v.len() > 0 {
            Some(v)
        } else {
            None
        },
        None => None,
    }
}

/// The state of the storage at one instant.
pub ghost struct StorageView {
    /// The entries of the memtable that takes the writes.
    pub memtable: Seq<(Seq<u8>, Seq<u8>)>,
    /// The entries of the frozen memtables, from the earliest to the latest.
    pub imm_memtables: Seq<Seq<(Seq<u8>, Seq<u8>)>>,
    /// The tables of the first level, from the earliest to the latest.
    pub l0_sstables: Seq<TableView>,
    /// The tables of the levels below, each level in the order of its keys.
    pub levels: Seq<Seq<TableView>>,
    /// The id that the next table gets.
    pub next_sst_id: nat,
}

impl StorageView {
    /// The value that the memtables hold for the key: that of the memtable
    /// that takes the writes, else that of the latest frozen memtable that
    /// holds the key.
    pub open spec fn memory_hit(self, key: Seq<u8>) -> Option<Seq<u8>> {
        match lookup(self.memtable, key) {
            Some(v) => Some(v),
            None => newest_hit(self.imm_memtables, key),
        }
    }

    /// The value that the tables hold for the key: that of the latest table
    /// of the first level that holds the key, else that of the first of the
    /// levels below that holds it.
    pub open spec fn table_found(self, key: Seq<u8>) -> Option<Seq<u8>> {
        match newest_table_hit(self.l0_sstables, key) {
            Some(v) => Some(v),
            None => levels_hit(self.levels, 0, key),
        }
    }

    /// The value that the storage holds for the key: that of the memtables,
    /// else that of the tables.
    pub open spec fn found(self, key: Seq<u8>) -> Option<Seq<u8>> {
        match self.memory_hit(key) {
            Some(v) => Some(v),
            None => self.table_found(key),
        }
    }

    /// What a read of the key returns.
    pub open spec fn get(self, key: Seq<u8>) -> Option<Seq<u8>> {
        shown_value(self.found(key))
    }

    /// What the probes of the tables find: what the first level finds, else
    /// what the levels below find. `None` where a probe fails before the
    /// key is found.
    pub open spec fn tables_probed(self, key: Seq<u8>) -> Option<Option<Seq<u8>>> {
        match newest_probed(self.l0_sstables, key) {
            None => None,
            Some(Some(v)) => Some(Some(v)),
            Some(None) => levels_probed(self.levels, 0, key),
        }
    }

    /// What a read of the key comes to, step by step: what the memtables
    /// hold for the key decides; else the tables are probed. `None` where a
    /// probe fails before the key is found.
    pub open spec fn read(self, key: Seq<u8>) -> Option<Option<Seq<u8>>> {
        match self.memory_hit(key) {
            Some(v) => Some(shown_value(Some(v))),
            None => match self.tables_probed(key) {
                None => None,
                Some(found) => Some(shown_value(found)),
            },
        }
    }

    /// Every table is sorted; in the levels below the first the keys
    /// increase from table to table, and no table is empty.
    pub open spec fn tables_sorted(self) -> bool {
        &&& forall|i: int|
            0 <= i < self.l0_sstables.len() ==> (#[trigger] self.l0_sstables[i]).sorted()
        &&& levels_dense(self.levels)
    }

    /// What the memtables give to a scan of a range: the entries of the
    /// range of the memtable that takes the writes, then those of the frozen
    /// memtables from the latest to the earliest.
    pub open spec fn memory_sources(self, lower: BoundView, upper: BoundView) -> Seq<
        Seq<(Seq<u8>, Seq<u8>)>,
    > {
        Seq::new(
            1 + self.imm_memtables.len(),
            |i: int|
                if i == 0 {
                    self.memtable.filter(in_range(lower, upper))
                } else {
                    self.imm_memtables[self.imm_memtables.len() - i].filter(in_range(lower, upper))
                },
        )
    }

    /// What the tables give to a scan from a lower end on: the entries from
    /// that end on of each table, from the latest table to the earliest.
    pub open spec fn table_sources(self, lower: BoundView) -> Seq<Seq<(Seq<u8>, Seq<u8>)>> {
        Seq::new(
            self.l0_sstables.len(),
            |i: int|
                self.l0_sstables[self.l0_sstables.len() - 1 - i].entries().filter(
                    from_bound(lower),
                ),
        )
    }

    /// What the levels below the first give to a scan from a lower end on:
    /// of each level the entries from that end on.
    pub open spec fn level_sources(self, lower: BoundView) -> Seq<Seq<(Seq<u8>, Seq<u8>)>> {
        Seq::new(
            self.levels.len(),
            |i: int| level_entries(self.levels[i]).filter(from_bound(lower)),
        )
    }

    /// What a scan of a range gives: the memtables merged, with the later
    /// memtable first where several hold a key; the tables of the first
    /// level merged in the same way; the levels below merged, with the
    /// upper level first; the three merged, memtables before the first
    /// level before the levels below; and of that what lies in front of the
    /// upper end and is not marked as deleted.
    pub open spec fn scan(self, lower: BoundView, upper: BoundView) -> Seq<(Seq<u8>, Seq<u8>)> {
        visible(
            two_merge(
                two_merge(
                    merge(self.memory_sources(lower, upper)),
                    merge(self.table_sources(lower)),
                ),
                merge(self.level_sources(lower)),
            ),
            upper,
        )
    }

    /// The state after the memtable was frozen: it is the latest of the
    /// frozen memtables, and an empty memtable takes the writes.
    pub open spec fn frozen(self) -> StorageView {
        StorageView {
            memtable: Seq::empty(),
            imm_memtables: self.imm_memtables.push(self.memtable),
            ..self
        }
    }

    /// The state after a write of the value for the key.
    pub open spec fn put(self, key: Seq<u8>, value: Seq<u8>) -> StorageView {
        StorageView { memtable: upsert(self.memtable, key, value), ..self }
    }

    /// The state after the key was deleted: the key has the empty value.
    pub open spec fn delete(self, key: Seq<u8>) -> StorageView {
        self.put(key, Seq::empty())
    }
}

/// A read after a write of a value that is not empty returns the value, and
/// a read after a delete returns nothing, whatever was written before. The
/// write leaves every other key as it was.
pub proof fn lemma_get_recency(s: StorageView, key: Seq<u8>, value: Seq<u8>)
    requires
        keys_increasing(s.memtable),
    ensures
        s.put(key, value).memory_hit(key) == Some(value),
        s.put(key, value).found(key) == Some(value),
        s.put(key, value).read(key) == Some(shown_value(Some(value))),
        value.len() > 0 ==> s.put(key, value).get(key) == Some(value),
        s.delete(key).get(key) is None,
        s.delete(key).read(key) == Some(None::<Seq<u8>>),
        forall|other: Seq<u8>| other != key ==> s.put(key, value).get(other) == s.get(other),
{
    lemma_upsert(s.memtable, key, value);
    lemma_upsert(s.memtable, key, Seq::empty());
}

/// Freezing the memtable changes what no read returns.
pub proof fn lemma_frozen_keeps_reads(s: StorageView, key: Seq<u8>)
    ensures
        s.frozen().found(key) == s.found(key),
        s.frozen().get(key) == s.get(key),
{
    let imm = s.imm_memtables.push(s.memtable);
    assert(imm.drop_last() =~= s.imm_memtables);
    assert(imm.last() == s.memtable);
    assert(!has_key(Seq::<(Seq<u8>, Seq<u8>)>::empty(), key));
}

/// What each of the memtables holds.
pub open spec fn mems_of(mems: Seq<Arc<MemTable>>) -> Seq<Seq<(Seq<u8>, Seq<u8>)>> {
    Seq::new(mems.len(), |i: int| (*mems[i])@)
}

/// What each of the levels holds.
pub open spec fn levels_of(levels: Seq<Vec<Arc<SsTable>>>) -> Seq<Seq<TableView>> {
    Seq::new(levels.len(), |i: int| tables_of(levels[i]@))
}

/// The tables of every level can be used.
pub open spec fn all_levels_wf(levels: Seq<Vec<Arc<SsTable>>>) -> bool {
    forall|i: int| 0 <= i < levels.len() ==> all_tables_wf(#[trigger] levels[i]@)
}

/// The bytes of an optional vector.
pub open spec fn option_vec_view(o: Option<Vec<u8>>) -> Option<Seq<u8>> {
    match o {
        Some(v) => Some(v@),
        None => None,
    }
}

/// The bytes of an optional buffer.
pub open spec fn option_bytes_view(o: Option<Bytes>) -> Option<Seq<u8>> {
    match o {
        Some(b) => Some(bytes_view(b)),
        None => None,
    }
}

/// What a read returns for a stored value: the value, unless it is empty.
pub fn shown(value: Vec<u8>) -> (r: Option<Bytes>)
    ensures
        option_bytes_view(r) == shown_value(Some(value@)),
{
    if value.len() == 0 {
        None
    } else {
        Some(bytes_from_vec(value))
    }
}

/// The memtables and tables of the storage at one instant.
#[derive(Clone)]
pub struct LsmStorageInner {
    /// The current memtable.
    memtable: MemTable,
    /// Immutable memtables, from earliest to latest.
    imm_memtables: Vec<Arc<MemTable>>,
    /// L0 tables, from earliest to latest.
    l0_sstables: Vec<Arc<SsTable>>,
    /// The tables of the levels below, each level sorted by key range.
    levels: Vec<Vec<Arc<SsTable>>>,
    /// The next table id.
    next_sst_id: usize,
}

impl View for LsmStorageInner {
    type V = StorageView;

    closed spec fn view(&self) -> StorageView {
        StorageView {
            memtable: self.memtable@,
            imm_memtables: mems_of(self.imm_memtables@),
            l0_sstables: tables_of(self.l0_sstables@),
            levels: levels_of(self.levels@),
            next_sst_id: self.next_sst_id as nat,
        }
    }
}

/// Probes a table for the key: seeks to the key and returns the value of
/// the entry there, if it has the key. In a sorted table that is the value
/// that the table holds for the key, and the probe does not fail.
pub fn probe_table(table: &Arc<SsTable>, key: &[u8]) -> (r: Result<Option<Vec<u8>>, Error>)
    requires
        (**table).wf(),
    ensures
        match r {
            Ok(o) => {
                &&& (**table)@.probed(key@) == Some(option_vec_view(o))
                &&& (**table)@.sorted() ==> table_hit((**table)@, key@) == option_vec_view(o)
            },
            Err(e) => {
                &&& e == Error::Corrupt
                &&& (**table)@.probed(key@) is None
                &&& !(**table)@.sorted()
            },
        },
{
    let iter = match SsTableIterator::create_and_seek_to_key(table.clone(), key) {
        Ok(iter) => iter,
        Err(e) => {
            return Err(e);
        },
    };
    if iter.is_valid() && keys_equal(iter.key(), key) {
        Ok(Some(slice_to_vec(iter.value())))
    } else {
        Ok(None)
    }
}

/// Probes a level for the key: finds by binary search on the first keys of
/// the tables the last table whose first key is not above the key, and
/// probes that table. In a sorted level without empty tables that is the
/// value that the level holds for the key, and the probe does not fail.
pub fn probe_level(level: &Vec<Arc<SsTable>>, key: &[u8]) -> (r: Result<Option<Vec<u8>>, Error>)
    requires
        all_tables_wf(level@),
    ensures
        match r {
            Ok(o) => {
                &&& level_probed(tables_of(level@), key@) == Some(option_vec_view(o))
                &&& level_dense(tables_of(level@)) ==> option_vec_view(o) == level_hit(
                    tables_of(level@),
                    key@,
                )
            },
            Err(e) => {
                &&& e == Error::Corrupt
                &&& level_probed(tables_of(level@), key@) is None
                &&& !level_dense(tables_of(level@))
            },
        },
{
    let ghost ts = tables_of(level@);
    let mut l: usize = 0;
    let mut r: usize = level.len();
    while l < r
        invariant
            l <= r <= level@.len(),
            ts == tables_of(level@),
            all_tables_wf(level@),
            level_search(ts, key@, l as int, r as int) == level_search(
                ts,
                key@,
                0,
                ts.len() as int,
            ),
            level_dense(ts) ==> forall|j: int| 0 <= j < l ==> starts_by(#[trigger] ts[j], key@),
            level_dense(ts) ==> forall|j: int|
                r <= j < ts.len() ==> !starts_by(#[trigger] ts[j], key@),
        decreases r - l,
    {
        let mid = l + (r - l) / 2;
        assert((*level@[mid as int]).wf());
        let starts = if level[mid].num_of_blocks() == 0 {
            true
        } else {
            match compare_keys(level[mid].first_key(0), key) {
                KeyOrder::Greater => false,
                _ => true,
            }
        };
        proof {
            if ts[mid as int].len() > 0 {
                crate::key::lemma_key_trichotomy(ts[mid as int].metas[0].first_key, key@);
            }
            if level_dense(ts) {
                assert(ts[mid as int].starts_true());
                let fk = ts[mid as int].entries()[0].0;
                crate::key::lemma_key_trichotomy(fk, key@);
                if starts {
                    assert forall|j: int| 0 <= j < mid + 1 implies starts_by(
                        #[trigger] ts[j],
                        key@,
                    ) by {
                        assert(ts[j].starts_true());
                        if j < mid {
                            lemma_level_starts_ascend(ts, j, mid as int);
                            crate::key::lemma_key_lt_le(ts[j].entries()[0].0, fk, key@);
                        }
                    }
                } else {
                    assert forall|j: int| mid <= j < ts.len() implies !starts_by(
                        #[trigger] ts[j],
                        key@,
                    ) by {
                        assert(ts[j].starts_true());
                        if mid < j {
                            lemma_level_starts_ascend(ts, mid as int, j);
                            let fj = ts[j].entries()[0].0;
                            crate::key::lemma_key_trichotomy(fj, key@);
                            if key_le(fj, key@) {
                                crate::key::lemma_key_lt_le(fk, fj, key@);
                                crate::key::lemma_key_lt_asymmetric(fk, key@);
                            }
                        }
                    }
                }
            }
        }
        if starts {
            l = mid + 1;
        } else {
            r = mid;
        }
    }
    proof {
        if level_dense(ts) {
            lemma_candidate(ts, key@, l - 1);
        }
    }
    if l == 0 {
        return Ok(None);
    }
    assert((*level@[l - 1]).wf());
    match probe_table(&level[l - 1], key) {
        Ok(o) => Ok(o),
        Err(e) => {
            proof {
                if level_dense(ts) {
                    assert(ts[l - 1].sorted());
                }
            }
            Err(e)
        },
    }
}

/// The tables of a level, shared.
pub fn share_tables(level: &Vec<Arc<SsTable>>) -> (r: Vec<Arc<SsTable>>)
    ensures
        r@ == level@,
{
    let mut out: Vec<Arc<SsTable>> = Vec::new();
    let mut i: usize = 0;
    while i < level.len()
        invariant
            i <= level@.len(),
            out@ == level@.take(i as int),
        decreases level@.len() - i,
    {
        out.push(level[i].clone());
        i += 1;
        assert(out@ =~= level@.take(i as int));
    }
    assert(level@.take(i as int) =~= level@);
    out
}

impl LsmStorageInner {
    /// The memtables keep their keys in order, and the tables can be used.
    pub closed spec fn wf(&self) -> bool {
        &&& self.memtable.wf()
        &&& forall|i: int|
            0 <= i < self.imm_memtables@.len() ==> (#[trigger] *self.imm_memtables@[i]).wf()
        &&& all_tables_wf(self.l0_sstables@)
        &&& all_levels_wf(self.levels@)
    }

    /// The keys of every memtable increase.
    pub proof fn lemma_memtables_increasing(&self)
        requires
            self.wf(),
        ensures
            keys_increasing(self@.memtable),
            each_increasing(self@.imm_memtables),
    {
        self.memtable.lemma_increasing();
        assert forall|i: int| 0 <= i < self@.imm_memtables.len() implies keys_increasing(
            #[trigger] self@.imm_memtables[i],
        ) by {
            (*self.imm_memtables@[i]).lemma_increasing();
        }
    }

    /// An empty storage: no entries, no tables; the first table will get the
    /// id 1.
    pub fn create() -> (s: LsmStorageInner)
        ensures
            s.wf(),
            s@ == (StorageView {
                memtable: Seq::empty(),
                imm_memtables: Seq::empty(),
                l0_sstables: Seq::empty(),
                levels: Seq::empty(),
                next_sst_id: 1,
            }),
    {
        let s = LsmStorageInner {
            memtable: MemTable::create(),
            imm_memtables: Vec::new(),
            l0_sstables: Vec::new(),
            levels: Vec::new(),
            next_sst_id: 1,
        };
        assert(s@.imm_memtables =~= Seq::empty());
        assert(s@.l0_sstables =~= Seq::empty());
        assert(s@.levels =~= Seq::empty());
        s
    }

    /// Reads the value of a key: the memtable is asked first, then the
    /// frozen memtables from the latest to the earliest, then the tables
    /// from the latest to the earliest. The first that holds the key
    /// decides; an empty value there means that the key is deleted.
    pub fn get(&self, key: &[u8]) -> (r: Result<Option<Bytes>, Error>)
        requires
            self.wf(),
        ensures
            match r {
                Ok(o) => self@.read(key@) == Some(option_bytes_view(o)),
                Err(e) => e == Error::Corrupt && self@.read(key@) is None,
            },
            self@.memory_hit(key@) is Some || self@.tables_sorted() ==> self@.read(key@) == Some(
                self@.get(key@),
            ),
    {
        match self.memtable.get(key) {
            Some(value) => {
                return Ok(shown(value));
            },
            None => {},
        }
        let ghost mems = self@.imm_memtables;
        let mut i = self.imm_memtables.len();
        assert(mems.take(i as int) =~= mems);
        while i > 0
            invariant
                i <= self.imm_memtables@.len(),
                self.wf(),
                mems == self@.imm_memtables,
                lookup(self@.memtable, key@) is None,
                newest_hit(mems, key@) == newest_hit(mems.take(i as int), key@),
            decreases i,
        {
            i -= 1;
            proof {
                assert(mems.take(i + 1).drop_last() =~= mems.take(i as int));
                assert(mems.take(i + 1).last() == mems[i as int]);
            }
            match self.imm_memtables[i].get(key) {
                Some(value) => {
                    return Ok(shown(value));
                },
                None => {},
            }
        }
        assert(mems.take(0) =~= Seq::empty());
        let ghost tables = self@.l0_sstables;
        let mut j = self.l0_sstables.len();
        assert(tables.take(j as int) =~= tables);
        while j > 0
            invariant
                j <= self.l0_sstables@.len(),
                self.wf(),
                tables == self@.l0_sstables,
                self@.memory_hit(key@) is None,
                newest_probed(tables, key@) == newest_probed(tables.take(j as int), key@),
                self@.tables_sorted() ==> newest_table_hit(tables, key@) == newest_table_hit(
                    tables.take(j as int),
                    key@,
                ),
            decreases j,
        {
            j -= 1;
            proof {
                assert(tables.take(j + 1).drop_last() =~= tables.take(j as int));
                assert(tables.take(j + 1).last() == tables[j as int]);
                assert((*self.l0_sstables@[j as int]).wf());
            }
            match probe_table(&self.l0_sstables[j], key) {
                Ok(Some(value)) => {
                    return Ok(shown(value));
                },
                Ok(None) => {},
                Err(e) => {
                    assert(!tables[j as int].sorted());
                    return Err(e);
                },
            }
        }
        assert(tables.take(0) =~= Seq::empty());
        let ghost levels = self@.levels;
        let n = self.levels.len();
        let mut k: usize = 0;
        while k < n
            invariant
                k <= n,
                n == self.levels@.len(),
                self.wf(),
                levels == self@.levels,
                self@.memory_hit(key@) is None,
                self@.tables_probed(key@) == levels_probed(levels, k as int, key@),
                self@.tables_sorted() ==> self@.table_found(key@) == levels_hit(
                    levels,
                    k as int,
                    key@,
                ),
            decreases n - k,
        {
            proof {
                assert(all_tables_wf(self.levels@[k as int]@));
                assert(levels[k as int] == tables_of(self.levels@[k as int]@));
                if self@.tables_sorted() {
                    assert(level_dense(levels[k as int]));
                }
            }
            match probe_level(&self.levels[k], key) {
                Ok(Some(value)) => {
                    return Ok(shown(value));
                },
                Ok(None) => {},
                Err(e) => {
                    return Err(e);
                },
            }
            k += 1;
        }
        Ok(None)
    }

    /// Writes the value for the key into the memtable.
    pub fn put(&mut self, key: &[u8], value: &[u8])
        requires
            old(self).wf(),
        ensures
            final(self).wf(),
            final(self)@ == old(self)@.put(key@, value@),
    {
        self.memtable.put(key, value);
    }

    /// Freezes the memtable: it becomes the latest of the frozen memtables,
    /// and an empty memtable takes the writes from now on.
    pub fn freeze_memtable(&mut self)
        requires
            old(self).wf(),
        ensures
            final(self).wf(),
            final(self)@ == old(self)@.frozen(),
    {
        let ghost before = self.imm_memtables@;
        let mut memtable = MemTable::create();
        std::mem::swap(&mut memtable, &mut self.memtable);
        self.imm_memtables.push(Arc::new(memtable));
        proof {
            assert(self@.imm_memtables =~= old(self)@.imm_memtables.push(old(self)@.memtable));
            assert forall|i: int| 0 <= i < self.imm_memtables@.len() implies (
            #[trigger] *self.imm_memtables@[i]).wf() by {
                if i < before.len() {
                    assert(self.imm_memtables@[i] == before[i]);
                }
            }
        }
    }

    /// The id for the next table.
    pub fn next_sst_id(&self) -> (id: usize)
        ensures
            id == self@.next_sst_id,
    {
        self.next_sst_id
    }

    /// Installs a table as the latest of the first level. The id for the
    /// next table goes up by one, unless it is the greatest number already.
    pub fn add_l0_sstable(&mut self, table: Arc<SsTable>)
        requires
            old(self).wf(),
            (*table).wf(),
        ensures
            final(self).wf(),
            final(self)@ == (StorageView {
                l0_sstables: old(self)@.l0_sstables.push((*table)@),
                next_sst_id: if old(self)@.next_sst_id < usize::MAX {
                    old(self)@.next_sst_id + 1
                } else {
                    old(self)@.next_sst_id
                },
                ..old(self)@
            }),
    {
        let ghost before = self.l0_sstables@;
        self.l0_sstables.push(table);
        self.next_sst_id = self.next_sst_id.saturating_add(1);
        proof {
            assert(self@.l0_sstables =~= old(self)@.l0_sstables.push((*table)@));
            assert forall|i: int| 0 <= i < self.l0_sstables@.len() implies (
            #[trigger] *self.l0_sstables@[i]).wf() by {
                if i < before.len() {
                    assert(self.l0_sstables@[i] == before[i]);
                }
            }
        }
    }

    /// Installs the tables of a new lowest level. Within a level the tables
    /// stand in the order of their keys.
    pub fn add_level(&mut self, tables: Vec<Arc<SsTable>>)
        requires
            old(self).wf(),
            all_tables_wf(tables@),
        ensures
            final(self).wf(),
            final(self)@ == (StorageView {
                levels: old(self)@.levels.push(tables_of(tables@)),
                ..old(self)@
            }),
    {
        let ghost before = self.levels@;
        self.levels.push(tables);
        proof {
            assert(self@.levels =~= old(self)@.levels.push(tables_of(tables@)));
            assert forall|i: int| 0 <= i < self.levels@.len() implies all_tables_wf(
                #[trigger] self.levels@[i]@,
            ) by {
                if i < before.len() {
                    assert(self.levels@[i] == before[i]);
                }
            }
        }
    }

    /// Scans a range of keys: an iterator over the entries of the range in
    /// the order of their keys, each key once with its latest value, without
    /// the keys that are deleted. The iterator walks copies of the memtables
    /// and shares the tables, so that later writes do not reach it.
    pub fn scan(&self, lower: Bound<&[u8]>, upper: Bound<&[u8]>) -> (r: Result<
        FusedIterator<LsmIterator>,
        Error,
    >)
        requires
            self.wf(),
        ensures
            match r {
                Ok(it) => {
                    &&& it.wf()
                    &&& self@.tables_sorted() ==> {
                        &&& it.unfailing()
                        &&& it.remaining() == self@.scan(bound_view(lower), bound_view(upper))
                        &&& keys_increasing(it.remaining())
                        &&& forall|k: Seq<u8>, v: Seq<u8>|
                            #[trigger] it.remaining().contains((k, v)) <==> above_lower(
                                k,
                                bound_view(lower),
                            ) && below_upper(k, bound_view(upper)) && self@.get(k) == Some(v)
                    }
                },
                Err(e) => e == Error::Corrupt && !self@.tables_sorted(),
            },
    {
        let ghost v = self@;
        proof {
            if self@.tables_sorted() {
                self.lemma_memtables_increasing();
                lemma_scan_agrees_with_get(self@, bound_view(lower), bound_view(upper));
            }
        }
        let ghost lo = bound_view(lower);
        let ghost up = bound_view(upper);
        let mut mem_iters: Vec<Box<MemTableIterator>> = Vec::new();
        mem_iters.push(Box::new(self.memtable.scan(lower, upper)));
        let n = self.imm_memtables.len();
        let mut i: usize = 0;
        assert(sources_of(mem_iters@) =~= v.memory_sources(lo, up).take(1));
        while i < n
            invariant
                i <= n,
                n == self.imm_memtables@.len(),
                self.wf(),
                v == self@,
                lo == bound_view(lower),
                up == bound_view(upper),
                all_wf(mem_iters@),
                all_unfailing(mem_iters@),
                mem_iters@.len() == i + 1,
                sources_of(mem_iters@) == v.memory_sources(lo, up).take(i + 1),
            decreases n - i,
        {
            let ghost before = mem_iters@;
            let it = self.imm_memtables[n - 1 - i].scan(lower, upper);
            mem_iters.push(Box::new(it));
            proof {
                assert forall|j: int| 0 <= j < mem_iters@.len() implies (#[trigger] mem_iters@[j]).wf()
                    && mem_iters@[j].unfailing() by {
                    if j < before.len() {
                        assert(mem_iters@[j] == before[j]);
                    }
                }
                assert(sources_of(mem_iters@) =~= v.memory_sources(lo, up).take(i + 2)) by {
                    assert forall|j: int| 0 <= j < mem_iters@.len() implies sources_of(
                        mem_iters@,
                    )[j] == v.memory_sources(lo, up)[j] by {
                        if j < before.len() {
                            assert(mem_iters@[j] == before[j]);
                            assert(sources_of(before)[j] == v.memory_sources(lo, up).take(i + 1)[j]);
                        } else {
                            assert(v.imm_memtables[n - 1 - i] == (*self.imm_memtables@[n - 1
                                - i])@);
                        }
                    }
                }
            }
            i += 1;
        }
        assert(v.memory_sources(lo, up).take(n + 1) =~= v.memory_sources(lo, up));
        let mem_merge = MergeIterator::create(mem_iters);
        let mut sst_iters: Vec<Box<SsTableIterator>> = Vec::new();
        let m = self.l0_sstables.len();
        let mut j: usize = 0;
        assert(sources_of(sst_iters@) =~= v.table_sources(lo).take(0));
        while j < m
            invariant
                j <= m,
                m == self.l0_sstables@.len(),
                self.wf(),
                v == self@,
                lo == bound_view(lower),
                all_wf(sst_iters@),
                sst_iters@.len() == j,
                v.tables_sorted() ==> all_unfailing(sst_iters@),
                v.tables_sorted() ==> sources_of(sst_iters@) == v.table_sources(lo).take(j as int),
            decreases m - j,
        {
            let ghost before = sst_iters@;
            let ghost t = v.l0_sstables[m - 1 - j];
            assert((*self.l0_sstables@[m - 1 - j]).wf());
            let it = match SsTableIterator::create_and_seek_from(
                self.l0_sstables[m - 1 - j].clone(),
                lower,
            ) {
                Ok(it) => it,
                Err(e) => {
                    assert(!t.sorted());
                    return Err(e);
                },
            };
            sst_iters.push(Box::new(it));
            proof {
                assert forall|k: int| 0 <= k < sst_iters@.len() implies (
                #[trigger] sst_iters@[k]).wf() by {
                    if k < before.len() {
                        assert(sst_iters@[k] == before[k]);
                    }
                }
                if v.tables_sorted() {
                    assert(t.sorted());
                    crate::table::lemma_sorted_readable(t);
                    assert forall|k: int| 0 <= k < sst_iters@.len() implies (
                    #[trigger] sst_iters@[k]).unfailing() by {
                        if k < before.len() {
                            assert(sst_iters@[k] == before[k]);
                        }
                    }
                    assert(sources_of(sst_iters@) =~= v.table_sources(lo).take(j + 1)) by {
                        assert forall|k: int| 0 <= k < sst_iters@.len() implies sources_of(
                            sst_iters@,
                        )[k] == v.table_sources(lo)[k] by {
                            if k < before.len() {
                                assert(sst_iters@[k] == before[k]);
                                assert(sources_of(before)[k] == v.table_sources(lo).take(
                                    j as int,
                                )[k]);
                            } else {
                                assert(t == (*self.l0_sstables@[m - 1 - j])@);
                            }
                        }
                    }
                }
            }
            j += 1;
        }
        assert(v.table_sources(lo).take(m as int) =~= v.table_sources(lo));
        let sst_merge = MergeIterator::create(sst_iters);
        let upper_part = match TwoMergeIterator::create(mem_merge, sst_merge) {
            Ok(two) => two,
            Err(e) => {
                return Err(Error::Corrupt);
            },
        };
        let mut level_iters: Vec<Box<SstConcatIterator>> = Vec::new();
        let levels = self.levels.len();
        let mut k: usize = 0;
        assert(sources_of(level_iters@) =~= v.level_sources(lo).take(0));
        while k < levels
            invariant
                k <= levels,
                levels == self.levels@.len(),
                self.wf(),
                v == self@,
                lo == bound_view(lower),
                all_wf(level_iters@),
                level_iters@.len() == k,
                v.tables_sorted() ==> all_unfailing(level_iters@),
                v.tables_sorted() ==> sources_of(level_iters@) == v.level_sources(lo).take(
                    k as int,
                ),
            decreases levels - k,
        {
            let ghost before = level_iters@;
            let ghost ts = v.levels[k as int];
            proof {
                assert(all_tables_wf(self.levels@[k as int]@));
                assert(ts == tables_of(self.levels@[k as int]@));
            }
            let it = match SstConcatIterator::create_and_seek_from(
                share_tables(&self.levels[k]),
                lower,
            ) {
                Ok(it) => it,
                Err(e) => {
                    proof {
                        if v.tables_sorted() {
                            assert(level_dense(ts));
                        }
                    }
                    return Err(e);
                },
            };
            level_iters.push(Box::new(it));
            proof {
                assert forall|h: int| 0 <= h < level_iters@.len() implies (
                #[trigger] level_iters@[h]).wf() by {
                    if h < before.len() {
                        assert(level_iters@[h] == before[h]);
                    }
                }
                if v.tables_sorted() {
                    assert(level_dense(ts));
                    lemma_level_sorted_readable(ts);
                    assert forall|h: int| 0 <= h < level_iters@.len() implies (
                    #[trigger] level_iters@[h]).unfailing() by {
                        if h < before.len() {
                            assert(level_iters@[h] == before[h]);
                        }
                    }
                    assert(sources_of(level_iters@) =~= v.level_sources(lo).take(k + 1)) by {
                        assert forall|h: int| 0 <= h < level_iters@.len() implies sources_of(
                            level_iters@,
                        )[h] == v.level_sources(lo)[h] by {
                            if h < before.len() {
                                assert(level_iters@[h] == before[h]);
                                assert(sources_of(before)[h] == v.level_sources(lo).take(
                                    k as int,
                                )[h]);
                            }
                        }
                    }
                }
            }
            k += 1;
        }
        assert(v.level_sources(lo).take(levels as int) =~= v.level_sources(lo));
        let level_merge = MergeIterator::create(level_iters);
        let two = match TwoMergeIterator::create(upper_part, level_merge) {
            Ok(two) => two,
            Err(e) => {
                return Err(Error::Corrupt);
            },
        };
        let lsm = match LsmIterator::new(two, owned_bound(upper)) {
            Ok(lsm) => lsm,
            Err(e) => {
                return Err(Error::Corrupt);
            },
        };
        Ok(FusedIterator::new(lsm))
    }
}

/// The bound with a copy of its key.
pub fn owned_bound(b: Bound<&[u8]>) -> (r: Bound<Vec<u8>>)
    ensures
        owned_bound_view(r) == bound_view(b),
{
    match b {
        Bound::Unbounded => Bound::Unbounded,
        Bound::Included(k) => Bound::Included(slice_to_vec(k)),
        Bound::Excluded(k) => Bound::Excluded(slice_to_vec(k)),
    }
}

/// The storage engine: reads, writes, deletes and scans over keys and values
/// that are sequences of bytes.
#[derive(Clone)]
pub struct LsmStorage {
    inner: LsmStorageInner,
}

impl View for LsmStorage {
    type V = StorageView;

    closed spec fn view(&self) -> StorageView {
        self.inner@
    }
}

impl LsmStorage {
    /// The state within is sound.
    pub closed spec fn wf(&self) -> bool {
        self.inner.wf()
    }

    /// Opens an empty storage.
    pub fn open() -> (s: LsmStorage)
        ensures
            s.wf(),
            s@ == (StorageView {
                memtable: Seq::empty(),
                imm_memtables: Seq::empty(),
                l0_sstables: Seq::empty(),
                levels: Seq::empty(),
                next_sst_id: 1,
            }),
    {
        LsmStorage { inner: LsmStorageInner::create() }
    }

    /// The state of the storage.
    pub fn inner(&self) -> (inner: &LsmStorageInner)
        requires
            self.wf(),
        ensures
            inner.wf(),
            inner@ == self@,
    {
        &self.inner
    }

    /// Reads the value of a key; `None` if the storage holds no value for
    /// it, or if the key is deleted.
    pub fn get(&self, key: &[u8]) -> (r: Result<Option<Bytes>, Error>)
        requires
            self.wf(),
        ensures
            match r {
                Ok(o) => self@.read(key@) == Some(option_bytes_view(o)),
                Err(e) => e == Error::Corrupt && self@.read(key@) is None,
            },
            self@.memory_hit(key@) is Some || self@.tables_sorted() ==> self@.read(key@) == Some(
                self@.get(key@),
            ),
    {
        self.inner.get(key)
    }

    /// Writes a value for a key. Neither may be empty: an empty value is the
    /// mark of a deleted key.
    pub fn put(&mut self, key: &[u8], value: &[u8]) -> (r: Result<(), Error>)
        requires
            old(self).wf(),
        ensures
            final(self).wf(),
            match r {
                Ok(()) => {
                    &&& key@.len() > 0
                    &&& value@.len() > 0
                    &&& final(self)@ == old(self)@.put(key@, value@)
                    &&& final(self)@.read(key@) == Some(Some(value@))
                },
                Err(e) => e == Error::InvalidArgument && (key@.len() == 0 || value@.len() == 0)
                    && final(self)@ == old(self)@,
            },
    {
        if key.len() == 0 || value.len() == 0 {
            return Err(Error::InvalidArgument);
        }
        proof {
            self.inner.lemma_memtables_increasing();
            lemma_get_recency(self@, key@, value@);
        }
        self.inner.put(key, value);
        Ok(())
    }

    /// Deletes a key: writes the empty value for it. The key may not be
    /// empty.
    pub fn delete(&mut self, key: &[u8]) -> (r: Result<(), Error>)
        requires
            old(self).wf(),
        ensures
            final(self).wf(),
            match r {
                Ok(()) => {
                    &&& key@.len() > 0
                    &&& final(self)@ == old(self)@.delete(key@)
                    &&& final(self)@.read(key@) == Some(None::<Seq<u8>>)
                },
                Err(e) => e == Error::InvalidArgument && key@.len() == 0 && final(self)@ == old(
                    self,
                )@,
            },
    {
        if key.len() == 0 {
            return Err(Error::InvalidArgument);
        }
        proof {
            self.inner.lemma_memtables_increasing();
            lemma_get_recency(self@, key@, Seq::empty());
        }
        let empty: Vec<u8> = Vec::new();
        self.inner.put(key, empty.as_slice());
        assert(empty@ =~= Seq::empty());
        Ok(())
    }

    /// Scans a range of keys: an iterator over the entries of the range in
    /// the order of their keys, each key once with its latest value, without
    /// the keys that are deleted. Later writes do not reach the iterator.
    pub fn scan(&self, lower: Bound<&[u8]>, upper: Bound<&[u8]>) -> (r: Result<
        FusedIterator<LsmIterator>,
        Error,
    >)
        requires
            self.wf(),
        ensures
            match r {
                Ok(it) => {
                    &&& it.wf()
                    &&& self@.tables_sorted() ==> {
                        &&& it.unfailing()
                        &&& it.remaining() == self@.scan(bound_view(lower), bound_view(upper))
                        &&& keys_increasing(it.remaining())
                        &&& forall|k: Seq<u8>, v: Seq<u8>|
                            #[trigger] it.remaining().contains((k, v)) <==> above_lower(
                                k,
                                bound_view(lower),
                            ) && below_upper(k, bound_view(upper)) && self@.get(k) == Some(v)
                    }
                },
                Err(e) => e == Error::Corrupt && !self@.tables_sorted(),
            },
    {
        self.inner.scan(lower, upper)
    }

    /// Freezes the memtable: it becomes the latest of the frozen memtables,
    /// and an empty memtable takes the writes from now on.
    pub fn freeze_memtable(&mut self)
        requires
            old(self).wf(),
        ensures
            final(self).wf(),
            final(self)@ == old(self)@.frozen(),
    {
        self.inner.freeze_memtable();
    }

    /// Installs a table as the latest of the first level.
    pub fn add_l0_sstable(&mut self, table: Arc<SsTable>)
        requires
            old(self).wf(),
            (*table).wf(),
        ensures
            final(self).wf(),
            final(self)@ == (StorageView {
                l0_sstables: old(self)@.l0_sstables.push((*table)@),
                next_sst_id: if old(self)@.next_sst_id < usize::MAX {
                    old(self)@.next_sst_id + 1
                } else {
                    old(self)@.next_sst_id
                },
                ..old(self)@
            }),
    {
        self.inner.add_l0_sstable(table);
    }

    /// Installs the tables of a new lowest level. Within a level the tables
    /// stand in the order of their keys.
    pub fn add_level(&mut self, tables: Vec<Arc<SsTable>>)
        requires
            old(self).wf(),
            all_tables_wf(tables@),
        ensures
            final(self).wf(),
            final(self)@ == (StorageView {
                levels: old(self)@.levels.push(tables_of(tables@)),
                ..old(self)@
            }),
    {
        self.inner.add_level(tables);
    }
}

} // verus!
