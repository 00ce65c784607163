//! Walks the tables of a level one after the other. The tables of a level
//! are sorted and follow each other in the order of their keys.

use crate::entry::{keys_increasing, lemma_filter_is_skip};
use crate::error::Error;
use crate::iterators::StorageIterator;
use crate::key::key_lt;
use crate::mem_table::{above_lower, bound_view, from_bound, BoundView};
use crate::table::iterator::SsTableIterator;
use crate::table::{SsTable, TableView};
use std::ops::Bound;
use std::sync::Arc;
use vstd::prelude::*;

verus! {

/// What each of the tables holds.
pub open spec fn tables_of(tables: Seq<Arc<SsTable>>) -> Seq<TableView> {
    Seq::new(tables.len(), |i: int| (*tables[i])@)
}

/// Every one of the tables can be used.
pub open spec fn all_tables_wf(tables: Seq<Arc<SsTable>>) -> bool {
    forall|i: int| 0 <= i < tables.len() ==> (#[trigger] *tables[i]).wf()
}

/// The entries of the tables from table `i` on, one table after the other.
pub open spec fn level_entries_from(tables: Seq<TableView>, i: int) -> Seq<(Seq<u8>, Seq<u8>)>
    decreases tables.len() - i,
{
    if 0 <= i < tables.len() {
        tables[i].entries() + level_entries_from(tables, i + 1)
    } else {
        Seq::empty()
    }
}

/// The entries of a level.
pub open spec fn level_entries(tables: Seq<TableView>) -> Seq<(Seq<u8>, Seq<u8>)> {
    level_entries_from(tables, 0)
}

/// A walk over the tables from table `i` on comes to an entry, or to the
/// end of the level, before it meets a block that cannot be read.
pub open spec fn level_settles(tables: Seq<TableView>, i: int) -> bool
    decreases tables.len() - i,
{
    if 0 <= i < tables.len() {
        tables[i].settles(0) && (tables[i].entries().len() > 0 || level_settles(tables, i + 1))
    } else {
        true
    }
}

/// Every block of every table can be read.
pub open spec fn level_readable(tables: Seq<TableView>) -> bool {
    forall|i: int| 0 <= i < tables.len() ==> (#[trigger] tables[i]).readable()
}

/// The level is sorted: every table is sorted, and the keys increase from
/// table to table.
pub open spec fn level_sorted(tables: Seq<TableView>) -> bool {
    &&& forall|i: int| 0 <= i < tables.len() ==> (#[trigger] tables[i]).sorted()
    &&& keys_increasing(level_entries(tables))
}

/// The tables of a sorted level can be read.
pub proof fn lemma_level_sorted_readable(tables: Seq<TableView>)
    requires
        level_sorted(tables),
    ensures
        level_readable(tables),
{
    assert forall|i: int| 0 <= i < tables.len() implies (#[trigger] tables[i]).readable() by {
        crate::table::lemma_sorted_readable(tables[i]);
    }
}

/// In a sorted level the entries from a table on have increasing keys.
pub proof fn lemma_level_suffix_increasing(tables: Seq<TableView>, i: int)
    requires
        keys_increasing(level_entries(tables)),
        0 <= i <= tables.len(),
    ensures
        keys_increasing(level_entries_from(tables, i)),
    decreases i,
{
    if i > 0 {
        lemma_level_suffix_increasing(tables, i - 1);
        let a = tables[i - 1].entries();
        let b = level_entries_from(tables, i);
        let s = a + b;
        assert forall|x: int, y: int| 0 <= x < y < b.len() implies key_lt(
            #[trigger] b[x].0,
            #[trigger] b[y].0,
        ) by {
            assert(s[a.len() + x] == b[x] && s[a.len() + y] == b[y]);
            assert(key_lt(s[a.len() + x].0, s[a.len() + y].0));
        }
    }
}

/// Of increasing entries, those with keys from a lower end on are the ones
/// behind the last entry in front of that end. If one entry of a first part
/// is among them, so is all of the second part.
pub proof fn lemma_from_bound_concat(
    a: Seq<(Seq<u8>, Seq<u8>)>,
    b: Seq<(Seq<u8>, Seq<u8>)>,
    lower: BoundView,
)
    requires
        keys_increasing(a + b),
    ensures
        a.filter(from_bound(lower)).len() > 0 ==> b.filter(from_bound(lower)) == b,
        (a + b).filter(from_bound(lower)) == a.filter(from_bound(lower)) + b.filter(
            from_bound(lower),
        ),
{
    let p = from_bound(lower);
    let s = a + b;
    Seq::filter_distributes_over_add(a, b, p);
    if a.filter(p).len() > 0 {
        let x = a.filter(p)[0];
        a.lemma_filter_pred(p, 0);
        assert(a.filter(p).contains(x));
        a.lemma_filter_contains_rev(p, x);
        let i = choose|i: int| 0 <= i < a.len() && a[i] == x;
        assert forall|j: int| 0 <= j < b.len() implies p(#[trigger] b[j]) by {
            assert(s[i] == a[i] && s[a.len() + j] == b[j]);
            assert(key_lt(s[i].0, s[a.len() + j].0));
            lemma_above_lower_grows(x.0, b[j].0, lower);
        }
        lemma_filter_is_skip(b, p, 0);
        assert(b.skip(0) =~= b);
    }
}

/// A key above a key that is not in front of a lower end is not in front of
/// it either.
pub proof fn lemma_above_lower_grows(k: Seq<u8>, other: Seq<u8>, lower: BoundView)
    requires
        above_lower(k, lower),
        key_lt(k, other),
    ensures
        above_lower(other, lower),
{
    match lower {
        BoundView::Unbounded => {},
        BoundView::Included(l) => {
            crate::key::lemma_key_le_lt(l, k, other);
        },
        BoundView::Excluded(l) => {
            crate::key::lemma_key_lt_transitive(l, k, other);
        },
    }
}

/// An iterator over the tables of a level.
pub struct SstConcatIterator {
    current: Option<SsTableIterator>,
    next_sst_idx: usize,
    sstables: Vec<Arc<SsTable>>,
}

impl SstConcatIterator {
    /// The tables of the level.
    pub closed spec fn tables(&self) -> Seq<TableView> {
        tables_of(self.sstables@)
    }

    /// Either the iterator stands on an entry of the table in front of
    /// `next_sst_idx`, or it is at its end, behind the last table.
    pub closed spec fn inv(&self) -> bool {
        &&& all_tables_wf(self.sstables@)
        &&& match self.current {
            Some(it) => {
                &&& it.inv()
                &&& it.rest().len() > 0
                &&& 1 <= self.next_sst_idx <= self.sstables@.len()
                &&& it.table() == self.tables()[self.next_sst_idx - 1]
            },
            None => self.next_sst_idx == self.sstables@.len(),
        }
    }

    /// The entries that the iterator has yet to give: the rest of its
    /// table, then the entries of the tables behind it.
    pub closed spec fn rest(&self) -> Seq<(Seq<u8>, Seq<u8>)> {
        match self.current {
            Some(it) => it.rest() + level_entries_from(self.tables(), self.next_sst_idx as int),
            None => Seq::empty(),
        }
    }

    /// Moves to the first entry of the first table from table `from` on
    /// that has an entry, or to the end of the level. Fails at the first
    /// table that cannot be read; the iterator is then at its end.
    fn settle(&mut self, from: usize) -> (r: Result<(), Error>)
        requires
            all_tables_wf(old(self).sstables@),
            from <= old(self).sstables@.len(),
        ensures
            final(self).inv(),
            final(self).tables() == old(self).tables(),
            match r {
                Ok(()) => {
                    &&& level_settles(old(self).tables(), from as int)
                    &&& final(self).rest() == level_entries_from(old(self).tables(), from as int)
                },
                Err(e) => {
                    &&& e == Error::Corrupt
                    &&& !level_settles(old(self).tables(), from as int)
                    &&& !level_readable(old(self).tables())
                    &&& final(self).rest().len() == 0
                },
            },
    {
        let ghost ts = self.tables();
        let n = self.sstables.len();
        let mut i = from;
        while i < n
            invariant
                from <= i <= n,
                n == self.sstables@.len(),
                self.sstables == old(self).sstables,
                ts == self.tables(),
                all_tables_wf(self.sstables@),
                level_entries_from(ts, from as int) == level_entries_from(ts, i as int),
                level_settles(ts, from as int) == level_settles(ts, i as int),
            decreases n - i,
        {
            assert((*self.sstables@[i as int]).wf());
            match SsTableIterator::create_and_seek_to_first(self.sstables[i].clone()) {
                Ok(it) => {
                    if it.is_valid() {
                        self.current = Some(it);
                        self.next_sst_idx = i + 1;
                        return Ok(());
                    }
                    assert(ts[i as int].entries() =~= Seq::empty());
                    assert(level_entries_from(ts, i as int) =~= level_entries_from(ts, i + 1));
                },
                Err(e) => {
                    proof {
                        if ts[i as int].readable() {
                            crate::table::lemma_readable_settles(ts[i as int], 0);
                        }
                    }
                    self.current = None;
                    self.next_sst_idx = n;
                    return Err(e);
                },
            }
            i += 1;
        }
        self.current = None;
        self.next_sst_idx = n;
        Ok(())
    }

    /// Creates an iterator over the tables and seeks to the first entry.
    pub fn create_and_seek_to_first(sstables: Vec<Arc<SsTable>>) -> (r: Result<Self, Error>)
        requires
            all_tables_wf(sstables@),
        ensures
            match r {
                Ok(it) => {
                    &&& it.inv()
                    &&& it.tables() == tables_of(sstables@)
                    &&& level_settles(tables_of(sstables@), 0)
                    &&& it.rest() == level_entries(tables_of(sstables@))
                },
                Err(e) => {
                    &&& e == Error::Corrupt
                    &&& !level_settles(tables_of(sstables@), 0)
                    &&& !level_readable(tables_of(sstables@))
                },
            },
    {
        let n = sstables.len();
        let mut it = SstConcatIterator { current: None, next_sst_idx: n, sstables };
        match it.settle(0) {
            Ok(()) => Ok(it),
            Err(e) => Err(e),
        }
    }

    /// Creates an iterator over the tables and seeks to the first entry
    /// whose key is not in front of the lower end of a range. In a sorted
    /// level what the iterator gives are the entries with such keys, and
    /// the seek does not fail.
    pub fn create_and_seek_from(sstables: Vec<Arc<SsTable>>, lower: Bound<&[u8]>) -> (r: Result<
        Self,
        Error,
    >)
        requires
            all_tables_wf(sstables@),
        ensures
            match r {
                Ok(it) => {
                    &&& it.inv()
                    &&& it.tables() == tables_of(sstables@)
                    &&& level_sorted(tables_of(sstables@)) ==> it.rest() == level_entries(
                        tables_of(sstables@),
                    ).filter(from_bound(bound_view(lower)))
                },
                Err(e) => e == Error::Corrupt && !level_sorted(tables_of(sstables@)),
            },
    {
        let ghost ts = tables_of(sstables@);
        let ghost pred = from_bound(bound_view(lower));
        let n = sstables.len();
        let mut i: usize = 0;
        while i < n
            invariant
                i <= n,
                n == sstables@.len(),
                ts == tables_of(sstables@),
                pred == from_bound(bound_view(lower)),
                all_tables_wf(sstables@),
                level_sorted(ts) ==> level_entries(ts).filter(pred) == level_entries_from(
                    ts,
                    i as int,
                ).filter(pred),
            decreases n - i,
        {
            assert((*sstables@[i as int]).wf());
            proof {
                if level_sorted(ts) {
                    assert(ts[i as int].sorted());
                    lemma_level_suffix_increasing(ts, i as int);
                    lemma_from_bound_concat(
                        ts[i as int].entries(),
                        level_entries_from(ts, i + 1),
                        bound_view(lower),
                    );
                }
            }
            let it = match SsTableIterator::create_and_seek_from(sstables[i].clone(), lower) {
                Ok(it) => it,
                Err(e) => {
                    return Err(e);
                },
            };
            if it.is_valid() {
                return Ok(SstConcatIterator { current: Some(it), next_sst_idx: i + 1, sstables });
            }
            proof {
                if level_sorted(ts) {
                    assert(Seq::<(Seq<u8>, Seq<u8>)>::empty() + level_entries_from(ts, i + 1).filter(
                        pred,
                    ) =~= level_entries_from(ts, i + 1).filter(pred));
                }
            }
            i += 1;
        }
        proof {
            reveal(Seq::filter);
            assert(level_entries_from(ts, n as int).filter(pred) =~= Seq::empty());
        }
        Ok(SstConcatIterator { current: None, next_sst_idx: n, sstables })
    }
}

impl StorageIterator for SstConcatIterator {
    open spec fn wf(&self) -> bool {
        self.inv()
    }

    open spec fn remaining(&self) -> Seq<(Seq<u8>, Seq<u8>)> {
        self.rest()
    }

    open spec fn unfailing(&self) -> bool {
        level_readable(self.tables())
    }

    fn key(&self) -> (k: &[u8]) {
        self.current.as_ref().unwrap().key()
    }

    fn value(&self) -> (v: &[u8]) {
        self.current.as_ref().unwrap().value()
    }

    fn is_valid(&self) -> (b: bool) {
        self.current.is_some()
    }

    fn next(&mut self) -> (r: Result<(), Error>)
        ensures
            final(self).tables() == old(self).tables(),
            r matches Err(e) ==> e == Error::Corrupt,
    {
        let ghost ts = self.tables();
        let ghost behind = level_entries_from(ts, self.next_sst_idx as int);
        let mut it = match self.current.take() {
            Some(it) => it,
            None => {
                return Ok(());
            },
        };
        let ghost before = it.rest();
        let n = self.sstables.len();
        proof {
            if level_readable(ts) {
                assert(ts[self.next_sst_idx - 1].readable());
            }
        }
        match it.next() {
            Ok(()) => {},
            Err(e) => {
                self.current = None;
                self.next_sst_idx = n;
                return Err(e);
            },
        }
        if it.is_valid() {
            assert((before + behind).skip(1) =~= before.skip(1) + behind);
            self.current = Some(it);
            return Ok(());
        }
        assert((before + behind).skip(1) =~= behind);
        self.settle(self.next_sst_idx)
    }
}

} // verus!
