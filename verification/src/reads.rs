//! How scans and reads agree: a scan of a range gives, in the order of the
//! keys, the keys of the range with the values that a read of each returns.

use crate::entry::{has_key, keys_increasing, lemma_filter_increasing, lemma_increasing_skip};
use crate::iterators::concat_iterator::{
    level_entries, level_entries_from, lemma_level_suffix_increasing,
};
use crate::iterators::merge_iterator::{
    all_increasing, from_earliest, lemma_merge_prefers_earliest, merge,
};
use crate::iterators::two_merge_iterator::{
    lemma_cons_contains, lemma_cons_increasing, lemma_skip_contains,
    lemma_two_merge_prefers_first, prefers_first, two_merge,
};
use crate::lsm_iterator::visible;
use crate::lsm_storage::{
    candidate, lemma_level_starts_ascend, lemma_table_hit_is_lookup, level_dense, level_hit,
    levels_hit, newest_hit, newest_table_hit, starts_by, StorageView,
};
use crate::table::TableView;
use crate::key::{key_le, key_lt};
use crate::mem_table::{
    above_lower, below_upper, from_bound, in_range, key_index, lemma_key_index_unique, lookup,
    BoundView,
};
use vstd::prelude::*;

verus! {

/// Increasing entries hold a value for a key just when they hold the entry
/// of the key and the value.
pub proof fn lemma_lookup_contains(s: Seq<(Seq<u8>, Seq<u8>)>, k: Seq<u8>, v: Seq<u8>)
    requires
        keys_increasing(s),
    ensures
        lookup(s, k) == Some(v) <==> s.contains((k, v)),
{
    if s.contains((k, v)) {
        let j = choose|j: int| 0 <= j < s.len() && s[j] == (k, v);
        lemma_key_index_unique(s, k, j);
    }
    if lookup(s, k) == Some(v) {
        let j = key_index(s, k);
        assert(s[j] == (k, v));
    }
}

/// Increasing entries hold no value for a key just when they do not hold
/// the key.
pub proof fn lemma_lookup_none(s: Seq<(Seq<u8>, Seq<u8>)>, k: Seq<u8>)
    ensures
        lookup(s, k) is None <==> !has_key(s, k),
{
}

/// What is left of increasing entries after a filter on their keys holds
/// for a key the value that the entries hold, if the filter accepts the
/// key, and none if it does not.
pub proof fn lemma_lookup_filter(
    s: Seq<(Seq<u8>, Seq<u8>)>,
    p: spec_fn((Seq<u8>, Seq<u8>)) -> bool,
    q: spec_fn(Seq<u8>) -> bool,
    k: Seq<u8>,
)
    requires
        keys_increasing(s),
        forall|e: (Seq<u8>, Seq<u8>)| #[trigger] p(e) == q(e.0),
    ensures
        keys_increasing(s.filter(p)),
        lookup(s.filter(p), k) == if q(k) {
            lookup(s, k)
        } else {
            None
        },
{
    let f = s.filter(p);
    lemma_filter_increasing(s, p);
    if has_key(f, k) {
        let j = key_index(f, k);
        s.lemma_filter_pred(p, j);
        assert(f.contains(f[j]));
        s.lemma_filter_contains_rev(p, f[j]);
        lemma_lookup_contains(s, k, f[j].1);
        lemma_key_index_unique(f, k, j);
        assert(p(f[j]) == q(k));
    } else if q(k) && has_key(s, k) {
        let j = key_index(s, k);
        assert(p(s[j]) == q(s[j].0));
        s.lemma_filter_contains(p, j);
        let h = choose|h: int| 0 <= h < f.len() && f[h] == s[j];
        assert(f[h].0 == k);
    }
}

/// The value of a key in the first of the sources that holds the key.
pub open spec fn first_with(srcs: Seq<Seq<(Seq<u8>, Seq<u8>)>>, i: int, k: Seq<u8>) -> Option<
    Seq<u8>,
>
    decreases srcs.len() - i,
{
    if 0 <= i < srcs.len() {
        match lookup(srcs[i], k) {
            Some(v) => Some(v),
            None => first_with(srcs, i + 1, k),
        }
    } else {
        None
    }
}

/// The first of the sources from source `i` on that holds a key decides
/// what `first_with` gives.
pub proof fn lemma_first_with(srcs: Seq<Seq<(Seq<u8>, Seq<u8>)>>, i: int, j: int, k: Seq<u8>)
    requires
        0 <= i <= j <= srcs.len(),
        forall|h: int| i <= h < j ==> !has_key(#[trigger] srcs[h], k),
    ensures
        first_with(srcs, i, k) == first_with(srcs, j, k),
    decreases j - i,
{
    if i < j {
        assert(!has_key(srcs[i], k));
        lemma_first_with(srcs, i + 1, j, k);
    }
}

/// The merge of increasing sources holds for a key the value of the first
/// source that holds the key.
pub proof fn lemma_merge_lookup(srcs: Seq<Seq<(Seq<u8>, Seq<u8>)>>, k: Seq<u8>)
    requires
        all_increasing(srcs),
    ensures
        keys_increasing(merge(srcs)),
        lookup(merge(srcs), k) == first_with(srcs, 0, k),
{
    let m = merge(srcs);
    lemma_merge_prefers_earliest(srcs);
    if has_key(m, k) {
        let n = key_index(m, k);
        let e = m[n];
        assert(from_earliest(srcs, e));
        let i = choose|i: int|
            0 <= i < srcs.len() && (#[trigger] srcs[i]).contains(e) && forall|h: int|
                0 <= h < i ==> !has_key(#[trigger] srcs[h], e.0);
        lemma_first_with(srcs, 0, i, k);
        lemma_lookup_contains(srcs[i], k, e.1);
        lemma_key_index_unique(m, k, n);
    } else {
        assert forall|h: int| 0 <= h < srcs.len() implies !has_key(#[trigger] srcs[h], k) by {
            if has_key(srcs[h], k) {
                let j = key_index(srcs[h], k);
                assert(has_key(m, srcs[h][j].0));
            }
        }
        lemma_first_with(srcs, 0, srcs.len() as int, k);
    }
}

/// The merge of two increasing sequences holds for a key the value of the
/// first if that holds the key, else that of the second.
pub proof fn lemma_two_merge_lookup(
    a: Seq<(Seq<u8>, Seq<u8>)>,
    b: Seq<(Seq<u8>, Seq<u8>)>,
    k: Seq<u8>,
)
    requires
        keys_increasing(a),
        keys_increasing(b),
    ensures
        keys_increasing(two_merge(a, b)),
        lookup(two_merge(a, b), k) == match lookup(a, k) {
            Some(v) => Some(v),
            None => lookup(b, k),
        },
{
    let m = two_merge(a, b);
    lemma_two_merge_prefers_first(a, b);
    assert(prefers_first(a, b, m));
    if has_key(m, k) {
        let n = key_index(m, k);
        let e = m[n];
        lemma_key_index_unique(m, k, n);
        if has_key(a, k) {
            assert(a.contains(e));
            lemma_lookup_contains(a, k, e.1);
        } else {
            assert(b.contains(e));
            lemma_lookup_contains(b, k, e.1);
        }
    } else {
        if has_key(a, k) {
            let j = key_index(a, k);
            assert(m.contains(a[j]));
            let h = choose|h: int| 0 <= h < m.len() && m[h] == a[j];
            assert(m[h].0 == k);
        } else if has_key(b, k) {
            let j = key_index(b, k);
            assert(m.contains(b[j]));
            let h = choose|h: int| 0 <= h < m.len() && m[h] == b[j];
            assert(m[h].0 == k);
        }
    }
}

/// A key below a key that is not behind an upper end is not behind it
/// either.
pub proof fn lemma_below_upper_shrinks(k: Seq<u8>, other: Seq<u8>, upper: BoundView)
    requires
        below_upper(other, upper),
        key_le(k, other),
    ensures
        below_upper(k, upper),
{
    match upper {
        BoundView::Unbounded => {},
        BoundView::Included(u) => {
            crate::key::lemma_key_le_transitive(k, other, u);
        },
        BoundView::Excluded(u) => {
            crate::key::lemma_key_le_lt(k, other, u);
        },
    }
}

/// What a scan shows of increasing entries has increasing keys, and holds
/// just the entries that are not behind the upper end and whose value is
/// not empty.
pub proof fn lemma_visible(m: Seq<(Seq<u8>, Seq<u8>)>, upper: BoundView)
    requires
        keys_increasing(m),
    ensures
        keys_increasing(visible(m, upper)),
        forall|e: (Seq<u8>, Seq<u8>)|
            #[trigger] visible(m, upper).contains(e) <==> m.contains(e) && below_upper(
                e.0,
                upper,
            ) && e.1.len() > 0,
    decreases m.len(),
{
    let vis = visible(m, upper);
    if m.len() == 0 {
    } else if !below_upper(m[0].0, upper) {
        lemma_increasing_skip(m);
        assert forall|e: (Seq<u8>, Seq<u8>)| #[trigger] m.contains(e) implies !below_upper(
            e.0,
            upper,
        ) by {
            let j = choose|j: int| 0 <= j < m.len() && m[j] == e;
            assert(key_le(m[0].0, m[j].0));
            if below_upper(e.0, upper) {
                lemma_below_upper_shrinks(m[0].0, e.0, upper);
            }
        }
    } else {
        let t = m.skip(1);
        let vt = visible(t, upper);
        lemma_increasing_skip(m);
        lemma_visible(t, upper);
        assert forall|n: int| 0 <= n < vt.len() implies key_lt(m[0].0, (#[trigger] vt[n]).0) by {
            assert(vt.contains(vt[n]));
            assert(t.contains(vt[n]));
            let j = choose|j: int| 0 <= j < t.len() && t[j] == vt[n];
            assert(key_lt(m[0].0, t[j].0));
        }
        if m[0].1.len() > 0 {
            lemma_cons_increasing(m[0], vt);
        }
        assert forall|e: (Seq<u8>, Seq<u8>)| #[trigger]
            vis.contains(e) <==> m.contains(e) && below_upper(e.0, upper) && e.1.len() > 0 by {
            if vis.contains(e) {
                let n = choose|n: int| 0 <= n < vis.len() && vis[n] == e;
                if m[0].1.len() > 0 {
                    if n == 0 {
                        assert(m[0] == e);
                    } else {
                        assert(vt[n - 1] == e);
                        assert(vt.contains(e));
                        lemma_skip_contains(m, e);
                    }
                } else {
                    assert(vt.contains(e));
                    lemma_skip_contains(m, e);
                }
            }
            if m.contains(e) && below_upper(e.0, upper) && e.1.len() > 0 {
                let j = choose|j: int| 0 <= j < m.len() && m[j] == e;
                if j == 0 {
                    assert(vis[0] == e);
                } else {
                    assert(t[j - 1] == e);
                    assert(t.contains(e));
                    assert(vt.contains(e));
                    if m[0].1.len() > 0 {
                        lemma_cons_contains(m[0], vt, e);
                    }
                }
            }
        }
    }
}

/// A sorted level without empty tables holds for a key the value that its
/// entries hold for it.
pub proof fn lemma_level_hit_is_lookup(level: Seq<TableView>, key: Seq<u8>)
    requires
        level_dense(level),
    ensures
        level_hit(level, key) == lookup(level_entries(level), key),
{
    let all = level_entries(level);
    let c = lemma_level_candidate(level, key);
    if c >= 0 {
        lemma_table_hit_is_lookup(level[c], key);
    }
    if has_key(all, key) {
        let n = key_index(all, key);
        let e = all[n];
        lemma_key_index_unique(all, key, n);
        assert(all.contains(e));
        let j = lemma_level_origin(level, 0, e);
        crate::table::lemma_sorted_entries_increasing(level[j]);
        lemma_lookup_contains(level[j].entries(), key, e.1);
        let first = level[j].entries()[0];
        crate::entry::lemma_increasing_skip(level[j].entries());
        let h = choose|h: int| 0 <= h < level[j].entries().len() && level[j].entries()[h] == e;
        assert(key_le(first.0, level[j].entries()[h].0));
        assert(starts_by(level[j], key));
        if j < c {
            lemma_level_starts_ascend(level, j, c);
            lemma_level_table_below(level, j, c, e);
            crate::key::lemma_key_lt_le(key, level[c].entries()[0].0, key);
            crate::key::lemma_key_lt_asymmetric(key, key);
        }
        assert(j == c);
    } else if c >= 0 {
        if has_key(level[c].entries(), key) {
            let h = key_index(level[c].entries(), key);
            let e = level[c].entries()[h];
            assert(level[c].entries().contains(e));
            crate::lsm_storage::lemma_level_contains(level, 0, c, e);
            let n = choose|n: int| 0 <= n < all.len() && all[n] == e;
            assert(all[n].0 == key);
        }
    }
}

/// The candidate of a level for a key, with its two properties.
proof fn lemma_level_candidate(level: Seq<TableView>, key: Seq<u8>) -> (c: int)
    ensures
        c == candidate(level, key),
        -1 <= c < level.len(),
        c >= 0 ==> starts_by(level[c], key),
        forall|j: int| c < j < level.len() ==> !starts_by(#[trigger] level[j], key),
    decreases level.len(),
{
    if level.len() == 0 {
        -1
    } else if starts_by(level.last(), key) {
        level.len() - 1
    } else {
        let c = lemma_level_candidate(level.drop_last(), key);
        assert forall|j: int| c < j < level.len() implies !starts_by(#[trigger] level[j], key) by {
            if j < level.len() - 1 {
                assert(level.drop_last()[j] == level[j]);
            }
        }
        if c >= 0 {
            assert(level.drop_last()[c] == level[c]);
        }
        c
    }
}

/// An entry among the entries of a level from a table on stands in one of
/// those tables.
proof fn lemma_level_origin(level: Seq<TableView>, from: int, e: (Seq<u8>, Seq<u8>)) -> (j: int)
    requires
        0 <= from <= level.len(),
        level_entries_from(level, from).contains(e),
    ensures
        from <= j < level.len(),
        level[j].entries().contains(e),
    decreases level.len() - from,
{
    let a = level[from].entries();
    let b = level_entries_from(level, from + 1);
    let n = choose|n: int| 0 <= n < (a + b).len() && (a + b)[n] == e;
    if n < a.len() {
        assert(a[n] == e);
        from
    } else {
        assert(b[n - a.len()] == e);
        lemma_level_origin(level, from + 1, e)
    }
}

/// In a sorted level an entry of a table has a key below the first key of
/// every later table.
proof fn lemma_level_table_below(level: Seq<TableView>, j: int, c: int, e: (Seq<u8>, Seq<u8>))
    requires
        level_dense(level),
        0 <= j < c < level.len(),
        level[j].entries().contains(e),
    ensures
        key_lt(e.0, level[c].entries()[0].0),
{
    let a = level[j].entries();
    let b = level_entries_from(level, j + 1);
    let x = level[c].entries()[0];
    lemma_level_suffix_increasing(level, j);
    assert(level[c].entries().contains(x));
    crate::lsm_storage::lemma_level_contains(level, j + 1, c, x);
    let h = choose|h: int| 0 <= h < b.len() && b[h] == x;
    let n = choose|n: int| 0 <= n < a.len() && a[n] == e;
    assert((a + b)[n] == e);
    assert((a + b)[a.len() + h] == x);
}

/// The keys of every sequence increase.
pub open spec fn each_increasing(mems: Seq<Seq<(Seq<u8>, Seq<u8>)>>) -> bool {
    forall|i: int| 0 <= i < mems.len() ==> keys_increasing(#[trigger] mems[i])
}

/// The key lies in the range.
pub open spec fn key_in_range(lower: BoundView, upper: BoundView) -> spec_fn(Seq<u8>) -> bool {
    |k: Seq<u8>| above_lower(k, lower) && below_upper(k, upper)
}

/// The key is not in front of the lower end.
pub open spec fn key_from_bound(lower: BoundView) -> spec_fn(Seq<u8>) -> bool {
    |k: Seq<u8>| above_lower(k, lower)
}

/// Of what the memtables give to a scan, the sources from source `j` on
/// hold for a key of the range the value of the latest of the earlier
/// frozen memtables that holds the key, and nothing for another key.
pub proof fn lemma_memory_sources(
    s: StorageView,
    lower: BoundView,
    upper: BoundView,
    j: int,
    k: Seq<u8>,
)
    requires
        each_increasing(s.imm_memtables),
        1 <= j <= s.imm_memtables.len() + 1,
    ensures
        first_with(s.memory_sources(lower, upper), j, k) == if above_lower(k, lower) && below_upper(
            k,
            upper,
        ) {
            newest_hit(s.imm_memtables.take(s.imm_memtables.len() - j + 1), k)
        } else {
            None
        },
    decreases s.imm_memtables.len() + 1 - j,
{
    let n = s.imm_memtables.len() as int;
    let srcs = s.memory_sources(lower, upper);
    if j <= n {
        let mem = s.imm_memtables[n - j];
        lemma_memory_sources(s, lower, upper, j + 1, k);
        assert(keys_increasing(mem));
        lemma_lookup_filter(mem, in_range(lower, upper), key_in_range(lower, upper), k);
        let prefix = s.imm_memtables.take(n - j + 1);
        assert(prefix.last() == mem);
        assert(prefix.drop_last() =~= s.imm_memtables.take(n - j));
    }
}

/// Of what the tables of the first level give to a scan, the sources from
/// source `j` on hold for a key that is not in front of the lower end the
/// value of the latest of the earlier tables that holds the key, and
/// nothing for another key.
pub proof fn lemma_table_sources(s: StorageView, lower: BoundView, j: int, k: Seq<u8>)
    requires
        s.tables_sorted(),
        0 <= j <= s.l0_sstables.len(),
    ensures
        first_with(s.table_sources(lower), j, k) == if above_lower(k, lower) {
            newest_table_hit(s.l0_sstables.take(s.l0_sstables.len() - j), k)
        } else {
            None
        },
    decreases s.l0_sstables.len() - j,
{
    let n = s.l0_sstables.len() as int;
    if j < n {
        let t = s.l0_sstables[n - 1 - j];
        lemma_table_sources(s, lower, j + 1, k);
        assert(t.sorted());
        crate::table::lemma_sorted_entries_increasing(t);
        lemma_lookup_filter(t.entries(), from_bound(lower), key_from_bound(lower), k);
        lemma_table_hit_is_lookup(t, k);
        let prefix = s.l0_sstables.take(n - j);
        assert(prefix.last() == t);
        assert(prefix.drop_last() =~= s.l0_sstables.take(n - j - 1));
    }
}

/// Of what the levels below the first give to a scan, the sources from
/// source `j` on hold for a key that is not in front of the lower end the
/// value of the first of the levels from level `j` on that holds the key,
/// and nothing for another key.
pub proof fn lemma_level_sources(s: StorageView, lower: BoundView, j: int, k: Seq<u8>)
    requires
        s.tables_sorted(),
        0 <= j <= s.levels.len(),
    ensures
        first_with(s.level_sources(lower), j, k) == if above_lower(k, lower) {
            levels_hit(s.levels, j, k)
        } else {
            None
        },
    decreases s.levels.len() - j,
{
    if j < s.levels.len() {
        let level = s.levels[j];
        lemma_level_sources(s, lower, j + 1, k);
        assert(level_dense(level));
        lemma_lookup_filter(level_entries(level), from_bound(lower), key_from_bound(lower), k);
        lemma_level_hit_is_lookup(level, k);
    }
}

/// The merge that a scan reads has increasing keys, and holds for a key of
/// the range the value that the storage holds for it, and nothing for a key
/// in front of the lower end.
pub proof fn lemma_scan_merge(s: StorageView, lower: BoundView, upper: BoundView, k: Seq<u8>)
    requires
        keys_increasing(s.memtable),
        each_increasing(s.imm_memtables),
        s.tables_sorted(),
    ensures
        ({
            let m = two_merge(
                two_merge(
                    merge(s.memory_sources(lower, upper)),
                    merge(s.table_sources(lower)),
                ),
                merge(s.level_sources(lower)),
            );
            &&& keys_increasing(m)
            &&& above_lower(k, lower) && below_upper(k, upper) ==> lookup(m, k) == s.found(k)
            &&& !above_lower(k, lower) ==> lookup(m, k) is None
        }),
{
    let a1 = s.memory_sources(lower, upper);
    let a2 = s.table_sources(lower);
    let a3 = s.level_sources(lower);
    assert(all_increasing(a1)) by {
        assert forall|i: int| 0 <= i < a1.len() implies keys_increasing(#[trigger] a1[i]) by {
            if i == 0 {
                lemma_filter_increasing(s.memtable, in_range(lower, upper));
            } else {
                let mem = s.imm_memtables[s.imm_memtables.len() - i];
                assert(keys_increasing(mem));
                lemma_filter_increasing(mem, in_range(lower, upper));
            }
        }
    }
    assert(all_increasing(a2)) by {
        assert forall|i: int| 0 <= i < a2.len() implies keys_increasing(#[trigger] a2[i]) by {
            let t = s.l0_sstables[s.l0_sstables.len() - 1 - i];
            assert(t.sorted());
            crate::table::lemma_sorted_entries_increasing(t);
            lemma_filter_increasing(t.entries(), from_bound(lower));
        }
    }
    assert(all_increasing(a3)) by {
        assert forall|i: int| 0 <= i < a3.len() implies keys_increasing(#[trigger] a3[i]) by {
            assert(level_dense(s.levels[i]));
            lemma_filter_increasing(level_entries(s.levels[i]), from_bound(lower));
        }
    }
    lemma_merge_lookup(a1, k);
    lemma_merge_lookup(a2, k);
    lemma_merge_lookup(a3, k);
    lemma_two_merge_lookup(merge(a1), merge(a2), k);
    lemma_two_merge_lookup(two_merge(merge(a1), merge(a2)), merge(a3), k);
    lemma_lookup_filter(s.memtable, in_range(lower, upper), key_in_range(lower, upper), k);
    lemma_memory_sources(s, lower, upper, 1, k);
    assert(s.imm_memtables.take(s.imm_memtables.len() as int) =~= s.imm_memtables);
    lemma_table_sources(s, lower, 0, k);
    assert(s.l0_sstables.take(s.l0_sstables.len() as int) =~= s.l0_sstables);
    lemma_level_sources(s, lower, 0, k);
}

/// A scan and the reads agree. Where the memtables keep their keys in order
/// and the tables are sorted, what a scan of a range gives has increasing
/// keys, and it holds a key with a value just when the key lies in the
/// range and a read of the key returns the value.
pub proof fn lemma_scan_agrees_with_get(s: StorageView, lower: BoundView, upper: BoundView)
    requires
        keys_increasing(s.memtable),
        each_increasing(s.imm_memtables),
        s.tables_sorted(),
    ensures
        keys_increasing(s.scan(lower, upper)),
        forall|k: Seq<u8>, v: Seq<u8>|
            #[trigger] s.scan(lower, upper).contains((k, v)) <==> above_lower(k, lower)
                && below_upper(k, upper) && s.get(k) == Some(v),
{
    let m = two_merge(
        two_merge(merge(s.memory_sources(lower, upper)), merge(s.table_sources(lower))),
        merge(s.level_sources(lower)),
    );
    lemma_scan_merge(s, lower, upper, Seq::empty());
    lemma_visible(m, upper);
    assert forall|k: Seq<u8>, v: Seq<u8>| #[trigger]
        s.scan(lower, upper).contains((k, v)) <==> above_lower(k, lower) && below_upper(k, upper)
            && s.get(k) == Some(v) by {
        lemma_scan_merge(s, lower, upper, k);
        lemma_lookup_contains(m, k, v);
    }
}

} // verus!
