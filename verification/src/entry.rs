//! Entries: pairs of a key and a value, and sequences of them ordered by key.

use crate::key::{compare_keys, key_le, key_lt, KeyOrder};
use crate::key::{lemma_key_le_lt, lemma_key_le_transitive, lemma_key_trichotomy};
use vstd::prelude::*;

verus! {

/// The entries that a vector of pairs of byte vectors holds.
pub open spec fn entries_of(kvs: Seq<(Vec<u8>, Vec<u8>)>) -> Seq<(Seq<u8>, Seq<u8>)> {
    Seq::new(kvs.len(), |i: int| (kvs[i].0@, kvs[i].1@))
}

/// The room that an entry takes in a block: its key and value, a two-byte
/// length for each, and a two-byte offset.
pub open spec fn entry_size(e: (Seq<u8>, Seq<u8>)) -> nat {
    6 + e.0.len() + e.1.len()
}

/// The room that a sequence of entries takes in a block.
pub open spec fn entries_size(s: Seq<(Seq<u8>, Seq<u8>)>) -> nat
    decreases s.len(),
{
    if s.len() == 0 {
        0
    } else {
        entries_size(s.drop_last()) + entry_size(s.last())
    }
}

/// The keys are strictly increasing.
pub open spec fn keys_increasing(s: Seq<(Seq<u8>, Seq<u8>)>) -> bool {
    forall|i: int, j: int| 0 <= i < j < s.len() ==> key_lt(#[trigger] s[i].0, #[trigger] s[j].0)
}

/// The keys never decrease.
pub open spec fn keys_ordered(s: Seq<(Seq<u8>, Seq<u8>)>) -> bool {
    forall|i: int, j: int| 0 <= i < j < s.len() ==> key_le(#[trigger] s[i].0, #[trigger] s[j].0)
}

/// Every key is below `bound`.
pub open spec fn keys_below(s: Seq<(Seq<u8>, Seq<u8>)>, bound: Seq<u8>) -> bool {
    forall|i: int| 0 <= i < s.len() ==> key_lt(#[trigger] s[i].0, bound)
}

/// Every key is at least `bound`.
pub open spec fn keys_from(s: Seq<(Seq<u8>, Seq<u8>)>, bound: Seq<u8>) -> bool {
    forall|i: int| 0 <= i < s.len() ==> key_le(bound, #[trigger] s[i].0)
}

/// Some entry of `s` has the key `k`.
pub open spec fn has_key(s: Seq<(Seq<u8>, Seq<u8>)>, k: Seq<u8>) -> bool {
    exists|j: int| 0 <= j < s.len() && (#[trigger] s[j]).0 == k
}

/// Where the keys increase, each key is at least the first, and what follows
/// the first entry has greater keys and increases too.
pub proof fn lemma_increasing_skip(s: Seq<(Seq<u8>, Seq<u8>)>)
    requires
        keys_increasing(s),
        s.len() > 0,
    ensures
        keys_increasing(s.skip(1)),
        forall|j: int| 0 <= j < s.len() ==> key_le(s[0].0, (#[trigger] s[j]).0),
        forall|j: int| 0 <= j < s.skip(1).len() ==> key_lt(s[0].0, (#[trigger] s.skip(1)[j]).0),
        !has_key(s.skip(1), s[0].0),
{
    let t = s.skip(1);
    assert forall|i: int, j: int| 0 <= i < j < t.len() implies key_lt(
        #[trigger] t[i].0,
        #[trigger] t[j].0,
    ) by {
        assert(t[i] == s[i + 1] && t[j] == s[j + 1]);
    }
    assert forall|j: int| 0 <= j < s.len() implies key_le(s[0].0, (#[trigger] s[j]).0) by {
        if j > 0 {
            assert(key_lt(s[0].0, s[j].0));
        }
    }
    assert forall|j: int| 0 <= j < t.len() implies key_lt(s[0].0, (#[trigger] t[j]).0) by {
        assert(t[j] == s[j + 1]);
    }
    if has_key(t, s[0].0) {
        let j = choose|j: int| 0 <= j < t.len() && (#[trigger] t[j]).0 == s[0].0;
        assert(key_lt(s[0].0, t[j].0));
        crate::key::lemma_key_lt_asymmetric(s[0].0, t[j].0);
    }
}

/// Where `e` goes in `s`: behind the last entry whose key is not above its own.
pub open spec fn insert_position(s: Seq<(Seq<u8>, Seq<u8>)>, e: (Seq<u8>, Seq<u8>)) -> int
    decreases s.len(),
{
    if s.len() > 0 && key_lt(e.0, s.last().0) {
        insert_position(s.drop_last(), e)
    } else {
        s.len() as int
    }
}

/// The entries sorted by key; entries of equal keys keep their order.
pub open spec fn sort_by_key(s: Seq<(Seq<u8>, Seq<u8>)>) -> Seq<(Seq<u8>, Seq<u8>)>
    decreases s.len(),
{
    if s.len() == 0 {
        s
    } else {
        let sorted = sort_by_key(s.drop_last());
        sorted.insert(insert_position(sorted, s.last()), s.last())
    }
}

/// The size of a sequence grows by the size of what is pushed.
pub proof fn lemma_entries_size_push(s: Seq<(Seq<u8>, Seq<u8>)>, e: (Seq<u8>, Seq<u8>))
    ensures
        entries_size(s.push(e)) == entries_size(s) + entry_size(e),
{
    assert(s.push(e).drop_last() =~= s);
}

/// The size of a sequence grows by the size of what is inserted.
pub proof fn lemma_entries_size_insert(s: Seq<(Seq<u8>, Seq<u8>)>, p: int, e: (Seq<u8>, Seq<u8>))
    requires
        0 <= p <= s.len(),
    ensures
        entries_size(s.insert(p, e)) == entries_size(s) + entry_size(e),
    decreases s.len(),
{
    if p == s.len() {
        assert(s.insert(p, e) =~= s.push(e));
        lemma_entries_size_push(s, e);
    } else {
        assert(s.insert(p, e).drop_last() =~= s.drop_last().insert(p, e));
        lemma_entries_size_insert(s.drop_last(), p, e);
    }
}

/// A prefix of the entries takes no more room than all of them.
pub proof fn lemma_entries_size_take(s: Seq<(Seq<u8>, Seq<u8>)>, i: int)
    requires
        0 <= i <= s.len(),
    ensures
        entries_size(s.take(i)) <= entries_size(s),
    decreases s.len(),
{
    if i == s.len() {
        assert(s.take(i) =~= s);
    } else {
        assert(s.drop_last().take(i) =~= s.take(i));
        lemma_entries_size_take(s.drop_last(), i);
    }
}

/// What `insert_position` returns: every entry from there on has a greater
/// key, and the entry before it has not.
pub proof fn lemma_insert_position(s: Seq<(Seq<u8>, Seq<u8>)>, e: (Seq<u8>, Seq<u8>))
    ensures
        0 <= insert_position(s, e) <= s.len(),
        forall|j: int| insert_position(s, e) <= j < s.len() ==> key_lt(e.0, #[trigger] s[j].0),
        insert_position(s, e) > 0 ==> key_le(s[insert_position(s, e) - 1].0, e.0),
    decreases s.len(),
{
    if s.len() > 0 && key_lt(e.0, s.last().0) {
        let init = s.drop_last();
        lemma_insert_position(init, e);
        assert forall|j: int| insert_position(s, e) <= j < s.len() implies key_lt(
            e.0,
            #[trigger] s[j].0,
        ) by {
            if j < init.len() {
                assert(s[j] == init[j]);
            }
        }
        if insert_position(s, e) > 0 {
            assert(s[insert_position(s, e) - 1] == init[insert_position(init, e) - 1]);
        }
    } else if s.len() > 0 {
        lemma_key_trichotomy(e.0, s.last().0);
    }
}

/// A position with the two properties of `insert_position` is that position.
pub proof fn lemma_insert_position_unique(
    s: Seq<(Seq<u8>, Seq<u8>)>,
    e: (Seq<u8>, Seq<u8>),
    p: int,
)
    requires
        0 <= p <= s.len(),
        forall|j: int| p <= j < s.len() ==> key_lt(e.0, #[trigger] s[j].0),
        p > 0 ==> !key_lt(e.0, s[p - 1].0),
    ensures
        insert_position(s, e) == p,
    decreases s.len(),
{
    if p < s.len() {
        assert(key_lt(e.0, s[s.len() - 1].0));
        lemma_insert_position_unique(s.drop_last(), e, p);
    }
}

/// Sorting keeps the number of entries and their total size, and leaves the
/// keys in order.
pub proof fn lemma_sort_by_key(s: Seq<(Seq<u8>, Seq<u8>)>)
    ensures
        sort_by_key(s).len() == s.len(),
        entries_size(sort_by_key(s)) == entries_size(s),
        keys_ordered(sort_by_key(s)),
        sort_by_key(s).to_multiset() == s.to_multiset(),
    decreases s.len(),
{
    if s.len() == 0 {
    } else {
        let init = s.drop_last();
        let e = s.last();
        let sorted = sort_by_key(init);
        lemma_sort_by_key(init);
        lemma_insert_position(sorted, e);
        let p = insert_position(sorted, e);
        let out = sorted.insert(p, e);
        lemma_entries_size_insert(sorted, p, e);
        assert forall|i: int, j: int| 0 <= i < j < out.len() implies key_le(
            #[trigger] out[i].0,
            #[trigger] out[j].0,
        ) by {
            if j < p {
                assert(out[i] == sorted[i] && out[j] == sorted[j]);
            } else if j == p {
                assert(out[i] == sorted[i]);
                if i < p - 1 {
                    assert(key_le(sorted[i].0, sorted[p - 1].0));
                    crate::key::lemma_key_le_transitive(sorted[i].0, sorted[p - 1].0, e.0);
                }
            } else if i < p {
                assert(out[i] == sorted[i] && out[j] == sorted[j - 1]);
            } else if i == p {
                assert(out[j] == sorted[j - 1]);
            } else {
                assert(out[i] == sorted[i - 1] && out[j] == sorted[j - 1]);
            }
        }
        assert(sort_by_key(s).to_multiset() == s.to_multiset()) by {
            out.to_multiset_ensures();
            init.to_multiset_ensures();
            assert(out.remove(p) =~= sorted);
            assert(out[p] == e);
            assert(s =~= init.push(e));
            assert(out.to_multiset() =~= sorted.to_multiset().insert(e));
        }
    }
}

/// Sorting neither adds nor drops an entry.
pub proof fn lemma_sort_contains(s: Seq<(Seq<u8>, Seq<u8>)>, e: (Seq<u8>, Seq<u8>))
    ensures
        sort_by_key(s).contains(e) <==> s.contains(e),
{
    lemma_sort_by_key(s);
    s.to_multiset_ensures();
    sort_by_key(s).to_multiset_ensures();
    assert(s.to_multiset().count(e) == sort_by_key(s).to_multiset().count(e));
}

/// A part of a sequence whose keys are at least `bound` has such keys too.
pub proof fn lemma_subset_keys_from(
    sub: Seq<(Seq<u8>, Seq<u8>)>,
    sup: Seq<(Seq<u8>, Seq<u8>)>,
    bound: Seq<u8>,
)
    requires
        forall|e: (Seq<u8>, Seq<u8>)| #[trigger] sub.contains(e) ==> sup.contains(e),
        keys_from(sup, bound),
    ensures
        keys_from(sub, bound),
{
    assert forall|i: int| 0 <= i < sub.len() implies key_le(bound, #[trigger] sub[i].0) by {
        assert(sub.contains(sub[i]));
        let j = choose|j: int| 0 <= j < sup.len() && sup[j] == sub[i];
        assert(key_le(bound, sup[j].0));
    }
}

/// A part of a sequence whose keys are below `bound` has such keys too.
pub proof fn lemma_subset_keys_below(
    sub: Seq<(Seq<u8>, Seq<u8>)>,
    sup: Seq<(Seq<u8>, Seq<u8>)>,
    bound: Seq<u8>,
)
    requires
        forall|e: (Seq<u8>, Seq<u8>)| #[trigger] sub.contains(e) ==> sup.contains(e),
        keys_below(sup, bound),
    ensures
        keys_below(sub, bound),
{
    assert forall|i: int| 0 <= i < sub.len() implies key_lt(#[trigger] sub[i].0, bound) by {
        assert(sub.contains(sub[i]));
        let j = choose|j: int| 0 <= j < sup.len() && sup[j] == sub[i];
        assert(key_lt(sup[j].0, bound));
    }
}

/// Sorting leaves a sequence whose keys are in order as it is.
pub proof fn lemma_sort_ordered(s: Seq<(Seq<u8>, Seq<u8>)>)
    requires
        keys_ordered(s),
    ensures
        sort_by_key(s) == s,
    decreases s.len(),
{
    if s.len() > 0 {
        let init = s.drop_last();
        lemma_sort_ordered(init);
        if init.len() > 0 {
            assert(key_le(s[init.len() - 1].0, s[s.len() - 1].0));
            lemma_key_trichotomy(init.last().0, s.last().0);
        }
        assert(insert_position(init, s.last()) == init.len());
        assert(init.insert(init.len() as int, s.last()) =~= s);
    }
}

/// The entries whose key is below `k`.
pub open spec fn key_below(k: Seq<u8>) -> spec_fn((Seq<u8>, Seq<u8>)) -> bool {
    |e: (Seq<u8>, Seq<u8>)| key_lt(e.0, k)
}

/// The entries whose key is above `k`.
pub open spec fn key_above(k: Seq<u8>) -> spec_fn((Seq<u8>, Seq<u8>)) -> bool {
    |e: (Seq<u8>, Seq<u8>)| key_lt(k, e.0)
}

/// The entries whose key is `k`.
pub open spec fn key_is(k: Seq<u8>) -> spec_fn((Seq<u8>, Seq<u8>)) -> bool {
    |e: (Seq<u8>, Seq<u8>)| e.0 == k
}

/// The entries whose key is `k` or above.
pub open spec fn key_from(k: Seq<u8>) -> spec_fn((Seq<u8>, Seq<u8>)) -> bool {
    |e: (Seq<u8>, Seq<u8>)| key_le(k, e.0)
}

/// Of entries whose keys are all below `k`, none has a key from `k` on.
pub proof fn lemma_filter_none_from(s: Seq<(Seq<u8>, Seq<u8>)>, k: Seq<u8>)
    requires
        keys_below(s, k),
    ensures
        s.filter(key_from(k)) == Seq::<(Seq<u8>, Seq<u8>)>::empty(),
    decreases s.len(),
{
    reveal(Seq::filter);
    if s.len() > 0 {
        assert(forall|i: int| 0 <= i < s.len() - 1 ==> s.drop_last()[i] == s[i]);
        lemma_filter_none_from(s.drop_last(), k);
        assert(key_lt(s[s.len() - 1].0, k));
        lemma_key_trichotomy(s.last().0, k);
    }
}

/// Of entries whose keys are all `k` or above, each has a key from `k` on.
pub proof fn lemma_filter_all_from(s: Seq<(Seq<u8>, Seq<u8>)>, k: Seq<u8>)
    requires
        keys_from(s, k),
    ensures
        s.filter(key_from(k)) == s,
    decreases s.len(),
{
    reveal(Seq::filter);
    if s.len() > 0 {
        assert(forall|i: int| 0 <= i < s.len() - 1 ==> s.drop_last()[i] == s[i]);
        lemma_filter_all_from(s.drop_last(), k);
        assert(key_le(k, s[s.len() - 1].0));
        assert(s.drop_last().push(s.last()) =~= s);
    }
}

/// Where the first `p` entries have keys below `k` and the others have not,
/// the entries with keys from `k` on are those behind the first `p`.
pub proof fn lemma_filter_from_is_skip(s: Seq<(Seq<u8>, Seq<u8>)>, k: Seq<u8>, p: int)
    requires
        0 <= p <= s.len(),
        forall|j: int| 0 <= j < p ==> key_lt((#[trigger] s[j]).0, k),
        forall|j: int| p <= j < s.len() ==> key_le(k, (#[trigger] s[j]).0),
    ensures
        s.filter(key_from(k)) == s.skip(p),
{
    let a = s.take(p);
    let b = s.skip(p);
    assert(s =~= a + b);
    assert(keys_below(a, k));
    assert(keys_from(b, k)) by {
        assert forall|i: int| 0 <= i < b.len() implies key_le(k, #[trigger] b[i].0) by {
            assert(b[i] == s[p + i]);
        }
    }
    lemma_filter_none_from(a, k);
    lemma_filter_all_from(b, k);
    Seq::filter_distributes_over_add(a, b, key_from(k));
    assert(Seq::<(Seq<u8>, Seq<u8>)>::empty() + b =~= b);
}

/// A filter that accepts the same entries as another gives the same result.
pub proof fn lemma_filter_ext<A>(s: Seq<A>, p: spec_fn(A) -> bool, q: spec_fn(A) -> bool)
    requires
        forall|j: int| 0 <= j < s.len() ==> p(#[trigger] s[j]) == q(s[j]),
    ensures
        s.filter(p) == s.filter(q),
    decreases s.len(),
{
    reveal(Seq::filter);
    if s.len() > 0 {
        assert(forall|i: int| 0 <= i < s.len() - 1 ==> s.drop_last()[i] == s[i]);
        lemma_filter_ext(s.drop_last(), p, q);
        assert(p(s[s.len() - 1]) == q(s[s.len() - 1]));
    }
}

/// Where a filter rejects the first `n` entries and accepts the others, it
/// leaves those behind the first `n`.
pub proof fn lemma_filter_is_skip<A>(s: Seq<A>, p: spec_fn(A) -> bool, n: int)
    requires
        0 <= n <= s.len(),
        forall|j: int| 0 <= j < n ==> !p(#[trigger] s[j]),
        forall|j: int| n <= j < s.len() ==> p(#[trigger] s[j]),
    ensures
        s.filter(p) == s.skip(n),
    decreases s.len(),
{
    reveal(Seq::filter);
    if s.len() > 0 {
        let init = s.drop_last();
        assert(forall|i: int| 0 <= i < s.len() - 1 ==> init[i] == s[i]);
        if n == s.len() {
            lemma_filter_is_skip(init, p, n - 1);
            assert(!p(s[s.len() - 1]));
            assert(init.skip(n - 1) =~= s.skip(n));
        } else {
            lemma_filter_is_skip(init, p, n);
            assert(p(s[s.len() - 1]));
            assert(init.skip(n).push(s.last()) =~= s.skip(n));
        }
    } else {
        assert(s.skip(n) =~= s);
    }
}

/// Filtering a sequence with one more entry keeps that entry or drops it.
pub proof fn lemma_filter_push<A>(s: Seq<A>, x: A, p: spec_fn(A) -> bool)
    ensures
        s.push(x).filter(p) == if p(x) {
            s.filter(p).push(x)
        } else {
            s.filter(p)
        },
{
    reveal(Seq::filter);
    assert(s.push(x).drop_last() =~= s);
}

/// Every entry is below the key, has the key, or is above it: the three
/// filters divide the entries among them.
pub proof fn lemma_filter_partition(s: Seq<(Seq<u8>, Seq<u8>)>, k: Seq<u8>)
    ensures
        s.filter(key_below(k)).len() + s.filter(key_is(k)).len() + s.filter(key_above(k)).len()
            == s.len(),
    decreases s.len(),
{
    reveal(Seq::filter);
    if s.len() > 0 {
        lemma_filter_partition(s.drop_last(), k);
        lemma_key_trichotomy(s.last().0, k);
    }
}

/// A filter keeps an entry that it accepts: the result is as long as the
/// number of accepted entries counted so far.
pub proof fn lemma_filter_two(s: Seq<(Seq<u8>, Seq<u8>)>, p: spec_fn((Seq<u8>, Seq<u8>)) -> bool, i: int, j: int)
    requires
        0 <= i < j < s.len(),
        p(s[i]),
        p(s[j]),
    ensures
        s.filter(p).len() >= 2,
    decreases s.len(),
{
    reveal(Seq::filter);
    if j == s.len() - 1 {
        s.drop_last().lemma_filter_contains(p, i);
    } else {
        lemma_filter_two(s.drop_last(), p, i, j);
    }
}

/// The three filters divide the room that the entries take among them.
pub proof fn lemma_filter_partition_size(s: Seq<(Seq<u8>, Seq<u8>)>, k: Seq<u8>)
    ensures
        entries_size(s.filter(key_below(k))) + entries_size(s.filter(key_is(k))) + entries_size(
            s.filter(key_above(k)),
        ) == entries_size(s),
    decreases s.len(),
{
    reveal(Seq::filter);
    if s.len() > 0 {
        let init = s.drop_last();
        let e = s.last();
        lemma_filter_partition_size(init, k);
        lemma_key_trichotomy(e.0, k);
        lemma_entries_size_push(init.filter(key_below(k)), e);
        lemma_entries_size_push(init.filter(key_is(k)), e);
        lemma_entries_size_push(init.filter(key_above(k)), e);
    } else {
        assert(s.filter(key_below(k)) =~= s);
        assert(s.filter(key_is(k)) =~= s);
        assert(s.filter(key_above(k)) =~= s);
    }
}

/// What is left of increasing keys after a filter increases.
pub proof fn lemma_filter_increasing(
    s: Seq<(Seq<u8>, Seq<u8>)>,
    p: spec_fn((Seq<u8>, Seq<u8>)) -> bool,
)
    requires
        keys_increasing(s),
    ensures
        keys_increasing(s.filter(p)),
        forall|j: int|
            0 <= j < s.filter(p).len() && s.len() > 0 ==> key_le(
                (#[trigger] s.filter(p)[j]).0,
                s.last().0,
            ),
    decreases s.len(),
{
    reveal(Seq::filter);
    if s.len() > 0 {
        let init = s.drop_last();
        let f = init.filter(p);
        assert(keys_increasing(init)) by {
            assert forall|i: int, j: int| 0 <= i < j < init.len() implies key_lt(
                #[trigger] init[i].0,
                #[trigger] init[j].0,
            ) by {
                assert(init[i] == s[i] && init[j] == s[j]);
            }
        }
        lemma_filter_increasing(init, p);
        assert forall|j: int| 0 <= j < f.len() implies key_lt((#[trigger] f[j]).0, s.last().0) by {
            assert(init.len() > 0) by {
                init.lemma_filter_len(p);
            }
            assert(key_le(f[j].0, init.last().0));
            assert(init.last() == s[s.len() - 2]);
            assert(key_lt(s[s.len() - 2].0, s[s.len() - 1].0));
            lemma_key_le_lt(f[j].0, init.last().0, s.last().0);
        }
        let r = s.filter(p);
        assert forall|i: int, j: int| 0 <= i < j < r.len() implies key_lt(
            #[trigger] r[i].0,
            #[trigger] r[j].0,
        ) by {
            if j < f.len() {
                assert(r[i] == f[i] && r[j] == f[j]);
            } else {
                assert(r[i] == f[i]);
            }
        }
    }
}

/// An entry whose key the increasing entries do not hold goes among them
/// without harm to the order.
pub proof fn lemma_insert_increasing(s: Seq<(Seq<u8>, Seq<u8>)>, e: (Seq<u8>, Seq<u8>))
    requires
        keys_increasing(s),
        !has_key(s, e.0),
    ensures
        keys_increasing(s.insert(insert_position(s, e), e)),
{
    let p = insert_position(s, e);
    lemma_insert_position(s, e);
    let t = s.insert(p, e);
    assert forall|a: int, b: int| 0 <= a < b < t.len() implies key_lt(
        #[trigger] t[a].0,
        #[trigger] t[b].0,
    ) by {
        if b < p {
            assert(t[a] == s[a] && t[b] == s[b]);
        } else if b == p {
            assert(t[a] == s[a]);
            assert(key_le(s[a].0, s[p - 1].0)) by {
                if a < p - 1 {
                    assert(key_lt(s[a].0, s[p - 1].0));
                }
            }
            assert(s[a].0 != e.0);
            lemma_key_le_transitive(s[a].0, s[p - 1].0, e.0);
        } else if a < p {
            assert(t[a] == s[a] && t[b] == s[b - 1]);
        } else if a == p {
            assert(t[b] == s[b - 1]);
        } else {
            assert(t[a] == s[a - 1] && t[b] == s[b - 1]);
        }
    }
}

/// A sequence without entries takes no room, and every entry takes at least
/// six bytes.
pub proof fn lemma_entries_size_bounds(s: Seq<(Seq<u8>, Seq<u8>)>)
    ensures
        entries_size(s) >= 6 * s.len(),
    decreases s.len(),
{
    if s.len() > 0 {
        lemma_entries_size_bounds(s.drop_last());
    }
}

/// Strictly increasing keys are in order.
pub proof fn lemma_increasing_is_ordered(s: Seq<(Seq<u8>, Seq<u8>)>)
    requires
        keys_increasing(s),
    ensures
        keys_ordered(s),
{
}

/// The pairs in the opposite order.
pub fn reverse_pairs(kvs: Vec<(Vec<u8>, Vec<u8>)>) -> (out: Vec<(Vec<u8>, Vec<u8>)>)
    ensures
        out@ == kvs@.reverse(),
{
    let n = kvs.len();
    let mut rest = kvs;
    let mut out: Vec<(Vec<u8>, Vec<u8>)> = Vec::new();
    while rest.len() > 0
        invariant
            rest@.len() + out@.len() == n,
            n == kvs@.len(),
            rest@ == kvs@.take(rest@.len() as int),
            forall|j: int| 0 <= j < out@.len() ==> out@[j] == kvs@[n - 1 - j],
        decreases rest@.len(),
    {
        let e = rest.pop().unwrap();
        out.push(e);
        assert(rest@ =~= kvs@.take(rest@.len() as int));
    }
    assert(out@ =~= kvs@.reverse());
    out
}

/// Sorts pairs by key; pairs of equal keys keep their order.
pub fn sort_pairs(kvs: Vec<(Vec<u8>, Vec<u8>)>) -> (out: Vec<(Vec<u8>, Vec<u8>)>)
    ensures
        entries_of(out@) == sort_by_key(entries_of(kvs@)),
{
    let ghost input = entries_of(kvs@);
    let ghost kvs_seq = kvs@;
    let n = kvs.len();
    let mut stack = reverse_pairs(kvs);
    let mut out: Vec<(Vec<u8>, Vec<u8>)> = Vec::new();
    let mut i: usize = 0;
    assert(input.take(0) =~= Seq::empty());
    while i < n
        invariant
            i <= n,
            n == kvs_seq.len(),
            input == entries_of(kvs_seq),
            stack@.len() == n - i,
            forall|j: int| 0 <= j < stack@.len() ==> stack@[j] == kvs_seq[n - 1 - j],
            entries_of(out@) == sort_by_key(input.take(i as int)),
        decreases n - i,
    {
        let e = stack.pop().unwrap();
        assert(e == kvs_seq[i as int]);
        let ghost sorted = entries_of(out@);
        let ghost ent = (e.0@, e.1@);
        proof {
            lemma_sort_by_key(input.take(i as int));
        }
        let mut p: usize = out.len();
        while p > 0 && compare_keys(e.0.as_slice(), out[p - 1].0.as_slice()) == KeyOrder::Less
            invariant
                p <= out@.len(),
                sorted == entries_of(out@),
                ent.0 == e.0@,
                forall|j: int| p <= j < sorted.len() ==> key_lt(ent.0, #[trigger] sorted[j].0),
            decreases p,
        {
            p -= 1;
        }
        proof {
            lemma_insert_position_unique(sorted, ent, p as int);
            assert(input.take(i + 1).drop_last() =~= input.take(i as int));
            assert(input.take(i + 1).last() == ent);
        }
        out.insert(p, e);
        assert(entries_of(out@) =~= sorted.insert(p as int, ent));
        i += 1;
    }
    assert(input.take(n as int) =~= input);
    out
}

} // verus!
