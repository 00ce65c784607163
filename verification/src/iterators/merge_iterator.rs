//! Merges any number of sources of one type. Where several sources stand on
//! one key, the source that comes first among them wins, and the others are
//! moved past that key.

use crate::entry::{has_key, keys_increasing, lemma_increasing_skip};
use crate::error::Error;
use crate::iterators::two_merge_iterator::{lemma_cons_increasing, lemma_skip_contains};
use crate::iterators::StorageIterator;
use crate::key::{compare_keys, key_le, key_lt, keys_equal, KeyOrder};
use vstd::prelude::*;
use vstd::slice::slice_to_vec;

verus! {

/// The number of entries in all sources together.
pub open spec fn total_len(srcs: Seq<Seq<(Seq<u8>, Seq<u8>)>>) -> nat
    decreases srcs.len(),
{
    if srcs.len() == 0 {
        0
    } else {
        total_len(srcs.drop_last()) + srcs.last().len()
    }
}

/// The source that gives the next entry: among the sources that have an
/// entry left, the one whose first entry has the least key, and among those
/// the one that comes first.
pub open spec fn winner(srcs: Seq<Seq<(Seq<u8>, Seq<u8>)>>) -> Option<int>
    decreases srcs.len(),
{
    if srcs.len() == 0 {
        None
    } else {
        let last = srcs.len() - 1;
        match winner(srcs.drop_last()) {
            None => if srcs[last].len() > 0 {
                Some(last)
            } else {
                None
            },
            Some(w) => if srcs[last].len() > 0 && key_lt(srcs[last][0].0, srcs[w][0].0) {
                Some(last)
            } else {
                Some(w)
            },
        }
    }
}

/// The sources after source `w` has given its first entry.
pub open spec fn advanced(srcs: Seq<Seq<(Seq<u8>, Seq<u8>)>>, w: int) -> Seq<
    Seq<(Seq<u8>, Seq<u8>)>,
> {
    srcs.update(w, srcs[w].skip(1))
}

/// The sources after one step: the winner, if there is one, has given its
/// first entry.
pub open spec fn stepped(srcs: Seq<Seq<(Seq<u8>, Seq<u8>)>>) -> Seq<Seq<(Seq<u8>, Seq<u8>)>> {
    match winner(srcs) {
        Some(w) => advanced(srcs, w),
        None => srcs,
    }
}

/// The sources after as many steps as it takes until the winner no longer
/// stands on the key `k`.
pub open spec fn skip_key(srcs: Seq<Seq<(Seq<u8>, Seq<u8>)>>, k: Seq<u8>) -> Seq<
    Seq<(Seq<u8>, Seq<u8>)>,
>
    decreases total_len(srcs),
    via skip_key_decreases
{
    match winner(srcs) {
        Some(w) => if srcs[w][0].0 == k {
            skip_key(advanced(srcs, w), k)
        } else {
            srcs
        },
        None => srcs,
    }
}

#[via_fn]
proof fn skip_key_decreases(srcs: Seq<Seq<(Seq<u8>, Seq<u8>)>>, k: Seq<u8>) {
    lemma_winner(srcs);
    if winner(srcs) is Some {
        lemma_total_len_advanced(srcs, winner(srcs).unwrap());
    }
}

/// The merge of the sources: the first entry of the winner, then the merge
/// of what is left once every step onto that entry's key is taken.
pub open spec fn merge(srcs: Seq<Seq<(Seq<u8>, Seq<u8>)>>) -> Seq<(Seq<u8>, Seq<u8>)>
    decreases total_len(srcs),
    via merge_decreases
{
    match winner(srcs) {
        Some(w) => seq![srcs[w][0]] + merge(skip_key(advanced(srcs, w), srcs[w][0].0)),
        None => Seq::empty(),
    }
}

#[via_fn]
proof fn merge_decreases(srcs: Seq<Seq<(Seq<u8>, Seq<u8>)>>) {
    lemma_winner(srcs);
    if winner(srcs) is Some {
        let w = winner(srcs).unwrap();
        lemma_total_len_advanced(srcs, w);
        lemma_skip_key_len(advanced(srcs, w), srcs[w][0].0);
    }
}

/// The first entry of the winner has the least key among the first entries,
/// and no earlier source stands on that key; there is no winner only where
/// every source has run out.
pub proof fn lemma_winner(srcs: Seq<Seq<(Seq<u8>, Seq<u8>)>>)
    ensures
        match winner(srcs) {
            Some(w) => {
                &&& 0 <= w < srcs.len()
                &&& srcs[w].len() > 0
                &&& forall|j: int|
                    0 <= j < srcs.len() && (#[trigger] srcs[j]).len() > 0 ==> {
                        ||| key_lt(srcs[w][0].0, srcs[j][0].0)
                        ||| (srcs[w][0].0 == srcs[j][0].0 && w <= j)
                    }
            },
            None => forall|j: int| 0 <= j < srcs.len() ==> (#[trigger] srcs[j]).len() == 0,
        },
    decreases srcs.len(),
{
    if srcs.len() > 0 {
        let init = srcs.drop_last();
        let last = srcs.len() - 1;
        lemma_winner(init);
        assert(forall|j: int| 0 <= j < init.len() ==> init[j] == srcs[j]);
        match winner(init) {
            None => {},
            Some(w) => {
                let hw = srcs[w][0].0;
                if srcs[last].len() > 0 {
                    let hl = srcs[last][0].0;
                    crate::key::lemma_key_trichotomy(hl, hw);
                    if key_lt(hl, hw) {
                        assert forall|j: int|
                            0 <= j < srcs.len() && (#[trigger] srcs[j]).len() > 0 implies {
                            ||| key_lt(hl, srcs[j][0].0)
                            ||| (hl == srcs[j][0].0 && last <= j)
                        } by {
                            if j < last {
                                assert(init[j].len() > 0);
                                crate::key::lemma_key_lt_le(hl, hw, srcs[j][0].0);
                            }
                        }
                    }
                }
            },
        }
    }
}

/// A step takes one entry away.
pub proof fn lemma_total_len_advanced(srcs: Seq<Seq<(Seq<u8>, Seq<u8>)>>, w: int)
    requires
        0 <= w < srcs.len(),
        srcs[w].len() > 0,
    ensures
        total_len(advanced(srcs, w)) + 1 == total_len(srcs),
    decreases srcs.len(),
{
    let next = advanced(srcs, w);
    if w == srcs.len() - 1 {
        assert(next.drop_last() =~= srcs.drop_last());
    } else {
        assert(next.drop_last() =~= advanced(srcs.drop_last(), w));
        lemma_total_len_advanced(srcs.drop_last(), w);
    }
}

/// Steps onto one key keep the number of sources and add no entries.
pub proof fn lemma_skip_key_len(srcs: Seq<Seq<(Seq<u8>, Seq<u8>)>>, k: Seq<u8>)
    ensures
        skip_key(srcs, k).len() == srcs.len(),
        total_len(skip_key(srcs, k)) <= total_len(srcs),
    decreases total_len(srcs),
{
    lemma_winner(srcs);
    match winner(srcs) {
        Some(w) => {
            if srcs[w][0].0 == k {
                lemma_total_len_advanced(srcs, w);
                lemma_skip_key_len(advanced(srcs, w), k);
            }
        },
        None => {},
    }
}

/// A source without its first entry, if that entry has the key `k`.
pub open spec fn without_head(s: Seq<(Seq<u8>, Seq<u8>)>, k: Seq<u8>) -> Seq<(Seq<u8>, Seq<u8>)> {
    if s.len() > 0 && s[0].0 == k {
        s.skip(1)
    } else {
        s
    }
}

/// The keys of every source increase.
pub open spec fn all_increasing(srcs: Seq<Seq<(Seq<u8>, Seq<u8>)>>) -> bool {
    forall|i: int| 0 <= i < srcs.len() ==> keys_increasing(#[trigger] srcs[i])
}

/// No source stands on a key below `k`.
pub open spec fn heads_from(srcs: Seq<Seq<(Seq<u8>, Seq<u8>)>>, k: Seq<u8>) -> bool {
    forall|i: int| 0 <= i < srcs.len() && (#[trigger] srcs[i]).len() > 0 ==> key_le(k, srcs[i][0].0)
}

/// The entry `e` stands in one of the sources, and no earlier source holds
/// its key.
pub open spec fn from_earliest(srcs: Seq<Seq<(Seq<u8>, Seq<u8>)>>, e: (Seq<u8>, Seq<u8>)) -> bool {
    exists|i: int|
        0 <= i < srcs.len() && (#[trigger] srcs[i]).contains(e) && forall|h: int|
            0 <= h < i ==> !has_key(#[trigger] srcs[h], e.0)
}

/// What is left of an increasing source that stands on `k` or above, once an
/// entry of the key `k` is taken from its head: the keys increase and are
/// above `k`, and only that entry is gone.
pub proof fn lemma_without_head(s: Seq<(Seq<u8>, Seq<u8>)>, k: Seq<u8>)
    requires
        keys_increasing(s),
        s.len() > 0 ==> key_le(k, s[0].0),
    ensures
        keys_increasing(without_head(s, k)),
        forall|j: int|
            0 <= j < without_head(s, k).len() ==> key_lt(k, (#[trigger] without_head(s, k)[j]).0),
        forall|e: (Seq<u8>, Seq<u8>)| #[trigger] without_head(s, k).contains(e) ==> s.contains(e),
        forall|j: int| 0 <= j < s.len() && (#[trigger] s[j]).0 != k ==> without_head(s, k).contains(
            s[j],
        ),
        forall|j: int| 0 <= j < s.len() && (#[trigger] s[j]).0 == k ==> j == 0,
{
    let r = without_head(s, k);
    if s.len() > 0 {
        lemma_increasing_skip(s);
        assert forall|j: int| 0 <= j < s.len() && (#[trigger] s[j]).0 == k implies j == 0 by {
            if j > 0 {
                assert(key_lt(s[0].0, s[j].0));
                crate::key::lemma_key_le_lt(k, s[0].0, k);
                crate::key::lemma_key_lt_asymmetric(k, k);
            }
        }
        if s[0].0 == k {
            assert forall|e: (Seq<u8>, Seq<u8>)| #[trigger] r.contains(e) implies s.contains(e) by {
                lemma_skip_contains(s, e);
            }
            assert forall|j: int| 0 <= j < s.len() && (#[trigger] s[j]).0 != k implies r.contains(
                s[j],
            ) by {
                assert(r[j - 1] == s[j]);
            }
        } else {
            assert forall|j: int| 0 <= j < r.len() implies key_lt(k, (#[trigger] r[j]).0) by {
                assert(key_le(s[0].0, s[j].0));
                assert(key_lt(k, s[0].0));
                crate::key::lemma_key_lt_le(k, s[0].0, s[j].0);
            }
        }
    }
}

/// Among increasing sources of which none stands below `k`, the steps onto
/// `k` take from each source that stands on `k` its first entry, and nothing
/// else.
pub proof fn lemma_skip_key_increasing(srcs: Seq<Seq<(Seq<u8>, Seq<u8>)>>, k: Seq<u8>)
    requires
        all_increasing(srcs),
        heads_from(srcs, k),
    ensures
        skip_key(srcs, k).len() == srcs.len(),
        forall|i: int|
            0 <= i < srcs.len() ==> #[trigger] skip_key(srcs, k)[i] == without_head(srcs[i], k),
    decreases total_len(srcs),
{
    lemma_winner(srcs);
    match winner(srcs) {
        None => {},
        Some(w) => {
            let hw = srcs[w][0].0;
            if hw == k {
                let next = advanced(srcs, w);
                lemma_total_len_advanced(srcs, w);
                lemma_without_head(srcs[w], k);
                assert(all_increasing(next)) by {
                    assert forall|i: int| 0 <= i < next.len() implies keys_increasing(
                        #[trigger] next[i],
                    ) by {
                        if i != w {
                            assert(next[i] == srcs[i]);
                        }
                    }
                }
                assert(heads_from(next, k)) by {
                    assert forall|i: int| 0 <= i < next.len() && (#[trigger] next[i]).len()
                        > 0 implies key_le(k, next[i][0].0) by {
                        if i != w {
                            assert(next[i] == srcs[i]);
                        } else {
                            assert(key_lt(k, without_head(srcs[w], k)[0].0));
                        }
                    }
                }
                lemma_skip_key_increasing(next, k);
                assert forall|i: int| 0 <= i < srcs.len() implies #[trigger] skip_key(srcs, k)[i]
                    == without_head(srcs[i], k) by {
                    if i == w {
                        let t = srcs[w].skip(1);
                        if t.len() > 0 {
                            assert(key_lt(k, without_head(srcs[w], k)[0].0));
                            crate::key::lemma_key_lt_asymmetric(k, t[0].0);
                        }
                        assert(without_head(next[w], k) == t);
                    } else {
                        assert(next[i] == srcs[i]);
                    }
                }
            } else {
                assert forall|i: int| 0 <= i < srcs.len() implies #[trigger] skip_key(srcs, k)[i]
                    == without_head(srcs[i], k) by {
                    if srcs[i].len() > 0 && srcs[i][0].0 == k {
                        assert(key_le(k, hw));
                        crate::key::lemma_key_trichotomy(hw, k);
                    }
                }
            }
        },
    }
}

/// Sources with increasing keys merge into a sequence with increasing keys.
/// Every entry of it comes from the earliest source that holds its key, and
/// it holds every key of every source.
pub proof fn lemma_merge_prefers_earliest(srcs: Seq<Seq<(Seq<u8>, Seq<u8>)>>)
    requires
        all_increasing(srcs),
    ensures
        keys_increasing(merge(srcs)),
        forall|n: int|
            0 <= n < merge(srcs).len() ==> from_earliest(srcs, #[trigger] merge(srcs)[n]),
        forall|i: int, j: int|
            0 <= i < srcs.len() && 0 <= j < srcs[i].len() ==> has_key(
                merge(srcs),
                (#[trigger] srcs[i][j]).0,
            ),
    decreases total_len(srcs),
{
    lemma_winner(srcs);
    match winner(srcs) {
        None => {},
        Some(w) => {
            let first = srcs[w][0];
            let k = first.0;
            let next = advanced(srcs, w);
            let rest = skip_key(next, k);
            let m2 = merge(rest);
            let m = merge(srcs);
            lemma_total_len_advanced(srcs, w);
            lemma_skip_key_len(next, k);
            assert(heads_from(srcs, k)) by {
                assert forall|i: int| 0 <= i < srcs.len() && (#[trigger] srcs[i]).len()
                    > 0 implies key_le(k, srcs[i][0].0) by {}
            }
            assert forall|i: int| 0 <= i < srcs.len() implies {
                &&& #[trigger] rest[i] == without_head(srcs[i], k)
                &&& keys_increasing(rest[i])
            } by {
                lemma_rest_of_sources(srcs, w, i);
            }
            assert(all_increasing(rest));
            lemma_merge_prefers_earliest(rest);
            assert(m =~= seq![first] + m2);
            assert forall|n: int| 0 <= n < m2.len() implies key_lt(k, (#[trigger] m2[n]).0)
                && from_earliest(srcs, m2[n]) by {
                let e = m2[n];
                assert(from_earliest(rest, e));
                let i = choose|i: int|
                    0 <= i < rest.len() && (#[trigger] rest[i]).contains(e) && forall|h: int|
                        0 <= h < i ==> !has_key(#[trigger] rest[h], e.0);
                lemma_without_head(srcs[i], k);
                let p = choose|p: int| 0 <= p < rest[i].len() && rest[i][p] == e;
                assert(key_lt(k, rest[i][p].0));
                crate::key::lemma_key_lt_asymmetric(k, e.0);
                assert(srcs[i].contains(e));
                assert forall|h: int| 0 <= h < i implies !has_key(#[trigger] srcs[h], e.0) by {
                    if has_key(srcs[h], e.0) {
                        let q = choose|q: int| 0 <= q < srcs[h].len() && (#[trigger] srcs[h][q]).0
                            == e.0;
                        lemma_without_head(srcs[h], k);
                        assert(rest[h].contains(srcs[h][q]));
                        let q2 = choose|q2: int| 0 <= q2 < rest[h].len() && rest[h][q2]
                            == srcs[h][q];
                        assert(rest[h][q2].0 == e.0);
                        assert(has_key(rest[h], e.0));
                    }
                }
            }
            lemma_cons_increasing(first, m2);
            assert(from_earliest(srcs, first)) by {
                assert(srcs[w][0] == first);
                assert(srcs[w].contains(first));
                assert forall|h: int| 0 <= h < w implies !has_key(#[trigger] srcs[h], k) by {
                    if has_key(srcs[h], k) {
                        let q = choose|q: int| 0 <= q < srcs[h].len() && (#[trigger] srcs[h][q]).0
                            == k;
                        lemma_without_head(srcs[h], k);
                        assert(q == 0);
                        crate::key::lemma_key_trichotomy(k, srcs[h][0].0);
                    }
                }
            }
            assert forall|n: int| 0 <= n < m.len() implies from_earliest(srcs, #[trigger] m[n]) by {
                if n > 0 {
                    assert(m[n] == m2[n - 1]);
                } else {
                    assert(m[0] == first);
                }
            }
            assert forall|i: int, j: int| 0 <= i < srcs.len() && 0 <= j < srcs[i].len() implies has_key(
                m,
                (#[trigger] srcs[i][j]).0,
            ) by {
                let e = srcs[i][j];
                if e.0 == k {
                    assert(m[0].0 == k);
                } else {
                    lemma_without_head(srcs[i], k);
                    assert(rest[i].contains(e));
                    let p = choose|p: int| 0 <= p < rest[i].len() && rest[i][p] == e;
                    assert(has_key(m2, rest[i][p].0));
                    let n = choose|n: int| 0 <= n < m2.len() && (#[trigger] m2[n]).0 == e.0;
                    assert(m[n + 1] == m2[n]);
                }
            }
        },
    }
}

/// After the winner `w` has given its entry and every step onto that entry's
/// key is taken, each source has lost its first entry if that entry had the
/// key, and nothing else.
proof fn lemma_rest_of_sources(srcs: Seq<Seq<(Seq<u8>, Seq<u8>)>>, w: int, i: int)
    requires
        all_increasing(srcs),
        winner(srcs) == Some(w),
        0 <= i < srcs.len(),
    ensures
        skip_key(advanced(srcs, w), srcs[w][0].0)[i] == without_head(srcs[i], srcs[w][0].0),
        keys_increasing(without_head(srcs[i], srcs[w][0].0)),
{
    lemma_winner(srcs);
    let k = srcs[w][0].0;
    let next = advanced(srcs, w);
    lemma_without_head(srcs[w], k);
    assert(heads_from(srcs, k)) by {
        assert forall|h: int| 0 <= h < srcs.len() && (#[trigger] srcs[h]).len() > 0 implies key_le(
            k,
            srcs[h][0].0,
        ) by {}
    }
    lemma_without_head(srcs[i], k);
    assert(all_increasing(next)) by {
        assert forall|h: int| 0 <= h < next.len() implies keys_increasing(#[trigger] next[h]) by {
            if h != w {
                assert(next[h] == srcs[h]);
            }
        }
    }
    assert(heads_from(next, k)) by {
        assert forall|h: int| 0 <= h < next.len() && (#[trigger] next[h]).len() > 0 implies key_le(
            k,
            next[h][0].0,
        ) by {
            if h != w {
                assert(next[h] == srcs[h]);
            } else {
                assert(key_lt(k, without_head(srcs[w], k)[0].0));
            }
        }
    }
    lemma_skip_key_increasing(next, k);
    if i == w {
        let t = srcs[w].skip(1);
        if t.len() > 0 {
            assert(key_lt(k, without_head(srcs[w], k)[0].0));
            crate::key::lemma_key_lt_asymmetric(k, t[0].0);
        }
        assert(without_head(next[w], k) == t);
    } else {
        assert(next[i] == srcs[i]);
    }
}

/// What each of the iterators has yet to give.
pub open spec fn sources_of<I: StorageIterator>(iters: Seq<Box<I>>) -> Seq<
    Seq<(Seq<u8>, Seq<u8>)>,
> {
    Seq::new(iters.len(), |i: int| iters[i].remaining())
}

/// Every one of the iterators can be used.
pub open spec fn all_wf<I: StorageIterator>(iters: Seq<Box<I>>) -> bool {
    forall|i: int| 0 <= i < iters.len() ==> (#[trigger] iters[i]).wf()
}

/// None of the iterators can fail.
pub open spec fn all_unfailing<I: StorageIterator>(iters: Seq<Box<I>>) -> bool {
    forall|i: int| 0 <= i < iters.len() ==> (#[trigger] iters[i]).unfailing()
}

/// The winner among the iterators.
fn find_winner<I: StorageIterator>(iters: &Vec<Box<I>>) -> (r: Option<usize>)
    requires
        all_wf(iters@),
    ensures
        match r {
            Some(w) => winner(sources_of(iters@)) == Some(w as int),
            None => winner(sources_of(iters@)) is None,
        },
{
    let ghost srcs = sources_of(iters@);
    let mut best: Option<usize> = None;
    let mut i: usize = 0;
    assert(srcs.take(0) =~= Seq::empty());
    while i < iters.len()
        invariant
            i <= iters@.len(),
            all_wf(iters@),
            srcs == sources_of(iters@),
            match best {
                Some(w) => winner(srcs.take(i as int)) == Some(w as int) && w < i,
                None => winner(srcs.take(i as int)) is None,
            },
        decreases iters@.len() - i,
    {
        proof {
            assert(srcs.take(i + 1).drop_last() =~= srcs.take(i as int));
            assert(srcs.take(i + 1)[i as int] == srcs[i as int]);
            lemma_winner(srcs.take(i as int));
        }
        if iters[i].is_valid() {
            match best {
                None => {
                    best = Some(i);
                },
                Some(w) => {
                    assert(srcs.take(i as int)[w as int] == srcs[w as int]);
                    assert(srcs.take(i + 1)[w as int] == srcs[w as int]);
                    if compare_keys(iters[i].key(), iters[w].key()) == KeyOrder::Less {
                        best = Some(i);
                    }
                },
            }
        } else {
            proof {
                if best is Some {
                    let w = best.unwrap() as int;
                    assert(srcs.take(i as int)[w] == srcs[w]);
                    assert(srcs.take(i + 1)[w] == srcs[w]);
                }
            }
        }
        i += 1;
    }
    assert(srcs.take(i as int) =~= srcs);
    best
}

/// Merges iterators of one type. If a key occurs in several of them, it is
/// given once, with the entry of the iterator that comes first.
pub struct MergeIterator<I: StorageIterator> {
    iters: Vec<Box<I>>,
    current: Option<usize>,
}

impl<I: StorageIterator> MergeIterator<I> {
    /// What each source has yet to give.
    pub closed spec fn sources(&self) -> Seq<Seq<(Seq<u8>, Seq<u8>)>> {
        sources_of(self.iters@)
    }

    /// None of the sources can fail.
    pub closed spec fn sources_unfailing(&self) -> bool {
        all_unfailing(self.iters@)
    }

    /// Every source can be used, and `current` is the winner among them.
    pub closed spec fn inv(&self) -> bool {
        &&& all_wf(self.iters@)
        &&& match self.current {
            Some(w) => winner(self.sources()) == Some(w as int),
            None => winner(self.sources()) is None,
        }
    }

    /// Merges the iterators; an earlier iterator wins over a later one.
    pub fn create(iters: Vec<Box<I>>) -> (it: Self)
        requires
            all_wf(iters@),
        ensures
            it.inv(),
            it.sources() == sources_of(iters@),
            it.remaining() == merge(sources_of(iters@)),
            it.sources_unfailing() == all_unfailing(iters@),
    {
        let current = find_winner(&iters);
        MergeIterator { iters, current }
    }

    /// Moves the winner to its next entry and finds the new winner. Where
    /// the winner fails, the merge drops its sources and is at its end.
    fn step(&mut self) -> (r: Result<(), Error>)
        requires
            old(self).inv(),
        ensures
            final(self).inv(),
            r is Ok ==> final(self).sources() == stepped(old(self).sources()),
            r is Err ==> final(self).sources().len() == 0,
            old(self).sources_unfailing() ==> r is Ok && final(self).sources_unfailing(),
    {
        let w = match self.current {
            None => {
                return Ok(());
            },
            Some(w) => w,
        };
        let ghost srcs = self.sources();
        let ghost before = self.iters@;
        proof {
            lemma_winner(srcs);
        }
        match self.iters[w].next() {
            Ok(()) => {},
            Err(e) => {
                self.iters = Vec::new();
                self.current = None;
                assert(self.sources() =~= Seq::empty());
                return Err(e);
            },
        }
        assert(self.sources() =~= advanced(srcs, w as int));
        proof {
            if all_unfailing(before) {
                assert forall|i: int| 0 <= i < self.iters@.len() implies (
                #[trigger] self.iters@[i]).unfailing() by {
                    if i != w {
                        assert(self.iters@[i] == before[i]);
                    }
                }
            }
        }
        self.current = find_winner(&self.iters);
        Ok(())
    }
}

impl<I: StorageIterator> StorageIterator for MergeIterator<I> {
    open spec fn wf(&self) -> bool {
        self.inv()
    }

    open spec fn remaining(&self) -> Seq<(Seq<u8>, Seq<u8>)> {
        merge(self.sources())
    }

    open spec fn unfailing(&self) -> bool {
        self.sources_unfailing()
    }

    fn key(&self) -> (k: &[u8]) {
        proof {
            lemma_winner(self.sources());
        }
        self.iters[self.current.unwrap()].key()
    }

    fn value(&self) -> (v: &[u8]) {
        proof {
            lemma_winner(self.sources());
        }
        self.iters[self.current.unwrap()].value()
    }

    fn is_valid(&self) -> (b: bool) {
        self.current.is_some()
    }

    fn next(&mut self) -> (r: Result<(), Error>)
        ensures
            old(self).remaining().len() == 0 ==> r is Ok,
    {
        if !self.is_valid() {
            return Ok(());
        }
        let ghost srcs = self.sources();
        let ghost w = winner(srcs).unwrap();
        let ghost k = srcs[w][0].0;
        proof {
            lemma_winner(srcs);
        }
        let curr_key = slice_to_vec(self.key());
        match self.step() {
            Ok(()) => {},
            Err(e) => {
                return Err(e);
            },
        }
        while self.is_valid() && keys_equal(curr_key.as_slice(), self.key())
            invariant
                self.inv(),
                curr_key@ == k,
                skip_key(self.sources(), k) == skip_key(advanced(srcs, w), k),
                old(self).sources_unfailing() ==> self.sources_unfailing(),
                old(self).remaining().len() > 0,
            decreases total_len(self.sources()),
        {
            proof {
                lemma_winner(self.sources());
                lemma_total_len_advanced(self.sources(), winner(self.sources()).unwrap());
            }
            match self.step() {
                Ok(()) => {},
                Err(e) => {
                    return Err(e);
                },
            }
        }
        proof {
            lemma_winner(self.sources());
            assert(skip_key(self.sources(), k) == self.sources());
            assert((seq![srcs[w][0]] + merge(self.sources())).skip(1) =~= merge(self.sources()));
        }
        Ok(())
    }
}

} // verus!
