//! The memtable: the ordered write buffer that takes every write first. It
//! holds one entry for each key; an empty value marks a key as deleted.

use crate::entry::{
    entries_of, has_key, keys_increasing, lemma_filter_push, lemma_increasing_skip,
};
use crate::error::Error;
use crate::iterators::StorageIterator;
use crate::key::{compare_keys, key_le, key_lt, KeyOrder};
use std::ops::Bound;
use vstd::prelude::*;
use vstd::slice::slice_to_vec;

verus! {

/// `std::ops::Bound`, one end of a range: unbounded, or a value that the
/// range includes or excludes. The three variants are read as they stand.
#[verifier::external_type_specification]
#[verifier::reject_recursive_types(T)]
pub struct ExBound<T>(Bound<T>);

/// One end of a range of keys.
pub ghost enum BoundView {
    Unbounded,
    Included(Seq<u8>),
    Excluded(Seq<u8>),
}

/// The end of a range that a bound on a borrowed key stands for.
pub open spec fn bound_view(b: Bound<&[u8]>) -> BoundView {
    match b {
        Bound::Unbounded => BoundView::Unbounded,
        Bound::Included(k) => BoundView::Included(k@),
        Bound::Excluded(k) => BoundView::Excluded(k@),
    }
}

/// The key is not in front of the lower end of a range.
pub open spec fn above_lower(key: Seq<u8>, lower: BoundView) -> bool {
    match lower {
        BoundView::Unbounded => true,
        BoundView::Included(k) => key_le(k, key),
        BoundView::Excluded(k) => key_lt(k, key),
    }
}

/// The key is not behind the upper end of a range.
pub open spec fn below_upper(key: Seq<u8>, upper: BoundView) -> bool {
    match upper {
        BoundView::Unbounded => true,
        BoundView::Included(k) => key_le(key, k),
        BoundView::Excluded(k) => key_lt(key, k),
    }
}

/// The entries whose key lies in the range.
pub open spec fn in_range(lower: BoundView, upper: BoundView) -> spec_fn((Seq<u8>, Seq<u8>)) -> bool {
    |e: (Seq<u8>, Seq<u8>)| above_lower(e.0, lower) && below_upper(e.0, upper)
}

/// The entries whose key is not in front of the lower end of a range.
pub open spec fn from_bound(lower: BoundView) -> spec_fn((Seq<u8>, Seq<u8>)) -> bool {
    |e: (Seq<u8>, Seq<u8>)| above_lower(e.0, lower)
}

/// Whether the key is not in front of the lower end of a range.
pub fn is_above_lower(key: &[u8], lower: &Bound<&[u8]>) -> (r: bool)
    ensures
        r == above_lower(key@, bound_view(*lower)),
{
    match lower {
        Bound::Unbounded => true,
        Bound::Included(k) => {
            proof {
                crate::key::lemma_key_trichotomy(k@, key@);
            }
            match compare_keys(k, key) {
                KeyOrder::Greater => false,
                _ => true,
            }
        },
        Bound::Excluded(k) => match compare_keys(k, key) {
            KeyOrder::Less => true,
            _ => false,
        },
    }
}

/// Whether the key is not behind the upper end of a range.
pub fn is_below_upper(key: &[u8], upper: &Bound<&[u8]>) -> (r: bool)
    ensures
        r == below_upper(key@, bound_view(*upper)),
{
    match upper {
        Bound::Unbounded => true,
        Bound::Included(k) => {
            proof {
                crate::key::lemma_key_trichotomy(key@, k@);
            }
            match compare_keys(key, k) {
                KeyOrder::Greater => false,
                _ => true,
            }
        },
        Bound::Excluded(k) => match compare_keys(key, k) {
            KeyOrder::Less => true,
            _ => false,
        },
    }
}

/// Where the entry of the key `k` stands in `s`, if `s` holds the key.
pub open spec fn key_index(s: Seq<(Seq<u8>, Seq<u8>)>, k: Seq<u8>) -> int {
    choose|j: int| 0 <= j < s.len() && (#[trigger] s[j]).0 == k
}

/// The value that `s` holds for the key `k`.
pub open spec fn lookup(s: Seq<(Seq<u8>, Seq<u8>)>, k: Seq<u8>) -> Option<Seq<u8>> {
    if has_key(s, k) {
        Some(s[key_index(s, k)].1)
    } else {
        None
    }
}

/// The number of entries at the front of `s` whose key is below `k`.
pub open spec fn rank(s: Seq<(Seq<u8>, Seq<u8>)>, k: Seq<u8>) -> int
    decreases s.len(),
{
    if s.len() > 0 && key_lt(s[0].0, k) {
        1 + rank(s.skip(1), k)
    } else {
        0
    }
}

/// The entries after a write: the value takes the place of the one that the
/// key had, or the entry goes where its key keeps the order.
pub open spec fn upsert(s: Seq<(Seq<u8>, Seq<u8>)>, k: Seq<u8>, v: Seq<u8>) -> Seq<
    (Seq<u8>, Seq<u8>),
> {
    if has_key(s, k) {
        s.update(key_index(s, k), (k, v))
    } else {
        s.insert(rank(s, k), (k, v))
    }
}

/// What `rank` returns: the entries in front of it have keys below `k`, and
/// in increasing entries the others have not.
pub proof fn lemma_rank(s: Seq<(Seq<u8>, Seq<u8>)>, k: Seq<u8>)
    requires
        keys_increasing(s),
    ensures
        0 <= rank(s, k) <= s.len(),
        forall|j: int| 0 <= j < rank(s, k) ==> key_lt((#[trigger] s[j]).0, k),
        forall|j: int| rank(s, k) <= j < s.len() ==> key_le(k, (#[trigger] s[j]).0),
    decreases s.len(),
{
    if s.len() > 0 {
        lemma_increasing_skip(s);
        crate::key::lemma_key_trichotomy(s[0].0, k);
        if key_lt(s[0].0, k) {
            let t = s.skip(1);
            lemma_rank(t, k);
            assert forall|j: int| 0 <= j < rank(s, k) implies key_lt((#[trigger] s[j]).0, k) by {
                if j > 0 {
                    assert(s[j] == t[j - 1]);
                }
            }
            assert forall|j: int| rank(s, k) <= j < s.len() implies key_le(
                k,
                (#[trigger] s[j]).0,
            ) by {
                assert(s[j] == t[j - 1]);
            }
        } else {
            assert forall|j: int| 0 <= j < s.len() implies key_le(k, (#[trigger] s[j]).0) by {
                assert(key_le(s[0].0, s[j].0));
                crate::key::lemma_key_le_transitive(k, s[0].0, s[j].0);
            }
        }
    }
}

/// A position with the properties of `rank` is the rank.
pub proof fn lemma_rank_unique(s: Seq<(Seq<u8>, Seq<u8>)>, k: Seq<u8>, p: int)
    requires
        0 <= p <= s.len(),
        forall|j: int| 0 <= j < p ==> key_lt((#[trigger] s[j]).0, k),
        p < s.len() ==> key_le(k, s[p].0),
    ensures
        rank(s, k) == p,
    decreases s.len(),
{
    if s.len() > 0 {
        crate::key::lemma_key_trichotomy(s[0].0, k);
        if p > 0 {
            assert(key_lt(s[0].0, k));
            let t = s.skip(1);
            assert forall|j: int| 0 <= j < p - 1 implies key_lt((#[trigger] t[j]).0, k) by {
                assert(t[j] == s[j + 1]);
            }
            if p - 1 < t.len() {
                assert(t[p - 1] == s[p]);
            }
            lemma_rank_unique(t, k, p - 1);
        }
    }
}

/// In increasing entries a key stands at one place only.
pub proof fn lemma_key_index_unique(s: Seq<(Seq<u8>, Seq<u8>)>, k: Seq<u8>, j: int)
    requires
        keys_increasing(s),
        0 <= j < s.len(),
        s[j].0 == k,
    ensures
        has_key(s, k),
        key_index(s, k) == j,
        lookup(s, k) == Some(s[j].1),
{
    let i = key_index(s, k);
    if i < j {
        assert(key_lt(s[i].0, s[j].0));
        crate::key::lemma_key_lt_asymmetric(s[i].0, s[j].0);
    } else if j < i {
        assert(key_lt(s[j].0, s[i].0));
        crate::key::lemma_key_lt_asymmetric(s[j].0, s[i].0);
    }
}

/// A write keeps the keys increasing; afterwards the key has the value that
/// was written, and every other key has the value that it had.
pub proof fn lemma_upsert(s: Seq<(Seq<u8>, Seq<u8>)>, k: Seq<u8>, v: Seq<u8>)
    requires
        keys_increasing(s),
    ensures
        keys_increasing(upsert(s, k, v)),
        lookup(upsert(s, k, v), k) == Some(v),
        forall|other: Seq<u8>| other != k ==> lookup(upsert(s, k, v), other) == lookup(s, other),
{
    let t = upsert(s, k, v);
    if has_key(s, k) {
        let i = key_index(s, k);
        assert forall|a: int, b: int| 0 <= a < b < t.len() implies key_lt(
            #[trigger] t[a].0,
            #[trigger] t[b].0,
        ) by {
            assert(t[a].0 == s[a].0 && t[b].0 == s[b].0);
        }
        assert(t[i].0 == k);
        lemma_key_index_unique(t, k, i);
        assert forall|other: Seq<u8>| other != k implies lookup(t, other) == lookup(s, other) by {
            if has_key(s, other) {
                let j = key_index(s, other);
                assert(t[j] == s[j]);
                lemma_key_index_unique(t, other, j);
            } else if has_key(t, other) {
                let j = key_index(t, other);
                assert(s[j].0 == t[j].0);
            }
        }
    } else {
        let p = rank(s, k);
        lemma_rank(s, k);
        assert forall|a: int, b: int| 0 <= a < b < t.len() implies key_lt(
            #[trigger] t[a].0,
            #[trigger] t[b].0,
        ) by {
            if b < p {
                assert(t[a] == s[a] && t[b] == s[b]);
            } else if b == p {
                assert(t[a] == s[a]);
            } else if a < p {
                assert(t[a] == s[a] && t[b] == s[b - 1]);
            } else if a == p {
                assert(t[b] == s[b - 1]);
                assert(key_le(k, s[b - 1].0));
                assert(s[b - 1].0 != k);
            } else {
                assert(t[a] == s[a - 1] && t[b] == s[b - 1]);
            }
        }
        assert(t[p] == (k, v));
        lemma_key_index_unique(t, k, p);
        assert forall|other: Seq<u8>| other != k implies lookup(t, other) == lookup(s, other) by {
            if has_key(s, other) {
                let j = key_index(s, other);
                let j2 = if j < p {
                    j
                } else {
                    j + 1
                };
                assert(t[j2] == s[j]);
                lemma_key_index_unique(t, other, j2);
            } else if has_key(t, other) {
                let j = key_index(t, other);
                if j < p {
                    assert(s[j] == t[j]);
                } else {
                    assert(s[j - 1] == t[j]);
                }
            }
        }
    }
}

/// An ordered write buffer.
#[derive(Clone)]
pub struct MemTable {
    entries: Vec<(Vec<u8>, Vec<u8>)>,
}

impl View for MemTable {
    type V = Seq<(Seq<u8>, Seq<u8>)>;

    closed spec fn view(&self) -> Seq<(Seq<u8>, Seq<u8>)> {
        entries_of(self.entries@)
    }
}

impl MemTable {
    /// The keys are strictly increasing.
    pub closed spec fn wf(&self) -> bool {
        keys_increasing(entries_of(self.entries@))
    }

    /// The keys of a memtable increase.
    pub proof fn lemma_increasing(&self)
        requires
            self.wf(),
        ensures
            keys_increasing(self@),
    {
    }

    /// Creates an empty memtable.
    pub fn create() -> (m: MemTable)
        ensures
            m.wf(),
            m@ == Seq::<(Seq<u8>, Seq<u8>)>::empty(),
    {
        let m = MemTable { entries: Vec::new() };
        assert(m@ =~= Seq::empty());
        m
    }

    /// The number of entries in front of the first whose key is not below
    /// `key`.
    fn position(&self, key: &[u8]) -> (p: usize)
        requires
            self.wf(),
        ensures
            p == rank(self@, key@),
            p <= self@.len(),
    {
        let ghost s = self@;
        let mut l: usize = 0;
        let mut r: usize = self.entries.len();
        while l < r
            invariant
                l <= r <= s.len(),
                s == self@,
                keys_increasing(s),
                forall|j: int| 0 <= j < l ==> key_lt((#[trigger] s[j]).0, key@),
                r < s.len() ==> key_le(key@, s[r as int].0),
            decreases r - l,
        {
            let mid = l + (r - l) / 2;
            proof {
                crate::key::lemma_key_trichotomy(s[mid as int].0, key@);
            }
            match compare_keys(self.entries[mid].0.as_slice(), key) {
                KeyOrder::Less => {
                    proof {
                        assert forall|j: int| 0 <= j < mid + 1 implies key_lt(
                            (#[trigger] s[j]).0,
                            key@,
                        ) by {
                            if j < mid {
                                assert(key_lt(s[j].0, s[mid as int].0));
                                crate::key::lemma_key_lt_transitive(
                                    s[j].0,
                                    s[mid as int].0,
                                    key@,
                                );
                            }
                        }
                    }
                    l = mid + 1;
                },
                _ => {
                    r = mid;
                },
            }
        }
        proof {
            lemma_rank_unique(s, key@, l as int);
        }
        l
    }

    /// The value that the memtable holds for the key.
    pub fn get(&self, key: &[u8]) -> (r: Option<Vec<u8>>)
        requires
            self.wf(),
        ensures
            match r {
                Some(v) => lookup(self@, key@) == Some(v@),
                None => lookup(self@, key@) is None,
            },
    {
        let p = self.position(key);
        proof {
            lemma_rank(self@, key@);
        }
        if p < self.entries.len() && compare_keys(self.entries[p].0.as_slice(), key)
            == KeyOrder::Equal {
            proof {
                lemma_key_index_unique(self@, key@, p as int);
            }
            Some(slice_to_vec(self.entries[p].1.as_slice()))
        } else {
            proof {
                if has_key(self@, key@) {
                    let j = key_index(self@, key@);
                    if j < p {
                        crate::key::lemma_key_lt_asymmetric(self@[j].0, key@);
                    } else if j > p {
                        assert(key_lt(self@[p as int].0, self@[j].0));
                        crate::key::lemma_key_le_lt(key@, self@[p as int].0, key@);
                        crate::key::lemma_key_lt_asymmetric(key@, key@);
                    }
                }
            }
            None
        }
    }

    /// Writes the value for the key: in place of the value that the key
    /// had, or as a new entry.
    pub fn put(&mut self, key: &[u8], value: &[u8])
        requires
            old(self).wf(),
        ensures
            final(self).wf(),
            final(self)@ == upsert(old(self)@, key@, value@),
    {
        let p = self.position(key);
        let ghost s = self@;
        proof {
            lemma_rank(s, key@);
            lemma_upsert(s, key@, value@);
        }
        if p < self.entries.len() && compare_keys(self.entries[p].0.as_slice(), key)
            == KeyOrder::Equal {
            proof {
                lemma_key_index_unique(s, key@, p as int);
            }
            self.entries[p] = (slice_to_vec(key), slice_to_vec(value));
            assert(self@ =~= s.update(p as int, (key@, value@)));
        } else {
            proof {
                if has_key(s, key@) {
                    let j = key_index(s, key@);
                    if j < p {
                        crate::key::lemma_key_lt_asymmetric(s[j].0, key@);
                    } else if j > p {
                        assert(key_lt(s[p as int].0, s[j].0));
                        crate::key::lemma_key_le_lt(key@, s[p as int].0, key@);
                        crate::key::lemma_key_lt_asymmetric(key@, key@);
                    }
                }
            }
            self.entries.insert(p, (slice_to_vec(key), slice_to_vec(value)));
            assert(self@ =~= s.insert(p as int, (key@, value@)));
        }
    }

    /// The number of entries.
    pub fn len(&self) -> (n: usize)
        ensures
            n == self@.len(),
    {
        self.entries.len()
    }

    /// An iterator over a copy of the entries whose key lies in the range.
    pub fn scan(&self, lower: Bound<&[u8]>, upper: Bound<&[u8]>) -> (it: MemTableIterator)
        requires
            self.wf(),
        ensures
            it.wf(),
            it.remaining() == self@.filter(in_range(bound_view(lower), bound_view(upper))),
    {
        let ghost s = self@;
        let ghost pred = in_range(bound_view(lower), bound_view(upper));
        let mut picked: Vec<(Vec<u8>, Vec<u8>)> = Vec::new();
        let mut i: usize = 0;
        proof {
            reveal(Seq::filter);
            assert(s.take(0) =~= Seq::empty());
            assert(entries_of(picked@) =~= Seq::empty());
        }
        while i < self.entries.len()
            invariant
                i <= s.len(),
                s == self@,
                pred == in_range(bound_view(lower), bound_view(upper)),
                entries_of(picked@) == s.take(i as int).filter(pred),
            decreases s.len() - i,
        {
            let key = self.entries[i].0.as_slice();
            let ghost e = s[i as int];
            let ghost before = entries_of(picked@);
            proof {
                assert(s.take(i + 1) =~= s.take(i as int).push(e));
                lemma_filter_push(s.take(i as int), e, pred);
            }
            if is_above_lower(key, &lower) && is_below_upper(key, &upper) {
                picked.push((slice_to_vec(key), slice_to_vec(self.entries[i].1.as_slice())));
                assert(entries_of(picked@) =~= before.push(e));
            }
            i += 1;
        }
        assert(s.take(i as int) =~= s);
        let it = MemTableIterator { entries: picked, idx: 0 };
        assert(it.remaining() =~= entries_of(picked@));
        it
    }
}

/// An iterator over a copy of entries of a memtable.
pub struct MemTableIterator {
    entries: Vec<(Vec<u8>, Vec<u8>)>,
    idx: usize,
}

impl MemTableIterator {
    /// The entries that the iterator walks.
    pub closed spec fn entries(&self) -> Seq<(Seq<u8>, Seq<u8>)> {
        entries_of(self.entries@)
    }

    /// The number of entries given so far.
    pub closed spec fn given(&self) -> nat {
        self.idx as nat
    }
}

impl StorageIterator for MemTableIterator {
    open spec fn wf(&self) -> bool {
        self.given() <= self.entries().len()
    }

    open spec fn remaining(&self) -> Seq<(Seq<u8>, Seq<u8>)> {
        self.entries().skip(self.given() as int)
    }

    open spec fn unfailing(&self) -> bool {
        true
    }

    fn key(&self) -> (k: &[u8]) {
        self.entries[self.idx].0.as_slice()
    }

    fn value(&self) -> (v: &[u8]) {
        self.entries[self.idx].1.as_slice()
    }

    fn is_valid(&self) -> (b: bool) {
        self.idx < self.entries.len()
    }

    fn next(&mut self) -> (r: Result<(), Error>)
        ensures
            r is Ok,
    {
        if self.idx < self.entries.len() {
            self.idx += 1;
            assert(self.remaining() =~= old(self).remaining().skip(1));
        }
        Ok(())
    }
}

} // verus!
