//! Merges two sources; where both hold a key, the first source wins.

use crate::entry::{has_key, keys_increasing, lemma_increasing_skip};
use crate::error::Error;
use crate::iterators::StorageIterator;
use crate::key::{compare_keys, key_le, key_lt, keys_equal, KeyOrder};
use crate::key::{lemma_key_le_lt, lemma_key_lt_asymmetric, lemma_key_trichotomy};
use vstd::prelude::*;

verus! {

/// The merge of two sequences of entries. The entry with the lower key comes
/// first; an entry of `b` whose key is that of the first entry of `a` is left
/// out.
pub open spec fn two_merge(a: Seq<(Seq<u8>, Seq<u8>)>, b: Seq<(Seq<u8>, Seq<u8>)>) -> Seq<
    (Seq<u8>, Seq<u8>),
>
    decreases a.len() + b.len(),
{
    if a.len() == 0 {
        b
    } else if b.len() == 0 {
        a
    } else if a[0].0 == b[0].0 {
        two_merge(a, b.skip(1))
    } else if key_lt(a[0].0, b[0].0) {
        seq![a[0]] + two_merge(a.skip(1), b)
    } else {
        seq![b[0]] + two_merge(a, b.skip(1))
    }
}

/// The sequence `m` is a merge of `a` and `b` that prefers `a`: its keys
/// increase; it holds every entry of `a`, and every entry of `b` whose key
/// `a` does not hold; and each of its entries comes from `a` if `a` holds
/// the key, else from `b`.
pub open spec fn prefers_first(
    a: Seq<(Seq<u8>, Seq<u8>)>,
    b: Seq<(Seq<u8>, Seq<u8>)>,
    m: Seq<(Seq<u8>, Seq<u8>)>,
) -> bool {
    &&& keys_increasing(m)
    &&& forall|n: int|
        0 <= n < m.len() ==> if has_key(a, (#[trigger] m[n]).0) {
            a.contains(m[n])
        } else {
            b.contains(m[n])
        }
    &&& forall|j: int| 0 <= j < a.len() ==> m.contains(#[trigger] a[j])
    &&& forall|j: int| 0 <= j < b.len() && !has_key(a, (#[trigger] b[j]).0) ==> m.contains(b[j])
}

/// Two sources with increasing keys merge into a sequence with increasing
/// keys. It holds every key of either source, once; the entry of a key comes
/// from the first source if that one holds the key, else from the second.
pub proof fn lemma_two_merge_prefers_first(
    a: Seq<(Seq<u8>, Seq<u8>)>,
    b: Seq<(Seq<u8>, Seq<u8>)>,
)
    requires
        keys_increasing(a),
        keys_increasing(b),
    ensures
        prefers_first(a, b, two_merge(a, b)),
    decreases a.len() + b.len(),
{
    let m = two_merge(a, b);
    if a.len() == 0 {
        assert forall|n: int| 0 <= n < m.len() implies !has_key(a, (#[trigger] m[n]).0)
            && b.contains(m[n]) by {}
    } else if b.len() == 0 {
        assert forall|n: int| 0 <= n < m.len() implies has_key(a, (#[trigger] m[n]).0)
            && a.contains(m[n]) by {}
    } else if a[0].0 == b[0].0 {
        lemma_increasing_skip(b);
        lemma_two_merge_prefers_first(a, b.skip(1));
        lemma_merge_step_equal(a, b, m);
    } else if key_lt(a[0].0, b[0].0) {
        lemma_increasing_skip(a);
        lemma_two_merge_prefers_first(a.skip(1), b);
        lemma_merge_step_first(a, b, two_merge(a.skip(1), b));
    } else {
        lemma_key_trichotomy(a[0].0, b[0].0);
        lemma_increasing_skip(b);
        lemma_two_merge_prefers_first(a, b.skip(1));
        lemma_merge_step_second(a, b, two_merge(a, b.skip(1)));
    }
}

/// A merge of `a` and the rest of `b` is a merge of `a` and `b`, where both
/// start with the same key.
proof fn lemma_merge_step_equal(
    a: Seq<(Seq<u8>, Seq<u8>)>,
    b: Seq<(Seq<u8>, Seq<u8>)>,
    m: Seq<(Seq<u8>, Seq<u8>)>,
)
    requires
        a.len() > 0,
        b.len() > 0,
        a[0].0 == b[0].0,
        prefers_first(a, b.skip(1), m),
    ensures
        prefers_first(a, b, m),
{
    let b1 = b.skip(1);
    assert forall|n: int| 0 <= n < m.len() implies if has_key(a, (#[trigger] m[n]).0) {
        a.contains(m[n])
    } else {
        b.contains(m[n])
    } by {
        if !has_key(a, m[n].0) {
            lemma_skip_contains(b, m[n]);
        }
    }
    assert forall|j: int| 0 <= j < b.len() && !has_key(a, (#[trigger] b[j]).0) implies m.contains(
        b[j],
    ) by {
        if j == 0 {
            assert(a[0].0 == b[0].0);
        } else {
            assert(b1[j - 1] == b[j]);
        }
    }
}

/// The first entry of `a` in front of a merge of the rest of `a` and `b` is
/// a merge of `a` and `b`, where `a` starts with the lower key.
proof fn lemma_merge_step_first(
    a: Seq<(Seq<u8>, Seq<u8>)>,
    b: Seq<(Seq<u8>, Seq<u8>)>,
    m1: Seq<(Seq<u8>, Seq<u8>)>,
)
    requires
        keys_increasing(a),
        keys_increasing(b),
        a.len() > 0,
        b.len() > 0,
        key_lt(a[0].0, b[0].0),
        prefers_first(a.skip(1), b, m1),
    ensures
        prefers_first(a, b, seq![a[0]] + m1),
{
    let a1 = a.skip(1);
    let m = seq![a[0]] + m1;
    lemma_increasing_skip(a);
    lemma_increasing_skip(b);
    assert forall|n: int| 0 <= n < m1.len() implies key_lt(a[0].0, (#[trigger] m1[n]).0) && (
    if has_key(a, m1[n].0) {
        a.contains(m1[n])
    } else {
        b.contains(m1[n])
    }) by {
        lemma_first_side_entry(a, b, m1[n]);
    }
    lemma_cons_increasing(a[0], m1);
    assert forall|n: int| 0 <= n < m.len() implies if has_key(a, (#[trigger] m[n]).0) {
        a.contains(m[n])
    } else {
        b.contains(m[n])
    } by {
        if n > 0 {
            assert(m[n] == m1[n - 1]);
        }
    }
    assert forall|j: int| 0 <= j < a.len() implies m.contains(#[trigger] a[j]) by {
        if j == 0 {
            assert(m[0] == a[0]);
        } else {
            assert(a1[j - 1] == a[j]);
            lemma_cons_contains(a[0], m1, a[j]);
        }
    }
    assert forall|j: int| 0 <= j < b.len() && !has_key(a, (#[trigger] b[j]).0) implies m.contains(
        b[j],
    ) by {
        if has_key(a1, b[j].0) {
            let i = choose|i: int| 0 <= i < a1.len() && (#[trigger] a1[i]).0 == b[j].0;
            assert(a[i + 1] == a1[i]);
        }
        lemma_cons_contains(a[0], m1, b[j]);
    }
}

/// An entry that comes from the rest of `a` if that holds its key, else from
/// `b`, has a key above the first of `a`, and comes from `a` if `a` holds its
/// key, else from `b`; here `a` starts with a key below that of `b`.
proof fn lemma_first_side_entry(
    a: Seq<(Seq<u8>, Seq<u8>)>,
    b: Seq<(Seq<u8>, Seq<u8>)>,
    e: (Seq<u8>, Seq<u8>),
)
    requires
        keys_increasing(a),
        keys_increasing(b),
        a.len() > 0,
        b.len() > 0,
        key_lt(a[0].0, b[0].0),
        if has_key(a.skip(1), e.0) {
            a.skip(1).contains(e)
        } else {
            b.contains(e)
        },
    ensures
        key_lt(a[0].0, e.0),
        if has_key(a, e.0) {
            a.contains(e)
        } else {
            b.contains(e)
        },
{
    let a1 = a.skip(1);
    lemma_increasing_skip(a);
    lemma_increasing_skip(b);
    if has_key(a1, e.0) {
        lemma_skip_contains(a, e);
        let j = choose|j: int| 0 <= j < a1.len() && a1[j] == e;
        assert(key_lt(a[0].0, a1[j].0));
        let i = choose|i: int| 0 <= i < a1.len() && (#[trigger] a1[i]).0 == e.0;
        assert(a[i + 1] == a1[i]);
    } else {
        let j = choose|j: int| 0 <= j < b.len() && b[j] == e;
        assert(key_le(b[0].0, b[j].0));
        crate::key::lemma_key_lt_le(a[0].0, b[0].0, e.0);
        if has_key(a, e.0) {
            let i = choose|i: int| 0 <= i < a.len() && (#[trigger] a[i]).0 == e.0;
            if i == 0 {
                lemma_key_lt_asymmetric(a[0].0, e.0);
            } else {
                assert(a1[i - 1] == a[i]);
            }
        }
    }
}

/// The first entry of `b` in front of a merge of `a` and the rest of `b` is
/// a merge of `a` and `b`, where `b` starts with the lower key.
proof fn lemma_merge_step_second(
    a: Seq<(Seq<u8>, Seq<u8>)>,
    b: Seq<(Seq<u8>, Seq<u8>)>,
    m1: Seq<(Seq<u8>, Seq<u8>)>,
)
    requires
        keys_increasing(a),
        keys_increasing(b),
        a.len() > 0,
        b.len() > 0,
        key_lt(b[0].0, a[0].0),
        prefers_first(a, b.skip(1), m1),
    ensures
        prefers_first(a, b, seq![b[0]] + m1),
{
    let b1 = b.skip(1);
    let m = seq![b[0]] + m1;
    lemma_increasing_skip(a);
    lemma_increasing_skip(b);
    assert forall|n: int| 0 <= n < m1.len() implies key_lt(b[0].0, (#[trigger] m1[n]).0) && (
    if has_key(a, m1[n].0) {
        a.contains(m1[n])
    } else {
        b.contains(m1[n])
    }) by {
        let e = m1[n];
        if has_key(a, e.0) {
            let j = choose|j: int| 0 <= j < a.len() && a[j] == e;
            assert(key_le(a[0].0, a[j].0));
            crate::key::lemma_key_lt_le(b[0].0, a[0].0, e.0);
        } else {
            assert(b1.contains(e));
            lemma_skip_contains(b, e);
            let j = choose|j: int| 0 <= j < b1.len() && b1[j] == e;
            assert(key_lt(b[0].0, b1[j].0));
        }
    }
    lemma_cons_increasing(b[0], m1);
    assert(!has_key(a, b[0].0)) by {
        if has_key(a, b[0].0) {
            let i = choose|i: int| 0 <= i < a.len() && (#[trigger] a[i]).0 == b[0].0;
            assert(key_le(a[0].0, a[i].0));
            lemma_key_le_lt(a[0].0, a[i].0, a[0].0);
            lemma_key_lt_asymmetric(a[0].0, a[0].0);
        }
    }
    assert forall|n: int| 0 <= n < m.len() implies if has_key(a, (#[trigger] m[n]).0) {
        a.contains(m[n])
    } else {
        b.contains(m[n])
    } by {
        if n > 0 {
            assert(m[n] == m1[n - 1]);
        } else {
            assert(m[0] == b[0]);
        }
    }
    assert forall|j: int| 0 <= j < a.len() implies m.contains(#[trigger] a[j]) by {
        lemma_cons_contains(b[0], m1, a[j]);
    }
    assert forall|j: int| 0 <= j < b.len() && !has_key(a, (#[trigger] b[j]).0) implies m.contains(
        b[j],
    ) by {
        if j == 0 {
            assert(m[0] == b[0]);
        } else {
            assert(b1[j - 1] == b[j]);
            lemma_cons_contains(b[0], m1, b[j]);
        }
    }
}

/// What the rest of a sequence holds, the sequence holds.
pub proof fn lemma_skip_contains(s: Seq<(Seq<u8>, Seq<u8>)>, e: (Seq<u8>, Seq<u8>))
    requires
        s.len() > 0,
        s.skip(1).contains(e),
    ensures
        s.contains(e),
{
    let j = choose|j: int| 0 <= j < s.skip(1).len() && s.skip(1)[j] == e;
    assert(s[j + 1] == e);
}

/// What a sequence holds, it still holds behind a new first entry.
pub proof fn lemma_cons_contains(
    x: (Seq<u8>, Seq<u8>),
    s: Seq<(Seq<u8>, Seq<u8>)>,
    e: (Seq<u8>, Seq<u8>),
)
    requires
        s.contains(e),
    ensures
        (seq![x] + s).contains(e),
{
    let j = choose|j: int| 0 <= j < s.len() && s[j] == e;
    assert((seq![x] + s)[j + 1] == e);
}

/// An entry whose key is below every key of an increasing sequence can stand
/// in front of it.
pub proof fn lemma_cons_increasing(x: (Seq<u8>, Seq<u8>), s: Seq<(Seq<u8>, Seq<u8>)>)
    requires
        keys_increasing(s),
        forall|n: int| 0 <= n < s.len() ==> key_lt(x.0, (#[trigger] s[n]).0),
    ensures
        keys_increasing(seq![x] + s),
{
    let t = seq![x] + s;
    assert forall|i: int, j: int| 0 <= i < j < t.len() implies key_lt(
        #[trigger] t[i].0,
        #[trigger] t[j].0,
    ) by {
        assert(t[j] == s[j - 1]);
        if i > 0 {
            assert(t[i] == s[i - 1]);
        }
    }
}

/// The entries of `b` without those at its head that have the key `k`.
pub open spec fn past_key(b: Seq<(Seq<u8>, Seq<u8>)>, k: Seq<u8>) -> Seq<(Seq<u8>, Seq<u8>)>
    decreases b.len(),
{
    if b.len() > 0 && b[0].0 == k {
        past_key(b.skip(1), k)
    } else {
        b
    }
}

/// What is left of the second side once it is moved past the key on which
/// the first side stands: where one side has run out, the second side as it
/// is.
pub open spec fn second_past_first(
    a: Seq<(Seq<u8>, Seq<u8>)>,
    b: Seq<(Seq<u8>, Seq<u8>)>,
) -> Seq<(Seq<u8>, Seq<u8>)> {
    if a.len() > 0 && b.len() > 0 {
        past_key(b, a[0].0)
    } else {
        b
    }
}

/// The side that holds the current entry.
#[derive(Clone, Copy, PartialEq, Eq, Structural)]
enum Which {
    A,
    B,
}

/// The side that gives the next entry of the merge, where the first entries
/// of the two sides differ in key: the first side if it has the lower key or
/// the second has run out, else the second.
pub open spec fn first_side_leads(a: Seq<(Seq<u8>, Seq<u8>)>, b: Seq<(Seq<u8>, Seq<u8>)>) -> bool {
    a.len() > 0 && (b.len() == 0 || key_lt(a[0].0, b[0].0))
}

/// Merges two iterators of different types into one. If the two iterators
/// have the same key, the key is given once, with the entry of the first.
pub struct TwoMergeIterator<A: StorageIterator, B: StorageIterator> {
    a: A,
    b: B,
    which: Which,
    failed: bool,
}

impl<A: StorageIterator, B: StorageIterator> TwoMergeIterator<A, B> {
    /// Both sides can be used; unless a side has failed, the second side
    /// does not stand on the key of the first, and `which` names the side
    /// with the lower key.
    pub closed spec fn inv(&self) -> bool {
        &&& self.a.wf()
        &&& self.b.wf()
        &&& !self.failed ==> {
            let a = self.a.remaining();
            let b = self.b.remaining();
            &&& a.len() > 0 && b.len() > 0 ==> a[0].0 != b[0].0
            &&& (self.which == Which::A) == first_side_leads(a, b)
        }
    }

    /// Neither side can fail, and neither has failed.
    pub closed spec fn sides_unfailing(&self) -> bool {
        self.a.unfailing() && self.b.unfailing() && !self.failed
    }

    /// What the first side has yet to give.
    pub closed spec fn first_rest(&self) -> Seq<(Seq<u8>, Seq<u8>)> {
        self.a.remaining()
    }

    /// What the second side has yet to give.
    pub closed spec fn second_rest(&self) -> Seq<(Seq<u8>, Seq<u8>)> {
        self.b.remaining()
    }

    /// The entries that the merge has yet to give.
    pub closed spec fn merged(&self) -> Seq<(Seq<u8>, Seq<u8>)> {
        if self.failed {
            Seq::empty()
        } else {
            two_merge(self.a.remaining(), self.b.remaining())
        }
    }

    /// Merges `a` and `b`. Fails only where the second iterator fails while
    /// it is moved past the key on which the first stands.
    pub fn create(a: A, b: B) -> (r: Result<Self, Error>)
        requires
            a.wf(),
            b.wf(),
        ensures
            match r {
                Ok(it) => {
                    &&& it.inv()
                    &&& it.merged() == two_merge(a.remaining(), b.remaining())
                    &&& it.first_rest() == a.remaining()
                    &&& it.second_rest() == second_past_first(a.remaining(), b.remaining())
                    &&& a.unfailing() && b.unfailing() ==> it.sides_unfailing()
                },
                Err(_) => {
                    &&& a.remaining().len() > 0
                    &&& b.remaining().len() > 0
                    &&& a.remaining()[0].0 == b.remaining()[0].0
                    &&& !b.unfailing()
                },
            },
    {
        let mut it = TwoMergeIterator { a, b, which: Which::B, failed: false };
        match it.set_which() {
            Ok(()) => Ok(it),
            Err(e) => Err(e),
        }
    }

    fn is_a(&self) -> (r: bool)
        ensures
            r == (self.which == Which::A),
    {
        match self.which {
            Which::A => true,
            Which::B => false,
        }
    }

    /// Moves the second side past the key on which the first stands, then
    /// notes which side leads.
    fn set_which(&mut self) -> (r: Result<(), Error>)
        requires
            old(self).a.wf(),
            old(self).b.wf(),
            !old(self).failed,
        ensures
            final(self).inv(),
            final(self).a.unfailing() == old(self).a.unfailing(),
            final(self).a.remaining() == old(self).a.remaining(),
            match r {
                Ok(()) => {
                    &&& final(self).merged() == two_merge(
                        old(self).a.remaining(),
                        old(self).b.remaining(),
                    )
                    &&& final(self).b.remaining() == second_past_first(
                        old(self).a.remaining(),
                        old(self).b.remaining(),
                    )
                    &&& !final(self).failed
                    &&& old(self).b.unfailing() ==> final(self).b.unfailing()
                },
                Err(_) => {
                    &&& final(self).merged().len() == 0
                    &&& old(self).a.remaining().len() > 0
                    &&& old(self).b.remaining().len() > 0
                    &&& old(self).a.remaining()[0].0 == old(self).b.remaining()[0].0
                    &&& !old(self).b.unfailing()
                },
            },
    {
        if !self.a.is_valid() || !self.b.is_valid() {
            self.which = if self.a.is_valid() {
                Which::A
            } else {
                Which::B
            };
            return Ok(());
        }
        while self.b.is_valid() && keys_equal(self.a.key(), self.b.key())
            invariant
                self.a.wf(),
                self.b.wf(),
                !self.failed,
                self.a == old(self).a,
                self.a.remaining().len() > 0,
                two_merge(self.a.remaining(), self.b.remaining()) == two_merge(
                    old(self).a.remaining(),
                    old(self).b.remaining(),
                ),
                self.b.remaining() == old(self).b.remaining() || (old(self).b.remaining().len() > 0
                    && old(self).a.remaining()[0].0 == old(self).b.remaining()[0].0),
                old(self).b.remaining().len() > 0,
                past_key(self.b.remaining(), self.a.remaining()[0].0) == past_key(
                    old(self).b.remaining(),
                    old(self).a.remaining()[0].0,
                ),
                old(self).b.unfailing() ==> self.b.unfailing(),
            decreases self.b.remaining().len(),
        {
            match self.b.next() {
                Ok(()) => {},
                Err(e) => {
                    self.failed = true;
                    return Err(e);
                },
            }
        }
        if !self.b.is_valid() {
            self.which = Which::A;
            return Ok(());
        }
        proof {
            crate::key::lemma_key_trichotomy(self.a.remaining()[0].0, self.b.remaining()[0].0);
        }
        self.which = match compare_keys(self.a.key(), self.b.key()) {
            KeyOrder::Greater => Which::B,
            _ => Which::A,
        };
        Ok(())
    }
}

impl<A: StorageIterator, B: StorageIterator> StorageIterator for TwoMergeIterator<A, B> {
    open spec fn wf(&self) -> bool {
        self.inv()
    }

    open spec fn remaining(&self) -> Seq<(Seq<u8>, Seq<u8>)> {
        self.merged()
    }

    open spec fn unfailing(&self) -> bool {
        self.sides_unfailing()
    }

    fn key(&self) -> (k: &[u8]) {
        if self.is_a() {
            self.a.key()
        } else {
            self.b.key()
        }
    }

    fn value(&self) -> (v: &[u8]) {
        if self.is_a() {
            self.a.value()
        } else {
            self.b.value()
        }
    }

    fn is_valid(&self) -> (b: bool) {
        if self.failed {
            false
        } else if self.is_a() {
            self.a.is_valid()
        } else {
            self.b.is_valid()
        }
    }

    fn next(&mut self) -> (r: Result<(), Error>) {
        if self.failed {
            return Ok(());
        }
        let ghost a0 = self.a.remaining();
        let ghost b0 = self.b.remaining();
        let moved = if self.is_a() {
            self.a.next()
        } else {
            self.b.next()
        };
        match moved {
            Ok(()) => {},
            Err(e) => {
                self.failed = true;
                return Err(e);
            },
        }
        proof {
            if a0.len() > 0 && b0.len() > 0 {
                crate::key::lemma_key_trichotomy(a0[0].0, b0[0].0);
            }
            if first_side_leads(a0, b0) {
                if b0.len() > 0 {
                    assert((seq![a0[0]] + two_merge(a0.skip(1), b0)).skip(1) =~= two_merge(
                        a0.skip(1),
                        b0,
                    ));
                }
            } else if b0.len() > 0 && a0.len() > 0 {
                assert((seq![b0[0]] + two_merge(a0, b0.skip(1))).skip(1) =~= two_merge(
                    a0,
                    b0.skip(1),
                ));
            }
        }
        self.set_which()
    }
}

} // verus!
