//! Keys are byte strings ordered lexicographically.

use vstd::prelude::*;

verus! {

/// The outcome of comparing two keys.
#[derive(Clone, Copy, Debug, PartialEq, Eq, Structural)]
pub enum KeyOrder {
    Less,
    Equal,
    Greater,
}

/// `a` and `b` agree on their first `i` bytes.
pub open spec fn same_prefix(a: Seq<u8>, b: Seq<u8>, i: int) -> bool {
    &&& 0 <= i <= a.len()
    &&& i <= b.len()
    &&& forall|j: int| 0 <= j < i ==> a[j] == b[j]
}

/// Position `i` shows that `a` sorts before `b`: the two agree before `i`, and
/// there either `a` ends while `b` goes on, or `a` holds the smaller byte.
pub open spec fn differs_at(a: Seq<u8>, b: Seq<u8>, i: int) -> bool {
    &&& same_prefix(a, b, i)
    &&& i < b.len()
    &&& (i == a.len() || a[i] < b[i])
}

/// Strict lexicographic order on byte strings.
pub open spec fn key_lt(a: Seq<u8>, b: Seq<u8>) -> bool {
    exists|i: int| differs_at(a, b, i)
}

/// Lexicographic order on byte strings.
pub open spec fn key_le(a: Seq<u8>, b: Seq<u8>) -> bool {
    a == b || key_lt(a, b)
}

/// How `a` stands to `b` in the lexicographic order.
pub open spec fn key_order(a: Seq<u8>, b: Seq<u8>) -> KeyOrder {
    if a == b {
        KeyOrder::Equal
    } else if key_lt(a, b) {
        KeyOrder::Less
    } else {
        KeyOrder::Greater
    }
}

/// No key sorts before itself, and no two keys sort before each other.
pub proof fn lemma_key_lt_asymmetric(a: Seq<u8>, b: Seq<u8>)
    requires
        key_lt(a, b),
    ensures
        a != b,
        !key_lt(b, a),
{
    let i = choose|i: int| differs_at(a, b, i);
    if key_lt(b, a) {
        let j = choose|j: int| differs_at(b, a, j);
        if i < j {
            assert(b[i] == a[i]);
        } else if j < i {
            assert(a[j] == b[j]);
        }
    }
}

/// The strict order is transitive.
pub proof fn lemma_key_lt_transitive(a: Seq<u8>, b: Seq<u8>, c: Seq<u8>)
    requires
        key_lt(a, b),
        key_lt(b, c),
    ensures
        key_lt(a, c),
{
    let i = choose|i: int| differs_at(a, b, i);
    let j = choose|j: int| differs_at(b, c, j);
    let m = if i <= j { i } else { j };
    assert forall|k: int| 0 <= k < m implies a[k] == c[k] by {
        assert(a[k] == b[k]);
        assert(b[k] == c[k]);
    }
    if i < j {
        assert(b[i] == c[i]);
    } else if j < i {
        assert(a[j] == b[j]);
    }
    assert(differs_at(a, c, m));
}

/// Two keys that agree on their first `i` bytes are equal or one sorts before
/// the other.
proof fn lemma_key_total_from(a: Seq<u8>, b: Seq<u8>, i: int)
    requires
        same_prefix(a, b, i),
    ensures
        a == b || key_lt(a, b) || key_lt(b, a),
    decreases a.len() - i,
{
    if i == a.len() {
        if i == b.len() {
            assert(a =~= b);
        } else {
            assert(differs_at(a, b, i));
        }
    } else if i == b.len() {
        assert(same_prefix(b, a, i));
        assert(differs_at(b, a, i));
    } else if a[i] < b[i] {
        assert(differs_at(a, b, i));
    } else if b[i] < a[i] {
        assert(same_prefix(b, a, i));
        assert(differs_at(b, a, i));
    } else {
        lemma_key_total_from(a, b, i + 1);
    }
}

/// The order is total: of `a < b`, `a == b` and `b < a` exactly one holds.
pub proof fn lemma_key_trichotomy(a: Seq<u8>, b: Seq<u8>)
    ensures
        key_lt(a, b) || a == b || key_lt(b, a),
        key_lt(a, b) ==> a != b && !key_lt(b, a),
        key_lt(b, a) ==> a != b && !key_lt(a, b),
        key_le(a, b) <==> !key_lt(b, a),
{
    lemma_key_total_from(a, b, 0);
    if key_lt(a, b) {
        lemma_key_lt_asymmetric(a, b);
    }
    if key_lt(b, a) {
        lemma_key_lt_asymmetric(b, a);
    }
}

/// `<=` followed by `<` gives `<`.
pub proof fn lemma_key_le_lt(a: Seq<u8>, b: Seq<u8>, c: Seq<u8>)
    requires
        key_le(a, b),
        key_lt(b, c),
    ensures
        key_lt(a, c),
{
    if a != b {
        lemma_key_lt_transitive(a, b, c);
    }
}

/// `<` followed by `<=` gives `<`.
pub proof fn lemma_key_lt_le(a: Seq<u8>, b: Seq<u8>, c: Seq<u8>)
    requires
        key_lt(a, b),
        key_le(b, c),
    ensures
        key_lt(a, c),
{
    if b != c {
        lemma_key_lt_transitive(a, b, c);
    }
}

/// `<=` is transitive.
pub proof fn lemma_key_le_transitive(a: Seq<u8>, b: Seq<u8>, c: Seq<u8>)
    requires
        key_le(a, b),
        key_le(b, c),
    ensures
        key_le(a, c),
{
    if a != b && b != c {
        lemma_key_lt_transitive(a, b, c);
    }
}

/// The empty key sorts before every other key.
pub proof fn lemma_empty_key_least(a: Seq<u8>)
    ensures
        key_le(Seq::<u8>::empty(), a),
{
    let e = Seq::<u8>::empty();
    if a.len() == 0 {
        assert(a =~= e);
    } else {
        assert(differs_at(e, a, 0));
    }
}

/// Compares two keys lexicographically.
pub fn compare_keys(a: &[u8], b: &[u8]) -> (r: KeyOrder)
    ensures
        r == key_order(a@, b@),
        r == KeyOrder::Less <==> key_lt(a@, b@),
        r == KeyOrder::Equal <==> a@ == b@,
        r == KeyOrder::Greater <==> key_lt(b@, a@),
{
    let mut i: usize = 0;
    while i < a.len() && i < b.len() && a[i] == b[i]
        invariant
            same_prefix(a@, b@, i as int),
        decreases a.len() - i,
    {
        i += 1;
    }
    proof {
        lemma_key_trichotomy(a@, b@);
    }
    if i == a.len() {
        if i == b.len() {
            assert(a@ =~= b@);
            KeyOrder::Equal
        } else {
            assert(differs_at(a@, b@, i as int));
            KeyOrder::Less
        }
    } else if i == b.len() {
        assert(same_prefix(b@, a@, i as int));
        assert(differs_at(b@, a@, i as int));
        KeyOrder::Greater
    } else if a[i] < b[i] {
        assert(differs_at(a@, b@, i as int));
        KeyOrder::Less
    } else {
        assert(same_prefix(b@, a@, i as int));
        assert(differs_at(b@, a@, i as int));
        KeyOrder::Greater
    }
}

/// Whether two keys hold the same bytes.
pub fn keys_equal(a: &[u8], b: &[u8]) -> (r: bool)
    ensures
        r == (a@ == b@),
{
    if a.len() != b.len() {
        return false;
    }
    let mut i: usize = 0;
    while i < a.len()
        invariant
            a.len() == b.len(),
            same_prefix(a@, b@, i as int),
        decreases a.len() - i,
    {
        if a[i] != b[i] {
            return false;
        }
        i += 1;
    }
    assert(a@ =~= b@);
    true
}

} // verus!
