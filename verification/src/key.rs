//! Keys are byte strings ordered lexicographically, the way `[u8]` orders them.
use vstd::prelude::*;

verus! {

/// Length of the longest common prefix of `a` and `b`, counted from position `i` on,
/// assuming `a` and `b` agree before `i`.
pub open spec fn prefix_len_from(a: Seq<u8>, b: Seq<u8>, i: int) -> int
    decreases a.len() - i,
{
    if 0 <= i < a.len() && i < b.len() && a[i] == b[i] {
        prefix_len_from(a, b, i + 1)
    } else {
        i
    }
}

/// Length of the longest common prefix of `a` and `b`.
pub open spec fn common_prefix_len(a: Seq<u8>, b: Seq<u8>) -> int {
    prefix_len_from(a, b, 0)
}

/// `n` is the length of the longest common prefix of `a` and `b`.
pub open spec fn is_common_prefix_len(a: Seq<u8>, b: Seq<u8>, n: int) -> bool {
    &&& 0 <= n <= a.len()
    &&& n <= b.len()
    &&& forall|j: int| 0 <= j < n ==> a[j] == b[j]
    &&& (n < a.len() && n < b.len() ==> a[n] != b[n])
}

/// Strict lexicographic order on byte strings (a proper prefix comes first).
pub open spec fn key_lt(a: Seq<u8>, b: Seq<u8>) -> bool {
    let n = common_prefix_len(a, b);
    ||| (n == a.len() && n < b.len())
    ||| (n < a.len() && n < b.len() && a[n] < b[n])
}

/// Lexicographic order on byte strings.
pub open spec fn key_le(a: Seq<u8>, b: Seq<u8>) -> bool {
    key_lt(a, b) || a == b
}

proof fn lemma_prefix_len_from(a: Seq<u8>, b: Seq<u8>, i: int)
    requires
        0 <= i <= a.len(),
        i <= b.len(),
        forall|j: int| 0 <= j < i ==> a[j] == b[j],
    ensures
        is_common_prefix_len(a, b, prefix_len_from(a, b, i)),
    decreases a.len() - i,
{
    if i < a.len() && i < b.len() && a[i] == b[i] {
        lemma_prefix_len_from(a, b, i + 1);
    }
}

/// The common prefix length is well defined and is the only length with that property.
pub proof fn lemma_common_prefix_len(a: Seq<u8>, b: Seq<u8>)
    ensures
        is_common_prefix_len(a, b, common_prefix_len(a, b)),
        forall|n: int| is_common_prefix_len(a, b, n) ==> n == common_prefix_len(a, b),
        common_prefix_len(a, b) == common_prefix_len(b, a),
{
    lemma_prefix_len_from(a, b, 0);
    lemma_prefix_len_from(b, a, 0);
    let c = common_prefix_len(a, b);
    assert forall|n: int| is_common_prefix_len(a, b, n) implies n == c by {
        if n < c {
            assert(a[n] == b[n]);
        } else if c < n {
            assert(a[c] == b[c]);
        }
    }
    let d = common_prefix_len(b, a);
    assert(is_common_prefix_len(a, b, d));
}

/// Two byte strings are equal exactly when their common prefix covers both.
pub proof fn lemma_key_eq(a: Seq<u8>, b: Seq<u8>)
    ensures
        (a == b) <==> (common_prefix_len(a, b) == a.len() && a.len() == b.len()),
{
    lemma_common_prefix_len(a, b);
    if common_prefix_len(a, b) == a.len() && a.len() == b.len() {
        assert(a =~= b);
    }
    if a == b {
        assert(is_common_prefix_len(a, b, a.len() as int));
    }
}

/// The order is strict, total and transitive.
pub proof fn lemma_key_order(a: Seq<u8>, b: Seq<u8>, c: Seq<u8>)
    ensures
        !key_lt(a, a),
        key_lt(a, b) ==> !key_lt(b, a),
        a != b ==> key_lt(a, b) || key_lt(b, a),
        key_lt(a, b) && key_lt(b, c) ==> key_lt(a, c),
{
    lemma_key_eq(a, a);
    lemma_key_eq(a, b);
    lemma_common_prefix_len(a, b);
    lemma_common_prefix_len(b, c);
    lemma_common_prefix_len(a, c);
    if key_lt(a, b) && key_lt(b, c) {
        let p = common_prefix_len(a, b);
        let q = common_prefix_len(b, c);
        let r = common_prefix_len(a, c);
        if p < q {
            assert(is_common_prefix_len(a, c, p));
        } else if q < p {
            assert(is_common_prefix_len(a, c, q));
        } else {
            assert(is_common_prefix_len(a, c, p));
        }
    }
}

/// Three-way result of comparing two keys.
#[derive(PartialEq, Eq, Debug, Clone, Copy)]
pub enum KeyOrder {
    Less,
    Equal,
    Greater,
}

/// Counts how many leading bytes `a` and `b` have in common.
pub fn common_prefix(a: &[u8], b: &[u8]) -> (n: usize)
    ensures
        n == common_prefix_len(a@, b@),
        is_common_prefix_len(a@, b@, n as int),
{
    proof {
        lemma_common_prefix_len(a@, b@);
    }
    let mut i: usize = 0;
    while i < a.len() && i < b.len() && a[i] == b[i]
        invariant
            0 <= i <= a@.len(),
            i <= b@.len(),
            forall|j: int| 0 <= j < i ==> a@[j] == b@[j],
            prefix_len_from(a@, b@, 0) == prefix_len_from(a@, b@, i as int),
        decreases a@.len() - i,
    {
        i = i + 1;
    }
    i
}

/// Compares two keys lexicographically.
pub fn compare_keys(a: &[u8], b: &[u8]) -> (o: KeyOrder)
    ensures
        o == KeyOrder::Less <==> key_lt(a@, b@),
        o == KeyOrder::Equal <==> a@ == b@,
        o == KeyOrder::Greater <==> key_lt(b@, a@),
{
    proof {
        lemma_key_order(a@, b@, b@);
        lemma_key_eq(a@, b@);
    }
    let n = common_prefix(a, b);
    if n == a.len() {
        if n == b.len() {
            KeyOrder::Equal
        } else {
            KeyOrder::Less
        }
    } else if n == b.len() {
        KeyOrder::Greater
    } else if a[n] < b[n] {
        KeyOrder::Less
    } else {
        KeyOrder::Greater
    }
}

} // verus!
