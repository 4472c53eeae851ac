//! Storage iterators and how several of them merge into one.
pub mod merge_iterator;

use crate::key::{key_lt, lemma_key_order};
use vstd::prelude::*;

verus! {

/// A key-value pair as plain values.
pub type Entry = (Seq<u8>, Seq<u8>);

/// An iterator over key-value pairs, positioned at its current pair.
pub trait StorageIterator {
    /// The iterator's internal state is consistent.
    spec fn inv(&self) -> bool;

    /// The pairs still to come, the current one first; empty once the iterator is exhausted.
    spec fn remaining(&self) -> Seq<Entry>;

    /// Moving an iterator of this type to its next pair never fails.
    spec fn next_infallible() -> bool;

    /// The key of the current pair.
    fn key(&self) -> (k: &[u8])
        requires
            self.inv(),
            self.remaining().len() > 0,
        ensures
            k@ == self.remaining()[0].0,
    ;

    /// The value of the current pair.
    fn value(&self) -> (v: &[u8])
        requires
            self.inv(),
            self.remaining().len() > 0,
        ensures
            v@ == self.remaining()[0].1,
    ;

    /// Whether the iterator stands at a pair.
    fn is_valid(&self) -> (valid: bool)
        requires
            self.inv(),
        ensures
            valid == (self.remaining().len() > 0),
    ;

    /// Moves to the next pair.
    fn next(&mut self) -> (r: Result<(), anyhow::Error>)
        requires
            old(self).inv(),
            old(self).remaining().len() > 0,
        ensures
            Self::next_infallible() ==> r is Ok,
            r is Ok ==> final(self).inv() && final(self).remaining() == old(self).remaining().drop_first(),
    ;
}

/// Keys increase strictly along the sequence.
pub open spec fn keys_increasing(s: Seq<Entry>) -> bool {
    forall|i: int, j: int| 0 <= i < j < s.len() ==> key_lt(#[trigger] s[i].0, #[trigger] s[j].0)
}

/// The number of pairs in all the lists together.
pub open spec fn total_len(lists: Seq<Seq<Entry>>) -> nat
    decreases lists.len(),
{
    if lists.len() == 0 {
        0
    } else {
        total_len(lists.drop_last()) + lists.last().len()
    }
}

/// The head of list `i` comes before the head of list `j`: a smaller key, or the same key in an
/// earlier list.
pub open spec fn head_before(lists: Seq<Seq<Entry>>, i: int, j: int) -> bool {
    ||| key_lt(lists[i][0].0, lists[j][0].0)
    ||| (lists[i][0].0 == lists[j][0].0 && i < j)
}

/// Among the first `n` lists, the nonempty one whose head comes first; -1 when all are empty.
pub open spec fn min_head_upto(lists: Seq<Seq<Entry>>, n: int) -> int
    decreases n,
{
    if n <= 0 {
        -1
    } else {
        let b = min_head_upto(lists, n - 1);
        if lists[n - 1].len() == 0 {
            b
        } else if b < 0 {
            n - 1
        } else if key_lt(lists[n - 1][0].0, lists[b][0].0) {
            n - 1
        } else {
            b
        }
    }
}

/// The nonempty list whose head comes first; -1 when all are empty.
pub open spec fn min_head(lists: Seq<Seq<Entry>>) -> int {
    min_head_upto(lists, lists.len() as int)
}

/// The lists with list `c` left out (emptied).
pub open spec fn without(lists: Seq<Seq<Entry>>, c: int) -> Seq<Seq<Entry>> {
    lists.update(c, Seq::empty())
}

/// What the merge skips before it advances list `c`: while the head that comes first among
/// the other lists has key `k`, that head is dropped.
pub open spec fn skip_key(lists: Seq<Seq<Entry>>, c: int, k: Seq<u8>) -> Seq<Seq<Entry>>
    decreases total_len(lists),
{
    let m = min_head(without(lists, c));
    if 0 <= m < lists.len() && m != c && lists[m].len() > 0 && lists[m][0].0 == k {
        proof {
            lemma_total_len_update(lists, m, lists[m].drop_first());
        }
        skip_key(lists.update(m, lists[m].drop_first()), c, k)
    } else {
        lists
    }
}

/// One step of the merge from list `m`, whose head comes first: the other lists skip their
/// leading pairs with that key, then list `m` moves past its head.
pub open spec fn merge_step(lists: Seq<Seq<Entry>>, m: int) -> Seq<Seq<Entry>> {
    skip_key(lists, m, lists[m][0].0).update(m, lists[m].drop_first())
}

/// The merge of the lists: repeatedly the head that comes first (the smallest key, from the
/// earliest list that has it at its head), after which the other lists skip their leading
/// pairs with that key.
pub open spec fn merged(lists: Seq<Seq<Entry>>) -> Seq<Entry>
    decreases total_len(lists),
{
    let m = min_head(lists);
    if 0 <= m < lists.len() && lists[m].len() > 0 {
        proof {
            lemma_merge_step(lists, m);
        }
        seq![lists[m][0]] + merged(merge_step(lists, m))
    } else {
        Seq::empty()
    }
}

/// `a` is what is left of `b` once some leading pairs, all with key `k`, are dropped.
pub open spec fn dropped_with_key(a: Seq<Entry>, b: Seq<Entry>, k: Seq<u8>) -> bool {
    &&& a.len() <= b.len()
    &&& a == b.skip(b.len() - a.len())
    &&& forall|i: int| 0 <= i < b.len() - a.len() ==> (#[trigger] b[i]).0 == k
}

proof fn lemma_dropped_trans(a: Seq<Entry>, b: Seq<Entry>, c: Seq<Entry>, k: Seq<u8>)
    requires
        dropped_with_key(a, b, k),
        dropped_with_key(b, c, k),
    ensures
        dropped_with_key(a, c, k),
{
    let d1 = c.len() - b.len();
    assert forall|i: int| 0 <= i < c.len() - a.len() implies (#[trigger] c[i]).0 == k by {
        if i >= d1 {
            assert(b[i - d1] == c[i]);
        }
    }
    assert(a =~= c.skip(c.len() - a.len()));
}

/// What skipping leaves: the same number of lists, list `c` untouched, no more pairs, each list
/// a tail of the old one past pairs with key `k`, and no other head with key `k` coming first.
pub proof fn lemma_skip_key(lists: Seq<Seq<Entry>>, c: int, k: Seq<u8>)
    requires
        0 <= c < lists.len(),
    ensures
        ({
            let r = skip_key(lists, c, k);
            let m = min_head(without(r, c));
            &&& r.len() == lists.len()
            &&& r[c] == lists[c]
            &&& total_len(r) <= total_len(lists)
            &&& forall|j: int| 0 <= j < lists.len() ==> dropped_with_key(#[trigger] r[j], lists[j], k)
            &&& !(0 <= m < r.len() && m != c && r[m].len() > 0 && r[m][0].0 == k)
        }),
    decreases total_len(lists),
{
    let m = min_head(without(lists, c));
    if 0 <= m < lists.len() && m != c && lists[m].len() > 0 && lists[m][0].0 == k {
        let l1 = lists.update(m, lists[m].drop_first());
        lemma_total_len_update(lists, m, lists[m].drop_first());
        lemma_skip_key(l1, c, k);
        let r = skip_key(lists, c, k);
        assert(r == skip_key(l1, c, k));
        assert forall|j: int| 0 <= j < lists.len() implies dropped_with_key(#[trigger] r[j], lists[j], k) by {
            assert(dropped_with_key(r[j], l1[j], k));
            if j == m {
                assert(dropped_with_key(l1[j], lists[j], k)) by {
                    assert(l1[j] =~= lists[j].skip(1));
                }
                lemma_dropped_trans(r[j], l1[j], lists[j], k);
            }
        }
    } else {
        assert forall|j: int| 0 <= j < lists.len() implies dropped_with_key(
            #[trigger] lists[j],
            lists[j],
            k,
        ) by {
            assert(lists[j] =~= lists[j].skip(0));
        }
    }
}

/// One step of the merge leaves fewer pairs; each list is what is left of the old one past
/// pairs with the key taken; and no other list's head with that key comes first.
pub proof fn lemma_merge_step(lists: Seq<Seq<Entry>>, m: int)
    requires
        0 <= m < lists.len(),
        lists[m].len() > 0,
    ensures
        ({
            let s = merge_step(lists, m);
            let k = lists[m][0].0;
            let m2 = min_head(without(s, m));
            &&& s.len() == lists.len()
            &&& total_len(s) < total_len(lists)
            &&& forall|j: int| 0 <= j < lists.len() ==> dropped_with_key(#[trigger] s[j], lists[j], k)
            &&& !(0 <= m2 < s.len() && m2 != m && s[m2].len() > 0 && s[m2][0].0 == k)
        }),
{
    let k = lists[m][0].0;
    let r = skip_key(lists, m, k);
    lemma_skip_key(lists, m, k);
    let s = merge_step(lists, m);
    lemma_total_len_update(r, m, lists[m].drop_first());
    assert(without(s, m) =~= without(r, m));
    assert forall|j: int| 0 <= j < lists.len() implies dropped_with_key(#[trigger] s[j], lists[j], k) by {
        if j == m {
            assert(s[j] =~= lists[j].skip(1));
        } else {
            assert(dropped_with_key(r[j], lists[j], k));
        }
    }
}

/// Lists that are pointwise no longer hold no more pairs; one strictly shorter makes it fewer.
pub proof fn lemma_total_len_le(a: Seq<Seq<Entry>>, b: Seq<Seq<Entry>>, m: int)
    requires
        a.len() == b.len(),
        forall|i: int| 0 <= i < a.len() ==> (#[trigger] a[i]).len() <= b[i].len(),
    ensures
        total_len(a) <= total_len(b),
        0 <= m < a.len() && a[m].len() < b[m].len() ==> total_len(a) < total_len(b),
    decreases a.len(),
{
    if a.len() > 0 {
        let n = a.len() - 1;
        assert forall|i: int| 0 <= i < n implies (#[trigger] a.drop_last()[i]).len()
            <= b.drop_last()[i].len() by {
            assert(a[i].len() <= b[i].len());
        }
        lemma_total_len_le(a.drop_last(), b.drop_last(), m);
        assert(a[n].len() <= b[n].len());
    }
}

/// Replacing one list by a shorter one shortens the total.
pub proof fn lemma_total_len_update(lists: Seq<Seq<Entry>>, t: int, l: Seq<Entry>)
    requires
        0 <= t < lists.len(),
        l.len() < lists[t].len(),
    ensures
        total_len(lists.update(t, l)) < total_len(lists),
{
    let u = lists.update(t, l);
    assert forall|i: int| 0 <= i < u.len() implies (#[trigger] u[i]).len() <= lists[i].len() by {}
    lemma_total_len_le(u, lists, t);
}

/// What `min_head_upto` finds: -1 exactly when the lists are empty, and otherwise a nonempty
/// list whose head no other head comes before.
pub proof fn lemma_min_head_upto(lists: Seq<Seq<Entry>>, n: int)
    requires
        0 <= n <= lists.len(),
    ensures
        min_head_upto(lists, n) < n,
        min_head_upto(lists, n) < 0 <==> forall|j: int| 0 <= j < n ==> (#[trigger] lists[j]).len()
            == 0,
        min_head_upto(lists, n) >= 0 ==> {
            let r = min_head_upto(lists, n);
            &&& lists[r].len() > 0
            &&& forall|j: int|
                0 <= j < n && j != r && (#[trigger] lists[j]).len() > 0 ==> head_before(lists, r, j)
        },
    decreases n,
{
    if n > 0 {
        lemma_min_head_upto(lists, n - 1);
        let b = min_head_upto(lists, n - 1);
        let r = min_head_upto(lists, n);
        if lists[n - 1].len() > 0 && b >= 0 {
            assert forall|j: int|
                0 <= j < n && j != r && (#[trigger] lists[j]).len() > 0 implies head_before(
                lists,
                r,
                j,
            ) by {
                lemma_key_order(lists[j][0].0, lists[b][0].0, lists[n - 1][0].0);
                lemma_key_order(lists[n - 1][0].0, lists[b][0].0, lists[j][0].0);
                lemma_key_order(lists[b][0].0, lists[n - 1][0].0, lists[j][0].0);
            }
        }
    }
}

/// The list whose head comes before every other head is the one `min_head` picks.
pub proof fn lemma_min_head_is(lists: Seq<Seq<Entry>>, c: int)
    requires
        0 <= c < lists.len(),
        lists[c].len() > 0,
        forall|j: int|
            0 <= j < lists.len() && j != c && (#[trigger] lists[j]).len() > 0 ==> head_before(
                lists,
                c,
                j,
            ),
    ensures
        min_head(lists) == c,
{
    lemma_min_head_upto(lists, lists.len() as int);
    let r = min_head(lists);
    if r != c {
        assert(lists[r].len() > 0);
        assert(head_before(lists, r, c));
        assert(head_before(lists, c, r));
        lemma_key_order(lists[r][0].0, lists[c][0].0, lists[c][0].0);
    }
}

/// The merge of lists that are all empty is empty; otherwise it begins with the head that
/// comes first, and goes on with the merge of the lists after that step.
pub proof fn lemma_merged_step(lists: Seq<Seq<Entry>>)
    ensures
        (forall|j: int| 0 <= j < lists.len() ==> (#[trigger] lists[j]).len() == 0) ==> merged(lists)
            == Seq::<Entry>::empty(),
        (exists|j: int| 0 <= j < lists.len() && (#[trigger] lists[j]).len() > 0) ==> {
            let m = min_head(lists);
            &&& 0 <= m < lists.len()
            &&& lists[m].len() > 0
            &&& merged(lists) == seq![lists[m][0]] + merged(merge_step(lists, m))
        },
{
    lemma_min_head_upto(lists, lists.len() as int);
}

/// The merge begins with the smallest key among the heads of the lists, taken from the
/// earliest list whose head has that key.
pub proof fn lemma_merged_first(lists: Seq<Seq<Entry>>, i: int)
    requires
        0 <= i < lists.len(),
        lists[i].len() > 0,
        forall|j: int|
            0 <= j < lists.len() && (#[trigger] lists[j]).len() > 0 ==> !key_lt(
                lists[j][0].0,
                lists[i][0].0,
            ),
        forall|j: int|
            0 <= j < i && (#[trigger] lists[j]).len() > 0 ==> lists[j][0].0 != lists[i][0].0,
    ensures
        merged(lists).len() > 0,
        merged(lists)[0] == lists[i][0],
{
    assert forall|j: int|
        0 <= j < lists.len() && j != i && (#[trigger] lists[j]).len() > 0 implies head_before(
        lists,
        i,
        j,
    ) by {
        lemma_key_order(lists[i][0].0, lists[j][0].0, lists[j][0].0);
    }
    lemma_min_head_is(lists, i);
    lemma_merged_step(lists);
}

/// Every pair of the merge comes from one of the lists.
pub proof fn lemma_merged_from_lists(lists: Seq<Seq<Entry>>, x: int)
    requires
        0 <= x < merged(lists).len(),
    ensures
        exists|i: int, j: int|
            0 <= i < lists.len() && 0 <= j < lists[i].len() && #[trigger] lists[i][j] == merged(
                lists,
            )[x],
    decreases total_len(lists),
{
    lemma_merged_step(lists);
    let m = min_head(lists);
    if !(exists|j: int| 0 <= j < lists.len() && (#[trigger] lists[j]).len() > 0) {
        assert(merged(lists).len() == 0);
    } else {
        if x == 0 {
            assert(lists[m][0] == merged(lists)[0]);
        } else {
            let d = merge_step(lists, m);
            lemma_merge_step(lists, m);
            lemma_merged_from_lists(d, x - 1);
            let (i, j) = choose|i: int, j: int|
                0 <= i < d.len() && 0 <= j < d[i].len() && #[trigger] d[i][j] == merged(d)[x - 1];
            assert(dropped_with_key(d[i], lists[i], lists[m][0].0));
            let off = lists[i].len() - d[i].len();
            assert(lists[i][j + off] == merged(lists)[x]);
        }
    }
}

/// Every key in any of the lists comes out of the merge.
pub proof fn lemma_merged_covers(lists: Seq<Seq<Entry>>, i: int, j: int)
    requires
        0 <= i < lists.len(),
        0 <= j < lists[i].len(),
    ensures
        exists|t: int| 0 <= t < merged(lists).len() && (#[trigger] merged(lists)[t]).0 == lists[i][j].0,
    decreases total_len(lists),
{
    lemma_merged_step(lists);
    let m = min_head(lists);
    assert(lists[i].len() > 0);
    let k = lists[m][0].0;
    if lists[i][j].0 == k {
        assert(merged(lists)[0].0 == lists[i][j].0);
    } else {
        let d = merge_step(lists, m);
        lemma_merge_step(lists, m);
        assert(dropped_with_key(d[i], lists[i], k));
        let off = lists[i].len() - d[i].len();
        assert(j >= off);
        assert(d[i][j - off] == lists[i][j]);
        lemma_merged_covers(d, i, j - off);
        let t = choose|t: int| 0 <= t < merged(d).len() && (#[trigger] merged(d)[t]).0 == d[i][j - off].0;
        assert(merged(lists)[t + 1] == merged(d)[t]);
    }
}

/// Merging lists whose keys increase gives pairs whose keys increase: each key comes out once.
pub proof fn lemma_merged_increasing(lists: Seq<Seq<Entry>>)
    requires
        forall|i: int| 0 <= i < lists.len() ==> keys_increasing(#[trigger] lists[i]),
    ensures
        keys_increasing(merged(lists)),
    decreases total_len(lists),
{
    lemma_merged_step(lists);
    if exists|j: int| 0 <= j < lists.len() && (#[trigger] lists[j]).len() > 0 {
        lemma_min_head_upto(lists, lists.len() as int);
        let m = min_head(lists);
        let kh = lists[m][0].0;
        let d = merge_step(lists, m);
        lemma_merge_step(lists, m);
        lemma_skip_key(lists, m, kh);
        assert(d[m] == lists[m].drop_first());
        // What is left of each list is a tail of it, so its keys still increase, and no key
        // in it is below the head that came first.
        assert forall|i: int| 0 <= i < d.len() implies keys_increasing(#[trigger] d[i]) && (
        forall|a: int| 0 <= a < d[i].len() ==> !key_lt((#[trigger] d[i][a]).0, kh)) by {
            assert(keys_increasing(lists[i]));
            assert(dropped_with_key(d[i], lists[i], kh));
            let off = lists[i].len() - d[i].len();
            assert forall|a: int, b: int| 0 <= a < b < d[i].len() implies key_lt(
                #[trigger] d[i][a].0,
                #[trigger] d[i][b].0,
            ) by {
                assert(d[i][a] == lists[i][a + off]);
                assert(d[i][b] == lists[i][b + off]);
            }
            assert forall|a: int| 0 <= a < d[i].len() implies !key_lt((#[trigger] d[i][a]).0, kh) by {
                assert(d[i][a] == lists[i][a + off]);
                if i != m {
                    assert(head_before(lists, m, i));
                }
                lemma_key_order(lists[i][0].0, kh, kh);
                if a + off > 0 {
                    assert(key_lt(lists[i][0].0, lists[i][a + off].0));
                    lemma_key_order(lists[i][0].0, lists[i][a + off].0, kh);
                    lemma_key_order(lists[i][a + off].0, lists[i][0].0, kh);
                    lemma_key_order(kh, lists[i][0].0, lists[i][a + off].0);
                }
            }
        }
        // No pair left has the key that came out.
        assert forall|i: int, a: int| 0 <= i < d.len() && 0 <= a < d[i].len() implies key_lt(
            kh,
            (#[trigger] d[i][a]).0,
        ) by {
            let off = lists[i].len() - d[i].len();
            assert(d[i][a] == lists[i][a + off]);
            assert(!key_lt(d[i][a].0, kh));
            if i == m {
                assert(keys_increasing(lists[m]));
                assert(d[m][a] == lists[m][a + 1]);
                assert(key_lt(lists[m][0].0, lists[m][a + 1].0));
            } else {
                let w = without(d, m);
                lemma_min_head_upto(w, w.len() as int);
                let m2 = min_head(w);
                assert(w[i] == d[i]);
                assert(w[i].len() > 0);
                assert(0 <= m2 < w.len() && w[m2].len() > 0);
                assert(m2 != m);
                assert(w[m2] == d[m2]);
                assert(d[m2][0].0 != kh);
                assert(!key_lt(d[m2][0].0, kh));
                lemma_key_order(d[m2][0].0, kh, kh);
                assert(key_lt(kh, d[m2][0].0));
                if m2 != i {
                    assert(head_before(w, m2, i));
                    lemma_key_order(kh, d[m2][0].0, d[i][0].0);
                }
                if a > 0 {
                    assert(key_lt(d[i][0].0, d[i][a].0));
                    lemma_key_order(kh, d[i][0].0, d[i][a].0);
                }
            }
        }
        lemma_merged_increasing(d);
        let r = merged(lists);
        assert forall|a: int, b: int| 0 <= a < b < r.len() implies key_lt(
            #[trigger] r[a].0,
            #[trigger] r[b].0,
        ) by {
            if a == 0 {
                lemma_merged_from_lists(d, b - 1);
                let (i, j) = choose|i: int, j: int|
                    0 <= i < d.len() && 0 <= j < d[i].len() && #[trigger] d[i][j] == merged(d)[b - 1];
                assert(r[b] == merged(d)[b - 1]);
            } else {
                assert(r[a] == merged(d)[a - 1]);
                assert(r[b] == merged(d)[b - 1]);
            }
        }
    }
}


/// What is left of a list with increasing keys, past some leading pairs, has increasing keys.
proof fn lemma_tail_increasing(a: Seq<Entry>, b: Seq<Entry>, k: Seq<u8>)
    requires
        keys_increasing(b),
        dropped_with_key(a, b, k),
    ensures
        keys_increasing(a),
{
    let off = b.len() - a.len();
    assert forall|x: int, y: int| 0 <= x < y < a.len() implies key_lt(
        #[trigger] a[x].0,
        #[trigger] a[y].0,
    ) by {
        assert(a[x] == b[x + off]);
        assert(a[y] == b[y + off]);
    }
}

/// Where the lists have increasing keys, the pair of the merge with a given key is the one from
/// the earliest list that has that key.
pub proof fn lemma_merged_prefers_earliest(lists: Seq<Seq<Entry>>, x: int, i: int, j: int)
    requires
        forall|l: int| 0 <= l < lists.len() ==> keys_increasing(#[trigger] lists[l]),
        0 <= x < merged(lists).len(),
        0 <= i < lists.len(),
        0 <= j < lists[i].len(),
        lists[i][j].0 == merged(lists)[x].0,
        forall|a: int, b: int|
            0 <= a < i && 0 <= b < lists[a].len() ==> (#[trigger] lists[a][b]).0 != lists[i][j].0,
    ensures
        merged(lists)[x] == lists[i][j],
    decreases total_len(lists),
{
    lemma_merged_step(lists);
    lemma_min_head_upto(lists, lists.len() as int);
    assert(lists[i].len() > 0);
    let m = min_head(lists);
    let kh = lists[m][0].0;
    lemma_key_order(kh, kh, kh);
    if x == 0 {
        if i != m {
            assert(head_before(lists, m, i));
            lemma_key_order(kh, lists[i][0].0, kh);
            if j > 0 {
                assert(keys_increasing(lists[i]));
                assert(key_lt(lists[i][0].0, lists[i][j].0));
            }
            assert(lists[m][0].0 == lists[i][j].0);
            assert(false);
        }
        if j > 0 {
            assert(keys_increasing(lists[m]));
            assert(key_lt(lists[m][0].0, lists[m][j].0));
        }
    } else {
        let d = merge_step(lists, m);
        lemma_merge_step(lists, m);
        lemma_merged_increasing(lists);
        assert(key_lt(merged(lists)[0].0, merged(lists)[x].0));
        let k = lists[i][j].0;
        assert(k != kh);
        assert(dropped_with_key(d[i], lists[i], kh));
        let off = lists[i].len() - d[i].len();
        assert(j >= off) by {
            if j < off {
                assert(lists[i][j].0 == kh);
            }
        }
        assert(d[i][j - off] == lists[i][j]);
        assert forall|l: int| 0 <= l < d.len() implies keys_increasing(#[trigger] d[l]) by {
            lemma_tail_increasing(d[l], lists[l], kh);
        }
        assert forall|a: int, b: int| 0 <= a < i && 0 <= b < d[a].len() implies (
        #[trigger] d[a][b]).0 != d[i][j - off].0 by {
            assert(dropped_with_key(d[a], lists[a], kh));
            let offa = lists[a].len() - d[a].len();
            assert(d[a][b] == lists[a][b + offa]);
        }
        lemma_merged_prefers_earliest(d, x - 1, i, j - off);
    }
}

} // verus!
