//! Merging several storage iterators into one stream, the smallest key first.
use super::{
    head_before, keys_increasing, lemma_merged_covers, lemma_merged_from_lists,
    lemma_merged_increasing, lemma_merged_step, lemma_min_head_is,
    lemma_min_head_upto, lemma_total_len_update, merge_step, merged, min_head, skip_key, total_len,
    without, Entry, StorageIterator,
};
use crate::key::{compare_keys, key_lt, lemma_key_order, KeyOrder};
use vstd::prelude::*;

verus! {

/// A sub-iterator together with its position in the list the merge was created from.
struct HeapWrapper<I: StorageIterator>(pub usize, pub Box<I>);

impl<I: StorageIterator> HeapWrapper<I> {
    /// The pairs the sub-iterator has still to yield.
    spec fn rem(&self) -> Seq<Entry> {
        (*self.1).remaining()
    }

    /// The key of the sub-iterator's current pair.
    spec fn head_key(&self) -> Seq<u8> {
        self.rem()[0].0
    }
}

/// `a` comes before `b`: a smaller current key, or the same key and an earlier position.
spec fn wrapper_before<I: StorageIterator>(a: HeapWrapper<I>, b: HeapWrapper<I>) -> bool {
    ||| key_lt(a.head_key(), b.head_key())
    ||| (a.head_key() == b.head_key() && a.0 < b.0)
}

/// The order of sub-iterators is strict, total on distinct positions, and transitive.
proof fn lemma_wrapper_order<I: StorageIterator>(
    a: HeapWrapper<I>,
    b: HeapWrapper<I>,
    c: HeapWrapper<I>,
)
    ensures
        !(wrapper_before(a, b) && wrapper_before(b, a)),
        a.0 != b.0 ==> wrapper_before(a, b) || wrapper_before(b, a),
        wrapper_before(a, b) && wrapper_before(b, c) ==> wrapper_before(a, c),
{
    lemma_key_order(a.head_key(), b.head_key(), c.head_key());
    lemma_key_order(b.head_key(), a.head_key(), c.head_key());
}

/// The sub-iterator is consistent and yields the list recorded for its position.
spec fn wrapper_ok<I: StorageIterator>(w: HeapWrapper<I>, lists: Seq<Seq<Entry>>) -> bool {
    &&& w.0 < lists.len()
    &&& (*w.1).inv()
    &&& w.rem() == lists[w.0 as int]
}

/// The waiting sub-iterators: all valid and consistent, at distinct positions, and sorted from
/// last to first (the one that comes first stands at the end).
spec fn heap_ok<I: StorageIterator>(hs: Seq<HeapWrapper<I>>, lists: Seq<Seq<Entry>>) -> bool {
    &&& forall|i: int| 0 <= i < hs.len() ==> wrapper_ok(#[trigger] hs[i], lists)
    &&& forall|i: int| 0 <= i < hs.len() ==> (#[trigger] hs[i]).rem().len() > 0
    &&& forall|i: int, j: int|
        0 <= i < j < hs.len() ==> wrapper_before(#[trigger] hs[j], #[trigger] hs[i])
    &&& forall|i: int, j: int| 0 <= i < j < hs.len() ==> (#[trigger] hs[i]).0 != (#[trigger] hs[j]).0
}

/// Some waiting sub-iterator stands at position `k`.
spec fn in_heap<I: StorageIterator>(hs: Seq<HeapWrapper<I>>, k: int) -> bool {
    exists|i: int| 0 <= i < hs.len() && (#[trigger] hs[i]).0 == k
}

/// Compares two valid sub-iterators by current key, then by position.
fn comes_before<I: StorageIterator>(a: &HeapWrapper<I>, b: &HeapWrapper<I>) -> (r: bool)
    requires
        (*a.1).inv(),
        (*b.1).inv(),
        a.rem().len() > 0,
        b.rem().len() > 0,
    ensures
        r == wrapper_before(*a, *b),
{
    match compare_keys(a.1.key(), b.1.key()) {
        KeyOrder::Less => true,
        KeyOrder::Equal => a.0 < b.0,
        KeyOrder::Greater => {
            proof {
                lemma_key_order(a.head_key(), b.head_key(), b.head_key());
            }
            false
        },
    }
}

/// Puts a valid sub-iterator among the waiting ones, keeping them sorted.
fn insert_sorted<I: StorageIterator>(
    hs: &mut Vec<HeapWrapper<I>>,
    w: HeapWrapper<I>,
    Ghost(lists): Ghost<Seq<Seq<Entry>>>,
) -> (p: usize)
    requires
        heap_ok(old(hs)@, lists),
        wrapper_ok(w, lists),
        w.rem().len() > 0,
        !in_heap(old(hs)@, w.0 as int),
    ensures
        p <= old(hs)@.len(),
        final(hs)@ == old(hs)@.insert(p as int, w),
        heap_ok(final(hs)@, lists),
{
    let n = hs.len();
    let mut i: usize = 0;
    while i < n
        invariant
            0 <= i <= n == hs@.len(),
            hs@ == old(hs)@,
            heap_ok(hs@, lists),
            wrapper_ok(w, lists),
            w.rem().len() > 0,
            !in_heap(hs@, w.0 as int),
            forall|j: int| 0 <= j < i ==> wrapper_before(w, #[trigger] hs@[j]),
        ensures
            0 <= i <= n,
            hs@ == old(hs)@,
            forall|j: int| 0 <= j < i ==> wrapper_before(w, #[trigger] hs@[j]),
            i < n ==> wrapper_before(hs@[i as int], w),
        decreases n - i,
    {
        if comes_before(&hs[i], &w) {
            break;
        }
        proof {
            lemma_wrapper_order(hs@[i as int], w, w);
            assert(hs@[i as int].0 != w.0);
        }
        i = i + 1;
    }
    let ghost old_hs = hs@;
    proof {
        if i < n {
            assert forall|j: int| i <= j < n implies wrapper_before(#[trigger] old_hs[j], w) by {
                if j > i {
                    lemma_wrapper_order(old_hs[j], old_hs[i as int], w);
                }
            }
        }
    }
    hs.insert(i, w);
    proof {
        let new_hs = hs@;
        assert forall|a: int, b: int| 0 <= a < b < new_hs.len() implies wrapper_before(
            #[trigger] new_hs[b],
            #[trigger] new_hs[a],
        ) by {
            if a < i && b == i {
            } else if a < i && b > i {
                assert(new_hs[b] == old_hs[b - 1]);
            } else if a == i {
                assert(new_hs[b] == old_hs[b - 1]);
            } else if a > i {
                assert(new_hs[a] == old_hs[a - 1]);
                assert(new_hs[b] == old_hs[b - 1]);
            }
        }
        assert forall|a: int, b: int| 0 <= a < b < new_hs.len() implies (#[trigger] new_hs[a]).0
            != (#[trigger] new_hs[b]).0 by {
            if a == i {
                assert(new_hs[b] == old_hs[b - 1]);
            } else if b == i {
            } else if a > i {
                assert(new_hs[a] == old_hs[a - 1]);
                assert(new_hs[b] == old_hs[b - 1]);
            } else if b > i {
                assert(new_hs[b] == old_hs[b - 1]);
            }
        }
        assert forall|a: int| 0 <= a < new_hs.len() implies wrapper_ok(#[trigger] new_hs[a], lists)
            && new_hs[a].rem().len() > 0 by {
            if a > i {
                assert(new_hs[a] == old_hs[a - 1]);
            }
        }
    }
    i
}

/// The lists of pairs of the iterators that are valid, in order.
pub open spec fn valid_lists<I: StorageIterator>(its: Seq<Box<I>>) -> Seq<Seq<Entry>>
    decreases its.len(),
{
    if its.len() == 0 {
        Seq::empty()
    } else {
        let r = valid_lists(its.drop_last());
        if (*its.last()).remaining().len() > 0 {
            r.push((*its.last()).remaining())
        } else {
            r
        }
    }
}

/// The number of iterators that are valid.
pub open spec fn count_valid<I: StorageIterator>(its: Seq<Box<I>>) -> nat
    decreases its.len(),
{
    if its.len() == 0 {
        0
    } else {
        count_valid(its.drop_last()) + if (*its.last()).remaining().len() > 0 {
            1nat
        } else {
            0nat
        }
    }
}

/// The merge is made over every valid iterator and nothing else, in input order: one list per
/// valid iterator, the valid iterator `i` giving the list after those of the valid iterators
/// before it, and each list the pairs of some valid iterator.
pub proof fn lemma_valid_lists<I: StorageIterator>(its: Seq<Box<I>>)
    ensures
        valid_lists(its).len() == count_valid(its),
        count_valid(its) <= its.len(),
        forall|i: int|
            0 <= i < its.len() && (#[trigger] its[i]).remaining().len() > 0 ==> {
                &&& count_valid(its.take(i)) < valid_lists(its).len()
                &&& valid_lists(its)[count_valid(its.take(i)) as int] == its[i].remaining()
            },
        forall|k: int|
            0 <= k < valid_lists(its).len() ==> exists|i: int|
                0 <= i < its.len() && (#[trigger] its[i]).remaining().len() > 0
                    && #[trigger] valid_lists(its)[k] == its[i].remaining(),
    decreases its.len(),
{
    if its.len() > 0 {
        let n = its.len() - 1;
        let d = its.drop_last();
        lemma_valid_lists(d);
        let r = valid_lists(d);
        let v = valid_lists(its);
        assert(its.take(n) =~= d);
        assert forall|i: int|
            0 <= i < its.len() && (#[trigger] its[i]).remaining().len() > 0 implies {
            &&& count_valid(its.take(i)) < v.len()
            &&& v[count_valid(its.take(i)) as int] == its[i].remaining()
        } by {
            if i < n {
                assert(its.take(i) =~= d.take(i));
                assert(d[i] == its[i]);
                lemma_count_valid_prefix(d, i);
            }
        }
        assert forall|k: int| 0 <= k < v.len() implies exists|i: int|
            0 <= i < its.len() && (#[trigger] its[i]).remaining().len() > 0 && #[trigger] v[k]
                == its[i].remaining() by {
            if k < r.len() {
                let i = choose|i: int|
                    0 <= i < d.len() && (#[trigger] d[i]).remaining().len() > 0 && r[k]
                        == d[i].remaining();
                assert(its[i] == d[i]);
            } else {
                assert(its[n].remaining().len() > 0);
            }
        }
    }
}

/// A prefix has no more valid iterators than the whole.
proof fn lemma_count_valid_prefix<I: StorageIterator>(its: Seq<Box<I>>, i: int)
    requires
        0 <= i < its.len(),
        its[i].remaining().len() > 0,
    ensures
        count_valid(its.take(i)) < count_valid(its),
    decreases its.len(),
{
    let n = its.len() - 1;
    assert(its.take(n) =~= its.drop_last());
    if i < n {
        assert(its.take(i) =~= its.drop_last().take(i));
        assert(its.drop_last()[i] == its[i]);
        lemma_count_valid_prefix(its.drop_last(), i);
    }
}

/// The lists of iterators whose pairs come in increasing key order have increasing keys.
proof fn lemma_valid_lists_sorted<I: StorageIterator>(its: Seq<Box<I>>)
    requires
        forall|i: int| 0 <= i < its.len() ==> keys_increasing((#[trigger] its[i]).remaining()),
    ensures
        forall|k: int|
            0 <= k < valid_lists(its).len() ==> keys_increasing(#[trigger] valid_lists(its)[k]),
    decreases its.len(),
{
    if its.len() > 0 {
        let d = its.drop_last();
        assert(d.len() == its.len() - 1);
        assert forall|i: int| 0 <= i < d.len() implies keys_increasing((#[trigger] d[i]).remaining()) by {
            assert(d[i] == its[i]);
        }
        lemma_valid_lists_sorted(d);
        let r = valid_lists(d);
        let v = valid_lists(its);
        assert(keys_increasing(its.last().remaining()));
        assert forall|k: int| 0 <= k < v.len() implies keys_increasing(#[trigger] v[k]) by {
            if k < r.len() {
                assert(v[k] == r[k]);
            }
        }
    }
}

/// Every pair of every input iterator has its key in the merge, and every pair of the merge is
/// a pair of some input iterator.
/// Every pair of every input iterator has its key among the pairs of `out`, and every pair of
/// `out` is a pair of some input iterator.
pub open spec fn covers_inputs<I: StorageIterator>(its: Seq<Box<I>>, out: Seq<Entry>) -> bool {
    &&& forall|i: int, j: int|
        #![trigger its[i].remaining()[j]]
        0 <= i < its.len() && 0 <= j < its[i].remaining().len() ==> exists|t: int|
            0 <= t < out.len() && (#[trigger] out[t]).0 == its[i].remaining()[j].0
    &&& forall|t: int|
        #![trigger out[t]]
        0 <= t < out.len() ==> exists|i: int, j: int|
            #![trigger its[i].remaining()[j]]
            0 <= i < its.len() && 0 <= j < its[i].remaining().len() && its[i].remaining()[j]
                == out[t]
}

/// The merge of the valid iterators takes in every pair of every input and nothing else:
/// each input key comes out, and each pair that comes out is a pair of some input.
pub proof fn lemma_merge_of_inputs<I: StorageIterator>(all: Seq<Box<I>>)
    ensures
        covers_inputs(all, merged(valid_lists(all))),
{
    let lists = valid_lists(all);
    let out = merged(lists);
    assert forall|i: int, j: int|
        #![trigger all[i].remaining()[j]]
        0 <= i < all.len() && 0 <= j < all[i].remaining().len() implies exists|t: int|
        0 <= t < out.len() && (#[trigger] out[t]).0 == all[i].remaining()[j].0 by {
        lemma_input_comes_out(all, i, j);
    }
    assert forall|t: int|
        #![trigger out[t]]
        0 <= t < out.len() implies exists|i: int, j: int|
        #![trigger all[i].remaining()[j]]
        0 <= i < all.len() && 0 <= j < all[i].remaining().len() && all[i].remaining()[j]
            == out[t] by {
        lemma_output_from_input(all, t);
    }
}

/// The key of pair `j` of input `i` comes out of the merge.
proof fn lemma_input_comes_out<I: StorageIterator>(all: Seq<Box<I>>, i: int, j: int)
    requires
        0 <= i < all.len(),
        0 <= j < all[i].remaining().len(),
    ensures
        exists|t: int|
            0 <= t < merged(valid_lists(all)).len() && (#[trigger] merged(valid_lists(all))[t]).0
                == all[i].remaining()[j].0,
{
    let lists = valid_lists(all);
    lemma_valid_lists(all);
    assert(all[i].remaining().len() > 0);
    let k = count_valid(all.take(i)) as int;
    assert(lists[k] == all[i].remaining());
    lemma_merged_covers(lists, k, j);
    let t = choose|t: int|
        0 <= t < merged(lists).len() && (#[trigger] merged(lists)[t]).0 == lists[k][j].0;
    assert(merged(lists)[t].0 == all[i].remaining()[j].0);
}

/// Pair `t` of the merge is a pair of some input.
proof fn lemma_output_from_input<I: StorageIterator>(all: Seq<Box<I>>, t: int)
    requires
        0 <= t < merged(valid_lists(all)).len(),
    ensures
        exists|i: int, j: int|
            #![trigger all[i].remaining()[j]]
            0 <= i < all.len() && 0 <= j < all[i].remaining().len() && all[i].remaining()[j]
                == merged(valid_lists(all))[t],
{
    let lists = valid_lists(all);
    lemma_valid_lists(all);
    lemma_merged_from_lists(lists, t);
    let (k, j) = choose|k: int, j: int|
        0 <= k < lists.len() && 0 <= j < lists[k].len() && #[trigger] lists[k][j] == merged(
            lists,
        )[t];
    let i = choose|i: int|
        0 <= i < all.len() && (#[trigger] all[i]).remaining().len() > 0 && #[trigger] lists[k]
            == all[i].remaining();
    assert(all[i].remaining()[j] == merged(lists)[t]);
}

/// Merge multiple iterators of the same type. If the same key occurs multiple times in some
/// iterators, prefer the one with smaller index.
pub struct MergeIterator<I: StorageIterator> {
    iters: Vec<HeapWrapper<I>>,
    current: Option<HeapWrapper<I>>,
    lists: Ghost<Seq<Seq<Entry>>>,
}

impl<I: StorageIterator> MergeIterator<I> {
    /// The lists of pairs still to come from each merged iterator, by position.
    pub closed spec fn lists(&self) -> Seq<Seq<Entry>> {
        self.lists@
    }

    /// The waiting iterators are sorted, the current one comes before all of them, and every
    /// position with pairs left has an iterator.
    pub closed spec fn wf(&self) -> bool {
        let hs = self.iters@;
        let lists = self.lists@;
        &&& heap_ok(hs, lists)
        &&& match self.current {
            None => hs.len() == 0 && forall|k: int| 0 <= k < lists.len() ==> (#[trigger] lists[k]).len() == 0,
            Some(c) => {
                &&& wrapper_ok(c, lists)
                &&& !in_heap(hs, c.0 as int)
                &&& c.rem().len() > 0 ==> forall|i: int| 0 <= i < hs.len() ==> wrapper_before(c, #[trigger] hs[i])
                &&& c.rem().len() == 0 ==> hs.len() == 0
            },
        }
        &&& forall|k: int|
            0 <= k < lists.len() && (#[trigger] lists[k]).len() > 0 ==> in_heap(hs, k) || (
            self.current matches Some(c) && c.0 == k)
    }

    /// With a valid current iterator, its pair is the first of the merge, and the merge goes on
    /// from the step that takes it.
    proof fn lemma_current_first(&self)
        requires
            self.wf(),
            self.current is Some,
            self.current.unwrap().rem().len() > 0,
        ensures
            min_head(self.lists@) == self.current.unwrap().0,
            merged(self.lists@) == seq![self.lists@[self.current.unwrap().0 as int][0]] + merged(
                merge_step(self.lists@, self.current.unwrap().0 as int),
            ),
    {
        let c = self.current.unwrap();
        let lists = self.lists@;
        let hs = self.iters@;
        assert forall|j: int|
            0 <= j < lists.len() && j != c.0 && (#[trigger] lists[j]).len() > 0 implies head_before(
            lists,
            c.0 as int,
            j,
        ) by {
            assert(in_heap(hs, j));
            let i = choose|i: int| 0 <= i < hs.len() && (#[trigger] hs[i]).0 == j;
            assert(wrapper_ok(hs[i], lists));
            assert(wrapper_before(c, hs[i]));
        }
        lemma_min_head_is(lists, c.0 as int);
        lemma_merged_step(lists);
    }

    /// Where what is left of each merged iterator has increasing keys, the merge yields each
    /// key once, in increasing order.
    pub proof fn lemma_output_increasing(&self)
        requires
            self.wf(),
            forall|k: int| 0 <= k < self.lists().len() ==> keys_increasing(#[trigger] self.lists()[k]),
        ensures
            keys_increasing(merged(self.lists())),
    {
        lemma_merged_increasing(self.lists@);
    }

    /// The front of the merge: nothing without a valid current iterator, its pair otherwise.
    proof fn lemma_front(&self)
        requires
            self.wf(),
        ensures
            self.current is None || self.current.unwrap().rem().len() == 0 ==> merged(self.lists@)
                == Seq::<Entry>::empty(),
            self.current is Some && self.current.unwrap().rem().len() > 0 ==> merged(self.lists@)
                == seq![self.lists@[self.current.unwrap().0 as int][0]] + merged(
                merge_step(self.lists@, self.current.unwrap().0 as int),
            ),
    {
        if self.current is None || self.current.unwrap().rem().len() == 0 {
            self.lemma_exhausted();
        } else {
            self.lemma_current_first();
        }
    }

    /// Without a valid current iterator, nothing is left to merge.
    proof fn lemma_exhausted(&self)
        requires
            self.wf(),
            self.current is None || self.current.unwrap().rem().len() == 0,
        ensures
            merged(self.lists@) == Seq::<Entry>::empty(),
    {
        let lists = self.lists@;
        assert forall|j: int| 0 <= j < lists.len() implies (#[trigger] lists[j]).len() == 0 by {
            if lists[j].len() > 0 {
                assert(in_heap(self.iters@, j) || (self.current matches Some(c) && c.0 == j));
                if self.current is Some {
                    let c = self.current.unwrap();
                    if c.0 == j {
                        assert(wrapper_ok(c, lists));
                    }
                }
            }
        }
        lemma_merged_step(lists);
    }

    /// Creates the merge of `iters`, skipping those that are not valid.
    #[verifier::rlimit(50)]
    pub fn create(iters: Vec<Box<I>>) -> (m: Self)
        requires
            forall|i: int| 0 <= i < iters@.len() ==> (#[trigger] iters@[i]).inv(),
        ensures
            m.wf(),
            m.lists() == valid_lists(iters@),
            (forall|i: int|
                0 <= i < iters@.len() ==> keys_increasing((#[trigger] iters@[i]).remaining()))
                ==> keys_increasing(merged(m.lists())),
            covers_inputs(iters@, merged(m.lists())),
    {
        let ghost input = iters@;
        let mut iters = iters;
        let ghost all = iters@;
        let n = iters.len();
        let mut heap: Vec<HeapWrapper<I>> = Vec::new();
        let ghost mut lists: Seq<Seq<Entry>> = Seq::empty();
        let mut count: usize = 0;
        let mut i: usize = 0;
        while i < n
            invariant
                0 <= i <= n == all.len(),
                iters@ == all.skip(i as int),
                forall|j: int| 0 <= j < all.len() ==> (#[trigger] all[j]).inv(),
                lists == valid_lists(all.take(i as int)),
                count == lists.len(),
                count <= i,
                heap_ok(heap@, lists),
                forall|k: int| 0 <= k < heap@.len() ==> (#[trigger] heap@[k]).0 < count,
                forall|k: int| 0 <= k < lists.len() ==> (#[trigger] lists[k]).len() > 0,
                forall|k: int| 0 <= k < lists.len() ==> in_heap(heap@, k),
            decreases n - i,
        {
            let it = iters.remove(0);
            proof {
                assert(it == all[i as int]);
                assert(all.take(i + 1).drop_last() =~= all.take(i as int));
            }
            if it.is_valid() {
                let ghost old_lists = lists;
                let ghost old_heap = heap@;
                proof {
                    lists = lists.push((*it).remaining());
                    assert forall|k: int| 0 <= k < old_heap.len() implies wrapper_ok(
                        #[trigger] old_heap[k],
                        lists,
                    ) by {
                        assert(wrapper_ok(old_heap[k], old_lists));
                        assert(lists[old_heap[k].0 as int] == old_lists[old_heap[k].0 as int]);
                    }
                    assert(!in_heap(old_heap, count as int));
                }
                let w = HeapWrapper(count, it);
                let p = insert_sorted(&mut heap, w, Ghost(lists));
                proof {
                    assert forall|k: int| 0 <= k < lists.len() implies in_heap(heap@, k) by {
                        if k == count {
                            assert(heap@[p as int].0 == k);
                        } else {
                            assert(in_heap(old_heap, k));
                            let q = choose|q: int| 0 <= q < old_heap.len() && (#[trigger] old_heap[q]).0 == k;
                            if q < p {
                                assert(heap@[q].0 == k);
                            } else {
                                assert(heap@[q + 1].0 == k);
                            }
                        }
                    }
                    assert forall|k: int| 0 <= k < heap@.len() implies (#[trigger] heap@[k]).0 < count + 1 by {
                        if k < p {
                            assert(heap@[k] == old_heap[k]);
                        } else if k > p {
                            assert(heap@[k] == old_heap[k - 1]);
                        }
                    }
                }
                count = count + 1;
            }
            i = i + 1;
            proof {
                assert(iters@ =~= all.skip(i as int));
            }
        }
        proof {
            assert(all.take(n as int) =~= all);
        }
        proof {
            assert(input == all);
            lemma_merge_of_inputs(input);
        }
        let ghost pre = heap@;
        let current = heap.pop();
        let m = MergeIterator { iters: heap, current, lists: Ghost(lists) };
        proof {
            let hs = m.iters@;
            if m.current is Some {
                let c = m.current.unwrap();
                assert forall|k: int| 0 <= k < hs.len() implies wrapper_before(c, #[trigger] hs[k]) by {
                    assert(hs[k] == pre[k]);
                    assert(c == pre[pre.len() - 1]);
                }
                assert(!in_heap(hs, c.0 as int)) by {
                    if in_heap(hs, c.0 as int) {
                        let q = choose|q: int| 0 <= q < hs.len() && (#[trigger] hs[q]).0 == c.0;
                    }
                }
            }
            assert forall|k: int|
                0 <= k < lists.len() && (#[trigger] lists[k]).len() > 0 implies in_heap(hs, k) || (
                m.current matches Some(c) && c.0 == k) by {
                assert(in_heap(pre, k));
                let q = choose|q: int| 0 <= q < pre.len() && (#[trigger] pre[q]).0 == k;
                if q < hs.len() {
                    assert(hs[q] == pre[q]);
                    assert(hs[q].0 == k);
                } else {
                    assert(m.current == Some(pre[q]));
                }
            }
            if forall|i: int|
                0 <= i < all.len() ==> keys_increasing((#[trigger] all[i]).remaining()) {
                lemma_valid_lists_sorted(all);
                lemma_merged_increasing(lists);
            }
        }
        m
    }
}

/// Removing the last waiting iterator keeps the others.
proof fn lemma_in_heap_pop<I: StorageIterator>(hs: Seq<HeapWrapper<I>>, k: int)
    requires
        hs.len() > 0,
    ensures
        in_heap(hs.drop_last(), k) <==> (in_heap(hs, k) && (hs.last().0 != k || exists|i: int|
            0 <= i < hs.len() - 1 && (#[trigger] hs[i]).0 == k)),
{
    if in_heap(hs.drop_last(), k) {
        let i = choose|i: int| 0 <= i < hs.drop_last().len() && (#[trigger] hs.drop_last()[i]).0 == k;
        assert(hs[i].0 == k);
    }
    if in_heap(hs, k) && hs.last().0 != k {
        let i = choose|i: int| 0 <= i < hs.len() && (#[trigger] hs[i]).0 == k;
        assert(hs.drop_last()[i].0 == k);
    }
    if exists|i: int| 0 <= i < hs.len() - 1 && (#[trigger] hs[i]).0 == k {
        let i = choose|i: int| 0 <= i < hs.len() - 1 && (#[trigger] hs[i]).0 == k;
        assert(hs.drop_last()[i].0 == k);
    }
}

/// Inserting a waiting iterator adds its position and keeps the others.
proof fn lemma_in_heap_insert<I: StorageIterator>(
    hs: Seq<HeapWrapper<I>>,
    p: int,
    w: HeapWrapper<I>,
    k: int,
)
    requires
        0 <= p <= hs.len(),
    ensures
        in_heap(hs.insert(p, w), k) <==> (in_heap(hs, k) || w.0 == k),
{
    let n = hs.insert(p, w);
    if in_heap(n, k) {
        let i = choose|i: int| 0 <= i < n.len() && (#[trigger] n[i]).0 == k;
        if i < p {
            assert(hs[i].0 == k);
        } else if i > p {
            assert(hs[i - 1].0 == k);
        }
    }
    if in_heap(hs, k) {
        let i = choose|i: int| 0 <= i < hs.len() && (#[trigger] hs[i]).0 == k;
        if i < p {
            assert(n[i].0 == k);
        } else {
            assert(n[i + 1].0 == k);
        }
    }
    if w.0 == k {
        assert(n[p].0 == k);
    }
}

/// While the merge skips, the waiting iterator that comes first stands at the list whose head
/// comes first among all lists but the current one; with none waiting, those lists are empty.
proof fn lemma_top_is_min<I: StorageIterator>(
    hs: Seq<HeapWrapper<I>>,
    lists: Seq<Seq<Entry>>,
    c: int,
)
    requires
        heap_ok(hs, lists),
        0 <= c < lists.len(),
        !in_heap(hs, c),
        forall|k: int|
            0 <= k < lists.len() && (#[trigger] lists[k]).len() > 0 ==> in_heap(hs, k) || k == c,
    ensures
        hs.len() == 0 ==> min_head(without(lists, c)) < 0,
        hs.len() > 0 ==> min_head(without(lists, c)) == hs.last().0,
{
    let w = without(lists, c);
    lemma_min_head_upto(w, w.len() as int);
    if hs.len() == 0 {
        assert forall|j: int| 0 <= j < w.len() implies (#[trigger] w[j]).len() == 0 by {
            if j != c && lists[j].len() > 0 {
                assert(in_heap(hs, j));
                let i = choose|i: int| 0 <= i < hs.len() && (#[trigger] hs[i]).0 == j;
            }
        }
    } else {
        let n = hs.len() - 1;
        let t = hs[n].0 as int;
        assert(wrapper_ok(hs[n], lists));
        assert(t != c) by {
            if t == c {
                assert(in_heap(hs, c));
            }
        }
        assert forall|j: int|
            0 <= j < w.len() && j != t && (#[trigger] w[j]).len() > 0 implies head_before(w, t, j) by {
            assert(j != c);
            assert(lists[j].len() > 0);
            assert(in_heap(hs, j));
            let i = choose|i: int| 0 <= i < hs.len() && (#[trigger] hs[i]).0 == j;
            assert(i != n);
            assert(wrapper_ok(hs[i], lists));
            assert(wrapper_before(hs[n], hs[i]));
        }
        lemma_min_head_is(w, t);
    }
}

impl<I: StorageIterator> StorageIterator for MergeIterator<I> {
    open spec fn inv(&self) -> bool {
        self.wf()
    }

    /// The merge fails only where one of the merged iterators fails.
    open spec fn next_infallible() -> bool {
        I::next_infallible()
    }

    open spec fn remaining(&self) -> Seq<Entry> {
        merged(self.lists())
    }

    fn key(&self) -> (k: &[u8]) {
        proof {
            self.lemma_front();
        }
        let c = self.current.as_ref().unwrap();
        c.1.key()
    }

    fn value(&self) -> (v: &[u8]) {
        proof {
            self.lemma_front();
        }
        let c = self.current.as_ref().unwrap();
        c.1.value()
    }

    fn is_valid(&self) -> (valid: bool) {
        proof {
            self.lemma_front();
        }
        match &self.current {
            Some(c) => c.1.is_valid(),
            None => false,
        }
    }

    /// Moves past the current pair: the other iterators skip their pairs with its key, then the
    /// current one moves on. An error of a merged iterator is returned as it came; a waiting
    /// iterator that fails is dropped.
    fn next(&mut self) -> (r: Result<(), anyhow::Error>) {
        proof {
            self.lemma_front();
        }
        let ghost big_l = self.lists@;
        let mut current = self.current.take().unwrap();
        let ghost c0 = current;
        let ghost kc = current.head_key();
        let ghost cidx = current.0 as int;

        // Skip the pairs with the current key in the other iterators.
        while self.iters.len() > 0
            invariant
                heap_ok(self.iters@, self.lists@),
                self.lists@.len() == big_l.len(),
                current == c0,
                wrapper_ok(current, self.lists@),
                current.rem().len() > 0,
                current.head_key() == kc,
                cidx == current.0,
                !in_heap(self.iters@, cidx),
                self.lists@[cidx] == big_l[cidx],
                skip_key(self.lists@, cidx, kc) == skip_key(big_l, cidx, kc),
                forall|k: int|
                    0 <= k < big_l.len() && (#[trigger] self.lists@[k]).len() > 0 ==> in_heap(
                        self.iters@,
                        k,
                    ) || k == cidx,
            ensures
                heap_ok(self.iters@, self.lists@),
                self.lists@.len() == big_l.len(),
                current == c0,
                !in_heap(self.iters@, cidx),
                self.lists@[cidx] == big_l[cidx],
                self.lists@ == skip_key(big_l, cidx, kc),
                forall|k: int|
                    0 <= k < big_l.len() && (#[trigger] self.lists@[k]).len() > 0 ==> in_heap(
                        self.iters@,
                        k,
                    ) || k == cidx,
            decreases total_len(self.lists@),
        {
            let n = self.iters.len();
            let same = match compare_keys(self.iters[n - 1].1.key(), current.1.key()) {
                KeyOrder::Equal => true,
                _ => false,
            };
            proof {
                lemma_top_is_min(self.iters@, self.lists@, cidx);
            }
            if !same {
                break;
            }
            let ghost hs0 = self.iters@;
            let ghost l0 = self.lists@;
            let mut top = self.iters.pop().unwrap();
            let ghost t = top.0 as int;
            proof {
                assert(top == hs0[n - 1]);
                assert(wrapper_ok(top, l0));
                assert(self.iters@ =~= hs0.drop_last());
                assert(top.0 != cidx);
                assert(skip_key(l0, cidx, kc) == skip_key(l0.update(t, l0[t].drop_first()), cidx, kc));
            }
            let r = top.1.next();
            match r {
                Ok(()) => {},
                Err(e) => {
                    self.current = Some(current);
                    return Err(e);
                },
            }
            let ghost new_rem = top.rem();
            self.lists = Ghost(self.lists@.update(t, new_rem));
            proof {
                let l1 = self.lists@;
                assert(new_rem == l0[t].drop_first());
                assert forall|i: int| 0 <= i < self.iters@.len() implies wrapper_ok(
                    #[trigger] self.iters@[i],
                    l1,
                ) && self.iters@[i].rem().len() > 0 by {
                    assert(self.iters@[i] == hs0[i]);
                    assert(wrapper_ok(hs0[i], l0));
                    assert(hs0[i].0 != hs0[n - 1].0);
                }
                assert(heap_ok(self.iters@, l1));
                lemma_total_len_update(l0, t, new_rem);
                assert forall|k: int| 0 <= k < big_l.len() && k != t implies in_heap(
                    self.iters@,
                    k,
                ) == (in_heap(hs0, k)) by {
                    lemma_in_heap_pop(hs0, k);
                    if in_heap(hs0, k) {
                        let i = choose|i: int| 0 <= i < hs0.len() && (#[trigger] hs0[i]).0 == k;
                        assert(i != n - 1);
                    }
                }
                lemma_in_heap_pop(hs0, cidx);
                lemma_in_heap_pop(hs0, t);
                assert(!in_heap(self.iters@, t)) by {
                    if in_heap(self.iters@, t) {
                        let i = choose|i: int| 0 <= i < n - 1 && (#[trigger] hs0[i]).0 == t;
                    }
                }
            }
            if top.1.is_valid() {
                let ghost hs1 = self.iters@;
                let p = insert_sorted(&mut self.iters, top, Ghost(self.lists@));
                proof {
                    assert forall|k: int| 0 <= k < big_l.len() implies in_heap(self.iters@, k) == (
                    in_heap(hs1, k) || k == t) by {
                        lemma_in_heap_insert(hs1, p as int, top, k);
                    }
                }
            }
        }

        let r = current.1.next();
        match r {
            Ok(()) => {},
            Err(e) => {
                self.current = Some(current);
                return Err(e);
            },
        }
        let ghost crem = current.rem();
        let ghost l2 = self.lists@;
        self.lists = Ghost(self.lists@.update(cidx, crem));
        proof {
            assert(crem == big_l[cidx].drop_first());
            assert(self.lists@ =~= merge_step(big_l, cidx));
            assert forall|i: int| 0 <= i < self.iters@.len() implies wrapper_ok(
                #[trigger] self.iters@[i],
                self.lists@,
            ) && self.iters@[i].rem().len() > 0 by {
                assert(wrapper_ok(self.iters@[i], l2));
                assert(self.iters@[i].0 != cidx);
            }
        }

        if !current.1.is_valid() {
            if self.iters.len() > 0 {
                let ghost hs = self.iters@;
                current = self.iters.pop().unwrap();
                proof {
                    assert(current == hs.last());
                    assert(self.iters@ =~= hs.drop_last());
                    assert forall|i: int| 0 <= i < self.iters@.len() implies wrapper_before(
                        current,
                        #[trigger] self.iters@[i],
                    ) by {
                        assert(self.iters@[i] == hs[i]);
                    }
                    assert forall|k: int|
                        0 <= k < big_l.len() && (#[trigger] self.lists@[k]).len() > 0 implies in_heap(
                        self.iters@,
                        k,
                    ) || current.0 == k by {
                        lemma_in_heap_pop(hs, k);
                        if in_heap(hs, k) && current.0 != k {
                            let i = choose|i: int| 0 <= i < hs.len() && (#[trigger] hs[i]).0 == k;
                            assert(i != hs.len() - 1);
                        }
                    }
                    lemma_in_heap_pop(hs, current.0 as int);
                    assert(!in_heap(self.iters@, current.0 as int)) by {
                        if in_heap(self.iters@, current.0 as int) {
                            let i = choose|i: int| 0 <= i < hs.len() - 1 && (#[trigger] hs[i]).0 == current.0;
                        }
                    }
                }
            }
            self.current = Some(current);
            proof {
                assert(self.lists@ =~= merge_step(big_l, cidx));
            }
            return Ok(());
        }
        if self.iters.len() > 0 {
            let n = self.iters.len();
            if comes_before(&self.iters[n - 1], &current) {
                let ghost hs = self.iters@;
                let top = self.iters.pop().unwrap();
                let previous = current;
                current = top;
                proof {
                    assert(current == hs.last());
                    assert(self.iters@ =~= hs.drop_last());
                    lemma_in_heap_pop(hs, previous.0 as int);
                    lemma_in_heap_pop(hs, current.0 as int);
                    assert(!in_heap(self.iters@, previous.0 as int));
                }
                let ghost hs1 = self.iters@;
                let p = insert_sorted(&mut self.iters, previous, Ghost(self.lists@));
                proof {
                    assert forall|i: int| 0 <= i < self.iters@.len() implies wrapper_before(
                        current,
                        #[trigger] self.iters@[i],
                    ) by {
                        if i < p {
                            assert(self.iters@[i] == hs[i]);
                        } else if i > p {
                            assert(self.iters@[i] == hs[i - 1]);
                        }
                    }
                    assert(!in_heap(self.iters@, current.0 as int)) by {
                        lemma_in_heap_insert(hs1, p as int, previous, current.0 as int);
                        if in_heap(hs1, current.0 as int) {
                            let i = choose|i: int| 0 <= i < hs1.len() && (#[trigger] hs1[i]).0 == current.0;
                            assert(hs[i].0 == current.0);
                        }
                    }
                    assert forall|k: int|
                        0 <= k < big_l.len() && (#[trigger] self.lists@[k]).len() > 0 implies in_heap(
                        self.iters@,
                        k,
                    ) || current.0 == k by {
                        lemma_in_heap_insert(hs1, p as int, previous, k);
                        lemma_in_heap_pop(hs, k);
                        if in_heap(hs, k) && current.0 != k {
                            let i = choose|i: int| 0 <= i < hs.len() && (#[trigger] hs[i]).0 == k;
                            assert(i != hs.len() - 1);
                        }
                    }
                }
            } else {
                proof {
                    let hs = self.iters@;
                    lemma_wrapper_order(hs.last(), current, current);
                    assert forall|i: int| 0 <= i < hs.len() implies wrapper_before(
                        current,
                        #[trigger] hs[i],
                    ) by {
                        if i < hs.len() - 1 {
                            assert(wrapper_before(hs[hs.len() - 1], hs[i]));
                            lemma_wrapper_order(current, hs.last(), hs[i]);
                        }
                    }
                }
            }
        }
        self.current = Some(current);
        proof {
            assert(self.lists@ =~= merge_step(big_l, cidx));
        }
        Ok(())
    }
}

} // verus!
