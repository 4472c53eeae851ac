//! Iterating over the entries of a block.
use super::{
    block_key, block_value, block_wf, encode_entries, entries_fit, entry_in_bounds, entry_offsets,
    lemma_built_block, raw_key_at, u16_at, value_end_at, value_start_at, Block,
};
use crate::iterators::{Entry, StorageIterator};
use crate::key::{compare_keys, key_lt, KeyOrder};
use std::sync::Arc;
use vstd::bytes::u16_from_le_bytes;
use vstd::prelude::*;
use vstd::slice::{slice_subrange, slice_to_vec};

verus! {

/// Iterates on a block.
pub struct BlockIterator {
    /// The internal `Block`, wrapped by an `Arc`
    block: Arc<Block>,
    /// The current key, empty represents the iterator is invalid
    key: Vec<u8>,
    /// the current value range in the block.data, corresponds to the current key
    value_range: (usize, usize),
    /// Current index of the key-value pair, should be in range of [0, num_of_elements)
    idx: usize,
    /// The first key in the block
    first_key: Vec<u8>,
}

/// Reads the `u16` stored at `pos`.
fn read_u16(data: &[u8], pos: usize) -> (x: u16)
    requires
        pos + 2 <= data@.len(),
    ensures
        x == u16_at(data@, pos as int),
{
    let len = data.len();
    assert(pos + 2 <= len);
    u16_from_le_bytes(slice_subrange(data, pos, pos + 2))
}

impl BlockIterator {
    /// The block being iterated.
    pub closed spec fn block_view(&self) -> Block {
        *self.block
    }

    /// The index of the entry the iterator stands at.
    pub closed spec fn index(&self) -> int {
        self.idx as int
    }

    /// The current key; empty when the iterator is not valid.
    pub closed spec fn current_key(&self) -> Seq<u8> {
        self.key@
    }

    /// The bytes that `value` returns.
    pub closed spec fn current_value(&self) -> Seq<u8> {
        self.block.data@.subrange(self.value_range.0 as int, self.value_range.1 as int)
    }

    /// Number of entries in the block.
    pub open spec fn num_entries(&self) -> int {
        self.block_view().num_entries()
    }

    /// The key of entry `i` of the block.
    pub open spec fn entry_key(&self, i: int) -> Seq<u8> {
        self.block_view().entry_key(i)
    }

    /// The value of entry `i` of the block.
    pub open spec fn entry_value(&self, i: int) -> Seq<u8> {
        self.block_view().entry_value(i)
    }

    /// The iterator stands at entry `i` and holds its key and value.
    pub open spec fn at_entry(&self, i: int) -> bool {
        &&& 0 <= i < self.num_entries()
        &&& self.index() == i
        &&& self.current_key() == self.entry_key(i)
        &&& self.current_value() == self.entry_value(i)
    }

    /// The iterator's fields describe a position in a readable block.
    pub closed spec fn wf(&self) -> bool {
        let data = self.block.data@;
        let offsets = self.block.offsets@;
        &&& block_wf(data, offsets)
        &&& offsets.len() > 0 ==> self.first_key@ == raw_key_at(data, offsets[0] as int)
        &&& (self.idx < offsets.len() || (offsets.len() == 0 && self.idx == 0))
        &&& self.value_range.0 <= self.value_range.1 <= data.len()
        &&& self.key@.len() > 0 ==> self.at_entry(self.idx as int)
    }

    fn new(block: Arc<Block>) -> (it: Self)
        requires
            block_wf(block.data@, block.offsets@),
        ensures
            it.wf(),
            it.block_view() == *block,
            it.current_key().len() == 0,
            it.current_value().len() == 0,
            it.index() == 0,
    {
        let first_key = if block.offsets.len() > 0 {
            let start = block.offsets[0] as usize;
            let key_len = read_u16(block.data.as_slice(), start) as usize;
            slice_to_vec(slice_subrange(block.data.as_slice(), start + 2, start + 2 + key_len))
        } else {
            Vec::new()
        };
        Self { block, key: Vec::new(), value_range: (0, 0), idx: 0, first_key }
    }

    /// Creates a block iterator and seek to the first entry.
    pub fn create_and_seek_to_first(block: Arc<Block>) -> (it: Self)
        requires
            block_wf(block.data@, block.offsets@),
            block.offsets@.len() > 0,
        ensures
            it.wf(),
            it.block_view() == *block,
            it.at_entry(0),
    {
        let mut itr = Self::new(block);
        itr.seek_to_first();
        itr
    }

    /// Creates a block iterator and seek to the first key that >= `key`.
    pub fn create_and_seek_to_key(block: Arc<Block>, key: &[u8]) -> (it: Self)
        requires
            block_wf(block.data@, block.offsets@),
        ensures
            it.wf(),
            it.block_view() == *block,
            has_key_not_below(*block, key@) ==> it.at_entry(first_not_below(*block, key@)),
            !has_key_not_below(*block, key@) ==> {
                &&& it.current_key().len() == 0
                &&& it.current_value().len() == 0
                &&& it.index() == 0
            },
            forall|j: int|
                0 <= j < it.num_entries() && !key_lt(#[trigger] it.entry_key(j), key@) ==> {
                    &&& it.at_entry(it.index())
                    &&& it.index() <= j
                    &&& !key_lt(it.entry_key(it.index()), key@)
                    &&& forall|l: int| 0 <= l < it.index() ==> key_lt(#[trigger] it.entry_key(l), key@)
                },
            (forall|j: int| 0 <= j < it.num_entries() ==> key_lt(#[trigger] it.entry_key(j), key@))
                ==> it.current_key().len() == 0,
    {
        let mut itr = Self::new(block);
        itr.seek_to_key(key);
        itr
    }

    /// Returns the key of the current entry.
    pub fn key(&self) -> (k: &[u8])
        ensures
            k@ == self.current_key(),
    {
        self.key.as_slice()
    }

    /// Returns the value of the current entry.
    pub fn value(&self) -> (v: &[u8])
        requires
            self.wf(),
        ensures
            v@ == self.current_value(),
    {
        let (start, end) = self.value_range;
        slice_subrange(self.block.data.as_slice(), start, end)
    }

    /// Returns true if the iterator is valid.
    pub fn is_valid(&self) -> (valid: bool)
        ensures
            valid == (self.current_key().len() > 0),
    {
        !self.key.is_empty()
    }

    /// Seeks to the first key in the block.
    pub fn seek_to_first(&mut self)
        requires
            old(self).wf(),
            old(self).num_entries() > 0,
        ensures
            final(self).wf(),
            final(self).block_view() == old(self).block_view(),
            final(self).at_entry(0),
    {
        self.seek_to_idx(0);
    }

    /// Move to the next key in the block.
    pub fn next(&mut self)
        requires
            old(self).wf(),
        ensures
            final(self).wf(),
            final(self).block_view() == old(self).block_view(),
            old(self).index() + 1 < old(self).num_entries() ==> final(self).at_entry(
                old(self).index() + 1,
            ),
            old(self).index() + 1 >= old(self).num_entries() ==> {
                &&& final(self).current_key().len() == 0
                &&& final(self).index() == old(self).index()
                &&& final(self).current_value() == old(self).current_value()
            },
    {
        let n = self.block.offsets.len();
        if n == 0 || self.idx >= n - 1 {
            self.key.clear();
            return;
        }
        self.seek_to_idx(self.idx + 1);
    }

    /// Seek to the first key that >= `key`.
    /// Note: You should assume the key-value pairs in the block are sorted when being added by
    /// callers.
    pub fn seek_to_key(&mut self, key: &[u8])
        requires
            old(self).wf(),
        ensures
            final(self).wf(),
            final(self).block_view() == old(self).block_view(),
            has_key_not_below(old(self).block_view(), key@) ==> final(self).at_entry(
                first_not_below(old(self).block_view(), key@),
            ),
            !has_key_not_below(old(self).block_view(), key@) ==> {
                &&& final(self).current_key().len() == 0
                &&& final(self).index() == old(self).index()
                &&& final(self).current_value() == old(self).current_value()
            },
            forall|j: int|
                0 <= j < final(self).num_entries() && !key_lt(
                    #[trigger] final(self).entry_key(j),
                    key@,
                ) ==> {
                    &&& final(self).at_entry(final(self).index())
                    &&& final(self).index() <= j
                    &&& !key_lt(final(self).entry_key(final(self).index()), key@)
                    &&& forall|l: int|
                        0 <= l < final(self).index() ==> key_lt(
                            #[trigger] final(self).entry_key(l),
                            key@,
                        )
                },
            (forall|j: int|
                0 <= j < final(self).num_entries() ==> key_lt(
                    #[trigger] final(self).entry_key(j),
                    key@,
                )) ==> final(self).current_key().len() == 0,
    {
        let n = self.block.offsets.len();
        let ghost b = self.block_view();
        let mut i: usize = 0;
        while i < n
            invariant
                self.wf(),
                self.block_view() == b,
                b == old(self).block_view(),
                self.idx == old(self).idx,
                self.value_range == old(self).value_range,
                n == self.num_entries(),
                0 <= i <= n,
                forall|j: int| 0 <= j < i ==> key_lt(#[trigger] b.entry_key(j), key@),
            decreases n - i,
        {
            let key_from_data = self.key_at(i);
            match compare_keys(key_from_data.as_slice(), key) {
                KeyOrder::Less => {},
                _ => {
                    self.seek_to_idx(i);
                    proof {
                        lemma_first_not_below(b, key@, i as int);
                        assert(!key_lt(self.entry_key(i as int), key@));
                    }
                    return;
                },
            }
            i = i + 1;
        }
        self.key.clear();
    }

    /// Reads the key of entry `idx`.
    fn key_at(&self, idx: usize) -> (k: Vec<u8>)
        requires
            self.wf(),
            idx < self.num_entries(),
        ensures
            k@ == self.entry_key(idx as int),
    {
        let data = self.block.data.as_slice();
        let start = self.block.offsets[idx] as usize;
        proof {
            assert(entry_in_bounds(self.block.data@, self.block.offsets@[idx as int] as int));
        }
        let key_len = read_u16(data, start) as usize;
        slice_to_vec(slice_subrange(data, start + 2, start + 2 + key_len))
    }

    fn seek_to_idx(&mut self, idx: usize)
        requires
            old(self).wf(),
            idx < old(self).num_entries(),
        ensures
            final(self).wf(),
            final(self).block_view() == old(self).block_view(),
            final(self).at_entry(idx as int),
    {
        let key = self.key_at(idx);
        let data = self.block.data.as_slice();
        let start = self.block.offsets[idx] as usize;
        proof {
            assert(entry_in_bounds(self.block.data@, self.block.offsets@[idx as int] as int));
        }
        let key_len = read_u16(data, start) as usize;
        let end = start + 2 + key_len;
        let value_len = read_u16(data, end) as usize;
        let value_start = end + 2;
        self.value_range = (value_start, value_start + value_len);
        self.key = key;
        self.idx = idx;
        proof {
            assert(value_start == value_start_at(self.block.data@, self.block.offsets@[idx as int] as int));
            assert(value_start + value_len == value_end_at(self.block.data@, self.block.offsets@[idx as int] as int));
        }
    }
}

/// Every entry of the block has a nonempty key, so that an iterator standing at an entry is
/// valid.
pub open spec fn keys_nonempty(b: Block) -> bool {
    forall|i: int| 0 <= i < b.num_entries() ==> (#[trigger] b.entry_key(i)).len() > 0
}

impl StorageIterator for BlockIterator {
    open spec fn inv(&self) -> bool {
        self.wf() && keys_nonempty(self.block_view())
    }

    /// Moving to the next entry of a block never fails.
    open spec fn next_infallible() -> bool {
        true
    }

    open spec fn remaining(&self) -> Seq<Entry> {
        if self.current_key().len() > 0 {
            Seq::new(
                (self.num_entries() - self.index()) as nat,
                |j: int| (self.entry_key(self.index() + j), self.entry_value(self.index() + j)),
            )
        } else {
            Seq::empty()
        }
    }

    fn key(&self) -> (k: &[u8]) {
        BlockIterator::key(self)
    }

    fn value(&self) -> (v: &[u8]) {
        BlockIterator::value(self)
    }

    fn is_valid(&self) -> (valid: bool) {
        BlockIterator::is_valid(self)
    }

    fn next(&mut self) -> (r: Result<(), anyhow::Error>) {
        BlockIterator::next(self);
        proof {
            assert(final(self).remaining() =~= old(self).remaining().drop_first());
        }
        Ok(())
    }
}

/// Two iterators over the same block that stand at the same entry with the same key and value:
/// every method's contract speaks of nothing else, so no sequence of calls tells them apart.
pub open spec fn same_state(a: BlockIterator, b: BlockIterator) -> bool {
    &&& a.block_view() == b.block_view()
    &&& a.index() == b.index()
    &&& a.current_key() == b.current_key()
    &&& a.current_value() == b.current_value()
}

/// After `seek_to_first` an iterator is in the state of a fresh `create_and_seek_to_first` on
/// its block: both stand at the first entry.
pub proof fn lemma_first_entry_state(a: BlockIterator, b: BlockIterator)
    requires
        a.wf(),
        b.wf(),
        a.block_view() == b.block_view(),
        a.at_entry(0),
        b.at_entry(0),
    ensures
        same_state(a, b),
        a.remaining() == b.remaining(),
{
}

/// An iterator standing at the first entry of a block whose keys are nonempty has every entry
/// of the block still to come, in order.
pub proof fn lemma_from_first(it: BlockIterator)
    requires
        it.wf(),
        it.at_entry(0),
        keys_nonempty(it.block_view()),
    ensures
        it.inv(),
        it.remaining() == Seq::new(
            it.num_entries() as nat,
            |j: int| (it.entry_key(j), it.entry_value(j)),
        ),
{
    assert(it.remaining() =~= Seq::new(
        it.num_entries() as nat,
        |j: int| (it.entry_key(j), it.entry_value(j)),
    ));
}

/// A block built from pairs with nonempty keys, iterated from its first entry, yields exactly
/// those pairs, in order.
pub proof fn lemma_built_block_iterates(entries: Seq<Entry>, it: BlockIterator)
    requires
        entries_fit(entries),
        forall|i: int| 0 <= i < entries.len() ==> (#[trigger] entries[i]).0.len() > 0,
        it.wf(),
        it.at_entry(0),
        it.block_view().data@ == encode_entries(entries),
        it.block_view().offsets@ == entry_offsets(entries),
    ensures
        it.inv(),
        it.remaining() == entries,
{
    lemma_built_block(entries);
    let b = it.block_view();
    assert forall|i: int| 0 <= i < b.num_entries() implies (#[trigger] b.entry_key(i)).len() > 0 by {
        assert(b.entry_key(i) == entries[i].0);
    }
    lemma_from_first(it);
    assert(it.remaining() =~= entries) by {
        assert forall|j: int| 0 <= j < entries.len() implies #[trigger] it.remaining()[j] == entries[j] by {
            assert(b.entry_key(j) == entries[j].0);
            assert(b.entry_value(j) == entries[j].1);
        }
    }
}

/// Some entry of the block has a key not below `key`.
pub open spec fn has_key_not_below(b: Block, key: Seq<u8>) -> bool {
    exists|i: int| 0 <= i < b.num_entries() && !key_lt(#[trigger] b.entry_key(i), key)
}

/// The first entry of the block whose key is not below `key`.
pub open spec fn first_not_below(b: Block, key: Seq<u8>) -> int {
    choose|i: int|
        0 <= i < b.num_entries() && !key_lt(b.entry_key(i), key) && forall|j: int|
            0 <= j < i ==> key_lt(#[trigger] b.entry_key(j), key)
}

/// Where some entry of the block has a key not below `key`, `first_not_below` is the first such
/// entry; where none has, every key of the block is below `key`.
pub proof fn lemma_first_not_below_is_first(b: Block, key: Seq<u8>)
    ensures
        has_key_not_below(b, key) ==> {
            let f = first_not_below(b, key);
            &&& 0 <= f < b.num_entries()
            &&& !key_lt(b.entry_key(f), key)
            &&& forall|j: int| 0 <= j < f ==> key_lt(#[trigger] b.entry_key(j), key)
        },
        !has_key_not_below(b, key) ==> forall|j: int|
            0 <= j < b.num_entries() ==> key_lt(#[trigger] b.entry_key(j), key),
{
    if has_key_not_below(b, key) {
        let i = choose|i: int| 0 <= i < b.num_entries() && !key_lt(#[trigger] b.entry_key(i), key);
        lemma_first_witness(b, key, i);
    }
}

/// Below any entry whose key is not below `key` there is a first one.
proof fn lemma_first_witness(b: Block, key: Seq<u8>, i: int)
    requires
        0 <= i < b.num_entries(),
        !key_lt(b.entry_key(i), key),
    ensures
        exists|f: int|
            0 <= f <= i && !key_lt(b.entry_key(f), key) && forall|j: int|
                0 <= j < f ==> key_lt(#[trigger] b.entry_key(j), key),
    decreases i,
{
    if forall|j: int| 0 <= j < i ==> key_lt(#[trigger] b.entry_key(j), key) {
        assert(0 <= i <= i && !key_lt(b.entry_key(i), key));
    } else {
        let j = choose|j: int| 0 <= j < i && !key_lt(#[trigger] b.entry_key(j), key);
        lemma_first_witness(b, key, j);
    }
}

proof fn lemma_first_not_below(b: Block, key: Seq<u8>, i: int)
    requires
        0 <= i < b.num_entries(),
        !key_lt(b.entry_key(i), key),
        forall|j: int| 0 <= j < i ==> key_lt(#[trigger] b.entry_key(j), key),
    ensures
        first_not_below(b, key) == i,
{
    let f = first_not_below(b, key);
    assert(0 <= f < b.num_entries() && !key_lt(b.entry_key(f), key) && forall|j: int|
        0 <= j < f ==> key_lt(#[trigger] b.entry_key(j), key));
    if f < i {
        assert(key_lt(b.entry_key(f), key));
    } else if i < f {
        assert(key_lt(b.entry_key(i), key));
    }
}

} // verus!
