//! Building a block entry by entry.
use super::{encode_block, encode_entries, encode_entry, entry_offsets, lemma_encode_u16s, Block};
use vstd::bytes::{lemma_auto_spec_u16_to_from_le_bytes, u16_to_le_bytes};
use vstd::prelude::*;
use vstd::slice::slice_to_vec;

verus! {

/// The size of the encoded block once `(key, value)` is added to `entries`.
pub open spec fn expected_size(
    entries: Seq<(Seq<u8>, Seq<u8>)>,
    key: Seq<u8>,
    value: Seq<u8>,
) -> int {
    let more = entries.push((key, value));
    encode_block(encode_entries(more), entry_offsets(more)).len() as int
}

/// The encoded size with one more entry: the entries, the new one (two lengths, key, value),
/// one offset per entry and the entry count.
pub proof fn lemma_expected_size(
    entries: Seq<(Seq<u8>, Seq<u8>)>,
    key: Seq<u8>,
    value: Seq<u8>,
)
    ensures
        expected_size(entries, key, value) == encode_entries(entries).len() + (2 + key.len() + 2
            + value.len()) + (entries.len() + 1) * 2 + 2,
{
    lemma_auto_spec_u16_to_from_le_bytes();
    let more = entries.push((key, value));
    assert(more.drop_last() =~= entries);
    lemma_encode_u16s(entry_offsets(more));
}

/// Builds a block.
pub struct BlockBuilder {
    /// Offsets of each key-value entries.
    offsets: Vec<u16>,
    /// All serialized key-value pairs in the block.
    data: Vec<u8>,
    /// The expected block size.
    block_size: usize,
    /// The first key in the block
    first_key: Vec<u8>,
    /// The entries added so far, in order.
    entries: Ghost<Seq<(Seq<u8>, Seq<u8>)>>,
}

impl BlockBuilder {
    /// The entries added so far, in order, as (key, value).
    pub closed spec fn entries(&self) -> Seq<(Seq<u8>, Seq<u8>)> {
        self.entries@
    }

    /// The target block size the builder was made with.
    pub closed spec fn target_size(&self) -> usize {
        self.block_size
    }

    /// The block the builder holds: its data section and offsets.
    pub closed spec fn wf(&self) -> bool {
        &&& self.entries@.len() == self.offsets@.len()
        &&& self.data@ == encode_entries(self.entries@)
        &&& self.offsets@ == entry_offsets(self.entries@)
        &&& self.entries@.len() > 0 ==> self.first_key@ == self.entries@[0].0
        &&& (self.entries@.len() == 0 <==> self.data@.len() == 0)
        &&& self.entries@.len() > 1 ==> encode_block(self.data@, self.offsets@).len()
            <= self.block_size
    }

    /// The block the builder holds stays within its target size, unless it holds a single
    /// entry: whatever pairs were added, the encoded block exceeds the target only then.
    pub proof fn lemma_within_target(&self)
        requires
            self.wf(),
        ensures
            self.entries().len() <= 1 || encode_block(
                encode_entries(self.entries()),
                entry_offsets(self.entries()),
            ).len() <= self.target_size(),
    {
    }

    /// Creates a new block builder.
    pub fn new(block_size: usize) -> (b: Self)
        ensures
            b.wf(),
            b.entries() == Seq::<(Seq<u8>, Seq<u8>)>::empty(),
            b.target_size() == block_size,
    {
        let b = Self {
            offsets: Vec::new(),
            data: Vec::new(),
            block_size,
            first_key: Vec::new(),
            entries: Ghost(Seq::empty()),
        };
        assert(b.offsets@ =~= entry_offsets(b.entries@));
        assert(encode_entries(b.entries@) =~= Seq::<u8>::empty());
        b
    }

    /// Adds a key-value pair to the block. Returns false when the block is full.
    ///
    /// The first pair always goes in; a later one only while the encoded block with it stays
    /// within the target size.
    #[must_use]
    pub fn add(&mut self, key: &[u8], value: &[u8]) -> (added: bool)
        requires
            old(self).wf(),
            expected_size(old(self).entries(), key@, value@) <= usize::MAX,
        ensures
            final(self).wf(),
            final(self).target_size() == old(self).target_size(),
            added == (old(self).entries().len() == 0 || expected_size(
                old(self).entries(),
                key@,
                value@,
            ) <= old(self).target_size()),
            final(self).entries() == (if added {
                old(self).entries().push((key@, value@))
            } else {
                old(self).entries()
            }),
    {
        proof {
            lemma_auto_spec_u16_to_from_le_bytes();
        }
        let ghost old_entries = self.entries@;
        let is_first = self.is_empty();
        proof {
            lemma_expected_size(old_entries, key@, value@);
        }
        let stored: Vec<u8> = slice_to_vec(key);
        let key_len = stored.len();
        let value_len = value.len();
        let current_block_size = self.data.len();
        let increase = 2 + key_len + 2 + value_len;
        let expected_block_size = current_block_size + increase + (self.offsets.len() + 1) * 2 + 2;

        if expected_block_size > self.block_size && !is_first {
            return false;
        }
        self.offsets.push(
            if is_first {
                0
            } else {
                current_block_size as u16
            },
        );
        let mut pair = u16_to_le_bytes(key_len as u16);
        let mut key_copy = stored.clone();
        pair.append(&mut key_copy);
        let mut value_len_bytes = u16_to_le_bytes(value_len as u16);
        pair.append(&mut value_len_bytes);
        let mut value_copy = slice_to_vec(value);
        pair.append(&mut value_copy);
        assert(pair@ == encode_entry(stored@, value@));
        self.data.append(&mut pair);
        if is_first {
            self.first_key = stored;
        }
        let ghost new_entries = old_entries.push((key@, value@));
        self.entries = Ghost(new_entries);
        proof {
            assert(new_entries.drop_last() =~= old_entries);
            assert(self.data@ =~= encode_entries(new_entries));
            assert(self.offsets@ =~= entry_offsets(new_entries)) by {
                assert(new_entries.take(old_entries.len() as int) =~= old_entries);
                assert(forall|i: int|
                    0 <= i < old_entries.len() ==> #[trigger] new_entries.take(i)
                        =~= old_entries.take(i));
            }
            assert(encode_block(self.data@, self.offsets@).len() == expected_size(
                old_entries,
                key@,
                value@,
            ));
        }
        true
    }

    /// Check if there is no key-value pair in the block.
    pub fn is_empty(&self) -> (empty: bool)
        requires
            self.wf(),
        ensures
            empty == (self.entries().len() == 0),
    {
        self.data.is_empty()
    }

    /// Finalize the block.
    pub fn build(self) -> (b: Block)
        requires
            self.wf(),
        ensures
            b.data@ == encode_entries(self.entries()),
            b.offsets@ == entry_offsets(self.entries()),
    {
        Block { data: self.data, offsets: self.offsets }
    }
}

} // verus!
