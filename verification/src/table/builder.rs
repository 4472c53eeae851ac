//! Building an SST: key-value pairs go into blocks, full blocks into the data section.
use super::{encode_metas, metas_view, sst_image, BlockMeta, MetaView, SsTable};
use crate::block::iterator::{lemma_from_first, BlockIterator};
use crate::iterators::{keys_increasing, Entry, StorageIterator};
use crate::key::{key_le, key_lt};
use crate::block::builder::expected_size;
use crate::block::{
    block_decodable, block_key, block_value, block_wf, decoded_data, decoded_offsets, encode_block,
    encode_entries, entries_fit, entry_offsets, lemma_built_block, lemma_decode_encode,
    BlockBuilder,
};
use crate::outside::{
    bytes_to_vec, farmhash_fingerprint32, fingerprint32, fingerprint32_no_overflow, word_at,
};
use vstd::bytes::{u32_from_le_bytes, u32_to_le_bytes};
use vstd::prelude::*;
use vstd::slice::{slice_subrange, slice_to_vec};

verus! {

/// The bytes of a block that holds `entries`.
pub open spec fn block_image(entries: Seq<Entry>) -> Seq<u8> {
    encode_block(encode_entries(entries), entry_offsets(entries))
}

/// The data section of a table made of blocks holding `blocks`, in order.
pub open spec fn encode_blocks(blocks: Seq<Seq<Entry>>) -> Seq<u8>
    decreases blocks.len(),
{
    if blocks.len() == 0 {
        Seq::empty()
    } else {
        encode_blocks(blocks.drop_last()) + block_image(blocks.last())
    }
}

/// The metadata of those blocks: where each begins, its first key and its last key.
pub open spec fn blocks_metas(blocks: Seq<Seq<Entry>>) -> Seq<MetaView> {
    Seq::new(
        blocks.len(),
        |i: int|
            (
                encode_blocks(blocks.take(i)).len() as usize,
                blocks[i][0].0,
                blocks[i].last().0,
            ),
    )
}

/// Every block the table will hold once the block being filled is finished too.
pub open spec fn all_blocks(b: SsTableBuilder) -> Seq<Seq<Entry>> {
    if b.current_entries().len() > 0 {
        b.finished_blocks().push(b.current_entries())
    } else {
        b.finished_blocks()
    }
}

/// The bytes of block `i` follow those of the blocks before it.
pub proof fn lemma_encode_blocks_prefix(blocks: Seq<Seq<Entry>>, k: int)
    requires
        0 <= k <= blocks.len(),
    ensures
        encode_blocks(blocks.take(k)).len() <= encode_blocks(blocks).len(),
        encode_blocks(blocks).subrange(0, encode_blocks(blocks.take(k)).len() as int)
            == encode_blocks(blocks.take(k)),
        k < blocks.len() ==> encode_blocks(blocks.take(k + 1)) == encode_blocks(blocks.take(k))
            + block_image(blocks[k]),
    decreases blocks.len(),
{
    if k < blocks.len() {
        assert(blocks.take(k + 1).drop_last() =~= blocks.take(k));
    }
    if k == blocks.len() {
        assert(blocks.take(k) =~= blocks);
        assert(encode_blocks(blocks).subrange(0, encode_blocks(blocks).len() as int)
            =~= encode_blocks(blocks));
    } else {
        let bs = blocks.drop_last();
        lemma_encode_blocks_prefix(bs, k);
        assert(bs.take(k) =~= blocks.take(k));
        assert(encode_blocks(blocks).subrange(0, encode_blocks(bs).len() as int)
            =~= encode_blocks(bs));
        assert(encode_blocks(blocks).subrange(0, encode_blocks(bs.take(k)).len() as int)
            =~= encode_blocks(bs).subrange(0, encode_blocks(bs.take(k)).len() as int));
    }
}

/// The bytes of block `i` in the table built from `blocks`: from its offset to the next block's
/// (or, for the last block, to the end of the data section).
pub open spec fn block_bytes(blocks: Seq<Seq<Entry>>, bloom: Seq<u8>, i: int) -> Seq<u8> {
    let image = sst_image(encode_blocks(blocks), blocks_metas(blocks), bloom);
    let metas = blocks_metas(blocks);
    let start = metas[i].0 as int;
    let end = if i + 1 < blocks.len() {
        metas[i + 1].0 as int
    } else {
        encode_blocks(blocks).len() as int
    };
    image.subrange(start, end)
}

/// Block `i` of the table built from `blocks` reads back: its bytes decode into a readable
/// block that yields the pairs that went into it, in order.
pub open spec fn block_reads_back(blocks: Seq<Seq<Entry>>, bloom: Seq<u8>, i: int) -> bool {
    let metas = blocks_metas(blocks);
    let start = metas[i].0 as int;
    let end = if i + 1 < blocks.len() {
        metas[i + 1].0 as int
    } else {
        encode_blocks(blocks).len() as int
    };
    let bytes = block_bytes(blocks, bloom, i);
    &&& start <= end
    &&& block_decodable(bytes)
    &&& block_wf(decoded_data(bytes), decoded_offsets(bytes))
    &&& decoded_offsets(bytes).len() == blocks[i].len()
    &&& forall|j: int|
        0 <= j < blocks[i].len() ==> block_key(decoded_data(bytes), decoded_offsets(bytes), j)
            == (#[trigger] blocks[i][j]).0 && block_value(
            decoded_data(bytes),
            decoded_offsets(bytes),
            j,
        ) == blocks[i][j].1
}

/// What reading one block of a built table gives back: the pairs that went into it.
pub proof fn lemma_sst_block_read_back(blocks: Seq<Seq<Entry>>, bloom: Seq<u8>, i: int)
    requires
        0 <= i < blocks.len(),
        encode_blocks(blocks).len() <= usize::MAX,
        entries_fit(blocks[i]),
        blocks[i].len() <= u16::MAX,
    ensures
        block_reads_back(blocks, bloom, i),
{
    let data = encode_blocks(blocks);
    let image = sst_image(data, blocks_metas(blocks), bloom);
    lemma_encode_blocks_prefix(blocks, i);
    lemma_encode_blocks_prefix(blocks, i + 1);
    let start = encode_blocks(blocks.take(i)).len() as int;
    let end = encode_blocks(blocks.take(i + 1)).len() as int;
    if i + 1 == blocks.len() {
        assert(blocks.take(i + 1) =~= blocks);
    }
    let block = block_image(blocks[i]);
    assert(image.subrange(start, end) =~= block) by {
        assert(image.subrange(0, data.len() as int) =~= data);
        assert(data.subrange(0, end) == encode_blocks(blocks.take(i + 1)));
        assert(encode_blocks(blocks.take(i + 1)).subrange(start, end) =~= block);
    }
    lemma_decode_encode(encode_entries(blocks[i]), entry_offsets(blocks[i]));
    lemma_built_block(blocks[i]);
}

/// Reading a built table block by block gives back every pair that went into it: each block
/// decodes and yields its own pairs in order (so the blocks together yield `blocks.flatten()`,
/// which `SsTableBuilder::add` keeps equal to the pairs added), and, where keys increase within
/// a block, each of its keys lies between the first and last key that its metadata records.
pub proof fn lemma_sst_read_back(blocks: Seq<Seq<Entry>>, bloom: Seq<u8>)
    requires
        encode_blocks(blocks).len() <= usize::MAX,
        forall|i: int|
            0 <= i < blocks.len() ==> entries_fit(#[trigger] blocks[i]) && blocks[i].len()
                <= u16::MAX,
    ensures
        forall|i: int| 0 <= i < blocks.len() ==> #[trigger] block_reads_back(blocks, bloom, i),
        forall|i: int, j: int|
            0 <= i < blocks.len() && 0 <= j < blocks[i].len() && keys_increasing(blocks[i])
                ==> key_le(blocks_metas(blocks)[i].1, #[trigger] blocks[i][j].0) && key_le(
                blocks[i][j].0,
                blocks_metas(blocks)[i].2,
            ),
{
    assert forall|i: int| 0 <= i < blocks.len() implies #[trigger] block_reads_back(
        blocks,
        bloom,
        i,
    ) by {
        lemma_sst_block_read_back(blocks, bloom, i);
    }
    assert forall|i: int, j: int|
        0 <= i < blocks.len() && 0 <= j < blocks[i].len() && keys_increasing(blocks[i]) implies key_le(
        blocks_metas(blocks)[i].1,
        #[trigger] blocks[i][j].0,
    ) && key_le(blocks[i][j].0, blocks_metas(blocks)[i].2) by {
        let b = blocks[i];
        if j > 0 {
            assert(key_lt(b[0].0, b[j].0));
        }
        if j < b.len() - 1 {
            assert(key_lt(b[j].0, b[b.len() - 1].0));
        }
    }
}

/// Iterating the blocks of a built table, each from its first entry, gives back every pair
/// that went into the table, in order: iterator `i` stands at the first entry of the block
/// decoded from the bytes of block `i`, yields the pairs of that block, and the iterators one
/// after another yield `blocks.flatten()` (which `SsTableBuilder::add` keeps equal to the pairs
/// added).
pub proof fn lemma_sst_iterates(blocks: Seq<Seq<Entry>>, bloom: Seq<u8>, its: Seq<BlockIterator>)
    requires
        encode_blocks(blocks).len() <= usize::MAX,
        forall|i: int|
            0 <= i < blocks.len() ==> entries_fit(#[trigger] blocks[i]) && blocks[i].len()
                <= u16::MAX,
        forall|i: int, j: int|
            0 <= i < blocks.len() && 0 <= j < blocks[i].len() ==> (#[trigger] blocks[i][j]).0.len()
                > 0,
        its.len() == blocks.len(),
        forall|i: int|
            0 <= i < its.len() ==> {
                &&& (#[trigger] its[i]).wf()
                &&& its[i].at_entry(0)
                &&& its[i].block_view().data@ == decoded_data(block_bytes(blocks, bloom, i))
                &&& its[i].block_view().offsets@ == decoded_offsets(block_bytes(blocks, bloom, i))
            },
    ensures
        forall|i: int| 0 <= i < its.len() ==> (#[trigger] its[i]).inv() && its[i].remaining() == blocks[i],
        Seq::new(its.len(), |i: int| its[i].remaining()).flatten() == blocks.flatten(),
{
    lemma_sst_read_back(blocks, bloom);
    assert forall|i: int| 0 <= i < its.len() implies (#[trigger] its[i]).inv() && its[i].remaining()
        == blocks[i] by {
        assert(block_reads_back(blocks, bloom, i));
        let it = its[i];
        let b = it.block_view();
        assert forall|j: int| 0 <= j < b.num_entries() implies (#[trigger] b.entry_key(j)).len() > 0 by {
            assert(b.entry_key(j) == blocks[i][j].0);
        }
        lemma_from_first(it);
        assert(it.remaining() =~= blocks[i]) by {
            assert forall|j: int| 0 <= j < blocks[i].len() implies #[trigger] it.remaining()[j]
                == blocks[i][j] by {
                assert(b.entry_key(j) == blocks[i][j].0);
                assert(b.entry_value(j) == blocks[i][j].1);
            }
        }
    }
    assert(Seq::new(its.len(), |i: int| its[i].remaining()) =~= blocks);
}

/// Builds an SSTable from key-value pairs.
pub struct SsTableBuilder {
    builder: BlockBuilder,
    first_key: Vec<u8>,
    last_key: Vec<u8>,
    data: Vec<u8>,
    pub(crate) meta: Vec<BlockMeta>,
    keys: Vec<u32>,
    block_size: usize,
    /// The entries of each finished block, in order.
    blocks: Ghost<Seq<Seq<Entry>>>,
}

impl SsTableBuilder {
    /// Entries of the block being filled.
    pub closed spec fn current_entries(&self) -> Seq<(Seq<u8>, Seq<u8>)> {
        self.builder.entries()
    }

    /// The entries of the blocks already finished, block by block.
    pub closed spec fn finished_blocks(&self) -> Seq<Seq<Entry>> {
        self.blocks@
    }

    /// Metadata of the blocks already written to the data section.
    pub closed spec fn finished_metas(&self) -> Seq<MetaView> {
        metas_view(self.meta@)
    }

    /// The data section: the encoded blocks already finished.
    pub closed spec fn data_view(&self) -> Seq<u8> {
        self.data@
    }

    /// Fingerprints of every key added, in order.
    pub closed spec fn hashes_view(&self) -> Seq<u32> {
        self.keys@
    }

    /// First key of the block being filled.
    pub closed spec fn first_key_view(&self) -> Seq<u8> {
        self.first_key@
    }

    /// The key added last.
    pub closed spec fn last_key_view(&self) -> Seq<u8> {
        self.last_key@
    }

    /// The target size of each block.
    pub closed spec fn target_size(&self) -> usize {
        self.block_size
    }

    /// The block builder and the recorded first and last keys agree.
    pub closed spec fn wf(&self) -> bool {
        &&& self.builder.wf()
        &&& self.builder.target_size() == self.block_size
        &&& self.keys@.len() > 0 ==> self.builder.entries().len() > 0
        &&& self.keys@.len() == 0 ==> self.blocks@.len() == 0
        &&& self.data@ == encode_blocks(self.blocks@)
        &&& metas_view(self.meta@) == blocks_metas(self.blocks@)
        &&& forall|i: int| 0 <= i < self.blocks@.len() ==> (#[trigger] self.blocks@[i]).len() > 0
        &&& self.builder.entries().len() > 0 ==> {
            &&& self.first_key@ == self.builder.entries()[0].0
            &&& self.last_key@ == self.builder.entries().last().0
        }
    }

    /// What a consistent builder holds: the data section and the metadata of the finished
    /// blocks, and the first and last keys of the block being filled.
    pub proof fn lemma_layout(&self)
        requires
            self.wf(),
        ensures
            self.data_view() == encode_blocks(self.finished_blocks()),
            self.finished_metas() == blocks_metas(self.finished_blocks()),
            self.current_entries().len() > 0 ==> self.first_key_view() == self.current_entries()[0].0
                && self.last_key_view() == self.current_entries().last().0,
    {
    }

    /// Create a builder based on target block size.
    pub fn new(block_size: usize) -> (b: Self)
        ensures
            b.wf(),
            b.target_size() == block_size,
            b.current_entries() == Seq::<(Seq<u8>, Seq<u8>)>::empty(),
            b.finished_blocks() == Seq::<Seq<Entry>>::empty(),
            b.finished_metas() == Seq::<MetaView>::empty(),
            b.data_view() == Seq::<u8>::empty(),
            b.hashes_view() == Seq::<u32>::empty(),
            b.first_key_view() == Seq::<u8>::empty(),
            b.last_key_view() == Seq::<u8>::empty(),
            all_blocks(b).flatten() == Seq::<Entry>::empty(),
    {
        let b = Self {
            builder: BlockBuilder::new(block_size),
            first_key: Vec::new(),
            last_key: Vec::new(),
            data: Vec::new(),
            meta: Vec::new(),
            keys: Vec::new(),
            block_size,
            blocks: Ghost(Seq::empty()),
        };
        assert(Seq::<Seq<Entry>>::empty().flatten() =~= Seq::<Entry>::empty());
        assert(metas_view(b.meta@) =~= Seq::<MetaView>::empty());
        assert(blocks_metas(b.blocks@) =~= Seq::<MetaView>::empty());
        b
    }

    /// Adds a key-value pair to SSTable.
    ///
    /// When the current block is full, it is finished: its metadata is recorded and its
    /// encoding appended to the data section, and the pair starts a new block.
    pub fn add(&mut self, key: &[u8], value: &[u8])
        requires
            old(self).wf(),
            fingerprint32_no_overflow(key@),
            expected_size(old(self).current_entries(), key@, value@) <= usize::MAX,
            expected_size(Seq::empty(), key@, value@) <= usize::MAX,
        ensures
            final(self).wf(),
            final(self).target_size() == old(self).target_size(),
            final(self).hashes_view() == old(self).hashes_view().push(farmhash_fingerprint32(key@)),
            final(self).last_key_view() == key@,
            all_blocks(*final(self)).flatten() == all_blocks(*old(self)).flatten().push(
                (key@, value@),
            ),
            ({
                let old_entries = old(self).current_entries();
                let full = old_entries.len() > 0 && expected_size(old_entries, key@, value@)
                    > old(self).target_size();
                if full {
                    &&& final(self).finished_blocks() == old(self).finished_blocks().push(old_entries)
                    &&& final(self).finished_metas() == old(self).finished_metas().push(
                        (
                            old(self).data_view().len() as usize,
                            old(self).first_key_view(),
                            old(self).last_key_view(),
                        ),
                    )
                    &&& final(self).data_view() == old(self).data_view() + encode_block(
                        encode_entries(old_entries),
                        entry_offsets(old_entries),
                    )
                    &&& final(self).current_entries() == seq![(key@, value@)]
                    &&& final(self).first_key_view() == key@
                } else {
                    &&& final(self).finished_blocks() == old(self).finished_blocks()
                    &&& final(self).finished_metas() == old(self).finished_metas()
                    &&& final(self).data_view() == old(self).data_view()
                    &&& final(self).current_entries() == old_entries.push((key@, value@))
                    &&& final(self).first_key_view() == (if old_entries.len() == 0 {
                        key@
                    } else {
                        old(self).first_key_view()
                    })
                }
            }),
    {
        let h = fingerprint32(key);
        self.keys.push(h);

        if self.builder.is_empty() {
            let _ = self.builder.add(key, value);
            self.first_key = slice_to_vec(key);
        } else {
            let result = self.builder.add(key, value);
            if !result {
                let ghost old_blocks = self.blocks@;
                let ghost old_entries = self.builder.entries();
                let mut data_block = BlockBuilder::new(self.block_size);
                std::mem::swap(&mut data_block, &mut self.builder);
                let ghost prev_metas = metas_view(self.meta@);
                let meta = BlockMeta {
                    offset: self.data.len(),
                    first_key: slice_to_vec(self.first_key.as_slice()),
                    last_key: slice_to_vec(self.last_key.as_slice()),
                };
                self.meta.push(meta);
                proof {
                    assert(metas_view(self.meta@) =~= prev_metas.push(meta@));
                }
                let encoded = data_block.build().encode();
                let mut block_bytes = bytes_to_vec(&encoded);
                self.data.append(&mut block_bytes);
                let _ = self.builder.add(key, value);
                self.first_key = slice_to_vec(key);
                let ghost new_blocks = old_blocks.push(old_entries);
                self.blocks = Ghost(new_blocks);
                proof {
                    assert(new_blocks.drop_last() =~= old_blocks);
                    assert(self.data@ =~= encode_blocks(new_blocks));
                    assert(new_blocks.take(old_blocks.len() as int) =~= old_blocks);
                    assert forall|i: int| 0 <= i < old_blocks.len() implies #[trigger] new_blocks.take(i)
                        =~= old_blocks.take(i) by {}
                    assert(metas_view(self.meta@) =~= blocks_metas(new_blocks));
                }
            }
        }
        self.last_key = slice_to_vec(key);
        proof {
            broadcast use Seq::lemma_flatten_push;

            let kv = (key@, value@);
            let ob = old(self).finished_blocks();
            let oe = old(self).current_entries();
            assert(seq![kv] =~= Seq::<Entry>::empty().push(kv));
            if oe.len() > 0 {
                assert(ob.push(oe).flatten() =~= ob.flatten() + oe);
            }
        }
    }

    /// Whether the fingerprint of `key` can be taken without an arithmetic overflow in farmhash.
    pub fn key_hashable(key: &[u8]) -> (ok: bool)
        ensures
            ok == fingerprint32_no_overflow(key@),
    {
        let len = key.len();
        if 5 <= len && len <= 12 {
            let first = u32_from_le_bytes(slice_subrange(key, 0, 4)) as u64;
            let last = u32_from_le_bytes(slice_subrange(key, len - 4, len)) as u64;
            let pos: usize = if len >= 8 {
                4
            } else {
                0
            };
            let mid = u32_from_le_bytes(slice_subrange(key, pos, pos + 4)) as u64;
            first + (len as u64) <= 0xffff_ffff && last + 5 * (len as u64) <= 0xffff_ffff && mid + 9
                <= 0xffff_ffff
        } else if 13 <= len && len <= 24 {
            let d = u32_from_le_bytes(slice_subrange(key, len / 2, len / 2 + 4)) as u64;
            assert(d * 0xcc9e2d51 <= 0xffff_ffff * 0xcc9e2d51) by (nonlinear_arith)
                requires
                    d <= 0xffff_ffff,
            ;
            let wrapped = (d * 0xcc9e2d51) % 0x1_0000_0000;
            wrapped + (len as u64) <= 0xffff_ffff
        } else {
            true
        }
    }

    /// Fingerprints of every key added, in order, from which the table's bloom filter is built.
    pub fn key_hashes(&self) -> (h: &Vec<u32>)
        ensures
            h@ == self.hashes_view(),
    {
        &self.keys
    }

    /// Get the estimated size of the SSTable.
    ///
    /// Since the data blocks contain much more data than meta blocks, just return the size of data
    /// blocks here.
    pub fn estimated_size(&self) -> (size: usize)
        ensures
            size == self.data_view().len(),
    {
        self.data.len()
    }

    /// Finishes the table: the bytes of its file, given the encoded bloom filter of its
    /// keys, and the table's metadata.
    ///
    /// File layout:
    /// | data block | ... | data block | metadata | meta block offset (u32) | bloom filter | bloom filter offset (u32) |
    pub fn build(self, id: usize, bloom: Vec<u8>) -> (out: (Vec<u8>, SsTable))
        requires
            self.wf(),
            self.hashes_view().len() > 0,
            encode_blocks(all_blocks(self)).len() + encode_metas(blocks_metas(all_blocks(self))).len()
                + 4 <= usize::MAX,
        ensures
            out.0@ == sst_image(
                encode_blocks(all_blocks(self)),
                blocks_metas(all_blocks(self)),
                bloom@,
            ),
            metas_view(out.1.metas()) == blocks_metas(all_blocks(self)),
            out.1.meta_offset_view() == encode_blocks(all_blocks(self)).len(),
            out.1.bloom_view() == Some(bloom@),
            out.1.id_view() == id,
            out.1.first_key_view() == all_blocks(self)[0][0].0,
            out.1.last_key_view() == all_blocks(self).last().last().0,
            out.1.max_ts_view() == 0,
            out.1.size_view() == out.0@.len(),
    {
        let ghost all = all_blocks(self);
        assert(all.len() > 0);
        let ghost metas0 = metas_view(self.meta@);
        let mut block_meta = self.meta;
        let mut data_blocks = self.data;

        if !self.builder.is_empty() {
            let offset = data_blocks.len();
            let encoded = self.builder.build().encode();
            let mut block_bytes = bytes_to_vec(&encoded);
            data_blocks.append(&mut block_bytes);
            let meta = BlockMeta {
                offset,
                first_key: slice_to_vec(self.first_key.as_slice()),
                last_key: slice_to_vec(self.last_key.as_slice()),
            };
            block_meta.push(meta);
            proof {
                let bs = self.blocks@;
                assert(metas_view(block_meta@) =~= metas0.push(meta@));
                assert(all.drop_last() =~= bs);
                assert(data_blocks@ =~= encode_blocks(all));
                assert(all.take(bs.len() as int) =~= bs);
                assert forall|i: int| 0 <= i < bs.len() implies #[trigger] all.take(i) =~= bs.take(i) by {}
                assert(metas_view(block_meta@) =~= blocks_metas(all));
            }
        }
        let mut metadata_buf: Vec<u8> = Vec::new();
        BlockMeta::encode_block_meta(block_meta.as_slice(), &mut metadata_buf);

        let block_meta_offset = data_blocks.len();
        let bloom_offset = block_meta_offset + metadata_buf.len() + 4;
        let bloom_copy = slice_to_vec(bloom.as_slice());

        let mut data = data_blocks;
        data.append(&mut metadata_buf);
        let mut meta_offset_bytes = u32_to_le_bytes(block_meta_offset as u32);
        data.append(&mut meta_offset_bytes);
        let mut bloom_bytes = bloom_copy;
        data.append(&mut bloom_bytes);
        let mut bloom_offset_bytes = u32_to_le_bytes(bloom_offset as u32);
        data.append(&mut bloom_offset_bytes);

        let n = block_meta.len();
        let first_key = slice_to_vec(block_meta[0].first_key.as_slice());
        let last_key = slice_to_vec(block_meta[n - 1].last_key.as_slice());
        let size = data.len() as u64;
        let table = SsTable::from_parts(
            block_meta,
            block_meta_offset,
            id,
            first_key,
            last_key,
            Some(bloom),
            0,
            size,
        );
        (data, table)
    }
}

} // verus!
