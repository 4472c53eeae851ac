//! Sorted string tables: block metadata and the layout of an SST file.
//!
//! SST layout:
//! | data block | ... | data block | metadata | meta block offset (u32) | bloom filter | bloom filter offset (u32) |
pub mod builder;

pub use builder::SsTableBuilder;

use crate::key::{key_lt, lemma_key_order};
use vstd::bytes::{
    lemma_auto_spec_u32_to_from_le_bytes, lemma_auto_spec_u64_to_from_le_bytes,
    spec_u32_from_le_bytes, spec_u32_to_le_bytes, spec_u64_from_le_bytes, spec_u64_to_le_bytes,
    u32_from_le_bytes, u64_from_le_bytes, u64_to_le_bytes,
};
use vstd::prelude::*;
use vstd::slice::{slice_subrange, slice_to_vec};

verus! {

/// A block's metadata as plain values: offset, first key, last key.
pub type MetaView = (usize, Seq<u8>, Seq<u8>);

/// Little-endian bytes of a number stored as `u64`.
pub open spec fn le64(x: int) -> Seq<u8> {
    spec_u64_to_le_bytes(x as u64)
}

/// The `u64` held by the eight bytes of `s` starting at `pos`.
pub open spec fn u64_at(s: Seq<u8>, pos: int) -> u64 {
    spec_u64_from_le_bytes(s.subrange(pos, pos + 8))
}

/// Encoding of one block's metadata:
/// | offset (u64) | first key length (u64) | first key | last key length (u64) | last key |
pub open spec fn encode_meta(m: MetaView) -> Seq<u8> {
    le64(m.0 as int) + le64(m.1.len() as int) + m.1 + le64(m.2.len() as int) + m.2
}

/// Encoding of a list of block metadata, one after the other.
pub open spec fn encode_metas(ms: Seq<MetaView>) -> Seq<u8>
    decreases ms.len(),
{
    if ms.len() == 0 {
        Seq::empty()
    } else {
        encode_meta(ms[0]) + encode_metas(ms.drop_first())
    }
}

/// Reads one block's metadata from the front of `s`: the metadata and how many bytes it took.
pub open spec fn decode_meta(s: Seq<u8>) -> Option<(MetaView, int)> {
    if s.len() < 16 {
        None
    } else {
        let first_len = u64_at(s, 8) as int;
        if s.len() < 24 + first_len {
            None
        } else {
            let last_len = u64_at(s, 16 + first_len) as int;
            if s.len() < 24 + first_len + last_len {
                None
            } else {
                Some(
                    (
                        (
                            u64_at(s, 0) as usize,
                            s.subrange(16, 16 + first_len),
                            s.subrange(24 + first_len, 24 + first_len + last_len),
                        ),
                        24 + first_len + last_len,
                    ),
                )
            }
        }
    }
}

/// Reads block metadata until the bytes run out; `None` where the bytes end inside one.
pub open spec fn decode_metas(s: Seq<u8>) -> Option<Seq<MetaView>>
    decreases s.len(),
{
    if s.len() == 0 {
        Some(Seq::empty())
    } else {
        match decode_meta(s) {
            None => None,
            Some((m, n)) => match decode_metas(s.skip(n)) {
                None => None,
                Some(rest) => Some(seq![m] + rest),
            },
        }
    }
}

/// The key lengths of a metadata record fit the `u64` fields that store them.
pub open spec fn meta_fits(m: MetaView) -> bool {
    m.1.len() <= usize::MAX && m.2.len() <= usize::MAX
}

/// Appending one more metadata record to a list appends its encoding.
pub proof fn lemma_encode_metas_push(ms: Seq<MetaView>, m: MetaView)
    ensures
        encode_metas(ms.push(m)) == encode_metas(ms) + encode_meta(m),
    decreases ms.len(),
{
    if ms.len() == 0 {
        assert(ms.push(m).drop_first() =~= Seq::<MetaView>::empty());
        assert(encode_metas(ms.push(m).drop_first()) =~= Seq::<u8>::empty());
        assert(encode_metas(ms) =~= Seq::<u8>::empty());
        assert(encode_metas(ms.push(m)) =~= encode_meta(m));
    } else {
        lemma_encode_metas_push(ms.drop_first(), m);
        assert(ms.push(m).drop_first() =~= ms.drop_first().push(m));
        assert(encode_metas(ms.push(m)) =~= encode_metas(ms) + encode_meta(m));
    }
}

/// One record reads back from the front of its encoding, whatever follows it.
pub proof fn lemma_decode_meta(m: MetaView, rest: Seq<u8>)
    requires
        meta_fits(m),
    ensures
        decode_meta(encode_meta(m) + rest) == Some((m, encode_meta(m).len() as int)),
        encode_meta(m).len() > 0,
{
    lemma_auto_spec_u64_to_from_le_bytes();
    let e = encode_meta(m);
    let s = e + rest;
    let f = m.1.len() as int;
    let l = m.2.len() as int;
    assert(s.subrange(0, 8) =~= le64(m.0 as int));
    assert(s.subrange(8, 16) =~= le64(f));
    assert(s.subrange(16 + f, 24 + f) =~= le64(l));
    assert(s.subrange(16, 16 + f) =~= m.1);
    assert(s.subrange(24 + f, 24 + f + l) =~= m.2);
    assert(u64_at(s, 0) == m.0 as u64);
    assert(u64_at(s, 8) == f);
    assert(u64_at(s, 16 + f) == l);
    assert(e.len() == 24 + f + l);
    assert((m.0 as u64) as usize == m.0);
}

/// Decoding encoded block metadata gives back the same list.
pub proof fn lemma_decode_encode_metas(ms: Seq<MetaView>)
    requires
        forall|i: int| 0 <= i < ms.len() ==> meta_fits(#[trigger] ms[i]),
    ensures
        decode_metas(encode_metas(ms)) == Some(ms),
    decreases ms.len(),
{
    if ms.len() > 0 {
        let e = encode_meta(ms[0]);
        let rest = encode_metas(ms.drop_first());
        assert(meta_fits(ms[0]));
        lemma_decode_meta(ms[0], rest);
        assert(forall|i: int| 0 <= i < ms.len() - 1 ==> ms.drop_first()[i] == ms[i + 1]);
        lemma_decode_encode_metas(ms.drop_first());
        assert((e + rest).skip(e.len() as int) =~= rest);
        assert(seq![ms[0]] + ms.drop_first() =~= ms);
    } else {
        assert(encode_metas(ms) =~= Seq::<u8>::empty());
    }
}

/// Little-endian bytes of a `u32`.
pub open spec fn le32(x: u32) -> Seq<u8> {
    spec_u32_to_le_bytes(x)
}

/// The `u32` held by the four bytes of `s` starting at `pos`.
pub open spec fn u32_at(s: Seq<u8>, pos: int) -> u32 {
    spec_u32_from_le_bytes(s.subrange(pos, pos + 4))
}

/// The bytes of an SST file: data blocks, block metadata, where the metadata begins (u32),
/// the bloom filter, where the bloom filter begins (u32).
pub open spec fn sst_image(blocks: Seq<u8>, metas: Seq<MetaView>, bloom: Seq<u8>) -> Seq<u8> {
    let meta = encode_metas(metas);
    let bloom_offset = blocks.len() + meta.len() + 4;
    blocks + meta + le32(blocks.len() as u32) + bloom + le32(bloom_offset as u32)
}

/// Where the bloom filter of an SST file begins, as its last four bytes say.
pub open spec fn sst_bloom_offset(s: Seq<u8>) -> int {
    u32_at(s, s.len() - 4) as int
}

/// Where the block metadata of an SST file begins, as the four bytes before the bloom filter say.
pub open spec fn sst_meta_offset(s: Seq<u8>) -> int {
    u32_at(s, sst_bloom_offset(s) - 4) as int
}

/// The block metadata section of an SST file.
pub open spec fn sst_meta_section(s: Seq<u8>) -> Seq<u8> {
    s.subrange(sst_meta_offset(s), sst_bloom_offset(s) - 4)
}

/// The bloom filter section of an SST file.
pub open spec fn sst_bloom_section(s: Seq<u8>) -> Seq<u8> {
    s.subrange(sst_bloom_offset(s), s.len() - 4)
}

/// The footer of an SST file points inside the file and its metadata can be read.
pub open spec fn sst_openable(s: Seq<u8>) -> bool {
    &&& s.len() >= 4
    &&& 4 <= sst_bloom_offset(s) <= s.len() - 4
    &&& 0 <= sst_meta_offset(s) <= sst_bloom_offset(s) - 4
    &&& decode_metas(sst_meta_section(s)) is Some
}

/// The last keys of the blocks increase strictly from block to block.
pub open spec fn last_keys_sorted(ms: Seq<MetaView>) -> bool {
    forall|i: int, j: int| 0 <= i < j < ms.len() ==> key_lt(#[trigger] ms[i].2, #[trigger] ms[j].2)
}

/// The first block whose last key is not below `key`, or the last block if there is none.
pub open spec fn block_for_key(ms: Seq<MetaView>, key: Seq<u8>) -> int {
    if exists|i: int| 0 <= i < ms.len() && !key_lt(#[trigger] ms[i].2, key) {
        choose|i: int|
            0 <= i < ms.len() && !key_lt(ms[i].2, key) && forall|j: int|
                0 <= j < i ==> key_lt(#[trigger] ms[j].2, key)
    } else {
        ms.len() - 1
    }
}

/// What opening an SST file reads back of what building it wrote: the block metadata, where
/// the metadata begins, and the bloom filter.
pub proof fn lemma_open_built_sst(blocks: Seq<u8>, metas: Seq<MetaView>, bloom: Seq<u8>)
    requires
        forall|i: int| 0 <= i < metas.len() ==> meta_fits(#[trigger] metas[i]),
        blocks.len() + encode_metas(metas).len() + 4 <= u32::MAX,
    ensures
        sst_openable(sst_image(blocks, metas, bloom)),
        sst_meta_offset(sst_image(blocks, metas, bloom)) == blocks.len(),
        decode_metas(sst_meta_section(sst_image(blocks, metas, bloom))) == Some(metas),
        sst_bloom_section(sst_image(blocks, metas, bloom)) == bloom,
{
    lemma_auto_spec_u32_to_from_le_bytes();
    lemma_decode_encode_metas(metas);
    let meta = encode_metas(metas);
    let bo = blocks.len() + meta.len() + 4int;
    let s = sst_image(blocks, metas, bloom);
    assert(s.subrange(s.len() - 4, s.len() as int) =~= le32(bo as u32));
    assert(sst_bloom_offset(s) == bo);
    assert(s.subrange(bo - 4, bo) =~= le32(blocks.len() as u32));
    assert(sst_meta_offset(s) == blocks.len());
    assert(sst_meta_section(s) =~= meta);
    assert(sst_bloom_section(s) =~= bloom);
}

/// Metadata of one data block.
#[derive(Clone, Debug, PartialEq, Eq)]
pub struct BlockMeta {
    /// Offset of this data block.
    pub offset: usize,
    /// The first key of the data block.
    pub first_key: Vec<u8>,
    /// The last key of the data block.
    pub last_key: Vec<u8>,
}

impl View for BlockMeta {
    type V = MetaView;

    open spec fn view(&self) -> MetaView {
        (self.offset, self.first_key@, self.last_key@)
    }
}

/// The plain values of a list of block metadata.
pub open spec fn metas_view(ms: Seq<BlockMeta>) -> Seq<MetaView> {
    ms.map_values(|m: BlockMeta| m@)
}

/// Reads the `u32` stored at `pos`.
fn read_u32(data: &[u8], pos: usize) -> (x: u32)
    requires
        pos + 4 <= data@.len(),
    ensures
        x == u32_at(data@, pos as int),
{
    let len = data.len();
    assert(pos + 4 <= len);
    u32_from_le_bytes(slice_subrange(data, pos, pos + 4))
}

/// Reads the `u64` stored at `pos`.
fn read_u64(data: &[u8], pos: usize) -> (x: u64)
    requires
        pos + 8 <= data@.len(),
    ensures
        x == u64_at(data@, pos as int),
{
    let len = data.len();
    assert(pos + 8 <= len);
    u64_from_le_bytes(slice_subrange(data, pos, pos + 8))
}

impl BlockMeta {
    /// Encode block meta to a buffer.
    /// Format, for each block: |offset|f_key_len|first_key|l_key_len|last_key|
    pub fn encode_block_meta(block_meta: &[BlockMeta], buf: &mut Vec<u8>)
        ensures
            final(buf)@ == old(buf)@ + encode_metas(metas_view(block_meta@)),
    {
        let n = block_meta.len();
        let mut i: usize = 0;
        while i < n
            invariant
                0 <= i <= n == block_meta@.len(),
                buf@ == old(buf)@ + encode_metas(metas_view(block_meta@.take(i as int))),
            decreases n - i,
        {
            let bm = &block_meta[i];
            let mut record = u64_to_le_bytes(bm.offset as u64);
            let mut first_len = u64_to_le_bytes(bm.first_key.len() as u64);
            record.append(&mut first_len);
            let mut first_key = slice_to_vec(bm.first_key.as_slice());
            record.append(&mut first_key);
            let mut last_len = u64_to_le_bytes(bm.last_key.len() as u64);
            record.append(&mut last_len);
            let mut last_key = slice_to_vec(bm.last_key.as_slice());
            record.append(&mut last_key);
            proof {
                let prev = metas_view(block_meta@.take(i as int));
                lemma_encode_metas_push(prev, bm@);
                assert(metas_view(block_meta@.take(i + 1)) =~= prev.push(bm@));
                assert(record@ =~= encode_meta(bm@));
            }
            buf.append(&mut record);
            i = i + 1;
        }
        proof {
            assert(block_meta@.take(n as int) =~= block_meta@);
        }
    }

    /// Whether `buf` holds a whole number of block metadata records.
    pub fn is_decodable(buf: &[u8]) -> (ok: bool)
        ensures
            ok == decode_metas(buf@) is Some,
    {
        let len = buf.len();
        let mut pos: usize = 0;
        assert(buf@.skip(0) =~= buf@);
        while pos < len
            invariant
                0 <= pos <= len == buf@.len(),
                (decode_metas(buf@) is Some) == (decode_metas(buf@.skip(pos as int)) is Some),
            decreases len - pos,
        {
            let ghost s = buf@.skip(pos as int);
            if len - pos < 16 {
                return false;
            }
            assert(s.subrange(8, 16) =~= buf@.subrange(pos + 8, pos + 16));
            let first_len = read_u64(buf, pos + 8);
            if ((len - pos - 16) as u64) < first_len || len - pos - 16 - (first_len as usize) < 8 {
                return false;
            }
            let last_len_pos = pos + 16 + first_len as usize;
            assert(s.subrange(16 + first_len, 24 + first_len) =~= buf@.subrange(
                last_len_pos as int,
                last_len_pos + 8,
            ));
            let last_len = read_u64(buf, last_len_pos);
            if ((len - last_len_pos - 8) as u64) < last_len {
                return false;
            }
            let next = last_len_pos + 8 + last_len as usize;
            proof {
                assert(decode_meta(s) is Some);
                assert(decode_meta(s).unwrap().1 == next - pos);
                assert(s.skip(next - pos) =~= buf@.skip(next as int));
            }
            pos = next;
        }
        proof {
            assert(buf@.skip(len as int) =~= Seq::<u8>::empty());
        }
        true
    }

    /// Decode block meta from a buffer.
    pub fn decode_block_meta(buf: &[u8]) -> (metas: Vec<BlockMeta>)
        requires
            decode_metas(buf@) is Some,
        ensures
            decode_metas(buf@) == Some(metas_view(metas@)),
    {
        let len = buf.len();
        let mut v: Vec<BlockMeta> = Vec::new();
        let mut pos: usize = 0;
        let ghost all = decode_metas(buf@)->0;
        assert(buf@.skip(0) =~= buf@);
        assert(metas_view(v@) + all =~= all);
        while pos < len
            invariant
                0 <= pos <= len == buf@.len(),
                decode_metas(buf@) == Some(all),
                decode_metas(buf@.skip(pos as int)) is Some,
                metas_view(v@) + decode_metas(buf@.skip(pos as int))->0 == all,
            decreases len - pos,
        {
            let ghost s = buf@.skip(pos as int);
            let ghost rest = decode_metas(s)->0;
            assert(decode_meta(s) is Some);
            assert(s.subrange(0, 8) =~= buf@.subrange(pos as int, pos + 8));
            assert(s.subrange(8, 16) =~= buf@.subrange(pos + 8, pos + 16));
            let offset = read_u64(buf, pos);
            let first_len = read_u64(buf, pos + 8) as usize;
            let first_start = pos + 16;
            let first_key = slice_to_vec(slice_subrange(buf, first_start, first_start + first_len));
            let last_len_pos = first_start + first_len;
            assert(s.subrange(16 + first_len, 24 + first_len) =~= buf@.subrange(
                last_len_pos as int,
                last_len_pos + 8,
            ));
            let last_len = read_u64(buf, last_len_pos) as usize;
            let last_start = last_len_pos + 8;
            let last_key = slice_to_vec(slice_subrange(buf, last_start, last_start + last_len));
            let m = BlockMeta { offset: offset as usize, first_key, last_key };
            let ghost consumed = decode_meta(s).unwrap().1;
            proof {
                assert(first_key@ =~= s.subrange(16, 16 + first_len));
                assert(last_key@ =~= s.subrange(24 + first_len, 24 + first_len + last_len));
                assert(m@ == decode_meta(s).unwrap().0);
                assert(s.skip(consumed) =~= buf@.skip(last_start + last_len));
                assert(rest =~= seq![m@] + decode_metas(s.skip(consumed))->0);
            }
            v.push(m);
            pos = last_start + last_len;
            proof {
                assert(metas_view(v@) =~= metas_view(v@.drop_last()).push(m@));
                assert(metas_view(v@) + decode_metas(buf@.skip(pos as int))->0 =~= all);
            }
        }
        proof {
            assert(buf@.skip(len as int) =~= Seq::<u8>::empty());
            assert(metas_view(v@) =~= all);
        }
        v
    }
}

/// An SSTable's metadata, as read from its file.
pub struct SsTable {
    /// The meta blocks that hold info for data blocks.
    pub(crate) block_meta: Vec<BlockMeta>,
    /// The offset that indicates the start point of meta blocks in the file.
    pub(crate) block_meta_offset: usize,
    id: usize,
    first_key: Vec<u8>,
    last_key: Vec<u8>,
    /// The encoded bloom filter of the table's keys.
    pub(crate) bloom: Option<Vec<u8>>,
    /// The maximum timestamp stored in this SST.
    max_ts: u64,
    /// The size of the table's file.
    file_size: u64,
}

impl SsTable {
    /// The metadata of the table's blocks.
    pub closed spec fn metas(&self) -> Seq<BlockMeta> {
        self.block_meta@
    }

    /// Where the block metadata begins in the file.
    pub closed spec fn meta_offset_view(&self) -> usize {
        self.block_meta_offset
    }

    /// The table's encoded bloom filter, if any.
    pub closed spec fn bloom_view(&self) -> Option<Seq<u8>> {
        match self.bloom {
            Some(b) => Some(b@),
            None => None,
        }
    }

    /// The table's id.
    pub closed spec fn id_view(&self) -> usize {
        self.id
    }

    /// The first key of the table.
    pub closed spec fn first_key_view(&self) -> Seq<u8> {
        self.first_key@
    }

    /// The last key of the table.
    pub closed spec fn last_key_view(&self) -> Seq<u8> {
        self.last_key@
    }

    /// The maximum timestamp of the table.
    pub closed spec fn max_ts_view(&self) -> u64 {
        self.max_ts
    }

    /// The size of the table's file.
    pub closed spec fn size_view(&self) -> u64 {
        self.file_size
    }

    /// Assembles a table from its parts.
    pub(crate) fn from_parts(
        block_meta: Vec<BlockMeta>,
        block_meta_offset: usize,
        id: usize,
        first_key: Vec<u8>,
        last_key: Vec<u8>,
        bloom: Option<Vec<u8>>,
        max_ts: u64,
        file_size: u64,
    ) -> (t: Self)
        ensures
            t.metas() == block_meta@,
            t.meta_offset_view() == block_meta_offset,
            t.id_view() == id,
            t.first_key_view() == first_key@,
            t.last_key_view() == last_key@,
            t.bloom_view() == (match bloom {
                Some(b) => Some(b@),
                None => None,
            }),
            t.max_ts_view() == max_ts,
            t.size_view() == file_size,
    {
        SsTable { block_meta, block_meta_offset, id, first_key, last_key, bloom, max_ts, file_size }
    }

    /// Whether the contents of a file can be opened as an SSTable.
    pub fn is_openable(file: &[u8]) -> (ok: bool)
        ensures
            ok == sst_openable(file@),
    {
        let size = file.len();
        if size < 4 {
            return false;
        }
        let bloom_offset = read_u32(file, size - 4) as usize;
        if bloom_offset < 4 || bloom_offset > size - 4 {
            return false;
        }
        let block_meta_offset = read_u32(file, bloom_offset - 4) as usize;
        if block_meta_offset > bloom_offset - 4 {
            return false;
        }
        BlockMeta::is_decodable(slice_subrange(file, block_meta_offset, bloom_offset - 4))
    }

    /// Open SSTable from the contents of its file.
    pub fn open(id: usize, file: &[u8]) -> (t: Self)
        requires
            sst_openable(file@),
        ensures
            decode_metas(sst_meta_section(file@)) == Some(metas_view(t.metas())),
            t.meta_offset_view() == sst_meta_offset(file@),
            t.bloom_view() == Some(sst_bloom_section(file@)),
            t.id_view() == id,
            t.first_key_view() == (if t.metas().len() == 0 {
                Seq::<u8>::empty()
            } else {
                t.metas()[0].first_key@
            }),
            t.last_key_view() == (if t.metas().len() == 0 {
                Seq::<u8>::empty()
            } else {
                t.metas().last().last_key@
            }),
            t.max_ts_view() == 0,
            t.size_view() == file@.len(),
    {
        let size = file.len();
        let offset = size - 4;
        let bloom_offset = read_u32(file, offset) as usize;
        let bloom = slice_to_vec(slice_subrange(file, bloom_offset, offset));
        let block_meta_offset = read_u32(file, bloom_offset - 4) as usize;
        let block_meta_len = bloom_offset - 4 - block_meta_offset;
        let block_meta = BlockMeta::decode_block_meta(
            slice_subrange(file, block_meta_offset, block_meta_offset + block_meta_len),
        );
        let n = block_meta.len();
        let first_key = if n == 0 {
            Vec::new()
        } else {
            slice_to_vec(block_meta[0].first_key.as_slice())
        };
        let last_key = if n == 0 {
            Vec::new()
        } else {
            slice_to_vec(block_meta[n - 1].last_key.as_slice())
        };
        SsTable {
            block_meta,
            block_meta_offset,
            id,
            first_key,
            last_key,
            bloom: Some(bloom),
            max_ts: 0,
            file_size: size as u64,
        }
    }

    /// Create a mock SST with only first key + last key metadata
    pub fn create_meta_only(id: usize, file_size: u64, first_key: Vec<u8>, last_key: Vec<u8>) -> (t: Self)
        ensures
            t.metas().len() == 0,
            t.meta_offset_view() == 0,
            t.bloom_view() is None,
            t.id_view() == id,
            t.size_view() == file_size,
            t.first_key_view() == first_key@,
            t.last_key_view() == last_key@,
            t.max_ts_view() == 0,
    {
        SsTable {
            block_meta: Vec::new(),
            block_meta_offset: 0,
            id,
            first_key,
            last_key,
            bloom: None,
            max_ts: 0,
            file_size,
        }
    }

    /// Where block `block_idx` lies in the file: its offset and its length.
    pub fn block_bounds(&self, block_idx: usize) -> (r: (u64, u64))
        requires
            block_idx < self.metas().len(),
            self.metas()[block_idx as int].offset <= (if block_idx + 1 < self.metas().len() {
                self.metas()[block_idx + 1].offset
            } else {
                self.meta_offset_view()
            }),
        ensures
            r.0 == self.metas()[block_idx as int].offset,
            r.0 + r.1 == (if block_idx + 1 < self.metas().len() {
                self.metas()[block_idx + 1].offset
            } else {
                self.meta_offset_view()
            }),
    {
        let n = self.block_meta.len();
        let start = self.block_meta[block_idx].offset;
        let end = if block_idx + 1 < n {
            self.block_meta[block_idx + 1].offset
        } else {
            self.block_meta_offset
        };
        (start as u64, (end - start) as u64)
    }

    /// Find the block that may contain `key`: the first block whose last key is not below
    /// `key`, or the last block when every last key is below it.
    pub fn find_block_idx(&self, key: &[u8]) -> (idx: usize)
        requires
            self.metas().len() > 0,
        ensures
            idx < self.metas().len(),
            last_keys_sorted(metas_view(self.metas())) ==> idx == block_for_key(
                metas_view(self.metas()),
                key@,
            ),
    {
        let n = self.block_meta.len();
        let ghost ms = metas_view(self.metas());
        let mut lo: usize = 0;
        let mut hi: usize = n;
        while lo < hi
            invariant
                0 <= lo <= hi <= n == self.metas().len() == ms.len(),
                ms == metas_view(self.metas()),
                last_keys_sorted(ms) ==> forall|j: int| 0 <= j < lo ==> key_lt(#[trigger] ms[j].2, key@),
                last_keys_sorted(ms) ==> forall|j: int| hi <= j < n ==> !key_lt(#[trigger] ms[j].2, key@),
            decreases hi - lo,
        {
            let mid = lo + (hi - lo) / 2;
            let below = match crate::key::compare_keys(self.block_meta[mid].last_key.as_slice(), key) {
                crate::key::KeyOrder::Less => true,
                _ => false,
            };
            proof {
                assert(ms[mid as int] == self.metas()[mid as int]@);
                if last_keys_sorted(ms) {
                    assert forall|j: int| 0 <= j < n implies (j < mid && below ==> key_lt(#[trigger] ms[j].2, key@)) && (j > mid && !below ==> !key_lt(ms[j].2, key@)) by {
                        lemma_key_order(ms[j].2, ms[mid as int].2, key@);
                        lemma_key_order(ms[mid as int].2, ms[j].2, key@);
                    }
                }
            }
            if below {
                lo = mid + 1;
            } else {
                hi = mid;
            }
        }
        proof {
            if last_keys_sorted(ms) {
                lemma_block_for_key(ms, key@, lo as int);
            }
        }
        if lo < n - 1 {
            lo
        } else {
            n - 1
        }
    }

    /// The metadata of the table's blocks.
    pub fn block_meta(&self) -> (m: &Vec<BlockMeta>)
        ensures
            m@ == self.metas(),
    {
        &self.block_meta
    }

    /// Where the block metadata begins in the table's file.
    pub fn block_meta_offset(&self) -> (o: usize)
        ensures
            o == self.meta_offset_view(),
    {
        self.block_meta_offset
    }

    /// The table's encoded bloom filter, if any.
    pub fn bloom(&self) -> (b: Option<&Vec<u8>>)
        ensures
            self.bloom_view() == (match b {
                Some(v) => Some(v@),
                None => None,
            }),
    {
        self.bloom.as_ref()
    }

    /// Get number of data blocks.
    pub fn num_of_blocks(&self) -> (n: usize)
        ensures
            n == self.metas().len(),
    {
        self.block_meta.len()
    }

    /// The first key of the table.
    pub fn first_key(&self) -> (k: &Vec<u8>)
        ensures
            k@ == self.first_key_view(),
    {
        &self.first_key
    }

    /// The last key of the table.
    pub fn last_key(&self) -> (k: &Vec<u8>)
        ensures
            k@ == self.last_key_view(),
    {
        &self.last_key
    }

    /// The size of the table's file.
    pub fn table_size(&self) -> (size: u64)
        ensures
            size == self.size_view(),
    {
        self.file_size
    }

    /// The table's id.
    pub fn sst_id(&self) -> (id: usize)
        ensures
            id == self.id_view(),
    {
        self.id
    }

    /// The maximum timestamp stored in the table.
    pub fn max_ts(&self) -> (ts: u64)
        ensures
            ts == self.max_ts_view(),
    {
        self.max_ts
    }
}

proof fn lemma_block_for_key(ms: Seq<MetaView>, key: Seq<u8>, lo: int)
    requires
        0 <= lo <= ms.len(),
        ms.len() > 0,
        forall|j: int| 0 <= j < lo ==> key_lt(#[trigger] ms[j].2, key),
        forall|j: int| lo <= j < ms.len() ==> !key_lt(#[trigger] ms[j].2, key),
    ensures
        block_for_key(ms, key) == (if lo < ms.len() - 1 { lo } else { ms.len() - 1 }),
{
    if lo < ms.len() {
        assert(!key_lt(ms[lo].2, key));
        let f = choose|i: int|
            0 <= i < ms.len() && !key_lt(ms[i].2, key) && forall|j: int|
                0 <= j < i ==> key_lt(#[trigger] ms[j].2, key);
        assert(0 <= f < ms.len() && !key_lt(ms[f].2, key) && forall|j: int|
            0 <= j < f ==> key_lt(#[trigger] ms[j].2, key));
        if f < lo {
            assert(key_lt(ms[f].2, key));
        } else if lo < f {
            assert(key_lt(ms[lo].2, key));
        }
    } else {
        assert(!exists|i: int| 0 <= i < ms.len() && !key_lt(#[trigger] ms[i].2, key));
    }
}

} // verus!
