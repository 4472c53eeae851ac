//! Blocks: the smallest unit of reading and caching, a list of sorted key-value entries.
//!
//! Block encoding:
//! | entry #1 | ... | entry #N | offset #1 (u16) | ... | offset #N (u16) | N (u16) |
//! Each entry: | key_len (u16) | key (key_len) | value_len (u16) | value (value_len) |
//! All numbers are little endian.
pub mod builder;
pub mod iterator;

pub use builder::BlockBuilder;
pub use iterator::BlockIterator;

use crate::outside::{bytes_contents, bytes_from_vec};
use vstd::bytes::{
    lemma_auto_spec_u16_to_from_le_bytes, spec_u16_from_le_bytes, spec_u16_to_le_bytes,
    u16_from_le_bytes, u16_to_le_bytes,
};
use vstd::prelude::*;
use vstd::slice::{slice_subrange, slice_to_vec};

verus! {

/// Number of bytes of an encoded `u16`.
pub const SIZEOF_U16: usize = 2;

/// Little-endian bytes of a `u16`.
pub open spec fn le16(x: u16) -> Seq<u8> {
    spec_u16_to_le_bytes(x)
}

/// The `u16` held by the two bytes of `s` starting at `pos`.
pub open spec fn u16_at(s: Seq<u8>, pos: int) -> u16 {
    spec_u16_from_le_bytes(s.subrange(pos, pos + 2))
}

/// The encoding of a list of `u16`s, two little-endian bytes each.
pub open spec fn encode_u16s(xs: Seq<u16>) -> Seq<u8>
    decreases xs.len(),
{
    if xs.len() == 0 {
        Seq::empty()
    } else {
        encode_u16s(xs.drop_last()) + le16(xs.last())
    }
}

/// Reads `n` little-endian `u16`s from the front of `s`.
pub open spec fn decode_u16s(s: Seq<u8>, n: nat) -> Seq<u16> {
    Seq::new(n, |i: int| u16_at(s, 2 * i))
}

/// The encoding of a block with the given data section and offsets.
pub open spec fn encode_block(data: Seq<u8>, offsets: Seq<u16>) -> Seq<u8> {
    data + encode_u16s(offsets) + le16(offsets.len() as u16)
}

/// The number of entries that an encoded block declares in its last two bytes.
pub open spec fn declared_count(s: Seq<u8>) -> nat {
    u16_at(s, s.len() - 2) as nat
}

/// Where the offset section of an encoded block begins.
pub open spec fn offsets_start(s: Seq<u8>) -> int {
    s.len() - 2 - 2 * declared_count(s)
}

/// An encoded block can be split into its sections.
pub open spec fn block_decodable(s: Seq<u8>) -> bool {
    s.len() >= 2 && offsets_start(s) >= 0
}

/// The data section of an encoded block.
pub open spec fn decoded_data(s: Seq<u8>) -> Seq<u8> {
    s.subrange(0, offsets_start(s))
}

/// The offsets of an encoded block.
pub open spec fn decoded_offsets(s: Seq<u8>) -> Seq<u16> {
    decode_u16s(s.subrange(offsets_start(s), s.len() - 2), declared_count(s))
}

/// The length and contents of `encode_u16s`.
pub proof fn lemma_encode_u16s(xs: Seq<u16>)
    ensures
        encode_u16s(xs).len() == 2 * xs.len(),
        forall|i: int|
            0 <= i < xs.len() ==> #[trigger] u16_at(encode_u16s(xs), 2 * i) == xs[i],
    decreases xs.len(),
{
    lemma_auto_spec_u16_to_from_le_bytes();
    if xs.len() > 0 {
        let ys = xs.drop_last();
        lemma_encode_u16s(ys);
        let e = encode_u16s(xs);
        assert forall|i: int| 0 <= i < xs.len() implies #[trigger] u16_at(e, 2 * i) == xs[i] by {
            if i < ys.len() {
                assert(e.subrange(2 * i, 2 * i + 2) =~= encode_u16s(ys).subrange(2 * i, 2 * i + 2));
                assert(u16_at(encode_u16s(ys), 2 * i) == ys[i]);
            } else {
                assert(e.subrange(2 * i, 2 * i + 2) =~= le16(xs.last()));
            }
        }
    }
}

/// Decoding an encoded block gives back its data and offsets.
pub proof fn lemma_decode_encode(data: Seq<u8>, offsets: Seq<u16>)
    requires
        offsets.len() <= u16::MAX,
    ensures
        block_decodable(encode_block(data, offsets)),
        decoded_data(encode_block(data, offsets)) == data,
        decoded_offsets(encode_block(data, offsets)) == offsets,
{
    lemma_auto_spec_u16_to_from_le_bytes();
    lemma_encode_u16s(offsets);
    let s = encode_block(data, offsets);
    let n = offsets.len();
    assert(s.subrange(s.len() - 2, s.len() as int) =~= le16(n as u16));
    assert(declared_count(s) == n);
    assert(decoded_data(s) =~= data);
    let sec = s.subrange(offsets_start(s), s.len() - 2);
    assert(sec =~= encode_u16s(offsets));
    assert(decoded_offsets(s) =~= offsets) by {
        assert forall|i: int| 0 <= i < n implies #[trigger] decoded_offsets(s)[i] == offsets[i] by {
            assert(u16_at(encode_u16s(offsets), 2 * i) == offsets[i]);
        }
    }
}

/// Encoding a decoded block gives back the original bytes.
pub proof fn lemma_encode_decode(s: Seq<u8>)
    requires
        block_decodable(s),
    ensures
        decoded_offsets(s).len() <= u16::MAX,
        encode_block(decoded_data(s), decoded_offsets(s)) == s,
{
    lemma_auto_spec_u16_to_from_le_bytes();
    let n = declared_count(s);
    let offs = decoded_offsets(s);
    let sec = s.subrange(offsets_start(s), s.len() - 2);
    lemma_encode_u16s(offs);
    assert(encode_u16s(offs) =~= sec) by {
        assert forall|j: int| 0 <= j < sec.len() implies #[trigger] encode_u16s(offs)[j] == sec[j] by {
            let i = j / 2;
            let pair = sec.subrange(2 * i, 2 * i + 2);
            assert(u16_at(encode_u16s(offs), 2 * i) == offs[i]);
            assert(le16(u16_at(sec, 2 * i)) == pair);
            assert(le16(u16_at(encode_u16s(offs), 2 * i)) == encode_u16s(offs).subrange(2 * i, 2 * i + 2));
            assert(encode_u16s(offs).subrange(2 * i, 2 * i + 2)[j - 2 * i] == encode_u16s(offs)[j]);
        }
    }
    let tail = s.subrange(s.len() - 2, s.len() as int);
    assert(le16(n as u16) == tail);
    assert(encode_block(decoded_data(s), offs) =~= s);
}


/// One encoded entry: key length, stored key, value length, value.
pub open spec fn encode_entry(stored_key: Seq<u8>, value: Seq<u8>) -> Seq<u8> {
    le16(stored_key.len() as u16) + stored_key + le16(value.len() as u16) + value
}

/// The data section of a block that holds `entries`, in order.
pub open spec fn encode_entries(entries: Seq<(Seq<u8>, Seq<u8>)>) -> Seq<u8>
    decreases entries.len(),
{
    if entries.len() == 0 {
        Seq::empty()
    } else {
        encode_entries(entries.drop_last()) + encode_entry(entries.last().0, entries.last().1)
    }
}

/// The offsets of a block that holds `entries`: where each entry begins, as a `u16`.
pub open spec fn entry_offsets(entries: Seq<(Seq<u8>, Seq<u8>)>) -> Seq<u16> {
    Seq::new(entries.len(), |i: int| encode_entries(entries.take(i)).len() as u16)
}

/// Every length that the format stores in a `u16` fits there.
pub open spec fn entries_fit(entries: Seq<(Seq<u8>, Seq<u8>)>) -> bool {
    forall|i: int|
        0 <= i < entries.len() ==> {
            &&& (#[trigger] entries[i]).0.len() <= u16::MAX
            &&& entries[i].1.len() <= u16::MAX
            &&& encode_entries(entries.take(i)).len() <= u16::MAX
        }
}

/// The entry that begins at `o` lies inside `data`.
pub open spec fn entry_in_bounds(data: Seq<u8>, o: int) -> bool {
    &&& 0 <= o
    &&& o + 2 <= data.len()
    &&& o + 4 + u16_at(data, o) <= data.len()
    &&& o + 4 + u16_at(data, o) + u16_at(data, o + 2 + u16_at(data, o)) <= data.len()
}

/// The key bytes stored in the entry that begins at `o`.
pub open spec fn raw_key_at(data: Seq<u8>, o: int) -> Seq<u8> {
    data.subrange(o + 2, o + 2 + u16_at(data, o))
}

/// Where the value of the entry that begins at `o` begins.
pub open spec fn value_start_at(data: Seq<u8>, o: int) -> int {
    o + 4 + u16_at(data, o)
}

/// Where the value of the entry that begins at `o` ends.
pub open spec fn value_end_at(data: Seq<u8>, o: int) -> int {
    value_start_at(data, o) + u16_at(data, o + 2 + u16_at(data, o))
}

/// The value of the entry that begins at `o`.
pub open spec fn value_at(data: Seq<u8>, o: int) -> Seq<u8> {
    data.subrange(value_start_at(data, o), value_end_at(data, o))
}

/// Every entry of the block can be read.
pub open spec fn block_wf(data: Seq<u8>, offsets: Seq<u16>) -> bool {
    forall|i: int|
        0 <= i < offsets.len() ==> entry_in_bounds(data, #[trigger] offsets[i] as int)
}

/// The key of entry `i` of the block.
pub open spec fn block_key(data: Seq<u8>, offsets: Seq<u16>, i: int) -> Seq<u8> {
    raw_key_at(data, offsets[i] as int)
}

/// The value of entry `i` of the block.
pub open spec fn block_value(data: Seq<u8>, offsets: Seq<u16>, i: int) -> Seq<u8> {
    value_at(data, offsets[i] as int)
}

/// Reading an entry back: its stored key and value come out as they went in.
proof fn lemma_entry_parse(d: Seq<u8>, o: int, stored: Seq<u8>, value: Seq<u8>)
    requires
        0 <= o,
        o + encode_entry(stored, value).len() <= d.len(),
        d.subrange(o, o + encode_entry(stored, value).len()) == encode_entry(stored, value),
        stored.len() <= u16::MAX,
        value.len() <= u16::MAX,
    ensures
        encode_entry(stored, value).len() == 4 + stored.len() + value.len(),
        entry_in_bounds(d, o),
        raw_key_at(d, o) == stored,
        value_at(d, o) == value,
        value_start_at(d, o) == o + 4 + stored.len(),
{
    lemma_auto_spec_u16_to_from_le_bytes();
    let e = encode_entry(stored, value);
    let kl = stored.len() as int;
    assert(d.subrange(o, o + 2) =~= e.subrange(0, 2));
    assert(e.subrange(0, 2) =~= le16(stored.len() as u16));
    assert(u16_at(d, o) == kl);
    assert(d.subrange(o + 2 + kl, o + 4 + kl) =~= e.subrange(2 + kl, 4 + kl));
    assert(e.subrange(2 + kl, 4 + kl) =~= le16(value.len() as u16));
    assert(u16_at(d, o + 2 + kl) == value.len());
    assert(raw_key_at(d, o) =~= e.subrange(2, 2 + kl));
    assert(e.subrange(2, 2 + kl) =~= stored);
    assert(value_at(d, o) =~= e.subrange(4 + kl, e.len() as int));
    assert(e.subrange(4 + kl, e.len() as int) =~= value);
}

/// The bytes of the first `k` entries begin the bytes of all of them.
proof fn lemma_encode_entries_prefix(entries: Seq<(Seq<u8>, Seq<u8>)>, k: int)
    requires
        0 <= k <= entries.len(),
    ensures
        encode_entries(entries.take(k)).len() <= encode_entries(entries).len(),
        encode_entries(entries).subrange(0, encode_entries(entries.take(k)).len() as int)
            == encode_entries(entries.take(k)),
    decreases entries.len(),
{
    if k == entries.len() {
        assert(entries.take(k) =~= entries);
        assert(encode_entries(entries).subrange(0, encode_entries(entries).len() as int)
            =~= encode_entries(entries));
    } else {
        let es = entries.drop_last();
        lemma_encode_entries_prefix(es, k);
        assert(es.take(k) =~= entries.take(k));
        assert(entries.drop_last() =~= es);
        assert(encode_entries(entries).subrange(0, encode_entries(es).len() as int)
            =~= encode_entries(es));
        assert(encode_entries(entries).subrange(0, encode_entries(es.take(k)).len() as int)
            =~= encode_entries(es).subrange(0, encode_entries(es.take(k)).len() as int));
    }
}

/// Entry `i` is encoded right after the first `i` entries.
proof fn lemma_encode_entries_step(entries: Seq<(Seq<u8>, Seq<u8>)>, i: int)
    requires
        0 <= i < entries.len(),
    ensures
        encode_entries(entries.take(i + 1)) == encode_entries(entries.take(i)) + encode_entry(
            entries[i].0,
            entries[i].1,
        ),
{
    let t = entries.take(i + 1);
    assert(t.drop_last() =~= entries.take(i));
}

#[verifier::rlimit(30)]
/// Entry `i` of a built block sits where its offset says and reads back as written.
proof fn lemma_built_entry(entries: Seq<(Seq<u8>, Seq<u8>)>, i: int)
    requires
        entries_fit(entries),
        0 <= i < entries.len(),
    ensures
        entry_in_bounds(encode_entries(entries), entry_offsets(entries)[i] as int),
        raw_key_at(encode_entries(entries), entry_offsets(entries)[i] as int) == entries[i].0,
        value_at(encode_entries(entries), entry_offsets(entries)[i] as int) == entries[i].1,
{
    let d = encode_entries(entries);
    let offs = entry_offsets(entries);
    let (key, value) = entries[i];
    assert(key.len() <= u16::MAX && value.len() <= u16::MAX);
    assert(encode_entries(entries.take(i)).len() <= u16::MAX);
    let o = encode_entries(entries.take(i)).len() as int;
    assert(offs[i] == o);
    lemma_encode_entries_step(entries, i);
    lemma_encode_entries_prefix(entries, i + 1);
    let e = encode_entry(entries[i].0, entries[i].1);
    let p = encode_entries(entries.take(i + 1));
    assert(d.subrange(o, o + e.len()) =~= p.subrange(o, o + e.len()));
    assert(p.subrange(o, o + e.len()) =~= e);
    lemma_entry_parse(d, o, entries[i].0, entries[i].1);
}

/// What a builder writes reads back entry by entry: the central law of the block format.
pub proof fn lemma_built_block(entries: Seq<(Seq<u8>, Seq<u8>)>)
    requires
        entries_fit(entries),
    ensures
        block_wf(encode_entries(entries), entry_offsets(entries)),
        entry_offsets(entries).len() == entries.len(),
        forall|i: int|
            0 <= i < entries.len() ==> block_key(encode_entries(entries), entry_offsets(entries), i)
                == (#[trigger] entries[i]).0 && block_value(
                encode_entries(entries),
                entry_offsets(entries),
                i,
            ) == entries[i].1,
{
    let d = encode_entries(entries);
    let offs = entry_offsets(entries);
    assert forall|i: int| 0 <= i < offs.len() implies entry_in_bounds(
        d,
        #[trigger] offs[i] as int,
    ) by {
        lemma_built_entry(entries, i);
    }
    assert forall|i: int| 0 <= i < entries.len() implies block_key(d, offs, i) == (
    #[trigger] entries[i]).0 && block_value(d, offs, i) == entries[i].1 by {
        lemma_built_entry(entries, i);
    }
}

/// A block is a collection of sorted key-value pairs.
pub struct Block {
    pub data: Vec<u8>,
    pub offsets: Vec<u16>,
}

impl Block {
    /// Number of entries in the block.
    pub open spec fn num_entries(&self) -> int {
        self.offsets@.len() as int
    }

    /// Every entry of the block can be read.
    pub open spec fn wf(&self) -> bool {
        block_wf(self.data@, self.offsets@)
    }

    /// The key of entry `i`.
    pub open spec fn entry_key(&self, i: int) -> Seq<u8> {
        block_key(self.data@, self.offsets@, i)
    }

    /// The value of entry `i`.
    pub open spec fn entry_value(&self, i: int) -> Seq<u8> {
        block_value(self.data@, self.offsets@, i)
    }

    /// Encodes the block as data section, offset section and entry count.
    pub fn encode(&self) -> (out: bytes::Bytes)
        ensures
            bytes_contents(out) == encode_block(self.data@, self.offsets@),
    {
        let mut buf = self.data.clone();
        let num_elements = self.offsets.len();
        let mut i: usize = 0;
        while i < num_elements
            invariant
                0 <= i <= num_elements == self.offsets@.len(),
                buf@ == self.data@ + encode_u16s(self.offsets@.take(i as int)),
            decreases num_elements - i,
        {
            let mut pair = u16_to_le_bytes(self.offsets[i]);
            buf.append(&mut pair);
            proof {
                assert(self.offsets@.take(i + 1).drop_last() =~= self.offsets@.take(i as int));
            }
            i = i + 1;
        }
        let mut count = u16_to_le_bytes(num_elements as u16);
        buf.append(&mut count);
        proof {
            assert(self.offsets@.take(num_elements as int) =~= self.offsets@);
        }
        bytes_from_vec(buf)
    }

    /// Whether `data` can be split into a block's sections.
    pub fn is_decodable(data: &[u8]) -> (ok: bool)
        ensures
            ok == block_decodable(data@),
    {
        let len = data.len();
        if len < SIZEOF_U16 {
            return false;
        }
        let num_elements = u16_from_le_bytes(slice_subrange(data, len - 2, len)) as usize;
        len - SIZEOF_U16 >= num_elements * SIZEOF_U16
    }

    /// Whether every entry of the block can be read.
    pub fn is_well_formed(&self) -> (ok: bool)
        ensures
            ok == self.wf(),
    {
        let n = self.offsets.len();
        let data = self.data.as_slice();
        let len = data.len();
        let mut i: usize = 0;
        while i < n
            invariant
                0 <= i <= n == self.offsets@.len(),
                data@ == self.data@,
                len == data@.len(),
                forall|j: int|
                    0 <= j < i ==> entry_in_bounds(self.data@, #[trigger] self.offsets@[j] as int),
            decreases n - i,
        {
            let o = self.offsets[i] as usize;
            if o > len || len - o < 2 {
                return false;
            }
            let key_len = u16_from_le_bytes(slice_subrange(data, o, o + 2)) as usize;
            if len - o - 2 < key_len + 2 {
                return false;
            }
            let end = o + 2 + key_len;
            let value_len = u16_from_le_bytes(slice_subrange(data, end, end + 2)) as usize;
            if len - end - 2 < value_len {
                return false;
            }
            i = i + 1;
        }
        true
    }

    /// Decodes a block from its encoding.
    pub fn decode(data: &[u8]) -> (out: Self)
        requires
            block_decodable(data@),
        ensures
            out.data@ == decoded_data(data@),
            out.offsets@ == decoded_offsets(data@),
    {
        let len = data.len();
        let start = len - SIZEOF_U16;
        let num_elements = u16_from_le_bytes(slice_subrange(data, start, len));
        let offset_size = num_elements as usize * SIZEOF_U16;
        let off_start = start - offset_size;
        let section = slice_subrange(data, off_start, start);
        let mut offsets: Vec<u16> = Vec::new();
        let mut i: usize = 0;
        while i < num_elements as usize
            invariant
                0 <= i <= num_elements,
                num_elements == declared_count(data@),
                off_start == offsets_start(data@),
                section@ == data@.subrange(off_start as int, len - 2),
                section@.len() == 2 * num_elements,
                offsets@ == decode_u16s(section@, num_elements as nat).take(i as int),
            decreases num_elements - i,
        {
            let off = u16_from_le_bytes(slice_subrange(section, 2 * i, 2 * i + 2));
            offsets.push(off);
            proof {
                assert(offsets@ =~= decode_u16s(section@, num_elements as nat).take(i + 1));
            }
            i = i + 1;
        }
        proof {
            assert(offsets@ =~= decoded_offsets(data@));
        }
        Block { data: slice_to_vec(slice_subrange(data, 0, off_start)), offsets }
    }
}

} // verus!
