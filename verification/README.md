# mini-lsm-starter (verified)

The on-disk formats of a small LSM storage engine, written in Verus and proved against
their specifications.

- `src/key.rs`: keys as byte strings in lexicographic order.
- `src/block.rs`, `src/block/`: the block format, the block builder and the block
  iterator. The central law: what a builder writes reads back, entry by entry
  (`lemma_built_block`), and an iterator over a built block yields its pairs in order
  (`lemma_built_block_iterates`); encoding and decoding a block are inverse
  (`lemma_decode_encode`, `lemma_encode_decode`); a builder's block stays within its
  target size unless it holds a single entry (`BlockBuilder::lemma_within_target`).
- `src/table.rs`, `src/table/`: block metadata, the SST file layout, opening a table from
  the bytes of its file, and the table builder. Laws: metadata round-trips
  (`lemma_decode_encode_metas`), opening a built table gives back its metadata and bloom
  filter (`lemma_open_built_sst`), each block of a built table reads back its pairs
  (`lemma_sst_read_back`), and iterating its blocks one after another gives back every pair
  added (`lemma_sst_iterates`).
- `src/iterators.rs`, `src/iterators/`: the `StorageIterator` trait and the merge of several
  iterators, in whatever key order they come, specified by `merged`: the smallest head
  first, from the earliest iterator that holds it. Every key of every input comes out
  (`lemma_merged_covers`); where the inputs are sorted, each key comes out once, in order
  (`lemma_merged_increasing`), with the pair of the earliest input that has it
  (`lemma_merged_prefers_earliest`).
- `src/outside.rs`: the trusted calls into `bytes`, `farmhash` and `anyhow`.
- `app/`: file I/O around the library (reading and writing SST files, a block cache).
