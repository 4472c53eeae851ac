use mini_lsm_starter::block::{Block, BlockIterator};
use mini_lsm_starter::table::{BlockMeta, SsTable, SsTableBuilder};
use std::sync::Arc;

fn meta(offset: usize, first: &[u8], last: &[u8]) -> BlockMeta {
    BlockMeta { offset, first_key: first.to_vec(), last_key: last.to_vec() }
}

#[test]
fn block_meta_encoding_layout() {
    let mut buf = vec![7u8];
    BlockMeta::encode_block_meta(&[meta(5, b"a", b"bc")], &mut buf);
    let mut expected = vec![7u8];
    expected.extend_from_slice(&5u64.to_le_bytes());
    expected.extend_from_slice(&1u64.to_le_bytes());
    expected.extend_from_slice(b"a");
    expected.extend_from_slice(&2u64.to_le_bytes());
    expected.extend_from_slice(b"bc");
    assert_eq!(buf, expected);
}

#[test]
fn block_meta_roundtrip() {
    let metas = vec![meta(0, b"a", b"c"), meta(100, b"d", b"zz"), meta(250, b"", b"")];
    let mut buf = Vec::new();
    BlockMeta::encode_block_meta(&metas, &mut buf);
    assert!(BlockMeta::is_decodable(&buf));
    assert_eq!(BlockMeta::decode_block_meta(&buf), metas);
}

#[test]
fn block_meta_decode_empty() {
    assert!(BlockMeta::is_decodable(&[]));
    assert!(BlockMeta::decode_block_meta(&[]).is_empty());
}

#[test]
fn block_meta_truncated_is_not_decodable() {
    let mut buf = Vec::new();
    BlockMeta::encode_block_meta(&[meta(1, b"abc", b"def")], &mut buf);
    buf.pop();
    assert!(!BlockMeta::is_decodable(&buf));
    assert!(!BlockMeta::is_decodable(&[1, 2, 3]));
}

#[test]
fn farmhash_overflowing_keys_are_detected() {
    assert!(SsTableBuilder::key_hashable(b"hello world"));
    assert!(SsTableBuilder::key_hashable(b"abcd"));
    assert!(SsTableBuilder::key_hashable(&[255; 30]));
    assert!(!SsTableBuilder::key_hashable(&[255, 255, 255, 255, 0]));
    assert!(SsTableBuilder::key_hashable(&[0, 0, 0, 0, 0]));
}

#[test]
fn sst_builder_hashes_keys_with_farmhash() {
    let mut builder = SsTableBuilder::new(4096);
    builder.add(b"hello world", b"v");
    assert_eq!(builder.key_hashes(), &vec![430397466u32]);
}

#[test]
fn sst_builder_splits_blocks() {
    let mut builder = SsTableBuilder::new(32);
    assert_eq!(builder.estimated_size(), 0);
    builder.add(b"key1", b"value1");
    assert_eq!(builder.estimated_size(), 0);
    // with the second pair the block would encode to 34 bytes: the first block is
    // finished (14 bytes of entry, 2 of offset, 2 of count) and the pair starts a new one
    builder.add(b"key2", b"value2");
    assert_eq!(builder.estimated_size(), 18);
}

fn build_table(n: usize, block_size: usize) -> (Vec<u8>, SsTable) {
    let mut builder = SsTableBuilder::new(block_size);
    for i in 0..n {
        builder.add(format!("key_{:03}", i).as_bytes(), format!("value_{:03}", i).as_bytes());
    }
    builder.build(7, b"BLOOM".to_vec())
}

#[test]
fn sst_build_and_open() {
    let (file, table) = build_table(20, 64);
    assert!(table.num_of_blocks() > 1);
    assert_eq!(table.first_key(), &b"key_000".to_vec());
    assert_eq!(table.last_key(), &b"key_019".to_vec());
    assert_eq!(table.sst_id(), 7);
    assert_eq!(table.max_ts(), 0);
    assert_eq!(table.table_size(), file.len() as u64);
    assert_eq!(&file[file.len() - 9..file.len() - 4], b"BLOOM");

    assert!(SsTable::is_openable(&file));
    let opened = SsTable::open(3, &file);
    assert_eq!(opened.num_of_blocks(), table.num_of_blocks());
    assert_eq!(opened.first_key(), table.first_key());
    assert_eq!(opened.last_key(), table.last_key());
    assert_eq!(opened.sst_id(), 3);
    assert_eq!(opened.table_size(), file.len() as u64);
}

#[test]
fn sst_blocks_decode_from_file() {
    let (file, table) = build_table(20, 64);
    let mut seen = 0;
    for idx in 0..table.num_of_blocks() {
        let (offset, len) = table.block_bounds(idx);
        let bytes = &file[offset as usize..(offset + len) as usize];
        assert!(Block::is_decodable(bytes));
        let block = Block::decode(bytes);
        assert!(block.is_well_formed());
        let mut it = BlockIterator::create_and_seek_to_first(Arc::new(block));
        while it.is_valid() {
            assert_eq!(it.key(), format!("key_{:03}", seen).as_bytes());
            assert_eq!(it.value(), format!("value_{:03}", seen).as_bytes());
            seen += 1;
            it.next();
        }
    }
    assert_eq!(seen, 20);
}

#[test]
fn sst_find_block_idx() {
    let (_, table) = build_table(20, 64);
    let n = table.num_of_blocks();
    assert_eq!(table.find_block_idx(b"key_000"), 0);
    assert_eq!(table.find_block_idx(b"a"), 0);
    assert_eq!(table.find_block_idx(b"zzz"), n - 1);
    assert_eq!(table.find_block_idx(b"key_019"), n - 1);
    let idx = table.find_block_idx(b"key_010");
    let (offset, _) = table.block_bounds(idx);
    assert!(offset > 0);
}

#[test]
fn sst_not_openable_garbage() {
    assert!(!SsTable::is_openable(&[]));
    assert!(!SsTable::is_openable(&[1, 2, 3]));
    assert!(!SsTable::is_openable(&[0, 0, 0, 0]));
    assert!(!SsTable::is_openable(&[0, 0, 0, 0, 200, 0, 0, 0]));
}

#[test]
fn sst_open_minimal_file() {
    // no blocks, no metadata, empty bloom filter
    let file = [0u8, 0, 0, 0, 4, 0, 0, 0];
    assert!(SsTable::is_openable(&file));
    let t = SsTable::open(1, &file);
    assert_eq!(t.num_of_blocks(), 0);
    assert!(t.first_key().is_empty());
    assert!(t.last_key().is_empty());
}

#[test]
fn sst_meta_only() {
    let t = SsTable::create_meta_only(9, 1234, b"a".to_vec(), b"z".to_vec());
    assert_eq!(t.sst_id(), 9);
    assert_eq!(t.table_size(), 1234);
    assert_eq!(t.first_key(), &b"a".to_vec());
    assert_eq!(t.last_key(), &b"z".to_vec());
    assert_eq!(t.num_of_blocks(), 0);
}
