use mini_lsm_starter::block::{Block, BlockBuilder, BlockIterator};
use std::sync::Arc;

fn two_entry_block() -> Block {
    let mut builder = BlockBuilder::new(100);
    assert!(builder.add(b"ab", b"1"));
    assert!(builder.add(b"ac", b"22"));
    builder.build()
}

#[test]
fn builder_starts_empty() {
    let builder = BlockBuilder::new(4096);
    assert!(builder.is_empty());
}

#[test]
fn builder_not_empty_after_add() {
    let mut builder = BlockBuilder::new(4096);
    assert!(builder.add(b"k", b"v"));
    assert!(!builder.is_empty());
}

#[test]
fn builder_layout() {
    let block = two_entry_block();
    // each entry: key_len, key, value_len, value
    assert_eq!(
        block.data,
        vec![2, 0, b'a', b'b', 1, 0, b'1', 2, 0, b'a', b'c', 2, 0, b'2', b'2']
    );
    assert_eq!(block.offsets, vec![0, 7]);
}

#[test]
fn builder_rejects_entry_past_block_size() {
    // with the second entry the block would encode to 21 bytes
    let mut builder = BlockBuilder::new(20);
    assert!(builder.add(b"ab", b"1"));
    assert!(!builder.add(b"ac", b"22"));
    let block = builder.build();
    assert_eq!(block.offsets, vec![0]);
    assert_eq!(block.data, vec![2, 0, b'a', b'b', 1, 0, b'1']);
}

#[test]
fn builder_accepts_entry_at_block_size() {
    let mut builder = BlockBuilder::new(21);
    assert!(builder.add(b"ab", b"1"));
    assert!(builder.add(b"ac", b"22"));
}

#[test]
fn builder_first_entry_always_fits() {
    let mut builder = BlockBuilder::new(1);
    assert!(builder.add(b"a-long-key", b"a-long-value"));
    assert!(!builder.add(b"b", b"v"));
}

#[test]
fn block_encode_layout() {
    let block = two_entry_block();
    let encoded = block.encode();
    let mut expected = block.data.clone();
    expected.extend_from_slice(&[0, 0, 7, 0, 2, 0]);
    assert_eq!(encoded.to_vec(), expected);
}

#[test]
fn block_decode_roundtrip() {
    let block = two_entry_block();
    let encoded = block.encode();
    assert!(Block::is_decodable(&encoded));
    let decoded = Block::decode(&encoded);
    assert_eq!(decoded.data, block.data);
    assert_eq!(decoded.offsets, block.offsets);
}

#[test]
fn block_decode_empty_block() {
    let decoded = Block::decode(&[0, 0]);
    assert!(decoded.data.is_empty());
    assert!(decoded.offsets.is_empty());
}

#[test]
fn block_decode_rejects_short_input() {
    assert!(!Block::is_decodable(&[1]));
    assert!(!Block::is_decodable(&[5, 0]));
    assert!(Block::is_decodable(&[9, 9, 0, 0]));
}

#[test]
fn block_well_formed() {
    assert!(two_entry_block().is_well_formed());
    let broken = Block { data: vec![9, 0, 1], offsets: vec![0] };
    assert!(!broken.is_well_formed());
}

#[test]
fn iterator_reads_entries_in_order() {
    let mut it = BlockIterator::create_and_seek_to_first(Arc::new(two_entry_block()));
    assert!(it.is_valid());
    assert_eq!(it.key(), b"ab");
    assert_eq!(it.value(), b"1");
    it.next();
    assert!(it.is_valid());
    assert_eq!(it.key(), b"ac");
    assert_eq!(it.value(), b"22");
    it.next();
    assert!(!it.is_valid());
}

#[test]
fn iterator_seek_to_key() {
    let block = Arc::new(two_entry_block());
    let it = BlockIterator::create_and_seek_to_key(block.clone(), b"ab5");
    assert!(it.is_valid());
    assert_eq!(it.key(), b"ac");
    assert_eq!(it.value(), b"22");
    let it = BlockIterator::create_and_seek_to_key(block.clone(), b"ab");
    assert_eq!(it.key(), b"ab");
    let it = BlockIterator::create_and_seek_to_key(block.clone(), b"a");
    assert_eq!(it.key(), b"ab");
}

#[test]
fn iterator_seek_past_last_key_is_invalid() {
    let it = BlockIterator::create_and_seek_to_key(Arc::new(two_entry_block()), b"b");
    assert!(!it.is_valid());
}

#[test]
fn iterator_seek_to_first_after_seek() {
    let mut it = BlockIterator::create_and_seek_to_key(Arc::new(two_entry_block()), b"ac");
    assert_eq!(it.key(), b"ac");
    it.seek_to_first();
    assert_eq!(it.key(), b"ab");
    assert_eq!(it.value(), b"1");
}

#[test]
fn iterator_on_empty_block_seek_is_invalid() {
    let empty = BlockBuilder::new(64).build();
    let it = BlockIterator::create_and_seek_to_key(Arc::new(empty), b"a");
    assert!(!it.is_valid());
}

#[test]
fn built_block_reads_back_after_encode_and_decode() {
    let keys: Vec<Vec<u8>> = (0..50u32).map(|i| format!("key_{:03}", i).into_bytes()).collect();
    let mut builder = BlockBuilder::new(10_000);
    for (i, k) in keys.iter().enumerate() {
        assert!(builder.add(k, format!("value_{}", i).as_bytes()));
    }
    let block = Block::decode(&builder.build().encode());
    assert!(block.is_well_formed());
    let mut it = BlockIterator::create_and_seek_to_first(Arc::new(block));
    for (i, k) in keys.iter().enumerate() {
        assert!(it.is_valid());
        assert_eq!(it.key(), k.as_slice());
        assert_eq!(it.value(), format!("value_{}", i).as_bytes());
        it.next();
    }
    assert!(!it.is_valid());
}

#[test]
fn block_may_hold_duplicate_keys() {
    let mut builder = BlockBuilder::new(100);
    assert!(builder.add(b"k", b"1"));
    assert!(builder.add(b"k", b"2"));
    let mut it = BlockIterator::create_and_seek_to_first(Arc::new(builder.build()));
    assert_eq!(it.value(), b"1");
    it.next();
    assert_eq!(it.key(), b"k");
    assert_eq!(it.value(), b"2");
}

#[test]
fn builder_accepts_pair_that_exactly_fills_block() {
    // two entries of 6 bytes, two offsets, the count: 18 bytes
    let mut builder = BlockBuilder::new(18);
    assert!(builder.add(b"a", b"b"));
    assert!(builder.add(b"c", b"d"));
    assert_eq!(builder.build().encode().len(), 18);
    let mut builder = BlockBuilder::new(17);
    assert!(builder.add(b"a", b"b"));
    assert!(!builder.add(b"c", b"d"));
}

fn three_entry_block() -> Block {
    Block {
        data: vec![1, 0, 97, 1, 0, 49, 1, 0, 98, 1, 0, 50, 1, 0, 99, 1, 0, 51],
        offsets: vec![0, 6, 12],
    }
}

#[test]
fn iterator_reads_keys_as_stored() {
    let block = Arc::new(three_entry_block());
    assert!(block.is_well_formed());
    let mut it = BlockIterator::create_and_seek_to_first(block.clone());
    assert_eq!((it.key(), it.value()), (&b"a"[..], &b"1"[..]));
    it.next();
    assert_eq!((it.key(), it.value()), (&b"b"[..], &b"2"[..]));
    it.next();
    assert_eq!((it.key(), it.value()), (&b"c"[..], &b"3"[..]));
    it.next();
    assert!(!it.is_valid());
    let it = BlockIterator::create_and_seek_to_key(block.clone(), b"bb");
    assert_eq!((it.key(), it.value()), (&b"c"[..], &b"3"[..]));
    let mut it = BlockIterator::create_and_seek_to_key(block.clone(), b"b");
    assert_eq!(it.key(), b"b");
    it.next();
    assert_eq!(it.key(), b"c");
}

#[test]
fn iterator_seek_compares_stored_keys() {
    let mut builder = BlockBuilder::new(100);
    assert!(builder.add(&[0], b"x"));
    assert!(builder.add(&[0, 0, 1, 0, 120], b"y"));
    let block = Arc::new(builder.build());
    let mut it = BlockIterator::create_and_seek_to_first(block.clone());
    it.next();
    assert_eq!(it.key(), &[0, 0, 1, 0, 120]);
    let it = BlockIterator::create_and_seek_to_key(block, &[0, 0, 5]);
    assert!(!it.is_valid());
}

#[test]
fn builder_block_stays_within_target_size() {
    let mut builder = BlockBuilder::new(64);
    let mut added = 0;
    while builder.add(format!("key_{:03}", added).as_bytes(), b"value") {
        added += 1;
    }
    assert!(added > 1);
    assert!(builder.build().encode().len() <= 64);
    let mut single = BlockBuilder::new(8);
    assert!(single.add(b"a_long_key", b"a_long_value"));
    assert!(!single.add(b"b", b"c"));
    assert!(single.build().encode().len() > 8);
}
