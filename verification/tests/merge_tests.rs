use mini_lsm_starter::block::{BlockBuilder, BlockIterator};
use mini_lsm_starter::iterators::merge_iterator::MergeIterator;
use mini_lsm_starter::iterators::StorageIterator;
use std::sync::Arc;

fn block_iter(items: &[(&str, &str)]) -> Box<BlockIterator> {
    let mut builder = BlockBuilder::new(1 << 16);
    for (k, v) in items {
        assert!(builder.add(k.as_bytes(), v.as_bytes()));
    }
    Box::new(BlockIterator::create_and_seek_to_key(Arc::new(builder.build()), b""))
}

fn collect(mut it: MergeIterator<BlockIterator>) -> Vec<(String, String)> {
    let mut out = Vec::new();
    while StorageIterator::is_valid(&it) {
        out.push((
            String::from_utf8(StorageIterator::key(&it).to_vec()).unwrap(),
            String::from_utf8(StorageIterator::value(&it).to_vec()).unwrap(),
        ));
        StorageIterator::next(&mut it).unwrap();
    }
    out
}

fn pairs(items: &[(&str, &str)]) -> Vec<(String, String)> {
    items.iter().map(|(k, v)| (k.to_string(), v.to_string())).collect()
}

#[test]
fn merge_prefers_earlier_iterator() {
    let it = MergeIterator::create(vec![
        block_iter(&[("a", "1.1"), ("c", "1.3")]),
        block_iter(&[("a", "2.1"), ("b", "2.2"), ("c", "2.3")]),
        block_iter(&[("b", "3.2"), ("d", "3.4")]),
    ]);
    assert_eq!(collect(it), pairs(&[("a", "1.1"), ("b", "2.2"), ("c", "1.3"), ("d", "3.4")]));
}

#[test]
fn merge_skips_empty_iterators() {
    let it = MergeIterator::create(vec![block_iter(&[]), block_iter(&[("x", "1")]), block_iter(&[])]);
    assert_eq!(collect(it), pairs(&[("x", "1")]));
}

#[test]
fn merge_of_nothing_is_invalid() {
    let it: MergeIterator<BlockIterator> = MergeIterator::create(vec![]);
    assert!(!StorageIterator::is_valid(&it));
    let it = MergeIterator::create(vec![block_iter(&[])]);
    assert!(!StorageIterator::is_valid(&it));
}

#[test]
fn merge_interleaves_disjoint_iterators() {
    let it = MergeIterator::create(vec![
        block_iter(&[("b", "1"), ("d", "1"), ("f", "1")]),
        block_iter(&[("a", "2"), ("c", "2"), ("e", "2")]),
    ]);
    assert_eq!(
        collect(it),
        pairs(&[("a", "2"), ("b", "1"), ("c", "2"), ("d", "1"), ("e", "2"), ("f", "1")])
    );
}

#[test]
fn merge_yields_each_key_once() {
    let it = MergeIterator::create(vec![
        block_iter(&[("a", "1"), ("b", "1"), ("c", "1")]),
        block_iter(&[("a", "2"), ("b", "2"), ("c", "2")]),
        block_iter(&[("a", "3"), ("b", "3"), ("c", "3")]),
    ]);
    assert_eq!(collect(it), pairs(&[("a", "1"), ("b", "1"), ("c", "1")]));
}

#[test]
fn merge_later_iterator_takes_over_when_first_runs_out() {
    let it = MergeIterator::create(vec![
        block_iter(&[("a", "1")]),
        block_iter(&[("a", "2"), ("z", "2")]),
    ]);
    assert_eq!(collect(it), pairs(&[("a", "1"), ("z", "2")]));
}

#[test]
fn block_iterator_as_storage_iterator() {
    let mut it = block_iter(&[("k1", "v1"), ("k2", "v2")]);
    assert!(StorageIterator::is_valid(it.as_ref()));
    assert_eq!(StorageIterator::key(it.as_ref()), b"k1");
    assert!(StorageIterator::next(it.as_mut()).is_ok());
    assert_eq!(StorageIterator::value(it.as_ref()), b"v2");
    assert!(StorageIterator::next(it.as_mut()).is_ok());
    assert!(!StorageIterator::is_valid(it.as_ref()));
}

#[test]
fn merge_takes_inputs_in_any_key_order() {
    let it = MergeIterator::create(vec![
        block_iter(&[("b", "1"), ("a", "2")]),
        block_iter(&[("a", "3")]),
    ]);
    assert_eq!(collect(it), pairs(&[("a", "3"), ("b", "1"), ("a", "2")]));
}
