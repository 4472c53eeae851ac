use mini_lsm_starter::key::{common_prefix, compare_keys, KeyOrder};

#[test]
fn keys_compare_lexicographically() {
    assert_eq!(compare_keys(b"a", b"b"), KeyOrder::Less);
    assert_eq!(compare_keys(b"a", b"ab"), KeyOrder::Less);
    assert_eq!(compare_keys(b"ab", b"a"), KeyOrder::Greater);
    assert_eq!(compare_keys(b"abc", b"abc"), KeyOrder::Equal);
    assert_eq!(compare_keys(b"", b""), KeyOrder::Equal);
    assert_eq!(compare_keys(b"", b"x"), KeyOrder::Less);
    assert_eq!(compare_keys(&[0xff], &[0x00, 0x01]), KeyOrder::Greater);
}

#[test]
fn common_prefix_lengths() {
    assert_eq!(common_prefix(b"abcd", b"abxy"), 2);
    assert_eq!(common_prefix(b"abc", b"abc"), 3);
    assert_eq!(common_prefix(b"abc", b"ab"), 2);
    assert_eq!(common_prefix(b"x", b"y"), 0);
    assert_eq!(common_prefix(b"", b"y"), 0);
}
